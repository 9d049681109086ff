//! Laws the library is held to, stated over the model: where every parsed
//! segment comes from, when the two lookup strategies agree with a linear
//! scan, and what compactness of the identifier set means.

use vstd::prelude::*;
use vstd::set_lib::set_int_range;
use vstd::set_lib::lemma_int_range;
use crate::model::{IdView, SegView, GfaView, GfaError, Version, id_le, segs_sorted,
    find_seg, lemma_find_seg, spec_compact, spec_read_line, spec_parse_lines, spec_segment, is_tag};
use crate::ParseMode;

verus! {

// ------------------------------------------------------------------
// Compactness: positional check against the set formulation.
// ------------------------------------------------------------------

/// Integers in non-decreasing order.
pub open spec fn sorted_int(vals: Seq<int>) -> bool {
    forall|i: int, j: int| 0 <= i < j < vals.len() ==> #[trigger] vals[i] <= #[trigger] vals[j]
}

/// In a strictly increasing run starting at one or more, position `k` holds at
/// least `k + 1`.
proof fn lemma_strict_low(vals: Seq<int>, k: int)
    requires
        forall|i: int, j: int| 0 <= i < j < vals.len() ==> #[trigger] vals[i] < #[trigger] vals[j],
        vals.len() > 0,
        vals[0] >= 1,
        0 <= k < vals.len(),
    ensures
        vals[k] >= k + 1,
    decreases k,
{
    if k > 0 {
        lemma_strict_low(vals, k - 1);
    }
}

/// In a strictly increasing run ending at most at its length, position `k`
/// holds at most `k + 1`.
proof fn lemma_strict_high(vals: Seq<int>, k: int)
    requires
        forall|i: int, j: int| 0 <= i < j < vals.len() ==> #[trigger] vals[i] < #[trigger] vals[j],
        vals.len() > 0,
        vals[vals.len() - 1] <= vals.len(),
        0 <= k < vals.len(),
    ensures
        vals[k] <= k + 1,
    decreases vals.len() - k,
{
    if k < vals.len() - 1 {
        lemma_strict_high(vals, k + 1);
    }
}

/// A sequence with a repeated value covers strictly fewer than `len` distinct
/// values.
proof fn lemma_dup_smaller_set(vals: Seq<int>, i: int, j: int)
    requires
        0 <= i < j < vals.len(),
        vals[i] == vals[j],
    ensures
        vals.to_set().len() < vals.len(),
{
    let s2 = vals.remove(j);
    assert forall|a: int| vals.to_set().contains(a) implies s2.to_set().contains(a) by {
        let k = choose|k: int| 0 <= k < vals.len() && vals[k] == a;
        if k == j {
            assert(s2[i] == vals[i]);
            assert(s2.contains(a));
        } else if k < j {
            assert(s2[k] == vals[k]);
            assert(s2.contains(a));
        } else {
            assert(s2[k - 1] == vals[k]);
            assert(s2.contains(a));
        }
    }
    assert forall|a: int| s2.to_set().contains(a) implies vals.to_set().contains(a) by {
        let k = choose|k: int| 0 <= k < s2.len() && s2[k] == a;
        if k < j {
            assert(vals[k] == s2[k]);
        } else {
            assert(vals[k + 1] == s2[k]);
        }
        assert(vals.contains(a));
    }
    assert(s2.to_set() =~= vals.to_set());
    s2.lemma_cardinality_of_set();
}

/// For a sorted integer sequence, holding exactly `k + 1` at every position
/// `k` is the same as covering exactly the set `{1, ..., n}`.
pub proof fn lemma_sorted_one_to_n(vals: Seq<int>)
    requires
        sorted_int(vals),
        vals.len() > 0,
    ensures
        (forall|k: int| 0 <= k < vals.len() ==> #[trigger] vals[k] == k + 1) <==> (vals.to_set()
            == set_int_range(1, vals.len() as int + 1)),
{
    let n = vals.len() as int;
    if forall|k: int| 0 <= k < vals.len() ==> #[trigger] vals[k] == k + 1 {
        assert forall|a: int| vals.to_set().contains(a) implies set_int_range(1, n + 1).contains(
            a,
        ) by {
            let k = choose|k: int| 0 <= k < vals.len() && vals[k] == a;
        }
        assert forall|a: int| set_int_range(1, n + 1).contains(a) implies vals.to_set().contains(
            a,
        ) by {
            assert(vals[a - 1] == a);
            assert(vals.contains(a));
        }
        assert(vals.to_set() =~= set_int_range(1, n + 1));
    }
    if vals.to_set() == set_int_range(1, n + 1) {
        lemma_int_range(1, n + 1);
        assert(vals.to_set().len() == n);
        // no value repeats: a repeat would shrink the set below n
        assert forall|i: int, j: int| 0 <= i < j < vals.len() implies #[trigger] vals[i]
            < #[trigger] vals[j] by {
            if vals[i] == vals[j] {
                lemma_dup_smaller_set(vals, i, j);
            }
        }
        // every value lies in the range
        assert(vals[0] >= 1) by {
            assert(vals.contains(vals[0]));
            assert(vals.to_set().contains(vals[0]));
        }
        assert(vals[n - 1] <= n) by {
            assert(vals.contains(vals[n - 1]));
            assert(vals.to_set().contains(vals[n - 1]));
        }
        assert forall|k: int| 0 <= k < vals.len() implies #[trigger] vals[k] == k + 1 by {
            lemma_strict_low(vals, k);
            lemma_strict_high(vals, k);
        }
    }
}

/// The identifier values of a run of numeric segments.
pub open spec fn seg_id_vals(segs: Seq<SegView>) -> Seq<int> {
    Seq::new(segs.len(), |i: int| seg_num(segs[i].id))
}

/// The numeric value of an identifier; text identifiers have none.
pub open spec fn seg_num(id: IdView) -> int {
    match id {
        IdView::Num(v) => v as int,
        IdView::Text(_) => -1,
    }
}

/// Compactness law: for a sorted graph with numeric identifiers, the
/// positional predicate (segment `k` carries exactly `k + 1`) holds exactly
/// when the identifier set is `{1, ..., n}`.
pub proof fn lemma_compact_iff_set(segs: Seq<SegView>)
    requires
        segs_sorted(segs),
        segs.len() > 0,
        segs.len() <= usize::MAX,
        forall|i: int| 0 <= i < segs.len() ==> (#[trigger] segs[i]).id is Num,
    ensures
        spec_compact(segs) <==> (seg_id_vals(segs).to_set() == set_int_range(1, segs.len() as int + 1)),
{
    let vals = seg_id_vals(segs);
    assert(sorted_int(vals)) by {
        assert forall|i: int, j: int| 0 <= i < j < vals.len() implies #[trigger] vals[i]
            <= #[trigger] vals[j] by {
            assert(id_le(segs[i].id, segs[j].id));
        }
    }
    lemma_sorted_one_to_n(vals);
    assert(spec_compact(segs) <==> (forall|k: int|
        0 <= k < vals.len() ==> #[trigger] vals[k] == k + 1)) by {
        if forall|k: int| 0 <= k < vals.len() ==> #[trigger] vals[k] == k + 1 {
            assert forall|k: int| 0 <= k < segs.len() implies (#[trigger] segs[k]).id
                == IdView::Num((k + 1) as usize) by {
                assert(vals[k] == k + 1);
                assert(segs[k].id is Num);
            }
        }
        if spec_compact(segs) {
            assert forall|k: int| 0 <= k < vals.len() implies #[trigger] vals[k] == k + 1 by {
                assert(segs[k].id == IdView::Num((k + 1) as usize));
            }
        }
    }
}

// ------------------------------------------------------------------
// Round-trip: every parsed segment comes from a segment line.
// ------------------------------------------------------------------

/// The given line is a segment record that decodes to exactly this segment:
/// its identifier field names `s.id` and its sequence field is `s.sequence`.
pub open spec fn line_yields_segment(
    line: Seq<u8>,
    version: Version,
    mode: ParseMode,
    s: SegView,
) -> bool {
    let f = crate::bytes::spec_fields(line);
    &&& f.len() >= 1
    &&& crate::model::is_tag(f[0], 83)
    &&& spec_segment(f, version, mode) == Ok::<SegView, GfaError>(s)
}

/// Round-trip identity at the model level: every segment of a parsed graph is
/// the decoding of some segment line of the source, so the sequence text the
/// graph resolves for it is exactly the text on that line.
pub proof fn lemma_segment_from_source(
    g: GfaView,
    lines: Seq<Seq<u8>>,
    version: Version,
    m: GfaView,
    i: int,
)
    requires
        spec_parse_lines(g, lines, version) == Ok::<GfaView, GfaError>(m),
        0 <= i < m.segments.len(),
    ensures
        i < g.segments.len() ==> m.segments[i] == g.segments[i],
        i >= g.segments.len() ==> exists|j: int|
            0 <= j < lines.len() && line_yields_segment(
                #[trigger] lines[j],
                version,
                g.mode,
                m.segments[i],
            ),
    decreases lines.len(),
{
    if lines.len() > 0 {
        match spec_read_line(g, lines[0], version) {
            Ok(g2) => {
                assert(g2.mode == g.mode);
                lemma_segment_from_source(g2, lines.skip(1), version, m, i);
                if i < g2.segments.len() {
                    if i < g.segments.len() {
                    } else {
                        // the one new segment was decoded from this very line
                        assert(line_yields_segment(lines[0], version, g.mode, m.segments[i]));
                    }
                } else {
                    let j = choose|j: int|
                        0 <= j < lines.skip(1).len() && line_yields_segment(
                            #[trigger] lines.skip(1)[j],
                            version,
                            g2.mode,
                            m.segments[i],
                        );
                    assert(lines[j + 1] == lines.skip(1)[j]);
                    assert(line_yields_segment(lines[j + 1], version, g.mode, m.segments[i]));
                }
            },
            Err(_) => {
                assert(false);
            },
        }
    }
}

// ------------------------------------------------------------------
// Index consistency: any lookup hit is the linear scan's hit.
// ------------------------------------------------------------------

/// When identifiers are unique (as in a well-formed graph), any position
/// holding the queried identifier is exactly the one the reference linear
/// scan finds; so the dense table, the binary search and the linear scan all
/// return the same segment.
pub proof fn lemma_lookup_agrees_linear(segs: Seq<SegView>, q: IdView, i: int)
    requires
        forall|a: int, b: int|
            0 <= a < b < segs.len() ==> (#[trigger] segs[a]).id != (#[trigger] segs[b]).id,
        0 <= i < segs.len(),
        segs[i].id == q,
    ensures
        find_seg(segs, q) == Some(i),
{
    lemma_find_seg(segs, q);
    match find_seg(segs, q) {
        Some(f) => {
            if f < i {
                assert(segs[f].id != segs[i].id);
            } else if f > i {
                assert(segs[i].id != segs[f].id);
            }
        },
        None => {
            assert(segs[i].id != q);
        },
    }
}

} // verus!
