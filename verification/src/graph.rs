//! The graph aggregate: record vectors plus the arena buffer, the line
//! decoder that fills them, the finalize step (sort and index build), and the
//! identifier lookups.

use vstd::prelude::*;
use vstd::slice::slice_subrange;
use crate::bytes::{spec_split, is_udec, udec_val, is_int_str, int_val, split_fields, split_by,
    parse_usize, parse_u64, parse_i64, slice_to_vec_u8};
use crate::model::{IdView, GfaError, Version, HeaderView, SegView, LinkView, PathView, WalkView,
    ContainmentView, JumpView, GfaView, empty_gfa, id_le, segs_sorted, find_seg, spec_parse_id,
    spec_opt, field_at, dir_of_char, spec_dir, spec_segment, spec_header, spec_link,
    spec_path_entries, spec_path, first_walk_sep, spec_walk_entries, spec_walk, spec_containment,
    spec_jump, spec_read_line, spec_parse_lines, spec_compact, spec_get_version, walk_as_path,
    header_is_set, id_stored, opt_stored, path_entries_stored, walk_entries_stored, line_stored,
    walk_partial,
    line_numeric, spec_check_numeric, s_id_vals, lemma_id_le_total, lemma_id_le_antisym,
    lemma_id_le_trans, lemma_find_seg};
use crate::records::{SeqIndex, Id, Opt, Header, Segment, Link, Path, Walk, Containment, Jump,
    id_view, opt_view, seg_view, link_view, path_view, walk_view, containment_view, jump_view,
    ids_view, segs_wf, segs_views, links_wf, links_views, paths_wf, paths_views, walks_wf,
    walks_views, conts_wf, conts_views, jumps_wf, jumps_views, lemma_content_stable,
    lemma_id_view_stable, lemma_opt_view_stable, lemma_ids_view_stable, lemma_segs_views_stable,
    lemma_links_views_stable, lemma_paths_views_stable, lemma_walks_views_stable,
    lemma_conts_views_stable, lemma_jumps_views_stable};
use crate::ParseMode;
use crate::laws::{sorted_int, lemma_sorted_one_to_n, lemma_lookup_agrees_linear};

verus! {

/// A sequence graph: one vector per record kind, the arena buffer every slice
/// points into, and the lookup index built at finalize time.
///
/// `index_of_index` and `index_low` belong to the dense lookup strategy and
/// are maintained by the finalize step; `finalized()` is the contract between
/// them and the lookups.
#[derive(Debug)]
pub struct Gfa {
    pub header: Header,
    pub segments: Vec<Segment>,
    pub links: Vec<Link>,
    pub paths: Vec<Path>,
    pub jump: Vec<Jump>,
    pub containment: Vec<Containment>,
    pub walk: Vec<Walk>,
    pub is_digit: bool,
    pub index_of_index: Vec<usize>,
    pub index_low: usize,
    pub sequence: Vec<u8>,
    pub mode: ParseMode,
}

impl View for Gfa {
    type V = GfaView;

    open spec fn view(&self) -> GfaView {
        GfaView {
            header: self.header@,
            segments: segs_views(self.segments@, self.sequence@),
            links: links_views(self.links@, self.sequence@),
            paths: paths_views(self.paths@, self.sequence@),
            jump: jumps_views(self.jump@, self.sequence@),
            containment: conts_views(self.containment@, self.sequence@),
            walk: walks_views(self.walk@, self.sequence@),
            mode: self.mode,
            is_digit: self.is_digit,
        }
    }
}

impl Gfa {
    /// Every slice in every record is in bounds for the arena, and every
    /// identifier uses the representation the parse mode chose.
    pub open spec fn wf(&self) -> bool {
        let alen = self.sequence@.len() as int;
        &&& segs_wf(self.segments@, alen, self.mode.digit_ids)
        &&& links_wf(self.links@, alen, self.mode.digit_ids)
        &&& paths_wf(self.paths@, alen, self.mode.digit_ids)
        &&& walks_wf(self.walk@, alen, self.mode.digit_ids)
        &&& conts_wf(self.containment@, alen, self.mode.digit_ids)
        &&& jumps_wf(self.jump@, alen, self.mode.digit_ids)
    }

    /// When the dense table exists, it sends every numeric identifier present
    /// in the graph to a position holding that identifier.
    pub open spec fn index_ok(&self) -> bool {
        self.index_of_index@.len() > 0 ==> forall|j: int|
            0 <= j < self.segments@.len() ==> match (#[trigger] self.segments@[j]).id {
                Id::Num(v) => {
                    &&& self.index_low <= v
                    &&& v - self.index_low < self.index_of_index@.len()
                    &&& self.index_of_index@[v - self.index_low] < self.segments@.len()
                    &&& self.segments@[self.index_of_index@[v - self.index_low] as int].id
                        == Id::Num(v)
                },
                Id::Text(_) => true,
            }
    }

    /// A graph ready for lookup: well-formed, segments sorted by identifier,
    /// the representation flag set, and the dense table (if built) consistent.
    pub open spec fn finalized(&self) -> bool {
        &&& self.wf()
        &&& segs_sorted(self@.segments)
        &&& self.is_digit == self.mode.digit_ids
        &&& self.index_ok()
    }

    /// An empty graph for the given parse mode.
    pub fn new(mode: ParseMode) -> (r: Gfa)
        ensures
            r@ == empty_gfa(mode),
            r.wf(),
            r.mode == mode,
            r.index_of_index@.len() == 0,
            r.index_low == 0,
            r.sequence@.len() == 0,
    {
        let r = Gfa {
            header: Header { tag: Vec::new(), typ: Vec::new(), version_number: Vec::new() },
            segments: Vec::new(),
            links: Vec::new(),
            paths: Vec::new(),
            jump: Vec::new(),
            containment: Vec::new(),
            walk: Vec::new(),
            is_digit: false,
            index_of_index: Vec::new(),
            index_low: 0,
            sequence: Vec::new(),
            mode: mode,
        };
        proof {
            assert(r@ =~= empty_gfa(mode));
        }
        r
    }

    /// The raw arena text, for collaborators that resolve slices themselves.
    pub fn get_sequence(&self) -> (r: &Vec<u8>)
        ensures
            r@ == self.sequence@,
    {
        &self.sequence
    }
}

// ------------------------------------------------------------------
// Decoder helpers.
// ------------------------------------------------------------------

/// A `Vec<u8>` seen deeply is just its byte sequence.
pub proof fn lemma_deep_bytes(v: Vec<u8>)
    ensures
        v.deep_view() == v@,
{
    assert(v.deep_view() =~= v@);
}

/// Append `src` onto `dst`.
pub fn push_bytes(dst: &mut Vec<u8>, src: &[u8])
    ensures
        final(dst)@ == old(dst)@ + src@,
{
    let mut i: usize = 0;
    while i < src.len()
        invariant
            0 <= i <= src@.len(),
            dst@ == old(dst)@ + src@.take(i as int),
        decreases src@.len() - i,
    {
        dst.push(src[i]);
        proof {
            assert(old(dst)@ + src@.take(i + 1) =~= (old(dst)@ + src@.take(i as int)).push(
                src@[i as int],
            ));
        }
        i = i + 1;
    }
    proof {
        assert(src@.take(i as int) =~= src@);
    }
}

/// Append `field` to the arena and return the slice that now denotes it.
pub fn store_slice(field: &[u8], arena: &mut Vec<u8>) -> (r: SeqIndex)
    ensures
        final(arena)@ == old(arena)@ + field@,
        r.wf(final(arena)@.len() as int),
        r.content(final(arena)@) == field@,
{
    let start = arena.len();
    push_bytes(arena, field);
    let end = arena.len();
    let r = SeqIndex { start, end };
    proof {
        assert(r.content(arena@) =~= field@);
    }
    r
}

/// Parse one identifier field, writing text identifiers into the arena.
pub fn parse_id(field: &[u8], digit: bool, arena: &mut Vec<u8>) -> (r: Result<Id, GfaError>)
    ensures
        old(arena)@.is_prefix_of(final(arena)@),
        match r {
            Ok(id) => {
                &&& spec_parse_id(field@, digit) == Ok::<IdView, GfaError>(
                    id_view(id, final(arena)@),
                )
                &&& id.wf(final(arena)@.len() as int)
                &&& id.matches(digit)
                &&& final(arena)@ == old(arena)@ + id_stored(field@, digit)
            },
            Err(e) => spec_parse_id(field@, digit) == Err::<IdView, GfaError>(e) && final(arena)@
                == old(arena)@,
        },
{
    proof {
        reveal(crate::model::id_stored);
        assert(arena@ + Seq::<u8>::empty() =~= arena@);
    }
    if digit {
        proof {
            assert(arena@.is_prefix_of(arena@)) by {
                assert(arena@.take(arena@.len() as int) =~= arena@);
            }
        }
        match parse_usize(field) {
            Some(v) => Ok(Id::Num(v)),
            None => Err(GfaError::BadNumber),
        }
    } else {
        let s = store_slice(field, arena);
        proof {
            assert(old(arena)@.is_prefix_of(arena@)) by {
                assert(arena@.take(old(arena)@.len() as int) =~= old(arena)@);
            }
        }
        Ok(Id::Text(s))
    }
}

/// Parse the optional field at position `k`, storing it only when asked.
pub fn parse_opt_at(fields: &Vec<Vec<u8>>, k: usize, store: bool, arena: &mut Vec<u8>) -> (r: Opt)
    ensures
        old(arena)@.is_prefix_of(final(arena)@),
        final(arena)@ == old(arena)@ + opt_stored(field_at(fields.deep_view(), k as int), store),
        r.wf(final(arena)@.len() as int),
        opt_view(r, final(arena)@) == spec_opt(field_at(fields.deep_view(), k as int), store),
{
    proof {
        assert(arena@ + Seq::<u8>::empty() =~= arena@);
    }
    if !store {
        proof {
            assert(arena@.is_prefix_of(arena@)) by {
                assert(arena@.take(arena@.len() as int) =~= arena@);
            }
        }
        Opt::Absent
    } else if k < fields.len() {
        let s = store_slice(fields[k].as_slice(), arena);
        proof {
            assert(old(arena)@.is_prefix_of(arena@)) by {
                assert(arena@.take(old(arena)@.len() as int) =~= old(arena)@);
            }
            lemma_deep_bytes(fields@[k as int]);
        }
        Opt::Present(s)
    } else {
        let s = SeqIndex { start: 0, end: 0 };
        proof {
            assert(arena@.is_prefix_of(arena@)) by {
                assert(arena@.take(arena@.len() as int) =~= arena@);
            }
            assert(s.content(arena@) =~= Seq::<u8>::empty());
        }
        Opt::Present(s)
    }
}

/// Prefix order on byte sequences is transitive.
pub proof fn lemma_prefix_trans(a: Seq<u8>, b: Seq<u8>, c: Seq<u8>)
    requires
        a.is_prefix_of(b),
        b.is_prefix_of(c),
    ensures
        a.is_prefix_of(c),
{
    assert(c.take(a.len() as int) =~= a);
}

/// A graph whose records are unchanged and whose arena only grew has the same
/// view.
pub proof fn lemma_gfa_view_stable(g1: &Gfa, g2: &Gfa)
    requires
        g1.wf(),
        g2.mode == g1.mode,
        g2.is_digit == g1.is_digit,
        g2.header@ == g1.header@,
        g2.segments@ == g1.segments@,
        g2.links@ == g1.links@,
        g2.paths@ == g1.paths@,
        g2.jump@ == g1.jump@,
        g2.containment@ == g1.containment@,
        g2.walk@ == g1.walk@,
        g1.sequence@.is_prefix_of(g2.sequence@),
    ensures
        g2@ == g1@,
        g2.wf(),
{
    let d = g1.mode.digit_ids;
    lemma_segs_views_stable(g1.segments@, g1.sequence@, g2.sequence@, d);
    lemma_links_views_stable(g1.links@, g1.sequence@, g2.sequence@, d);
    lemma_paths_views_stable(g1.paths@, g1.sequence@, g2.sequence@, d);
    lemma_walks_views_stable(g1.walk@, g1.sequence@, g2.sequence@, d);
    lemma_conts_views_stable(g1.containment@, g1.sequence@, g2.sequence@, d);
    lemma_jumps_views_stable(g1.jump@, g1.sequence@, g2.sequence@, d);
    assert(g2@ =~= g1@);
}

/// Parse a `u32` numeric field.
pub fn parse_u32_field(field: &[u8]) -> (r: Result<u32, GfaError>)
    ensures
        match r {
            Ok(v) => is_udec(field@) && udec_val(field@) == v,
            Err(e) => e == GfaError::BadNumber && !(is_udec(field@) && udec_val(field@)
                <= u32::MAX),
        },
{
    match parse_u64(field) {
        Some(v) => {
            if v <= u32::MAX as u64 {
                Ok(v as u32)
            } else {
                Err(GfaError::BadNumber)
            }
        },
        None => Err(GfaError::BadNumber),
    }
}

/// Parse an `i32` numeric field with an optional sign.
pub fn parse_i32_field(field: &[u8]) -> (r: Result<i32, GfaError>)
    ensures
        match r {
            Ok(v) => is_int_str(field@) && int_val(field@) == v,
            Err(e) => e == GfaError::BadNumber && !(is_int_str(field@) && i32::MIN <= int_val(
                field@,
            ) <= i32::MAX),
        },
{
    match parse_i64(field) {
        Some(v) => {
            if i32::MIN as i64 <= v && v <= i32::MAX as i64 {
                Ok(v as i32)
            } else {
                Err(GfaError::BadNumber)
            }
        },
        None => Err(GfaError::BadNumber),
    }
}

/// Parse the comma-separated steps of a path field, each an identifier
/// followed by one orientation character.
#[verifier::rlimit(40)]
pub fn parse_path_entries(field: &[u8], digit: bool, arena: &mut Vec<u8>) -> (r: Result<
    (Vec<bool>, Vec<Id>),
    GfaError,
>)
    ensures
        old(arena)@.is_prefix_of(final(arena)@),
        match r {
            Ok(entries) => {
                &&& spec_path_entries(spec_split(field@, 44), digit) == Ok::<
                    (Seq<bool>, Seq<IdView>),
                    GfaError,
                >((entries.0@, ids_view(entries.1@, final(arena)@)))
                &&& entries.0@.len() == entries.1@.len()
                &&& final(arena)@ == old(arena)@ + path_entries_stored(
                    spec_split(field@, 44),
                    digit,
                )
                &&& forall|i: int|
                    0 <= i < entries.1@.len() ==> (#[trigger] entries.1@[i]).wf(
                        final(arena)@.len() as int,
                    ) && entries.1@[i].matches(digit)
            },
            Err(e) => spec_path_entries(spec_split(field@, 44), digit) == Err::<
                (Seq<bool>, Seq<IdView>),
                GfaError,
            >(e),
        },
{
    let parts = split_by(field, 44);
    let ghost pv = parts.deep_view();
    let mut dirs: Vec<bool> = Vec::new();
    let mut ids: Vec<Id> = Vec::new();
    let mut i: usize = 0;
    proof {
        assert(arena@.is_prefix_of(arena@)) by {
            assert(arena@.take(arena@.len() as int) =~= arena@);
        }
        assert(pv.skip(0) =~= pv);
    }
    while i < parts.len()
        invariant
            0 <= i <= parts@.len(),
            pv == parts.deep_view(),
            pv == spec_split(field@, 44),
            pv.len() == parts@.len(),
            old(arena)@.is_prefix_of(arena@),
            arena@ + path_entries_stored(pv.skip(i as int), digit) == old(arena)@
                + path_entries_stored(pv, digit),
            dirs@.len() == ids@.len(),
            forall|k: int|
                0 <= k < ids@.len() ==> (#[trigger] ids@[k]).wf(arena@.len() as int)
                    && ids@[k].matches(digit),
            match spec_path_entries(pv.skip(i as int), digit) {
                Ok(rest) => spec_path_entries(pv, digit) == Ok::<(Seq<bool>, Seq<IdView>), GfaError>(
                    (dirs@ + rest.0, ids_view(ids@, arena@) + rest.1),
                ),
                Err(e) => spec_path_entries(pv, digit) == Err::<(Seq<bool>, Seq<IdView>), GfaError>(
                    e,
                ),
            },
        decreases parts@.len() - i,
    {
        let part = &parts[i];
        proof {
            lemma_deep_bytes(parts@[i as int]);
            assert(pv.skip(i as int)[0] == pv[i as int]);
            assert(pv.skip(i as int).skip(1) =~= pv.skip(i + 1));
        }
        if part.len() == 0 {
            proof {
                assert(part@ == pv.skip(i as int)[0]);
                assert(spec_path_entries(pv.skip(i as int), digit) == Err::<
                    (Seq<bool>, Seq<IdView>),
                    GfaError,
                >(GfaError::BadOrientation));
            }
            return Err(GfaError::BadOrientation);
        }
        let last = part[part.len() - 1];
        let d: bool;
        if last == 43 {
            d = true;
        } else if last == 45 {
            d = false;
        } else {
            proof {
                assert(part@ == pv.skip(i as int)[0]);
                assert(dir_of_char(pv.skip(i as int)[0][part@.len() - 1]) is None);
                assert(spec_path_entries(pv.skip(i as int), digit) == Err::<
                    (Seq<bool>, Seq<IdView>),
                    GfaError,
                >(GfaError::BadOrientation));
            }
            return Err(GfaError::BadOrientation);
        }
        let idtext = slice_subrange(part.as_slice(), 0, part.len() - 1);
        proof {
            assert(idtext@ =~= pv[i as int].take(pv[i as int].len() - 1));
        }
        let ghost a_before = arena@;
        let id = match parse_id(idtext, digit, arena) {
            Ok(id) => id,
            Err(e) => {
                proof {
                    lemma_prefix_trans(old(arena)@, a_before, arena@);
                }
                return Err(e);
            },
        };
        proof {
            lemma_prefix_trans(old(arena)@, a_before, arena@);
            lemma_ids_view_stable(ids@, a_before, arena@);
            assert forall|k: int| 0 <= k < ids@.len() implies (#[trigger] ids@[k]).wf(
                arena@.len() as int,
            ) by {
                lemma_id_view_stable(ids@[k], a_before, arena@);
            }
            // one step's stored text moves from the remainder to the arena
            assert(id_stored(idtext@, digit) + path_entries_stored(pv.skip(i + 1), digit)
                == path_entries_stored(pv.skip(i as int), digit));
            assert(arena@ + path_entries_stored(pv.skip(i + 1), digit) =~= (a_before
                + id_stored(idtext@, digit)) + path_entries_stored(pv.skip(i + 1), digit));
            assert((a_before + id_stored(idtext@, digit)) + path_entries_stored(pv.skip(i + 1), digit)
                =~= a_before + (id_stored(idtext@, digit) + path_entries_stored(
                pv.skip(i + 1),
                digit,
            )));
        }
        let ghost old_dirs = dirs@;
        let ghost old_ids = ids@;
        dirs.push(d);
        ids.push(id);
        proof {
            assert(ids_view(ids@, arena@) =~= ids_view(old_ids, arena@).push(id_view(id, arena@)));
            match spec_path_entries(pv.skip(i + 1), digit) {
                Ok(rest) => {
                    assert(spec_path_entries(pv.skip(i as int), digit) == Ok::<
                        (Seq<bool>, Seq<IdView>),
                        GfaError,
                    >((seq![d] + rest.0, seq![id_view(id, arena@)] + rest.1)));
                    assert(dirs@ + rest.0 =~= old_dirs + (seq![d] + rest.0));
                    assert(ids_view(ids@, arena@) + rest.1 =~= ids_view(old_ids, arena@) + (seq![
                        id_view(id, arena@),
                    ] + rest.1));
                },
                Err(_) => {},
            }
        }
        i = i + 1;
    }
    proof {
        assert(pv.skip(i as int) =~= Seq::<Seq<u8>>::empty());
        assert(path_entries_stored(Seq::<Seq<u8>>::empty(), digit) =~= Seq::<u8>::empty());
        assert(arena@ + Seq::<u8>::empty() =~= arena@);
        match spec_path_entries(pv.skip(i as int), digit) {
            Ok(rest) => {
                assert(dirs@ + rest.0 =~= dirs@);
                assert(ids_view(ids@, arena@) + rest.1 =~= ids_view(ids@, arena@));
            },
            Err(_) => {},
        }
    }
    Ok((dirs, ids))
}

proof fn lemma_first_walk_sep_bounds(s: Seq<u8>)
    ensures
        0 <= first_walk_sep(s) <= s.len(),
        forall|i: int| 0 <= i < first_walk_sep(s) ==> #[trigger] s[i] != 60 && s[i] != 62,
        first_walk_sep(s) < s.len() ==> (s[first_walk_sep(s)] == 60 || s[first_walk_sep(s)] == 62),
    decreases s.len(),
{
    if s.len() > 0 && !(s[0] == 60 || s[0] == 62) {
        lemma_first_walk_sep_bounds(s.skip(1));
        let f = first_walk_sep(s);
        assert forall|i: int| 0 <= i < f implies #[trigger] s[i] != 60 && s[i] != 62 by {
            if i > 0 {
                assert(s[i] == s.skip(1)[i - 1]);
            }
        }
        if f < s.len() {
            assert(s[f] == s.skip(1)[f - 1]);
        }
    }
}

/// Parse a walk string: a `<` or `>` direction byte then an identifier,
/// repeated with no other separator.
#[verifier::rlimit(100)]
#[verifier::spinoff_prover]
pub fn parse_walk_entries(w: &[u8], digit: bool, arena: &mut Vec<u8>) -> (r: Result<
    (Vec<bool>, Vec<Id>),
    GfaError,
>)
    ensures
        old(arena)@.is_prefix_of(final(arena)@),
        match r {
            Ok(entries) => {
                &&& spec_walk_entries(w@, digit) == Ok::<(Seq<bool>, Seq<IdView>), GfaError>(
                    (entries.0@, ids_view(entries.1@, final(arena)@)),
                )
                &&& entries.0@.len() == entries.1@.len()
                &&& final(arena)@ == old(arena)@ + walk_entries_stored(w@, digit)
                &&& forall|i: int|
                    0 <= i < entries.1@.len() ==> (#[trigger] entries.1@[i]).wf(
                        final(arena)@.len() as int,
                    ) && entries.1@[i].matches(digit)
            },
            Err(e) => spec_walk_entries(w@, digit) == Err::<(Seq<bool>, Seq<IdView>), GfaError>(e),
        },
{
    proof {
        assert(arena@.is_prefix_of(arena@)) by {
            assert(arena@.take(arena@.len() as int) =~= arena@);
        }
    }
    let n = w.len();
    if n == 0 || (w[0] != 60 && w[0] != 62) {
        return Err(GfaError::BadWalk);
    }
    let mut dirs: Vec<bool> = Vec::new();
    let mut ids: Vec<Id> = Vec::new();
    let mut pos: usize = 0;
    proof {
        assert(w@.skip(0) =~= w@);
    }
    loop
        invariant_except_break
            0 <= pos < n,
            w@[pos as int] == 60 || w@[pos as int] == 62,
            walk_partial(w@, digit, pos as int, dirs@, ids_view(ids@, arena@)),
            arena@ + walk_entries_stored(w@.skip(pos as int), digit) == old(arena)@
                + walk_entries_stored(w@, digit),
        invariant
            n == w@.len(),
            old(arena)@.is_prefix_of(arena@),
            dirs@.len() == ids@.len(),
            forall|k: int|
                0 <= k < ids@.len() ==> (#[trigger] ids@[k]).wf(arena@.len() as int)
                    && ids@[k].matches(digit),
        ensures
            old(arena)@.is_prefix_of(arena@),
            dirs@.len() == ids@.len(),
            forall|k: int|
                0 <= k < ids@.len() ==> (#[trigger] ids@[k]).wf(arena@.len() as int)
                    && ids@[k].matches(digit),
            arena@ == old(arena)@ + walk_entries_stored(w@, digit),
            match spec_walk_entries(w@, digit) {
                Ok(entries) => entries == (dirs@, ids_view(ids@, arena@)),
                Err(e) => false,
            },
        decreases n - pos,
    {
        let d = w[pos] == 62;
        let ghost tail = w@.skip(pos as int);
        let mut j = pos + 1;
        proof {
            lemma_first_walk_sep_bounds(w@.skip(pos + 1));
            assert(tail.skip(1) =~= w@.skip(pos + 1));
        }
        while j < n && w[j] != 60 && w[j] != 62
            invariant
                pos + 1 <= j <= n,
                n == w@.len(),
                first_walk_sep(w@.skip(pos + 1)) == (j - pos - 1) + first_walk_sep(
                    w@.skip(j as int),
                ),
            decreases n - j,
        {
            proof {
                let t2 = w@.skip(j as int);
                assert(t2[0] == w@[j as int]);
                assert(t2.skip(1) =~= w@.skip(j + 1));
            }
            j = j + 1;
        }
        proof {
            let t2 = w@.skip(j as int);
            if j < n {
                assert(t2[0] == w@[j as int]);
            }
            assert(first_walk_sep(w@.skip(pos + 1)) == j - pos - 1);
        }
        let idtext = slice_subrange(w, pos + 1, j);
        proof {
            assert(idtext@ =~= tail.skip(1).take((j - pos - 1) as int));
        }
        let ghost a_before = arena@;
        let id = match parse_id(idtext, digit, arena) {
            Ok(id) => id,
            Err(e) => {
                proof {
                    lemma_prefix_trans(old(arena)@, a_before, arena@);
                }
                return Err(e);
            },
        };
        proof {
            lemma_prefix_trans(old(arena)@, a_before, arena@);
            lemma_ids_view_stable(ids@, a_before, arena@);
            assert forall|k: int| 0 <= k < ids@.len() implies (#[trigger] ids@[k]).wf(
                arena@.len() as int,
            ) by {
                lemma_id_view_stable(ids@[k], a_before, arena@);
            }
            // one step's stored text moves from the remainder to the arena
            assert(walk_entries_stored(tail, digit) == id_stored(idtext@, digit) + (if 1 + (j - pos
                - 1) == tail.len() {
                Seq::<u8>::empty()
            } else {
                walk_entries_stored(tail.skip((j - pos) as int), digit)
            }));
            assert(arena@ =~= a_before + id_stored(idtext@, digit));
        }
        let ghost old_dirs = dirs@;
        let ghost old_ids = ids@;
        dirs.push(d);
        ids.push(id);
        proof {
            assert(ids_view(ids@, arena@) =~= ids_view(old_ids, arena@).push(id_view(id, arena@)));
        }
        if j == n {
            proof {
                assert(spec_walk_entries(tail, digit) == Ok::<(Seq<bool>, Seq<IdView>), GfaError>(
                    (seq![d], seq![id_view(id, arena@)]),
                ));
                assert(dirs@ =~= old_dirs + seq![d]);
                assert(ids_view(ids@, arena@) =~= ids_view(old_ids, arena@) + seq![
                    id_view(id, arena@),
                ]);
                assert(walk_entries_stored(tail, digit) =~= id_stored(idtext@, digit));
                assert(arena@ =~= a_before + walk_entries_stored(w@.skip(pos as int), digit));
                assert(arena@ =~= old(arena)@ + walk_entries_stored(w@, digit));
            }
            break;
        }
        proof {
            assert(tail.skip((j - pos) as int) =~= w@.skip(j as int));
            assert(arena@ + walk_entries_stored(w@.skip(j as int), digit) =~= a_before + (id_stored(
                idtext@,
                digit,
            ) + walk_entries_stored(w@.skip(j as int), digit)));
            assert(id_stored(idtext@, digit) + walk_entries_stored(w@.skip(j as int), digit)
                =~= walk_entries_stored(w@.skip(pos as int), digit));
            match spec_walk_entries(w@.skip(j as int), digit) {
                Ok(rest) => {
                    assert(spec_walk_entries(tail, digit) == Ok::<
                        (Seq<bool>, Seq<IdView>),
                        GfaError,
                    >((seq![d] + rest.0, seq![id_view(id, arena@)] + rest.1)));
                    assert(dirs@ + rest.0 =~= old_dirs + (seq![d] + rest.0));
                    assert(ids_view(ids@, arena@) + rest.1 =~= ids_view(old_ids, arena@) + (seq![
                        id_view(id, arena@),
                    ] + rest.1));
                },
                Err(_) => {},
            }
        }
        pos = j;
    }
    Ok((dirs, ids))
}

/// Every byte sequence is a prefix of itself.
pub proof fn lemma_prefix_refl(a: Seq<u8>)
    ensures
        a.is_prefix_of(a),
{
    assert(a.take(a.len() as int) =~= a);
}

/// Decode and append one segment record.
fn read_segment_line(fields: &Vec<Vec<u8>>, version: Version, z: &mut Gfa) -> (r: Result<
    (),
    GfaError,
>)
    requires
        old(z).wf(),
    ensures
        final(z).wf(),
        final(z).mode == old(z).mode,
        final(z).is_digit == old(z).is_digit,
        final(z).index_of_index@ == old(z).index_of_index@,
        final(z).index_low == old(z).index_low,
        old(z).sequence@.is_prefix_of(final(z).sequence@),
        match r {
            Ok(u) => spec_segment(fields.deep_view(), version, old(z).mode) is Ok && final(z)@
                == (GfaView {
                segments: old(z)@.segments.push(
                    spec_segment(fields.deep_view(), version, old(z).mode).unwrap(),
                ),
                ..old(z)@
            }) && final(z).sequence@ == old(z).sequence@ + (id_stored(
                fields.deep_view()[1],
                old(z).mode.digit_ids,
            ) + fields.deep_view()[2] + opt_stored(
                field_at(
                    fields.deep_view(),
                    if version.spec_explicit_len() {
                        4int
                    } else {
                        3int
                    },
                ),
                old(z).mode.store_opt,
            )),
            Err(e) => spec_segment(fields.deep_view(), version, old(z).mode) == Err::<
                SegView,
                GfaError,
            >(e) && final(z)@ == old(z)@,
        },
{
    let ghost fv = fields.deep_view();
    let digit = z.mode.digit_ids;
    let explicit = version.major >= 2;
    let needed: usize = if explicit {
        4
    } else {
        3
    };
    if fields.len() < needed {
        proof {
            lemma_prefix_refl(z.sequence@);
        }
        return Err(GfaError::MissingField);
    }
    let ghost a0 = z.sequence@;
    proof {
        lemma_deep_bytes(fields@[1]);
        lemma_deep_bytes(fields@[2]);
        if explicit {
            lemma_deep_bytes(fields@[3]);
        }
    }
    let id = match parse_id(fields[1].as_slice(), digit, &mut z.sequence) {
        Ok(id) => id,
        Err(e) => {
            proof {
                lemma_gfa_view_stable(old(z), z);
            }
            return Err(e);
        },
    };
    let ghost a1 = z.sequence@;
    let seqix = store_slice(fields[2].as_slice(), &mut z.sequence);
    let ghost a2 = z.sequence@;
    let length: u32;
    if explicit {
        match parse_u32_field(fields[3].as_slice()) {
            Ok(v) => {
                length = v;
            },
            Err(e) => {
                proof {
                    lemma_prefix_trans(a0, a1, a2);
                    lemma_gfa_view_stable(old(z), z);
                }
                return Err(e);
            },
        }
    } else {
        if fields[2].len() > u32::MAX as usize {
            proof {
                lemma_prefix_trans(a0, a1, a2);
                lemma_gfa_view_stable(old(z), z);
            }
            return Err(GfaError::BadNumber);
        }
        length = fields[2].len() as u32;
    }
    let optk: usize = if explicit {
        4
    } else {
        3
    };
    if optk < fields.len() {
        proof {
            lemma_deep_bytes(fields@[optk as int]);
        }
    }
    let opt = parse_opt_at(fields, optk, z.mode.store_opt, &mut z.sequence);
    let ghost a3 = z.sequence@;
    proof {
        lemma_prefix_trans(a0, a1, a2);
        lemma_prefix_trans(a0, a2, a3);
        lemma_id_view_stable(id, a1, a2);
        lemma_id_view_stable(id, a2, a3);
        lemma_content_stable(seqix, a2, a3);
    }
    let seg = Segment { id, sequence: seqix, length, opt };
    let ghost segs0 = z.segments@;
    z.segments.push(seg);
    proof {
        assert(a3 =~= a0 + (id_stored(fv[1], digit) + fv[2] + opt_stored(
            field_at(fv, optk as int),
            old(z).mode.store_opt,
        )));
        assert(seg.wf(a3.len() as int, digit));
        assert(spec_segment(fv, version, old(z).mode) == Ok::<SegView, GfaError>(
            seg_view(seg, a3),
        ));
        lemma_segs_views_stable(segs0, a0, a3, digit);
        lemma_links_views_stable(old(z).links@, a0, a3, digit);
        lemma_paths_views_stable(old(z).paths@, a0, a3, digit);
        lemma_walks_views_stable(old(z).walk@, a0, a3, digit);
        lemma_conts_views_stable(old(z).containment@, a0, a3, digit);
        lemma_jumps_views_stable(old(z).jump@, a0, a3, digit);
        assert(segs_views(z.segments@, a3) =~= segs_views(segs0, a3).push(seg_view(seg, a3)));
        assert(z@ =~= (GfaView { segments: old(z)@.segments.push(seg_view(seg, a3)), ..old(z)@ }));
    }
    Ok(())
}

/// Decode a header record and replace the graph's header.
fn read_header_line(fields: &Vec<Vec<u8>>, z: &mut Gfa) -> (r: Result<(), GfaError>)
    requires
        old(z).wf(),
    ensures
        final(z).wf(),
        final(z).mode == old(z).mode,
        final(z).is_digit == old(z).is_digit,
        final(z).index_of_index@ == old(z).index_of_index@,
        final(z).index_low == old(z).index_low,
        old(z).sequence@.is_prefix_of(final(z).sequence@),
        final(z).sequence@ == old(z).sequence@,
        match r {
            Ok(u) => spec_header(fields.deep_view()) is Ok && final(z)@ == (GfaView {
                header: if header_is_set(old(z)@.header) {
                    old(z)@.header
                } else {
                    spec_header(fields.deep_view()).unwrap()
                },
                ..old(z)@
            }),
            Err(e) => spec_header(fields.deep_view()) == Err::<HeaderView, GfaError>(e) && final(z)@
                == old(z)@,
        },
{
    proof {
        lemma_prefix_refl(z.sequence@);
    }
    let ghost fv = fields.deep_view();
    if fields.len() < 2 {
        return Err(GfaError::MissingField);
    }
    proof {
        lemma_deep_bytes(fields@[1]);
    }
    let mut parts = split_by(fields[1].as_slice(), 58);
    let ghost pd = parts.deep_view();
    let ghost pv0 = parts@;
    if parts.len() < 3 {
        return Err(GfaError::BadHeader);
    }
    let tagv = parts.remove(0);
    let typv = parts.remove(0);
    let verv = parts.remove(0);
    proof {
        lemma_deep_bytes(pv0[0]);
        lemma_deep_bytes(pv0[1]);
        lemma_deep_bytes(pv0[2]);
        assert(tagv == pv0[0]);
        assert(typv == pv0[1]);
        assert(verv == pv0[2]);
    }
    // the first header line wins; later ones are validated and dropped
    if z.header.tag.len() == 0 && z.header.typ.len() == 0 && z.header.version_number.len() == 0 {
        z.header = Header { tag: tagv, typ: typv, version_number: verv };
        proof {
            assert(!header_is_set(old(z)@.header));
            assert(z.header@ =~= (HeaderView { tag: pd[0], typ: pd[1], version_number: pd[2] }));
            assert(z@ =~= (GfaView { header: spec_header(fv).unwrap(), ..old(z)@ }));
        }
    } else {
        proof {
            assert(header_is_set(old(z)@.header));
            assert(z@ =~= (GfaView { header: old(z)@.header, ..old(z)@ }));
        }
    }
    Ok(())
}

/// Decode and append one link record.
fn read_link_line(fields: &Vec<Vec<u8>>, z: &mut Gfa) -> (r: Result<(), GfaError>)
    requires
        old(z).wf(),
    ensures
        final(z).wf(),
        final(z).mode == old(z).mode,
        final(z).is_digit == old(z).is_digit,
        final(z).index_of_index@ == old(z).index_of_index@,
        final(z).index_low == old(z).index_low,
        old(z).sequence@.is_prefix_of(final(z).sequence@),
        match r {
            Ok(u) => spec_link(fields.deep_view(), old(z).mode) is Ok && final(z)@ == (GfaView {
                links: old(z)@.links.push(spec_link(fields.deep_view(), old(z).mode).unwrap()),
                ..old(z)@
            }) && final(z).sequence@ == old(z).sequence@ + (id_stored(
                fields.deep_view()[1],
                old(z).mode.digit_ids,
            ) + id_stored(fields.deep_view()[3], old(z).mode.digit_ids) + opt_stored(
                field_at(fields.deep_view(), 5),
                old(z).mode.store_overlap,
            ) + opt_stored(field_at(fields.deep_view(), 6), old(z).mode.store_opt)),
            Err(e) => spec_link(fields.deep_view(), old(z).mode) == Err::<LinkView, GfaError>(e)
                && final(z)@ == old(z)@,
        },
{
    let ghost fv = fields.deep_view();
    let digit = z.mode.digit_ids;
    if fields.len() < 5 {
        proof {
            lemma_prefix_refl(z.sequence@);
        }
        return Err(GfaError::MissingField);
    }
    let ghost a0 = z.sequence@;
    proof {
        lemma_deep_bytes(fields@[1]);
        lemma_deep_bytes(fields@[2]);
        lemma_deep_bytes(fields@[3]);
        lemma_deep_bytes(fields@[4]);
    }
    let from = match parse_id(fields[1].as_slice(), digit, &mut z.sequence) {
        Ok(id) => id,
        Err(e) => {
            proof {
                lemma_gfa_view_stable(old(z), z);
            }
            return Err(e);
        },
    };
    let ghost a1 = z.sequence@;
    let from_dir = match parse_dir(fields[2].as_slice()) {
        Ok(d) => d,
        Err(e) => {
            proof {
                lemma_gfa_view_stable(old(z), z);
            }
            return Err(e);
        },
    };
    let to = match parse_id(fields[3].as_slice(), digit, &mut z.sequence) {
        Ok(id) => id,
        Err(e) => {
            proof {
                lemma_prefix_trans(a0, a1, z.sequence@);
                lemma_gfa_view_stable(old(z), z);
            }
            return Err(e);
        },
    };
    let ghost a2 = z.sequence@;
    proof {
        lemma_prefix_trans(a0, a1, a2);
    }
    let to_dir = match parse_dir(fields[4].as_slice()) {
        Ok(d) => d,
        Err(e) => {
            proof {
                lemma_gfa_view_stable(old(z), z);
            }
            return Err(e);
        },
    };
    if 5 < fields.len() {
        proof {
            lemma_deep_bytes(fields@[5]);
        }
    }
    let overlap = parse_opt_at(fields, 5, z.mode.store_overlap, &mut z.sequence);
    let ghost a3 = z.sequence@;
    if 6 < fields.len() {
        proof {
            lemma_deep_bytes(fields@[6]);
        }
    }
    let opt = parse_opt_at(fields, 6, z.mode.store_opt, &mut z.sequence);
    let ghost a4 = z.sequence@;
    proof {
        lemma_prefix_trans(a0, a2, a3);
        lemma_prefix_trans(a0, a3, a4);
        lemma_prefix_trans(a1, a2, a3);
        lemma_prefix_trans(a1, a3, a4);
        lemma_prefix_trans(a2, a3, a4);
        lemma_id_view_stable(from, a1, a2);
        lemma_id_view_stable(from, a2, a3);
        lemma_id_view_stable(from, a3, a4);
        lemma_id_view_stable(to, a2, a3);
        lemma_id_view_stable(to, a3, a4);
        lemma_opt_view_stable(overlap, a3, a4);
    }
    let l = Link { from, from_dir, to, to_dir, overlap, opt };
    let ghost links0 = z.links@;
    z.links.push(l);
    proof {
        assert(a4 =~= a0 + (id_stored(fv[1], digit) + id_stored(fv[3], digit) + opt_stored(
            field_at(fv, 5),
            old(z).mode.store_overlap,
        ) + opt_stored(field_at(fv, 6), old(z).mode.store_opt)));
        assert(l.wf(a4.len() as int, digit));
        assert(spec_link(fv, old(z).mode) == Ok::<LinkView, GfaError>(link_view(l, a4)));
        lemma_segs_views_stable(old(z).segments@, a0, a4, digit);
        lemma_links_views_stable(links0, a0, a4, digit);
        lemma_paths_views_stable(old(z).paths@, a0, a4, digit);
        lemma_walks_views_stable(old(z).walk@, a0, a4, digit);
        lemma_conts_views_stable(old(z).containment@, a0, a4, digit);
        lemma_jumps_views_stable(old(z).jump@, a0, a4, digit);
        assert(links_views(z.links@, a4) =~= links_views(links0, a4).push(link_view(l, a4)));
        assert(z@ =~= (GfaView { links: old(z)@.links.push(link_view(l, a4)), ..old(z)@ }));
    }
    Ok(())
}

/// Decode and append one path record.
fn read_path_line(fields: &Vec<Vec<u8>>, z: &mut Gfa) -> (r: Result<(), GfaError>)
    requires
        old(z).wf(),
    ensures
        final(z).wf(),
        final(z).mode == old(z).mode,
        final(z).is_digit == old(z).is_digit,
        final(z).index_of_index@ == old(z).index_of_index@,
        final(z).index_low == old(z).index_low,
        old(z).sequence@.is_prefix_of(final(z).sequence@),
        match r {
            Ok(u) => spec_path(fields.deep_view(), old(z).mode) is Ok && final(z)@ == (GfaView {
                paths: old(z)@.paths.push(spec_path(fields.deep_view(), old(z).mode).unwrap()),
                ..old(z)@
            }) && final(z).sequence@ == old(z).sequence@ + (path_entries_stored(
                spec_split(fields.deep_view()[2], 44),
                old(z).mode.digit_ids,
            ) + opt_stored(field_at(fields.deep_view(), 3), old(z).mode.store_overlap)
                + opt_stored(field_at(fields.deep_view(), 4), old(z).mode.store_opt)),
            Err(e) => spec_path(fields.deep_view(), old(z).mode) == Err::<PathView, GfaError>(e)
                && final(z)@ == old(z)@,
        },
{
    let ghost fv = fields.deep_view();
    let digit = z.mode.digit_ids;
    if fields.len() < 3 {
        proof {
            lemma_prefix_refl(z.sequence@);
        }
        return Err(GfaError::MissingField);
    }
    let ghost a0 = z.sequence@;
    proof {
        lemma_deep_bytes(fields@[1]);
        lemma_deep_bytes(fields@[2]);
    }
    let name = slice_to_vec_u8(fields[1].as_slice(), 0, fields[1].len());
    proof {
        assert(name@ =~= fv[1]);
    }
    let entries = match parse_path_entries(fields[2].as_slice(), digit, &mut z.sequence) {
        Ok(en) => en,
        Err(e) => {
            proof {
                lemma_gfa_view_stable(old(z), z);
            }
            return Err(e);
        },
    };
    let ghost a1 = z.sequence@;
    if 3 < fields.len() {
        proof {
            lemma_deep_bytes(fields@[3]);
        }
    }
    let overlap = parse_opt_at(fields, 3, z.mode.store_overlap, &mut z.sequence);
    let ghost a2 = z.sequence@;
    if 4 < fields.len() {
        proof {
            lemma_deep_bytes(fields@[4]);
        }
    }
    let opt = parse_opt_at(fields, 4, z.mode.store_opt, &mut z.sequence);
    let ghost a3 = z.sequence@;
    proof {
        lemma_prefix_trans(a0, a1, a2);
        lemma_prefix_trans(a0, a2, a3);
        lemma_prefix_trans(a1, a2, a3);
        lemma_ids_view_stable(entries.1@, a1, a2);
        assert forall|k: int| 0 <= k < entries.1@.len() implies (#[trigger] entries.1@[k]).wf(
            a2.len() as int,
        ) by {
            lemma_id_view_stable(entries.1@[k], a1, a2);
        }
        lemma_ids_view_stable(entries.1@, a2, a3);
        assert forall|k: int| 0 <= k < entries.1@.len() implies (#[trigger] entries.1@[k]).wf(
            a3.len() as int,
        ) by {
            lemma_id_view_stable(entries.1@[k], a2, a3);
        }
        lemma_opt_view_stable(overlap, a2, a3);
    }
    let p = Path { name, dir: entries.0, nodes: entries.1, overlap, opt };
    let ghost paths0 = z.paths@;
    let ghost pview = path_view(p, a3);
    z.paths.push(p);
    proof {
        assert(a3 =~= a0 + (path_entries_stored(spec_split(fv[2], 44), digit) + opt_stored(
            field_at(fv, 3),
            old(z).mode.store_overlap,
        ) + opt_stored(field_at(fv, 4), old(z).mode.store_opt)));
        assert(z.paths@[paths0.len() as int].wf(a3.len() as int, digit));
        assert(spec_path(fv, old(z).mode) == Ok::<PathView, GfaError>(pview));
        lemma_segs_views_stable(old(z).segments@, a0, a3, digit);
        lemma_links_views_stable(old(z).links@, a0, a3, digit);
        lemma_paths_views_stable(paths0, a0, a3, digit);
        lemma_walks_views_stable(old(z).walk@, a0, a3, digit);
        lemma_conts_views_stable(old(z).containment@, a0, a3, digit);
        lemma_jumps_views_stable(old(z).jump@, a0, a3, digit);
        assert(paths_views(z.paths@, a3) =~= paths_views(paths0, a3).push(pview));
        assert(z@ =~= (GfaView { paths: old(z)@.paths.push(pview), ..old(z)@ }));
    }
    Ok(())
}

/// Decode and append one walk record.
fn read_walk_line(fields: &Vec<Vec<u8>>, z: &mut Gfa) -> (r: Result<(), GfaError>)
    requires
        old(z).wf(),
    ensures
        final(z).wf(),
        final(z).mode == old(z).mode,
        final(z).is_digit == old(z).is_digit,
        final(z).index_of_index@ == old(z).index_of_index@,
        final(z).index_low == old(z).index_low,
        old(z).sequence@.is_prefix_of(final(z).sequence@),
        match r {
            Ok(u) => spec_walk(fields.deep_view(), old(z).mode) is Ok && final(z)@ == (GfaView {
                walk: old(z)@.walk.push(spec_walk(fields.deep_view(), old(z).mode).unwrap()),
                ..old(z)@
            }) && final(z).sequence@ == old(z).sequence@ + (walk_entries_stored(
                fields.deep_view()[6],
                old(z).mode.digit_ids,
            ) + opt_stored(field_at(fields.deep_view(), 7), old(z).mode.store_opt)),
            Err(e) => spec_walk(fields.deep_view(), old(z).mode) == Err::<WalkView, GfaError>(e)
                && final(z)@ == old(z)@,
        },
{
    let ghost fv = fields.deep_view();
    let digit = z.mode.digit_ids;
    if fields.len() < 7 {
        proof {
            lemma_prefix_refl(z.sequence@);
        }
        return Err(GfaError::MissingField);
    }
    let ghost a0 = z.sequence@;
    proof {
        lemma_prefix_refl(z.sequence@);
        lemma_deep_bytes(fields@[1]);
        lemma_deep_bytes(fields@[2]);
        lemma_deep_bytes(fields@[3]);
        lemma_deep_bytes(fields@[4]);
        lemma_deep_bytes(fields@[5]);
        lemma_deep_bytes(fields@[6]);
    }
    let hap_index = match parse_u32_field(fields[2].as_slice()) {
        Ok(v) => v,
        Err(e) => {
            return Err(e);
        },
    };
    let seq_start = match parse_i32_field(fields[4].as_slice()) {
        Ok(v) => v,
        Err(e) => {
            return Err(e);
        },
    };
    let seq_end = match parse_i32_field(fields[5].as_slice()) {
        Ok(v) => v,
        Err(e) => {
            return Err(e);
        },
    };
    let entries = match parse_walk_entries(fields[6].as_slice(), digit, &mut z.sequence) {
        Ok(en) => en,
        Err(e) => {
            proof {
                lemma_gfa_view_stable(old(z), z);
            }
            return Err(e);
        },
    };
    let ghost a1 = z.sequence@;
    if 7 < fields.len() {
        proof {
            lemma_deep_bytes(fields@[7]);
        }
    }
    let opt = parse_opt_at(fields, 7, z.mode.store_opt, &mut z.sequence);
    let ghost a2 = z.sequence@;
    let sample_id = slice_to_vec_u8(fields[1].as_slice(), 0, fields[1].len());
    let seq_id = slice_to_vec_u8(fields[3].as_slice(), 0, fields[3].len());
    proof {
        assert(sample_id@ =~= fv[1]);
        assert(seq_id@ =~= fv[3]);
        lemma_prefix_trans(a0, a1, a2);
        lemma_ids_view_stable(entries.1@, a1, a2);
        assert forall|k: int| 0 <= k < entries.1@.len() implies (#[trigger] entries.1@[k]).wf(
            a2.len() as int,
        ) by {
            lemma_id_view_stable(entries.1@[k], a1, a2);
        }
    }
    let w = Walk {
        sample_id,
        hap_index,
        seq_id,
        seq_start,
        seq_end,
        walk_dir: entries.0,
        walk_id: entries.1,
        opt,
    };
    let ghost walks0 = z.walk@;
    let ghost wview = walk_view(w, a2);
    z.walk.push(w);
    proof {
        assert(a2 =~= a0 + (walk_entries_stored(fv[6], digit) + opt_stored(
            field_at(fv, 7),
            old(z).mode.store_opt,
        )));
        assert(z.walk@[walks0.len() as int].wf(a2.len() as int, digit));
        assert(spec_walk(fv, old(z).mode) == Ok::<WalkView, GfaError>(wview));
        lemma_segs_views_stable(old(z).segments@, a0, a2, digit);
        lemma_links_views_stable(old(z).links@, a0, a2, digit);
        lemma_paths_views_stable(old(z).paths@, a0, a2, digit);
        lemma_walks_views_stable(walks0, a0, a2, digit);
        lemma_conts_views_stable(old(z).containment@, a0, a2, digit);
        lemma_jumps_views_stable(old(z).jump@, a0, a2, digit);
        assert(walks_views(z.walk@, a2) =~= walks_views(walks0, a2).push(wview));
        assert(z@ =~= (GfaView { walk: old(z)@.walk.push(wview), ..old(z)@ }));
    }
    Ok(())
}

/// Decode and append one containment record.
fn read_containment_line(fields: &Vec<Vec<u8>>, z: &mut Gfa) -> (r: Result<(), GfaError>)
    requires
        old(z).wf(),
    ensures
        final(z).wf(),
        final(z).mode == old(z).mode,
        final(z).is_digit == old(z).is_digit,
        final(z).index_of_index@ == old(z).index_of_index@,
        final(z).index_low == old(z).index_low,
        old(z).sequence@.is_prefix_of(final(z).sequence@),
        match r {
            Ok(u) => spec_containment(fields.deep_view(), old(z).mode) is Ok && final(z)@
                == (GfaView {
                containment: old(z)@.containment.push(
                    spec_containment(fields.deep_view(), old(z).mode).unwrap(),
                ),
                ..old(z)@
            }) && final(z).sequence@ == old(z).sequence@ + (id_stored(
                fields.deep_view()[1],
                old(z).mode.digit_ids,
            ) + id_stored(fields.deep_view()[3], old(z).mode.digit_ids) + fields.deep_view()[6]
                + opt_stored(field_at(fields.deep_view(), 7), old(z).mode.store_opt)),
            Err(e) => spec_containment(fields.deep_view(), old(z).mode) == Err::<
                ContainmentView,
                GfaError,
            >(e) && final(z)@ == old(z)@,
        },
{
    let ghost fv = fields.deep_view();
    let digit = z.mode.digit_ids;
    if fields.len() < 7 {
        proof {
            lemma_prefix_refl(z.sequence@);
        }
        return Err(GfaError::MissingField);
    }
    let ghost a0 = z.sequence@;
    proof {
        lemma_deep_bytes(fields@[1]);
        lemma_deep_bytes(fields@[2]);
        lemma_deep_bytes(fields@[3]);
        lemma_deep_bytes(fields@[4]);
        lemma_deep_bytes(fields@[5]);
        lemma_deep_bytes(fields@[6]);
    }
    let container = match parse_id(fields[1].as_slice(), digit, &mut z.sequence) {
        Ok(id) => id,
        Err(e) => {
            proof {
                lemma_gfa_view_stable(old(z), z);
            }
            return Err(e);
        },
    };
    let ghost a1 = z.sequence@;
    let container_dir = match parse_dir(fields[2].as_slice()) {
        Ok(d) => d,
        Err(e) => {
            proof {
                lemma_gfa_view_stable(old(z), z);
            }
            return Err(e);
        },
    };
    let contained = match parse_id(fields[3].as_slice(), digit, &mut z.sequence) {
        Ok(id) => id,
        Err(e) => {
            proof {
                lemma_prefix_trans(a0, a1, z.sequence@);
                lemma_gfa_view_stable(old(z), z);
            }
            return Err(e);
        },
    };
    let ghost a2 = z.sequence@;
    proof {
        lemma_prefix_trans(a0, a1, a2);
    }
    let contained_dir = match parse_dir(fields[4].as_slice()) {
        Ok(d) => d,
        Err(e) => {
            proof {
                lemma_gfa_view_stable(old(z), z);
            }
            return Err(e);
        },
    };
    let pos = match parse_u32_field(fields[5].as_slice()) {
        Ok(v) => v,
        Err(e) => {
            proof {
                lemma_gfa_view_stable(old(z), z);
            }
            return Err(e);
        },
    };
    let overlap = store_slice(fields[6].as_slice(), &mut z.sequence);
    let ghost a3 = z.sequence@;
    if 7 < fields.len() {
        proof {
            lemma_deep_bytes(fields@[7]);
        }
    }
    let opt = parse_opt_at(fields, 7, z.mode.store_opt, &mut z.sequence);
    let ghost a4 = z.sequence@;
    proof {
        lemma_prefix_trans(a0, a2, a3);
        lemma_prefix_trans(a0, a3, a4);
        lemma_prefix_trans(a1, a2, a3);
        lemma_prefix_trans(a2, a3, a4);
        lemma_id_view_stable(container, a1, a2);
        lemma_id_view_stable(container, a2, a3);
        lemma_id_view_stable(container, a3, a4);
        lemma_id_view_stable(contained, a2, a3);
        lemma_id_view_stable(contained, a3, a4);
        lemma_content_stable(overlap, a3, a4);
    }
    let c = Containment { container, container_dir, contained, contained_dir, pos, overlap, opt };
    let ghost conts0 = z.containment@;
    z.containment.push(c);
    proof {
        assert(a4 =~= a0 + (id_stored(fv[1], digit) + id_stored(fv[3], digit) + fv[6] + opt_stored(
            field_at(fv, 7),
            old(z).mode.store_opt,
        )));
        assert(c.wf(a4.len() as int, digit));
        assert(spec_containment(fv, old(z).mode) == Ok::<ContainmentView, GfaError>(
            containment_view(c, a4),
        ));
        lemma_segs_views_stable(old(z).segments@, a0, a4, digit);
        lemma_links_views_stable(old(z).links@, a0, a4, digit);
        lemma_paths_views_stable(old(z).paths@, a0, a4, digit);
        lemma_walks_views_stable(old(z).walk@, a0, a4, digit);
        lemma_conts_views_stable(conts0, a0, a4, digit);
        lemma_jumps_views_stable(old(z).jump@, a0, a4, digit);
        assert(conts_views(z.containment@, a4) =~= conts_views(conts0, a4).push(
            containment_view(c, a4),
        ));
        assert(z@ =~= (GfaView {
            containment: old(z)@.containment.push(containment_view(c, a4)),
            ..old(z)@
        }));
    }
    Ok(())
}

/// Decode and append one jump record.
fn read_jump_line(fields: &Vec<Vec<u8>>, z: &mut Gfa) -> (r: Result<(), GfaError>)
    requires
        old(z).wf(),
    ensures
        final(z).wf(),
        final(z).mode == old(z).mode,
        final(z).is_digit == old(z).is_digit,
        final(z).index_of_index@ == old(z).index_of_index@,
        final(z).index_low == old(z).index_low,
        old(z).sequence@.is_prefix_of(final(z).sequence@),
        match r {
            Ok(u) => spec_jump(fields.deep_view(), old(z).mode) is Ok && final(z)@ == (GfaView {
                jump: old(z)@.jump.push(spec_jump(fields.deep_view(), old(z).mode).unwrap()),
                ..old(z)@
            }) && final(z).sequence@ == old(z).sequence@ + (id_stored(
                fields.deep_view()[1],
                old(z).mode.digit_ids,
            ) + id_stored(fields.deep_view()[3], old(z).mode.digit_ids) + opt_stored(
                field_at(fields.deep_view(), 6),
                old(z).mode.store_opt,
            )),
            Err(e) => spec_jump(fields.deep_view(), old(z).mode) == Err::<JumpView, GfaError>(e)
                && final(z)@ == old(z)@,
        },
{
    let ghost fv = fields.deep_view();
    let digit = z.mode.digit_ids;
    if fields.len() < 6 {
        proof {
            lemma_prefix_refl(z.sequence@);
        }
        return Err(GfaError::MissingField);
    }
    let ghost a0 = z.sequence@;
    proof {
        lemma_deep_bytes(fields@[1]);
        lemma_deep_bytes(fields@[2]);
        lemma_deep_bytes(fields@[3]);
        lemma_deep_bytes(fields@[4]);
        lemma_deep_bytes(fields@[5]);
    }
    let from = match parse_id(fields[1].as_slice(), digit, &mut z.sequence) {
        Ok(id) => id,
        Err(e) => {
            proof {
                lemma_gfa_view_stable(old(z), z);
            }
            return Err(e);
        },
    };
    let ghost a1 = z.sequence@;
    let from_dir = match parse_dir(fields[2].as_slice()) {
        Ok(d) => d,
        Err(e) => {
            proof {
                lemma_gfa_view_stable(old(z), z);
            }
            return Err(e);
        },
    };
    let to = match parse_id(fields[3].as_slice(), digit, &mut z.sequence) {
        Ok(id) => id,
        Err(e) => {
            proof {
                lemma_prefix_trans(a0, a1, z.sequence@);
                lemma_gfa_view_stable(old(z), z);
            }
            return Err(e);
        },
    };
    let ghost a2 = z.sequence@;
    proof {
        lemma_prefix_trans(a0, a1, a2);
    }
    let to_dir = match parse_dir(fields[4].as_slice()) {
        Ok(d) => d,
        Err(e) => {
            proof {
                lemma_gfa_view_stable(old(z), z);
            }
            return Err(e);
        },
    };
    let distfield = &fields[5];
    let distance: i64;
    if distfield.len() == 1 && distfield[0] == 42 {
        distance = -1;
    } else {
        match parse_i64(distfield.as_slice()) {
            Some(v) => {
                distance = v;
            },
            None => {
                proof {
                    lemma_gfa_view_stable(old(z), z);
                }
                return Err(GfaError::BadNumber);
            },
        }
    }
    if 6 < fields.len() {
        proof {
            lemma_deep_bytes(fields@[6]);
        }
    }
    let opt = parse_opt_at(fields, 6, z.mode.store_opt, &mut z.sequence);
    let ghost a3 = z.sequence@;
    proof {
        lemma_prefix_trans(a0, a2, a3);
        lemma_prefix_trans(a1, a2, a3);
        lemma_id_view_stable(from, a1, a2);
        lemma_id_view_stable(from, a2, a3);
        lemma_id_view_stable(to, a2, a3);
    }
    let j = Jump { from, from_dir, to, to_dir, distance, opt };
    let ghost jumps0 = z.jump@;
    z.jump.push(j);
    proof {
        assert(a3 =~= a0 + (id_stored(fv[1], digit) + id_stored(fv[3], digit) + opt_stored(
            field_at(fv, 6),
            old(z).mode.store_opt,
        )));
        assert(j.wf(a3.len() as int, digit));
        assert(spec_jump(fv, old(z).mode) == Ok::<JumpView, GfaError>(jump_view(j, a3)));
        lemma_segs_views_stable(old(z).segments@, a0, a3, digit);
        lemma_links_views_stable(old(z).links@, a0, a3, digit);
        lemma_paths_views_stable(old(z).paths@, a0, a3, digit);
        lemma_walks_views_stable(old(z).walk@, a0, a3, digit);
        lemma_conts_views_stable(old(z).containment@, a0, a3, digit);
        lemma_jumps_views_stable(jumps0, a0, a3, digit);
        assert(jumps_views(z.jump@, a3) =~= jumps_views(jumps0, a3).push(jump_view(j, a3)));
        assert(z@ =~= (GfaView { jump: old(z)@.jump.push(jump_view(j, a3)), ..old(z)@ }));
    }
    Ok(())
}

impl Gfa {
    /// Decode one line into the graph.
    ///
    /// On success exactly one record was appended (or the header replaced, or
    /// nothing for a blank or unknown-tag line); on error the graph is
    /// unchanged and the error says what was malformed.
    pub fn read_lines(line: &[u8], version: Version, z: &mut Gfa) -> (r: Result<(), GfaError>)
        requires
            old(z).wf(),
        ensures
            final(z).wf(),
            final(z).mode == old(z).mode,
            final(z).is_digit == old(z).is_digit,
            final(z).index_of_index@ == old(z).index_of_index@,
            final(z).index_low == old(z).index_low,
            old(z).sequence@.is_prefix_of(final(z).sequence@),
            match r {
                Ok(u) => spec_read_line(old(z)@, line@, version) == Ok::<GfaView, GfaError>(
                    final(z)@,
                ) && final(z).sequence@ == old(z).sequence@ + line_stored(
                    line@,
                    version,
                    old(z).mode,
                ),
                Err(e) => spec_read_line(old(z)@, line@, version) == Err::<GfaView, GfaError>(e)
                    && final(z)@ == old(z)@,
            },
    {
        let fields = split_fields(line);
        let ghost fv = fields.deep_view();
        proof {
            lemma_prefix_refl(z.sequence@);
        }
        if fields.len() == 0 {
            proof {
                assert(z.sequence@ =~= z.sequence@ + Seq::<u8>::empty());
            }
            return Ok(());
        }
        let tag = &fields[0];
        proof {
            lemma_deep_bytes(fields@[0]);
        }
        if tag.len() != 1 {
            proof {
                assert(z.sequence@ =~= z.sequence@ + Seq::<u8>::empty());
            }
            return Ok(());
        }
        let t = tag[0];
        if t == 83 {
            read_segment_line(&fields, version, z)
        } else if t == 72 {
            read_header_line(&fields, z)
        } else if t == 76 {
            read_link_line(&fields, z)
        } else if t == 80 {
            read_path_line(&fields, z)
        } else if t == 87 {
            read_walk_line(&fields, z)
        } else if t == 67 {
            read_containment_line(&fields, z)
        } else if t == 74 {
            read_jump_line(&fields, z)
        } else {
            proof {
                assert(z.sequence@ =~= z.sequence@ + Seq::<u8>::empty());
            }
            Ok(())
        }
    }
}

/// Compare two identifiers in the total order the lookup index uses.
fn id_le_exec(a: &Id, b: &Id, arena: &Vec<u8>) -> (r: bool)
    requires
        a.wf(arena@.len() as int),
        b.wf(arena@.len() as int),
    ensures
        r == id_le(id_view(*a, arena@), id_view(*b, arena@)),
{
    match (a, b) {
        (Id::Num(x), Id::Num(y)) => *x <= *y,
        (Id::Num(_), Id::Text(_)) => true,
        (Id::Text(_), Id::Num(_)) => false,
        (Id::Text(x), Id::Text(y)) => {
            let xs = x.get_string(arena.as_slice());
            let ys = y.get_string(arena.as_slice());
            crate::bytes::lex_le_exec(xs, ys)
        },
    }
}

/// Sort the segment vector by identifier: insertion sort into a fresh vector,
/// keeping the multiset of segments.
fn sort_segments(segs: &mut Vec<Segment>, arena: &Vec<u8>, Ghost(digit): Ghost<bool>)
    requires
        segs_wf(old(segs)@, arena@.len() as int, digit),
    ensures
        segs_wf(final(segs)@, arena@.len() as int, digit),
        final(segs)@.to_multiset() == old(segs)@.to_multiset(),
        segs_views(final(segs)@, arena@).to_multiset() == segs_views(old(segs)@, arena@)
            .to_multiset(),
        segs_sorted(segs_views(final(segs)@, arena@)),
{
    broadcast use vstd::seq_lib::to_multiset_insert;
    broadcast use vstd::seq_lib::to_multiset_build;

    let n = segs.len();
    let mut out: Vec<Segment> = Vec::new();
    let mut i: usize = 0;
    proof {
        assert(old(segs)@.take(0) =~= Seq::<Segment>::empty());
        assert(segs_views(old(segs)@.take(0), arena@) =~= Seq::<SegView>::empty());
        assert(Seq::<Segment>::empty().to_multiset() =~= out@.to_multiset());
        assert(Seq::<SegView>::empty().to_multiset() =~= segs_views(out@, arena@).to_multiset());
    }
    while i < n
        invariant
            0 <= i <= n,
            n == segs@.len(),
            segs@ == old(segs)@,
            segs_wf(segs@, arena@.len() as int, digit),
            segs_wf(out@, arena@.len() as int, digit),
            out@.to_multiset() == segs@.take(i as int).to_multiset(),
            segs_views(out@, arena@).to_multiset() == segs_views(segs@.take(i as int), arena@)
                .to_multiset(),
            segs_sorted(segs_views(out@, arena@)),
        decreases n - i,
    {
        let x = segs[i];
        let ghost xv = seg_view(x, arena@);
        let mut p: usize = 0;
        while p < out.len() && !id_le_exec(&x.id, &out[p].id, arena)
            invariant
                0 <= p <= out@.len(),
                segs_wf(out@, arena@.len() as int, digit),
                x.wf(arena@.len() as int, digit),
                xv == seg_view(x, arena@),
                forall|k: int|
                    0 <= k < p ==> !id_le(xv.id, segs_views(out@, arena@)[k].id),
            decreases out@.len() - p,
        {
            p = p + 1;
        }
        let ghost out0 = out@;
        let ghost ov0 = segs_views(out@, arena@);
        out.insert(p, x);
        proof {
            let ov = segs_views(out@, arena@);
            assert(out@ == out0.insert(p as int, x));
            assert(ov =~= ov0.insert(p as int, xv));
            // multiset bookkeeping
            assert(segs@.take(i + 1) =~= segs@.take(i as int).push(segs@[i as int]));
            vstd::seq_lib::to_multiset_insert(out0, p as int, x);
            vstd::seq_lib::to_multiset_build(segs@.take(i as int), segs@[i as int]);
            assert(out@.to_multiset() == segs@.take(i + 1).to_multiset());
            vstd::seq_lib::to_multiset_insert(ov0, p as int, xv);
            vstd::seq_lib::to_multiset_build(segs_views(segs@.take(i as int), arena@), xv);
            assert(ov.to_multiset() == segs_views(segs@.take(i + 1), arena@).to_multiset()) by {
                assert(segs_views(segs@.take(i + 1), arena@) =~= segs_views(
                    segs@.take(i as int),
                    arena@,
                ).push(xv));
            }
            // sortedness: entries before p are strictly below x, entries from p
            // on are at or above it
            assert forall|a: int, b: int| 0 <= a < b < ov.len() implies id_le(
                (#[trigger] ov[a]).id,
                (#[trigger] ov[b]).id,
            ) by {
                if b < p {
                    assert(ov[a] == ov0[a] && ov[b] == ov0[b]);
                } else if a > p {
                    assert(ov[a] == ov0[a - 1] && ov[b] == ov0[b - 1]);
                } else if a < p && b == p {
                    assert(ov[a] == ov0[a] && ov[b] == xv);
                    lemma_id_le_total(xv.id, ov0[a].id);
                } else if a == p && b > p {
                    assert(ov[a] == xv && ov[b] == ov0[b - 1]);
                    assert(id_le(xv.id, ov0[p as int].id));
                    if b - 1 > p {
                        assert(id_le(ov0[p as int].id, ov0[b - 1].id));
                        lemma_id_le_trans(xv.id, ov0[p as int].id, ov0[b - 1].id);
                    }
                } else if a < p && b > p {
                    assert(ov[a] == ov0[a] && ov[b] == ov0[b - 1]);
                }
            }
        }
        i = i + 1;
    }
    proof {
        assert(segs@.take(i as int) =~= segs@);
    }
    *segs = out;
}

impl Gfa {
    /// Sort segments by identifier, set the representation flag, and build the
    /// dense lookup table when identifiers are numeric and their range is not
    /// much wider than the segment count; a wider range falls back to binary
    /// search rather than allocating an outsized table.
    pub(crate) fn finalize(&mut self)
        requires
            old(self).wf(),
        ensures
            final(self).finalized(),
            final(self).mode == old(self).mode,
            final(self).sequence@ == old(self).sequence@,
            final(self)@.header == old(self)@.header,
            final(self)@.segments.to_multiset() == old(self)@.segments.to_multiset(),
            final(self)@.links == old(self)@.links,
            final(self)@.paths == old(self)@.paths,
            final(self)@.jump == old(self)@.jump,
            final(self)@.containment == old(self)@.containment,
            final(self)@.walk == old(self)@.walk,
            final(self)@.mode == old(self)@.mode,
            final(self).is_digit == old(self).mode.digit_ids,
            final(self).segments@.len() == 0 ==> final(self).index_low == 0,
            final(self).segments@.len() > 0 ==> final(self).index_low
                == final(self).segments@[0].id.spec_usize(),
            forall|j: int|
                0 <= j < final(self).segments@.len() ==> final(self).index_low <= (
                #[trigger] final(self).segments@[j]).id.spec_usize(),
    {
        let digit = self.mode.digit_ids;
        sort_segments(&mut self.segments, &self.sequence, Ghost(digit));
        self.is_digit = digit;
        self.build_index();
    }

    /// Rebuild the lookup index over an already sorted segment vector.
    pub(crate) fn build_index(&mut self)
        requires
            old(self).wf(),
            segs_sorted(old(self)@.segments),
            old(self).is_digit == old(self).mode.digit_ids,
        ensures
            final(self).finalized(),
            final(self).mode == old(self).mode,
            final(self).is_digit == old(self).is_digit,
            final(self).sequence@ == old(self).sequence@,
            final(self).segments@ == old(self).segments@,
            final(self)@ == old(self)@,
            final(self).segments@.len() == 0 ==> final(self).index_low == 0,
            final(self).segments@.len() > 0 ==> final(self).index_low
                == final(self).segments@[0].id.spec_usize(),
            forall|j: int|
                0 <= j < final(self).segments@.len() ==> final(self).index_low <= (
                #[trigger] final(self).segments@[j]).id.spec_usize(),
    {
        let digit = self.mode.digit_ids;
        self.index_of_index = Vec::new();
        let n = self.segments.len();
        if n == 0 {
            self.index_low = 0;
            return ;
        }
        let low = self.segments[0].id.get_usize();
        self.index_low = low;
        if !digit {
            proof {
                // text identifiers all map to the same base value
                assert forall|j: int| 0 <= j < n implies low <= (
                #[trigger] self.segments@[j]).id.spec_usize() by {
                    assert(self.segments@[j].id.matches(false));
                    assert(self.segments@[0].id.matches(false));
                }
            }
            return ;
        }
        let high = self.segments[n - 1].id.get_usize();
        let ghost sv = segs_views(self.segments@, self.sequence@);
        proof {
            assert forall|j: int| 0 <= j < n implies low <= (#[trigger] self.segments@[j]).id.spec_usize()
                <= high by {
                assert(self.segments@[j].id.matches(true));
                assert(sv[0].id == id_view(self.segments@[0].id, self.sequence@));
                assert(sv[j].id == id_view(self.segments@[j].id, self.sequence@));
                assert(sv[n - 1].id == id_view(self.segments@[n - 1].id, self.sequence@));
                if j > 0 {
                    assert(id_le(sv[0].id, sv[j].id));
                }
                if j < n - 1 {
                    assert(id_le(sv[j].id, sv[n - 1].id));
                }
            }
        }
        let range = high - low;
        if !(range < usize::MAX && range / 4 < n) {
            return ;
        }
        let mut table: Vec<usize> = vec![0; range + 1];
        let mut j: usize = 0;
        while j < n
            invariant
                0 <= j <= n,
                n == self.segments@.len(),
                table@.len() == range + 1,
                range == high - low,
                forall|k: int|
                    0 <= k < n ==> low <= (#[trigger] self.segments@[k]).id.spec_usize() <= high
                        && self.segments@[k].id.matches(true),
                forall|k: int|
                    0 <= k < j ==> {
                        let v = (#[trigger] self.segments@[k]).id.spec_usize();
                        table@[v - low] < n && self.segments@[table@[v - low] as int].id == Id::Num(
                            v,
                        )
                    },
            decreases n - j,
        {
            let v = self.segments[j].id.get_usize();
            table.set(v - low, j);
            proof {
                assert(self.segments@[j as int].id == Id::Num(v));
            }
            j = j + 1;
        }
        self.index_of_index = table;
        proof {
            assert(self.index_ok()) by {
                assert forall|k: int| 0 <= k < n implies match (#[trigger] self.segments@[k]).id {
                    Id::Num(v) => {
                        &&& self.index_low <= v
                        &&& v - self.index_low < self.index_of_index@.len()
                        &&& self.index_of_index@[v - self.index_low] < self.segments@.len()
                        &&& self.segments@[self.index_of_index@[v - self.index_low] as int].id
                            == Id::Num(v)
                    },
                    Id::Text(_) => true,
                } by {
                    assert(self.segments@[k].id.matches(true));
                }
            }
        }
    }
}

/// A position holding `id` makes the linear scan find one.
proof fn lemma_find_some(segs: Seq<SegView>, id: IdView, i: int)
    requires
        0 <= i < segs.len(),
        segs[i].id == id,
    ensures
        find_seg(segs, id) is Some,
{
    lemma_find_seg(segs, id);
}

/// No position holding `id` makes the linear scan miss.
proof fn lemma_find_none(segs: Seq<SegView>, id: IdView)
    requires
        forall|j: int| 0 <= j < segs.len() ==> (#[trigger] segs[j]).id != id,
    ensures
        find_seg(segs, id) is None,
{
    lemma_find_seg(segs, id);
}

impl Gfa {
    /// Binary-search lookup over the sorted segment vector; serves text
    /// identifiers and numeric graphs without a dense table.
    ///
    /// The result agrees with a linear scan: `Some` exactly when the
    /// identifier is present, and the returned segment carries it.
    pub fn get_node_nondigit(&self, id: &Id) -> (r: Option<&Segment>)
        requires
            self.finalized(),
            id.wf(self.sequence@.len() as int),
        ensures
            match r {
                Some(seg) => {
                    &&& find_seg(self@.segments, id_view(*id, self.sequence@)) is Some
                    &&& seg.wf(self.sequence@.len() as int, self.mode.digit_ids)
                    &&& exists|i: int|
                        0 <= i < self@.segments.len() && #[trigger] self@.segments[i] == seg_view(
                            *seg,
                            self.sequence@,
                        ) && self@.segments[i].id == id_view(*id, self.sequence@)
                },
                None => find_seg(self@.segments, id_view(*id, self.sequence@)) is None,
            },
    {
        let ghost sv = self@.segments;
        let ghost q = id_view(*id, self.sequence@);
        let mut lo: usize = 0;
        let mut hi: usize = self.segments.len();
        while lo < hi
            invariant
                0 <= lo <= hi <= self.segments@.len(),
                self.finalized(),
                id.wf(self.sequence@.len() as int),
                sv == self@.segments,
                q == id_view(*id, self.sequence@),
                forall|k: int| 0 <= k < sv.len() && (#[trigger] sv[k]).id == q ==> lo <= k < hi,
            decreases hi - lo,
        {
            let mid = lo + (hi - lo) / 2;
            let le1 = id_le_exec(&self.segments[mid].id, id, &self.sequence);
            proof {
                assert(sv[mid as int].id == id_view(self.segments@[mid as int].id, self.sequence@));
            }
            if le1 {
                let le2 = id_le_exec(id, &self.segments[mid].id, &self.sequence);
                if le2 {
                    proof {
                        lemma_id_le_antisym(sv[mid as int].id, q);
                        lemma_find_some(sv, q, mid as int);
                    }
                    return Some(&self.segments[mid]);
                } else {
                    proof {
                        assert forall|k: int| 0 <= k < sv.len() && (#[trigger] sv[k]).id == q
                            implies mid + 1 <= k < hi by {
                            if k <= mid {
                                if k < mid {
                                    assert(id_le(sv[k].id, sv[mid as int].id));
                                    lemma_id_le_trans(q, sv[k].id, sv[mid as int].id)
                                } else {
                                    assert(id_le(q, sv[mid as int].id)) by {
                                        lemma_id_le_total(q, sv[mid as int].id);
                                    }
                                }
                                assert(id_le(q, sv[mid as int].id)) by {
                                    if k < mid {
                                        lemma_id_le_total(q, q);
                                        assert(id_le(q, sv[k].id)) by {
                                            lemma_id_le_total(q, sv[k].id);
                                        }
                                        lemma_id_le_trans(q, sv[k].id, sv[mid as int].id);
                                    } else {
                                        lemma_id_le_total(q, sv[mid as int].id);
                                    }
                                }
                            }
                        }
                    }
                    lo = mid + 1;
                }
            } else {
                proof {
                    lemma_id_le_total(sv[mid as int].id, q);
                    assert forall|k: int| 0 <= k < sv.len() && (#[trigger] sv[k]).id == q
                        implies lo <= k < mid by {
                        if k >= mid {
                            if k > mid {
                                assert(id_le(sv[mid as int].id, sv[k].id));
                            }
                        }
                    }
                }
                hi = mid;
            }
        }
        proof {
            assert forall|j: int| 0 <= j < sv.len() implies (#[trigger] sv[j]).id != q by {}
            lemma_find_none(sv, q);
        }
        None
    }
}

impl Gfa {
    /// Dense lookup of a numeric identifier through the position table, with
    /// binary search as the fallback when no table was built.
    ///
    /// Agrees with a linear scan for the identifier `Num(*id)`.
    pub fn get_node_digit(&self, id: &usize) -> (r: Option<&Segment>)
        requires
            self.finalized(),
        ensures
            match r {
                Some(seg) => {
                    &&& find_seg(self@.segments, IdView::Num(*id)) is Some
                    &&& seg.wf(self.sequence@.len() as int, self.mode.digit_ids)
                    &&& exists|i: int|
                        0 <= i < self@.segments.len() && #[trigger] self@.segments[i] == seg_view(
                            *seg,
                            self.sequence@,
                        ) && self@.segments[i].id == IdView::Num(*id)
                },
                None => find_seg(self@.segments, IdView::Num(*id)) is None,
            },
    {
        let ghost sv = self@.segments;
        if self.index_of_index.len() == 0 {
            return self.get_node_nondigit(&Id::Num(*id));
        }
        if *id >= self.index_low && *id - self.index_low < self.index_of_index.len() {
            let pos = self.index_of_index[*id - self.index_low];
            if pos < self.segments.len() {
                let seg = &self.segments[pos];
                let matched = match &seg.id {
                    Id::Num(v) => *v == *id,
                    Id::Text(_) => false,
                };
                if matched {
                    proof {
                        assert(sv[pos as int] == seg_view(self.segments@[pos as int],
                        self.sequence@));
                        assert(sv[pos as int].id == IdView::Num(*id));
                        lemma_find_some(sv, IdView::Num(*id), pos as int);
                    }
                    return Some(seg);
                }
            }
        }
        proof {
            assert forall|j: int| 0 <= j < sv.len() implies (#[trigger] sv[j]).id != IdView::Num(
                *id,
            ) by {
                if sv[j].id == IdView::Num(*id) {
                    assert(sv[j] == seg_view(self.segments@[j], self.sequence@));
                    match self.segments@[j].id {
                        Id::Num(v) => {
                            assert(v == *id);
                            assert(self.segments@[j].id == Id::Num(*id));
                        },
                        Id::Text(_) => {
                            assert(false);
                        },
                    }
                }
            }
            lemma_find_none(sv, IdView::Num(*id));
        }
        None
    }

    /// Look a segment up by identifier, through whichever index strategy the
    /// graph was finalized with.
    pub fn get_node_by_id(&self, id: &Id) -> (r: Option<&Segment>)
        requires
            self.finalized(),
            id.wf(self.sequence@.len() as int),
            id.matches(self.is_digit),
        ensures
            match r {
                Some(seg) => {
                    &&& find_seg(self@.segments, id_view(*id, self.sequence@)) is Some
                    &&& seg.wf(self.sequence@.len() as int, self.mode.digit_ids)
                    &&& exists|i: int|
                        0 <= i < self@.segments.len() && #[trigger] self@.segments[i] == seg_view(
                            *seg,
                            self.sequence@,
                        ) && self@.segments[i].id == id_view(*id, self.sequence@)
                },
                None => find_seg(self@.segments, id_view(*id, self.sequence@)) is None,
            },
    {
        if self.is_digit {
            let v = id.get_usize();
            proof {
                assert(id_view(*id, self.sequence@) == IdView::Num(v));
            }
            self.get_node_digit(&v)
        } else {
            self.get_node_nondigit(id)
        }
    }

    /// The sequence text of the segment with this identifier.
    pub fn get_sequence_by_id(&self, id: &Id) -> (r: Option<&[u8]>)
        requires
            self.finalized(),
            id.wf(self.sequence@.len() as int),
            id.matches(self.is_digit),
        ensures
            match r {
                Some(b) => exists|i: int|
                    0 <= i < self@.segments.len() && (#[trigger] self@.segments[i]).id == id_view(
                        *id,
                        self.sequence@,
                    ) && self@.segments[i].sequence == b@,
                None => find_seg(self@.segments, id_view(*id, self.sequence@)) is None,
            },
    {
        match self.get_node_by_id(id) {
            Some(seg) => {
                let s = seg.sequence.get_string(self.sequence.as_slice());
                Some(s)
            },
            None => None,
        }
    }

    /// The sequence text of the segment whose number is this identifier's
    /// numeric value, through the dense strategy.
    pub fn get_sequence_by_digit(&self, id: &Id) -> (r: Option<&[u8]>)
        requires
            self.finalized(),
        ensures
            match r {
                Some(b) => exists|i: int|
                    0 <= i < self@.segments.len() && (#[trigger] self@.segments[i]).id
                        == IdView::Num(id.spec_usize()) && self@.segments[i].sequence == b@,
                None => find_seg(self@.segments, IdView::Num(id.spec_usize())) is None,
            },
    {
        let v = id.get_usize();
        match self.get_node_digit(&v) {
            Some(seg) => {
                let s = seg.sequence.get_string(self.sequence.as_slice());
                Some(s)
            },
            None => None,
        }
    }

    /// Binary-search lookup of a numeric identifier, regardless of whether the
    /// dense table exists.
    pub fn get_ind(&self, id: usize) -> (r: Option<&Segment>)
        requires
            self.finalized(),
        ensures
            match r {
                Some(seg) => {
                    &&& find_seg(self@.segments, IdView::Num(id)) is Some
                    &&& exists|i: int|
                        0 <= i < self@.segments.len() && #[trigger] self@.segments[i] == seg_view(
                            *seg,
                            self.sequence@,
                        ) && self@.segments[i].id == IdView::Num(id)
                },
                None => find_seg(self@.segments, IdView::Num(id)) is None,
            },
    {
        self.get_node_nondigit(&Id::Num(id))
    }

    /// The smallest identifier value, set at finalize time; the dense table's
    /// base.
    pub fn get_index_low(&self) -> (r: usize)
        ensures
            r == self.index_low,
    {
        self.index_low
    }

    /// Whether the identifiers are exactly `1, 2, ..., n` in sorted order.
    pub fn is_compact(&self) -> (r: bool)
        requires
            self.finalized(),
            self.is_digit,
            self.segments@.len() > 0,
        ensures
            r == spec_compact(self@.segments),
    {
        let ghost sv = self@.segments;
        let n = self.segments.len();
        let mut i: usize = 0;
        while i < n
            invariant
                0 <= i <= n,
                n == self.segments@.len(),
                sv == self@.segments,
                self.finalized(),
                forall|k: int| 0 <= k < i ==> (#[trigger] sv[k]).id == IdView::Num((k + 1) as usize),
            decreases n - i,
        {
            let ok = match &self.segments[i].id {
                Id::Num(v) => *v == i + 1,
                Id::Text(_) => false,
            };
            proof {
                assert(sv[i as int] == seg_view(self.segments@[i as int], self.sequence@));
            }
            if !ok {
                proof {
                    assert(sv[i as int].id != IdView::Num((i + 1) as usize));
                }
                return false;
            }
            i = i + 1;
        }
        true
    }
}

/// Read the declared format version: scan for the first header line and parse
/// the third colon-separated part of its second field.
pub fn get_version(lines: &Vec<Vec<u8>>) -> (r: Result<Version, GfaError>)
    ensures
        r == spec_get_version(lines.deep_view()),
{
    let ghost ld = lines.deep_view();
    let n = lines.len();
    let mut i: usize = 0;
    proof {
        assert(ld.skip(0) =~= ld);
    }
    while i < n
        invariant
            0 <= i <= n,
            n == lines@.len(),
            ld == lines.deep_view(),
            ld.len() == n,
            spec_get_version(ld) == spec_get_version(ld.skip(i as int)),
        decreases n - i,
    {
        let line = &lines[i];
        proof {
            lemma_deep_bytes(lines@[i as int]);
            assert(ld.skip(i as int)[0] == ld[i as int]);
            assert(ld.skip(i as int).skip(1) =~= ld.skip(i + 1));
        }
        if line.len() > 0 && line[0] == 72 {
            let fields = split_fields(line.as_slice());
            if fields.len() < 2 {
                return Err(GfaError::MissingField);
            }
            proof {
                lemma_deep_bytes(fields@[1]);
            }
            let parts = split_by(fields[1].as_slice(), 58);
            if parts.len() < 3 {
                return Err(GfaError::BadHeader);
            }
            proof {
                lemma_deep_bytes(parts@[2]);
            }
            let dots = split_by(parts[2].as_slice(), 46);
            if dots.len() == 1 {
                proof {
                    lemma_deep_bytes(dots@[0]);
                }
                match parse_u32_field(dots[0].as_slice()) {
                    Ok(major) => {
                        return Ok(Version { major, minor: 0 });
                    },
                    Err(e) => {
                        return Err(e);
                    },
                }
            } else if dots.len() == 2 {
                proof {
                    lemma_deep_bytes(dots@[0]);
                    lemma_deep_bytes(dots@[1]);
                }
                let major = match parse_u32_field(dots[0].as_slice()) {
                    Ok(v) => v,
                    Err(e) => {
                        return Err(e);
                    },
                };
                match parse_u32_field(dots[1].as_slice()) {
                    Ok(minor) => {
                        return Ok(Version { major, minor });
                    },
                    Err(e) => {
                        return Err(e);
                    },
                }
            } else {
                return Err(GfaError::BadNumber);
            }
        }
        i = i + 1;
    }
    proof {
        assert(ld.skip(i as int) =~= Seq::<Seq<u8>>::empty());
    }
    Ok(Version { major: 0, minor: 0 })
}

impl Gfa {
    /// Parse a whole line stream sequentially and finalize the result.
    ///
    /// On success the graph is the model fold of the lines, with segments
    /// sorted and the lookup index built; the first malformed line aborts the
    /// parse with its error and no graph is produced.
    pub fn parse_gfa_file(lines: &Vec<Vec<u8>>, mode: ParseMode) -> (r: Result<Gfa, GfaError>)
        ensures
            match r {
                Ok(g) => match spec_get_version(lines.deep_view()) {
                    Ok(version) => match spec_parse_lines(
                        empty_gfa(mode),
                        lines.deep_view(),
                        version,
                    ) {
                        Ok(m) => {
                            &&& g.finalized()
                            &&& g.mode == mode
                            &&& g.is_digit == mode.digit_ids
                            &&& g@.header == m.header
                            &&& (g.segments@.len() == 0 ==> g.index_low == 0)
                            &&& (g.segments@.len() > 0 ==> g.index_low
                                == g.segments@[0].id.spec_usize())
                            &&& g@.segments.to_multiset() == m.segments.to_multiset()
                            &&& segs_sorted(g@.segments)
                            &&& g@.links == m.links
                            &&& g@.paths == m.paths
                            &&& g@.jump == m.jump
                            &&& g@.containment == m.containment
                            &&& g@.walk == m.walk
                            &&& g@.mode == mode
                        },
                        Err(_) => false,
                    },
                    Err(_) => false,
                },
                Err(e) => match spec_get_version(lines.deep_view()) {
                    Ok(version) => spec_parse_lines(empty_gfa(mode), lines.deep_view(), version)
                        == Err::<GfaView, GfaError>(e),
                    Err(e1) => e == e1,
                },
            },
    {
        let ghost ld = lines.deep_view();
        let version = match get_version(lines) {
            Ok(v) => v,
            Err(e) => {
                return Err(e);
            },
        };
        let mut g = Gfa::new(mode);
        let n = lines.len();
        let mut i: usize = 0;
        proof {
            assert(ld.skip(0) =~= ld);
        }
        while i < n
            invariant
                0 <= i <= n,
                n == lines@.len(),
                ld == lines.deep_view(),
                ld.len() == n,
                g.wf(),
                g.mode == mode,
                spec_get_version(ld) == Ok::<Version, GfaError>(version),
                spec_parse_lines(empty_gfa(mode), ld, version) == spec_parse_lines(
                    g@,
                    ld.skip(i as int),
                    version,
                ),
            decreases n - i,
        {
            proof {
                lemma_deep_bytes(lines@[i as int]);
                assert(ld.skip(i as int)[0] == ld[i as int]);
                assert(ld.skip(i as int).skip(1) =~= ld.skip(i + 1));
            }
            match Gfa::read_lines(lines[i].as_slice(), version, &mut g) {
                Ok(_) => {},
                Err(e) => {
                    return Err(e);
                },
            }
            i = i + 1;
        }
        proof {
            assert(ld.skip(i as int) =~= Seq::<Seq<u8>>::empty());
        }
        g.finalize();
        Ok(g)
    }
}

impl Gfa {
    /// Convert every walk into a path whose name joins the walk's sample,
    /// haplotype number and coordinate range with `sep`, then drop the walks.
    pub fn walk_to_path(&mut self, sep: &[u8])
        requires
            old(self).wf(),
        ensures
            final(self).wf(),
            final(self).mode == old(self).mode,
            final(self).is_digit == old(self).is_digit,
            final(self).index_of_index@ == old(self).index_of_index@,
            final(self).index_low == old(self).index_low,
            final(self).sequence@ == old(self).sequence@,
            final(self)@.segments == old(self)@.segments,
            final(self)@.links == old(self)@.links,
            final(self)@.jump == old(self)@.jump,
            final(self)@.containment == old(self)@.containment,
            final(self)@.header == old(self)@.header,
            final(self)@.walk.len() == 0,
            final(self)@.paths == old(self)@.paths + Seq::new(
                old(self)@.walk.len(),
                |i: int| walk_as_path(old(self)@.walk[i], sep@, old(self).mode),
            ),
            old(self).finalized() ==> final(self).finalized(),
    {
        let ghost ow = old(self).walk@;
        let ghost arena = self.sequence@;
        let ghost mode = self.mode;
        let n = self.walk.len();
        let mut k: usize = 0;
        while k < n
            invariant
                0 <= k <= n,
                n == ow.len(),
                self.wf(),
                self.mode == mode,
                self.is_digit == old(self).is_digit,
                self.index_of_index@ == old(self).index_of_index@,
                self.index_low == old(self).index_low,
                self.sequence@ == arena,
                arena == old(self).sequence@,
                self.segments@ == old(self).segments@,
                self.links@ == old(self).links@,
                self.jump@ == old(self).jump@,
                self.containment@ == old(self).containment@,
                self.header@ == old(self).header@,
                self.walk@ == ow.skip(k as int),
                walks_wf(ow, arena.len() as int, mode.digit_ids),
                self.paths@.len() == old(self).paths@.len() + k,
                paths_views(self.paths@, arena) == paths_views(old(self).paths@, arena) + Seq::new(
                    k as nat,
                    |i: int| walk_as_path(walk_view(ow[i], arena), sep@, mode),
                ),
            decreases n - k,
        {
            proof {
                assert(ow.skip(k as int)[0] == ow[k as int]);
                assert(ow.skip(k as int).skip(1) =~= ow.skip(k + 1));
            }
            let w = self.walk.remove(0);
            let mut name = w.sample_id;
            push_bytes(&mut name, sep);
            crate::bytes::push_u_dec(w.hap_index as u64, &mut name);
            push_bytes(&mut name, sep);
            push_bytes(&mut name, w.seq_id.as_slice());
            name.push(58);
            crate::bytes::push_i_dec(w.seq_start as i64, &mut name);
            name.push(45);
            crate::bytes::push_i_dec(w.seq_end as i64, &mut name);
            let overlap: Opt = if self.mode.store_overlap {
                Opt::Present(SeqIndex { start: 0, end: 0 })
            } else {
                Opt::Absent
            };
            let p = Path { name, dir: w.walk_dir, nodes: w.walk_id, overlap, opt: w.opt };
            let ghost prev = self.paths@;
            self.paths.push(p);
            proof {
                let wv = walk_view(ow[k as int], arena);
                assert(overlap.wf(arena.len() as int));
                assert(opt_view(overlap, arena) == spec_opt(None, mode.store_overlap)) by {
                    if mode.store_overlap {
                        assert(SeqIndex { start: 0, end: 0 }.content(arena) =~= Seq::<u8>::empty());
                    }
                }
                assert(path_view(self.paths@[prev.len() as int], arena) =~= walk_as_path(
                    wv,
                    sep@,
                    mode,
                ));
                assert(paths_views(self.paths@, arena) =~= paths_views(prev, arena).push(
                    walk_as_path(wv, sep@, mode),
                ));
                assert(paths_views(old(self).paths@, arena) + Seq::new(
                    (k + 1) as nat,
                    |i: int| walk_as_path(walk_view(ow[i], arena), sep@, mode),
                ) =~= (paths_views(old(self).paths@, arena) + Seq::new(
                    k as nat,
                    |i: int| walk_as_path(walk_view(ow[i], arena), sep@, mode),
                )).push(walk_as_path(wv, sep@, mode)));
            }
            k = k + 1;
        }
        proof {
            assert(ow.skip(n as int) =~= Seq::<Walk>::empty());
            assert(walks_views(self.walk@, arena) =~= Seq::<crate::model::WalkView>::empty());
            assert(final(self)@.paths =~= old(self)@.paths + Seq::new(
                old(self)@.walk.len(),
                |i: int| walk_as_path(old(self)@.walk[i], sep@, mode),
            )) by {
                assert forall|i: int| 0 <= i < ow.len() implies old(self)@.walk[i] == walk_view(
                    ow[i],
                    arena,
                ) by {}
            }
        }
    }

}

/// Whether every segment line of the given line stream carries a decimal
/// identifier that fits 64 bits.
pub fn check_numeric_gfafile(lines: &Vec<Vec<u8>>) -> (r: bool)
    ensures
        r == spec_check_numeric(lines.deep_view()),
{
    let ghost ld = lines.deep_view();
    let n = lines.len();
    let mut i: usize = 0;
    while i < n
        invariant
            0 <= i <= n,
            n == lines@.len(),
            ld == lines.deep_view(),
            ld.len() == n,
            forall|k: int| 0 <= k < i ==> line_numeric(#[trigger] ld[k]),
        decreases n - i,
    {
        let line = &lines[i];
        proof {
            lemma_deep_bytes(lines@[i as int]);
        }
        if line.len() > 0 && line[0] == 83 {
            let fields = split_fields(line.as_slice());
            if fields.len() < 2 {
                proof {
                    assert(!line_numeric(ld[i as int]));
                }
                return false;
            }
            proof {
                lemma_deep_bytes(fields@[1]);
            }
            match parse_u64(fields[1].as_slice()) {
                Some(_) => {},
                None => {
                    proof {
                        assert(!line_numeric(ld[i as int]));
                    }
                    return false;
                },
            }
        }
        i = i + 1;
}
true
}

/// The integer values of a vector of 64-bit numbers.
pub open spec fn u64s_to_ints(s: Seq<u64>) -> Seq<int> {
    Seq::new(s.len(), |i: int| s[i] as int)
}

/// Sort 64-bit values: insertion into a fresh vector, keeping the multiset.
fn sort_u64s(v: &mut Vec<u64>)
    ensures
        final(v)@.to_multiset() == old(v)@.to_multiset(),
        sorted_int(u64s_to_ints(final(v)@)),
{
    broadcast use vstd::seq_lib::to_multiset_insert;
    broadcast use vstd::seq_lib::to_multiset_build;

    let n = v.len();
    let mut out: Vec<u64> = Vec::new();
    let mut i: usize = 0;
    proof {
        assert(old(v)@.take(0) =~= Seq::<u64>::empty());
        assert(Seq::<u64>::empty().to_multiset() =~= out@.to_multiset());
    }
    while i < n
        invariant
            0 <= i <= n,
            n == v@.len(),
            v@ == old(v)@,
            out@.to_multiset() == v@.take(i as int).to_multiset(),
            sorted_int(u64s_to_ints(out@)),
        decreases n - i,
    {
        let x = v[i];
        let mut p: usize = 0;
        while p < out.len() && out[p] <= x
            invariant
                0 <= p <= out@.len(),
                forall|k: int| 0 <= k < p ==> out@[k] <= x,
            decreases out@.len() - p,
        {
            p = p + 1;
        }
        let ghost out0 = out@;
        proof {
            if p < out@.len() {
                assert(out@[p as int] > x);
            }
        }
        out.insert(p, x);
        proof {
            vstd::seq_lib::to_multiset_insert(out0, p as int, x);
            vstd::seq_lib::to_multiset_build(v@.take(i as int), v@[i as int]);
            assert(v@.take(i + 1) =~= v@.take(i as int).push(v@[i as int]));
            let ov = u64s_to_ints(out@);
            let ov0 = u64s_to_ints(out0);
            assert forall|a: int, b: int| 0 <= a < b < ov.len() implies #[trigger] ov[a]
                <= #[trigger] ov[b] by {
                if b < p {
                    assert(out@[a] == out0[a] && out@[b] == out0[b]);
                    assert(ov0[a] <= ov0[b]);
                } else if a > p {
                    assert(out@[a] == out0[a - 1] && out@[b] == out0[b - 1]);
                    assert(ov0[a - 1] <= ov0[b - 1]);
                } else if a < p && b == p {
                    assert(out@[a] == out0[a]);
                } else if a == p && b > p {
                    assert(out@[b] == out0[b - 1]);
                    assert(p < out0.len());
                    assert(x < out0[p as int]);
                    if b - 1 > p {
                        assert(ov0[p as int] <= ov0[b - 1]);
                    }
                } else if a < p && b > p {
                    assert(out@[a] == out0[a] && out@[b] == out0[b - 1]);
                    assert(p < out0.len());
                    assert(x < out0[p as int]);
                    assert(out0[a as int] <= x);
                    if b - 1 > p {
                        assert(ov0[p as int] <= ov0[b - 1]);
                    }
                }
            }
        }
        i = i + 1;
    }
    proof {
        assert(v@.take(i as int) =~= v@);
    }
    *v = out;
}

/// Whether every segment line is numeric, and whether the identifier set is
/// exactly `{1, ..., n}` for the `n` segment lines.
///
/// A file with a non-numeric segment identifier reports `(false, false)`; a
/// numeric file reports compactness of its sorted identifier set; a file
/// without segment lines is numeric but not compact.
pub fn check_numeric_compact_gfafile(lines: &Vec<Vec<u8>>) -> (r: (bool, bool))
    ensures
        r.0 == spec_check_numeric(lines.deep_view()),
        r.1 == (r.0 && s_id_vals(lines.deep_view()).len() > 0 && s_id_vals(
            lines.deep_view(),
        ).to_set() == vstd::set_lib::set_int_range(
            1,
            s_id_vals(lines.deep_view()).len() as int + 1,
        )),
{
    broadcast use vstd::seq_lib::to_multiset_contains;

    let ghost ld = lines.deep_view();
    let n = lines.len();
    let mut vals: Vec<u64> = Vec::new();
    let mut i: usize = 0;
    proof {
        assert(ld.skip(0) =~= ld);
        assert(u64s_to_ints(vals@) + s_id_vals(ld.skip(0)) =~= s_id_vals(ld));
    }
    while i < n
        invariant
            0 <= i <= n,
            n == lines@.len(),
            ld == lines.deep_view(),
            ld.len() == n,
            forall|k: int| 0 <= k < i ==> line_numeric(#[trigger] ld[k]),
            s_id_vals(ld) == u64s_to_ints(vals@) + s_id_vals(ld.skip(i as int)),
        decreases n - i,
    {
        let line = &lines[i];
        proof {
            lemma_deep_bytes(lines@[i as int]);
            assert(ld.skip(i as int)[0] == ld[i as int]);
            assert(ld.skip(i as int).skip(1) =~= ld.skip(i + 1));
        }
        if line.len() > 0 && line[0] == 83 {
            let fields = split_fields(line.as_slice());
            if fields.len() < 2 {
                return (false, false);
            }
            proof {
                lemma_deep_bytes(fields@[1]);
            }
            match parse_u64(fields[1].as_slice()) {
                Some(v) => {
                    let ghost prev = vals@;
                    vals.push(v);
                    proof {
                        assert(u64s_to_ints(vals@) =~= u64s_to_ints(prev).push(v as int));
                        assert(s_id_vals(ld.skip(i as int)) == seq![v as int] + s_id_vals(
                            ld.skip(i + 1),
                        ));
                        assert(u64s_to_ints(vals@) + s_id_vals(ld.skip(i + 1)) =~= u64s_to_ints(
                            prev,
                        ) + (seq![v as int] + s_id_vals(ld.skip(i + 1))));
                    }
                },
                None => {
                    return (false, false);
                },
            }
        }
        i = i + 1;
    }
    proof {
        assert(ld.skip(i as int) =~= Seq::<Seq<u8>>::empty());
        assert(u64s_to_ints(vals@) + s_id_vals(ld.skip(i as int)) =~= u64s_to_ints(vals@));
    }
    let ghost collected = vals@;
    if vals.len() == 0 {
        return (true, false);
    }
    sort_u64s(&mut vals);
    proof {
        // sorting keeps the value set
        assert forall|a: int| u64s_to_ints(vals@).to_set().contains(a) implies u64s_to_ints(
            collected,
        ).to_set().contains(a) by {
            let k = choose|k: int|
                0 <= k < u64s_to_ints(vals@).len() && u64s_to_ints(vals@)[k] == a;
            assert(vals@.contains(vals@[k]));
            vstd::seq_lib::to_multiset_contains(vals@, vals@[k]);
            vstd::seq_lib::to_multiset_contains(collected, vals@[k]);
            assert(collected.contains(vals@[k]));
            let k2 = choose|k2: int| 0 <= k2 < collected.len() && collected[k2] == vals@[k];
            assert(u64s_to_ints(collected)[k2] == a);
            assert(u64s_to_ints(collected).contains(a));
        }
        assert forall|a: int| u64s_to_ints(collected).to_set().contains(a) implies u64s_to_ints(
            vals@,
        ).to_set().contains(a) by {
            let k = choose|k: int|
                0 <= k < u64s_to_ints(collected).len() && u64s_to_ints(collected)[k] == a;
            assert(collected.contains(collected[k]));
            vstd::seq_lib::to_multiset_contains(collected, collected[k]);
            vstd::seq_lib::to_multiset_contains(vals@, collected[k]);
            assert(vals@.contains(collected[k]));
            let k2 = choose|k2: int| 0 <= k2 < vals@.len() && vals@[k2] == collected[k];
            assert(u64s_to_ints(vals@)[k2] == a);
            assert(u64s_to_ints(vals@).contains(a));
        }
        assert(u64s_to_ints(vals@).to_set() =~= u64s_to_ints(collected).to_set());
        vstd::seq_lib::to_multiset_len(vals@);
        vstd::seq_lib::to_multiset_len(collected);
        assert(vals@.len() == collected.len());
        lemma_sorted_one_to_n(u64s_to_ints(vals@));
    }
    let m = vals.len();
    let mut k: usize = 0;
    while k < m
        invariant
            0 <= k <= m,
            m == vals@.len(),
            m == collected.len(),
            ld == lines.deep_view(),
            sorted_int(u64s_to_ints(vals@)),
            u64s_to_ints(vals@).to_set() == u64s_to_ints(collected).to_set(),
            u64s_to_ints(collected) == s_id_vals(ld),
            forall|j: int| 0 <= j < i ==> line_numeric(#[trigger] ld[j]),
            i == n,
            n == ld.len(),
            forall|j: int| 0 <= j < k ==> #[trigger] u64s_to_ints(vals@)[j] == j + 1,
        decreases m - k,
    {
        if vals[k] != (k as u64) + 1 {
            proof {
                lemma_sorted_one_to_n(u64s_to_ints(vals@));
                assert(u64s_to_ints(vals@)[k as int] != k + 1);
            }
            return (true, false);
        }
        k = k + 1;
    }
    proof {
        lemma_sorted_one_to_n(u64s_to_ints(vals@));
    }
    (true, true)
}

/// What position `k` of a filled segment vector holds: the segment with
/// identifier `low + k` when the graph has one (its annotation cleared), and
/// an empty placeholder of length zero otherwise.
pub open spec fn fill_expected(oldsegs: Seq<SegView>, low: int, k: int) -> SegView {
    match find_seg(oldsegs, IdView::Num((low + k) as usize)) {
        Some(j) => SegView {
            id: IdView::Num((low + k) as usize),
            sequence: oldsegs[j].sequence,
            length: oldsegs[j].length,
            opt: None,
        },
        None => SegView {
            id: IdView::Num((low + k) as usize),
            sequence: Seq::empty(),
            length: 0,
            opt: None,
        },
    }
}

/// Rebuild the segment vector so that every integer between the smallest and
/// the largest identifier is present: existing segments keep their sequence
/// and length (annotations are cleared), gaps get empty placeholder segments.
/// The lookup index is rebuilt over the result.
///
/// Identifiers must be distinct: a compaction of a graph with duplicate
/// identifiers has no well-defined result, since two segments would claim one
/// slot of the contiguous range.
pub fn fill_nodes(graph: &mut Gfa)
    requires
        old(graph).finalized(),
        old(graph).is_digit,
        old(graph).segments@.len() > 0,
        forall|a: int, b: int|
            0 <= a < b < old(graph)@.segments.len() ==> (#[trigger] old(graph)@.segments[a]).id != (
            #[trigger] old(graph)@.segments[b]).id,
    ensures
        final(graph).finalized(),
        final(graph).mode == old(graph).mode,
        final(graph).is_digit == old(graph).is_digit,
        final(graph).sequence@ == old(graph).sequence@,
        final(graph)@.header == old(graph)@.header,
        final(graph)@.links == old(graph)@.links,
        final(graph)@.paths == old(graph)@.paths,
        final(graph)@.jump == old(graph)@.jump,
        final(graph)@.containment == old(graph)@.containment,
        final(graph)@.walk == old(graph)@.walk,
        ({
            let oldsegs = old(graph)@.segments;
            let low = old(graph).segments@[0].id.spec_usize() as int;
            let high = old(graph).segments@[old(graph).segments@.len() - 1].id.spec_usize() as int;
            &&& final(graph)@.segments.len() == high - low + 1
            &&& forall|k: int|
                0 <= k < final(graph)@.segments.len() ==> final(graph)@.segments[k]
                    == fill_expected(oldsegs, low, k)
        }),
{
    let ghost arena = graph.sequence@;
    let ghost oldsegs = graph@.segments;
    let ghost osegs = graph.segments@;
    let n = graph.segments.len();
    let low = graph.segments[0].id.get_usize();
    proof {
        // identifiers are numeric, and the views carry exactly their values
        assert forall|t: int| 0 <= t < n implies (#[trigger] osegs[t]).id == Id::Num(
            osegs[t].id.spec_usize(),
        ) && oldsegs[t].id == IdView::Num(osegs[t].id.spec_usize()) by {
            assert(osegs[t].id.matches(true));
            assert(oldsegs[t] == seg_view(osegs[t], arena));
        }
        assert forall|a: int, b: int| 0 <= a < b < n implies osegs[a].id.spec_usize()
            < osegs[b].id.spec_usize() by {
            assert(id_le(oldsegs[a].id, oldsegs[b].id));
            assert(oldsegs[a].id != oldsegs[b].id);
        }
    }
    let s0 = graph.segments[0];
    let mut filled: Vec<Segment> = Vec::new();
    filled.push(Segment { id: s0.id, sequence: s0.sequence, length: s0.length, opt: Opt::Absent });
    let mut prev: usize = low;
    proof {
        lemma_lookup_agrees_linear(oldsegs, IdView::Num(low), 0);
        assert(seg_view(filled@[0], arena) =~= fill_expected(oldsegs, low as int, 0));
    }
    let mut j: usize = 1;
    while j < n
        invariant
            1 <= j <= n,
            n == graph.segments@.len(),
            graph.segments@ == osegs,
            graph.sequence@ == arena,
            oldsegs == segs_views(osegs, arena),
            graph.wf(),
            graph.mode.digit_ids,
            forall|t: int|
                0 <= t < n ==> (#[trigger] osegs[t]).id == Id::Num(osegs[t].id.spec_usize())
                    && oldsegs[t].id == IdView::Num(osegs[t].id.spec_usize()),
            forall|a: int, b: int|
                0 <= a < b < n ==> (#[trigger] osegs[a]).id.spec_usize() < (
                #[trigger] osegs[b]).id.spec_usize(),
            forall|a: int, b: int|
                0 <= a < b < oldsegs.len() ==> (#[trigger] oldsegs[a]).id != (
                #[trigger] oldsegs[b]).id,
            low == osegs[0].id.spec_usize(),
            prev == osegs[j - 1].id.spec_usize(),
            low <= prev,
            filled@.len() == prev - low + 1,
            forall|k: int|
                0 <= k < filled@.len() ==> (#[trigger] filled@[k]).wf(arena.len() as int, true)
                    && seg_view(filled@[k], arena) == fill_expected(oldsegs, low as int, k),
        decreases n - j,
    {
        let seg = graph.segments[j];
        let v = seg.id.get_usize();
        proof {
            assert(osegs[j - 1].id.spec_usize() < osegs[j as int].id.spec_usize());
        }
        let mut m = prev + 1;
        while m < v
            invariant
                prev + 1 <= m <= v,
                n == graph.segments@.len(),
                graph.segments@ == osegs,
                graph.sequence@ == arena,
                oldsegs == segs_views(osegs, arena),
                0 <= j < n,
                forall|t: int|
                    0 <= t < n ==> (#[trigger] osegs[t]).id == Id::Num(osegs[t].id.spec_usize())
                        && oldsegs[t].id == IdView::Num(osegs[t].id.spec_usize()),
                forall|a: int, b: int|
                    0 <= a < b < n ==> (#[trigger] osegs[a]).id.spec_usize() < (
                    #[trigger] osegs[b]).id.spec_usize(),
                low == osegs[0].id.spec_usize(),
                prev == osegs[j - 1].id.spec_usize(),
                v == osegs[j as int].id.spec_usize(),
                low <= prev,
                filled@.len() == m - 1 - low + 1,
                forall|k: int|
                    0 <= k < filled@.len() ==> (#[trigger] filled@[k]).wf(arena.len() as int, true)
                        && seg_view(filled@[k], arena) == fill_expected(oldsegs, low as int, k),
            decreases v - m,
        {
            let ghost prevfilled = filled@;
            filled.push(
                Segment {
                    id: Id::Num(m),
                    sequence: SeqIndex { start: 0, end: 0 },
                    length: 0,
                    opt: Opt::Absent,
                },
            );
            proof {
                // no segment carries `m`: the ones before this gap stay at or
                // below `prev`, the ones from here on start at `v`
                assert forall|t: int| 0 <= t < oldsegs.len() implies (#[trigger] oldsegs[t]).id
                    != IdView::Num(m) by {
                    if t < j {
                        if t < j - 1 {
                            assert(osegs[t].id.spec_usize() < osegs[j - 1].id.spec_usize());
                        }
                        assert(osegs[t].id.spec_usize() <= prev);
                    } else {
                        if t > j {
                            assert(osegs[j as int].id.spec_usize() < osegs[t].id.spec_usize());
                        }
                        assert(osegs[t].id.spec_usize() >= v);
                    }
                }
                lemma_find_none(oldsegs, IdView::Num(m));
                let k = prevfilled.len() as int;
                assert(SeqIndex { start: 0, end: 0 }.content(arena) =~= Seq::<u8>::empty());
                assert(seg_view(filled@[k], arena) =~= fill_expected(oldsegs, low as int, k));
            }
            m = m + 1;
        }
        let ghost prevfilled = filled@;
        filled.push(Segment { id: seg.id, sequence: seg.sequence, length: seg.length, opt: Opt::Absent });
        proof {
            lemma_lookup_agrees_linear(oldsegs, IdView::Num(v), j as int);
            let k = prevfilled.len() as int;
            assert(seg_view(filled@[k], arena) =~= fill_expected(oldsegs, low as int, k));
        }
        prev = v;
        j = j + 1;
    }
    graph.segments = filled;
    proof {
        let sv = graph@.segments;
        assert(sv =~= segs_views(filled@, arena));
        assert forall|a: int, b: int| 0 <= a < b < sv.len() implies id_le(
            (#[trigger] sv[a]).id,
            (#[trigger] sv[b]).id,
        ) by {
            assert(sv[a] == fill_expected(oldsegs, low as int, a));
            assert(sv[b] == fill_expected(oldsegs, low as int, b));
        }
    }
    graph.build_index();
}

/// Parse one orientation field.
pub fn parse_dir(field: &[u8]) -> (r: Result<bool, GfaError>)
    ensures
        r == spec_dir(field@),
{
    if field.len() == 1 && field[0] == 43 {
        Ok(true)
    } else if field.len() == 1 && field[0] == 45 {
        Ok(false)
    } else {
        Err(GfaError::BadOrientation)
    }
}

} // verus!
