//! The mathematical model of a graph: records with their variable-length text
//! resolved to byte sequences, independent of how the arena lays that text out.
//!
//! Parsing is specified here as a fold of `spec_read_line` over the lines of a
//! file; executable parsing, merging and lookup are proved against this model.

use vstd::prelude::*;
use crate::bytes::{spec_fields, spec_split, is_udec, udec_val, is_int_str, int_val, lex_le};
use crate::bytes::{lemma_lex_le_total, lemma_lex_le_antisym, lemma_lex_le_trans};
use crate::ParseMode;

verus! {

/// A segment identifier as the model sees it: a number, or the text itself.
#[verifier::ext_equal]
pub enum IdView {
    Num(usize),
    Text(Seq<u8>),
}

/// One parse error class; a malformed record aborts the whole parse.
#[derive(Clone, Copy, PartialEq, Eq, Structural, Debug)]
pub enum GfaError {
    /// A required positional field is absent.
    MissingField,
    /// A numeric field is not a decimal numeral or does not fit its width.
    BadNumber,
    /// An orientation is not exactly `+` or `-`.
    BadOrientation,
    /// A walk string is empty or does not alternate direction and identifier.
    BadWalk,
    /// A header record lacks the colon-separated tag:type:version triple.
    BadHeader,
}

/// A declared file format version, read from the header line.
#[derive(Clone, Copy, PartialEq, Eq, Structural, Debug)]
pub struct Version {
    pub major: u32,
    pub minor: u32,
}

impl Version {
    /// From the second major version on, segment records carry an explicit
    /// length field; before that the length is the sequence's byte count.
    pub open spec fn spec_explicit_len(self) -> bool {
        self.major >= 2
    }
}

#[verifier::ext_equal]
pub struct HeaderView {
    pub tag: Seq<u8>,
    pub typ: Seq<u8>,
    pub version_number: Seq<u8>,
}

#[verifier::ext_equal]
pub struct SegView {
    pub id: IdView,
    pub sequence: Seq<u8>,
    pub length: u32,
    pub opt: Option<Seq<u8>>,
}

#[verifier::ext_equal]
pub struct LinkView {
    pub from: IdView,
    pub from_dir: bool,
    pub to: IdView,
    pub to_dir: bool,
    pub overlap: Option<Seq<u8>>,
    pub opt: Option<Seq<u8>>,
}

#[verifier::ext_equal]
pub struct PathView {
    pub name: Seq<u8>,
    pub dir: Seq<bool>,
    pub nodes: Seq<IdView>,
    pub overlap: Option<Seq<u8>>,
    pub opt: Option<Seq<u8>>,
}

#[verifier::ext_equal]
pub struct WalkView {
    pub sample_id: Seq<u8>,
    pub hap_index: u32,
    pub seq_id: Seq<u8>,
    pub seq_start: i32,
    pub seq_end: i32,
    pub walk_dir: Seq<bool>,
    pub walk_id: Seq<IdView>,
    pub opt: Option<Seq<u8>>,
}

#[verifier::ext_equal]
pub struct ContainmentView {
    pub container: IdView,
    pub container_dir: bool,
    pub contained: IdView,
    pub contained_dir: bool,
    pub pos: u32,
    pub overlap: Seq<u8>,
    pub opt: Option<Seq<u8>>,
}

#[verifier::ext_equal]
pub struct JumpView {
    pub from: IdView,
    pub from_dir: bool,
    pub to: IdView,
    pub to_dir: bool,
    pub distance: i64,
    pub opt: Option<Seq<u8>>,
}

/// The whole graph as the model sees it.
#[verifier::ext_equal]
pub struct GfaView {
    pub header: HeaderView,
    pub segments: Seq<SegView>,
    pub links: Seq<LinkView>,
    pub paths: Seq<PathView>,
    pub jump: Seq<JumpView>,
    pub containment: Seq<ContainmentView>,
    pub walk: Seq<WalkView>,
    pub mode: ParseMode,
    pub is_digit: bool,
}

/// The graph a parse starts from: everything empty.
pub open spec fn empty_gfa(mode: ParseMode) -> GfaView {
    GfaView {
        header: HeaderView { tag: Seq::empty(), typ: Seq::empty(), version_number: Seq::empty() },
        segments: Seq::empty(),
        links: Seq::empty(),
        paths: Seq::empty(),
        jump: Seq::empty(),
        containment: Seq::empty(),
        walk: Seq::empty(),
        mode: mode,
        is_digit: false,
    }
}

// ------------------------------------------------------------------
// Identifier order: numeric for numbers, lexicographic for text, and
// numbers before text, so that the order is total on mixed values.
// ------------------------------------------------------------------

pub open spec fn id_le(a: IdView, b: IdView) -> bool {
    match (a, b) {
        (IdView::Num(x), IdView::Num(y)) => x <= y,
        (IdView::Num(_), IdView::Text(_)) => true,
        (IdView::Text(_), IdView::Num(_)) => false,
        (IdView::Text(x), IdView::Text(y)) => lex_le(x, y),
    }
}

pub proof fn lemma_id_le_total(a: IdView, b: IdView)
    ensures
        id_le(a, b) || id_le(b, a),
{
    if let (IdView::Text(x), IdView::Text(y)) = (a, b) {
        lemma_lex_le_total(x, y);
    }
}

pub proof fn lemma_id_le_antisym(a: IdView, b: IdView)
    requires
        id_le(a, b),
        id_le(b, a),
    ensures
        a == b,
{
    if let (IdView::Text(x), IdView::Text(y)) = (a, b) {
        lemma_lex_le_antisym(x, y);
        assert(a =~= b);
    }
}

pub proof fn lemma_id_le_trans(a: IdView, b: IdView, c: IdView)
    requires
        id_le(a, b),
        id_le(b, c),
    ensures
        id_le(a, c),
{
    if let (IdView::Text(x), IdView::Text(y)) = (a, b) {
        if let IdView::Text(z) = c {
            lemma_lex_le_trans(x, y, z);
        }
    }
}

/// Segments in non-decreasing identifier order.
pub open spec fn segs_sorted(segs: Seq<SegView>) -> bool {
    forall|i: int, j: int| 0 <= i < j < segs.len() ==> id_le(#[trigger] segs[i].id, #[trigger] segs[j].id)
}

/// The reference lookup: the first position holding `id`, scanned linearly.
pub open spec fn find_seg(segs: Seq<SegView>, id: IdView) -> Option<int>
    decreases segs.len(),
{
    if segs.len() == 0 {
        None
    } else if segs[0].id == id {
        Some(0int)
    } else {
        match find_seg(segs.skip(1), id) {
            Some(i) => Some(i + 1),
            None => None,
        }
    }
}

/// What the linear scan promises: the found position holds `id` and nothing
/// before it does; a miss means no position holds it.
pub proof fn lemma_find_seg(segs: Seq<SegView>, id: IdView)
    ensures
        match find_seg(segs, id) {
            Some(i) => 0 <= i < segs.len() && segs[i].id == id && forall|j: int|
                0 <= j < i ==> (#[trigger] segs[j]).id != id,
            None => forall|j: int| 0 <= j < segs.len() ==> (#[trigger] segs[j]).id != id,
        },
    decreases segs.len(),
{
    if segs.len() > 0 && segs[0].id != id {
        lemma_find_seg(segs.skip(1), id);
        match find_seg(segs.skip(1), id) {
            Some(i) => {
                assert(segs[i + 1] == segs.skip(1)[i]);
                assert forall|j: int| 0 <= j < i + 1 implies (#[trigger] segs[j]).id != id by {
                    if j > 0 {
                        assert(segs[j] == segs.skip(1)[j - 1]);
                    }
                }
            },
            None => {
                assert forall|j: int| 0 <= j < segs.len() implies (#[trigger] segs[j]).id != id by {
                    if j > 0 {
                        assert(segs[j] == segs.skip(1)[j - 1]);
                    }
                }
            },
        }
    }
}

// ------------------------------------------------------------------
// Decoding one line into the model.
// ------------------------------------------------------------------

/// A one-byte record tag.
pub open spec fn is_tag(f: Seq<u8>, c: u8) -> bool {
    f.len() == 1 && f[0] == c
}

/// An identifier field under the chosen representation. Numeric identifiers
/// must be decimal numerals that fit the machine word.
pub open spec fn spec_parse_id(f: Seq<u8>, digit: bool) -> Result<IdView, GfaError> {
    if digit {
        if is_udec(f) && udec_val(f) <= usize::MAX {
            Ok(IdView::Num(udec_val(f) as usize))
        } else {
            Err(GfaError::BadNumber)
        }
    } else {
        Ok(IdView::Text(f))
    }
}

/// An optional trailing field: kept (empty when absent) or dropped, as the
/// parse mode asks.
pub open spec fn spec_opt(f: Option<Seq<u8>>, store: bool) -> Option<Seq<u8>> {
    if store {
        match f {
            Some(x) => Some(x),
            None => Some(Seq::empty()),
        }
    } else {
        None
    }
}

/// The field at position `k`, when the line has one.
pub open spec fn field_at(f: Seq<Seq<u8>>, k: int) -> Option<Seq<u8>> {
    if 0 <= k < f.len() {
        Some(f[k])
    } else {
        None
    }
}

/// An orientation character: `+` is forward, `-` is backward.
pub open spec fn dir_of_char(c: u8) -> Option<bool> {
    if c == 43 {
        Some(true)
    } else if c == 45 {
        Some(false)
    } else {
        None
    }
}

/// An orientation field: exactly the one character `+` or `-`.
pub open spec fn spec_dir(f: Seq<u8>) -> Result<bool, GfaError> {
    if f.len() == 1 && dir_of_char(f[0]) is Some {
        Ok(dir_of_char(f[0]).unwrap())
    } else {
        Err(GfaError::BadOrientation)
    }
}

/// A segment record: `S name sequence [length] [annotation]`, the explicit
/// length present from format version 2 on.
pub open spec fn spec_segment(f: Seq<Seq<u8>>, version: Version, mode: ParseMode) -> Result<
    SegView,
    GfaError,
> {
    if version.spec_explicit_len() {
        if f.len() < 4 {
            Err(GfaError::MissingField)
        } else {
            match spec_parse_id(f[1], mode.digit_ids) {
                Err(e) => Err(e),
                Ok(id) => {
                    if is_udec(f[3]) && udec_val(f[3]) <= u32::MAX {
                        Ok(SegView {
                            id: id,
                            sequence: f[2],
                            length: udec_val(f[3]) as u32,
                            opt: spec_opt(field_at(f, 4), mode.store_opt),
                        })
                    } else {
                        Err(GfaError::BadNumber)
                    }
                },
            }
        }
    } else {
        if f.len() < 3 {
            Err(GfaError::MissingField)
        } else {
            match spec_parse_id(f[1], mode.digit_ids) {
                Err(e) => Err(e),
                Ok(id) => {
                    if f[2].len() <= u32::MAX {
                        Ok(SegView {
                            id: id,
                            sequence: f[2],
                            length: f[2].len() as u32,
                            opt: spec_opt(field_at(f, 3), mode.store_opt),
                        })
                    } else {
                        Err(GfaError::BadNumber)
                    }
                },
            }
        }
    }
}

/// A header has been read: some field of it is non-empty. The first header
/// record that sets one wins; later header lines are validated but ignored.
pub open spec fn header_is_set(h: HeaderView) -> bool {
    h.tag.len() > 0 || h.typ.len() > 0 || h.version_number.len() > 0
}

/// A header record: `H tag:type:version`.
pub open spec fn spec_header(f: Seq<Seq<u8>>) -> Result<HeaderView, GfaError> {
    if f.len() < 2 {
        Err(GfaError::MissingField)
    } else {
        let parts = spec_split(f[1], 58);
        if parts.len() < 3 {
            Err(GfaError::BadHeader)
        } else {
            Ok(HeaderView { tag: parts[0], typ: parts[1], version_number: parts[2] })
        }
    }
}

/// A link record: `L from dir to dir [overlap] [annotation]`.
pub open spec fn spec_link(f: Seq<Seq<u8>>, mode: ParseMode) -> Result<LinkView, GfaError> {
    if f.len() < 5 {
        Err(GfaError::MissingField)
    } else {
        match spec_parse_id(f[1], mode.digit_ids) {
            Err(e) => Err(e),
            Ok(from) => match spec_dir(f[2]) {
                Err(e) => Err(e),
                Ok(from_dir) => match spec_parse_id(f[3], mode.digit_ids) {
                    Err(e) => Err(e),
                    Ok(to) => match spec_dir(f[4]) {
                        Err(e) => Err(e),
                        Ok(to_dir) => Ok(LinkView {
                            from: from,
                            from_dir: from_dir,
                            to: to,
                            to_dir: to_dir,
                            overlap: spec_opt(field_at(f, 5), mode.store_overlap),
                            opt: spec_opt(field_at(f, 6), mode.store_opt),
                        }),
                    },
                },
            },
        }
    }
}

/// The steps of a path field: comma-separated entries, each an identifier
/// followed by one orientation character.
pub open spec fn spec_path_entries(parts: Seq<Seq<u8>>, digit: bool) -> Result<
    (Seq<bool>, Seq<IdView>),
    GfaError,
>
    decreases parts.len(),
{
    if parts.len() == 0 {
        Ok((Seq::empty(), Seq::empty()))
    } else {
        let p = parts[0];
        if p.len() == 0 || dir_of_char(p[p.len() - 1]) is None {
            Err(GfaError::BadOrientation)
        } else {
            let d = dir_of_char(p[p.len() - 1]).unwrap();
            match spec_parse_id(p.take(p.len() - 1), digit) {
                Err(e) => Err(e),
                Ok(id) => match spec_path_entries(parts.skip(1), digit) {
                    Err(e) => Err(e),
                    Ok(rest) => Ok((seq![d] + rest.0, seq![id] + rest.1)),
                },
            }
        }
    }
}

/// A path record: `P name steps [overlap] [annotation]`.
pub open spec fn spec_path(f: Seq<Seq<u8>>, mode: ParseMode) -> Result<PathView, GfaError> {
    if f.len() < 3 {
        Err(GfaError::MissingField)
    } else {
        match spec_path_entries(spec_split(f[2], 44), mode.digit_ids) {
            Err(e) => Err(e),
            Ok(entries) => Ok(PathView {
                name: f[1],
                dir: entries.0,
                nodes: entries.1,
                overlap: spec_opt(field_at(f, 3), mode.store_overlap),
                opt: spec_opt(field_at(f, 4), mode.store_opt),
            }),
        }
    }
}

/// Index of the first walk direction byte (`<` or `>`) in `s`, or `s.len()`.
pub open spec fn first_walk_sep(s: Seq<u8>) -> int
    decreases s.len(),
{
    if s.len() == 0 {
        0
    } else if s[0] == 60 || s[0] == 62 {
        0
    } else {
        1 + first_walk_sep(s.skip(1))
    }
}

/// The steps of a walk string: a direction byte then an identifier, repeated,
/// with no other separator.
pub open spec fn spec_walk_entries(w: Seq<u8>, digit: bool) -> Result<
    (Seq<bool>, Seq<IdView>),
    GfaError,
>
    decreases w.len(),
{
    if w.len() == 0 || !(w[0] == 60 || w[0] == 62) {
        Err(GfaError::BadWalk)
    } else {
        let d = w[0] == 62;
        let t = first_walk_sep(w.skip(1));
        if !(0 <= t <= w.len() - 1) {
            Err(GfaError::BadWalk)
        } else {
            match spec_parse_id(w.skip(1).take(t), digit) {
                Err(e) => Err(e),
                Ok(id) => {
                    if 1 + t == w.len() {
                        Ok((seq![d], seq![id]))
                    } else {
                        match spec_walk_entries(w.skip(1 + t), digit) {
                            Err(e) => Err(e),
                            Ok(rest) => Ok((seq![d] + rest.0, seq![id] + rest.1)),
                        }
                    }
                },
            }
        }
    }
}

/// A partially consumed walk string: what remains after `pos` decodes to
/// `rest`, and prepending the steps already taken gives the whole string's
/// decoding (or the whole string fails with the same error).
pub open spec fn walk_partial(
    w: Seq<u8>,
    digit: bool,
    pos: int,
    dirs: Seq<bool>,
    ids: Seq<IdView>,
) -> bool {
    match spec_walk_entries(w.skip(pos), digit) {
        Ok(rest) => spec_walk_entries(w, digit) == Ok::<(Seq<bool>, Seq<IdView>), GfaError>(
            (dirs + rest.0, ids + rest.1),
        ),
        Err(e) => spec_walk_entries(w, digit) == Err::<(Seq<bool>, Seq<IdView>), GfaError>(e),
    }
}

/// A walk record: `W sample haplotype sequence start end walk [annotation]`.
pub open spec fn spec_walk(f: Seq<Seq<u8>>, mode: ParseMode) -> Result<WalkView, GfaError> {
    if f.len() < 7 {
        Err(GfaError::MissingField)
    } else {
        if !(is_udec(f[2]) && udec_val(f[2]) <= u32::MAX) {
            Err(GfaError::BadNumber)
        } else if !(is_int_str(f[4]) && i32::MIN <= int_val(f[4]) <= i32::MAX) {
            Err(GfaError::BadNumber)
        } else if !(is_int_str(f[5]) && i32::MIN <= int_val(f[5]) <= i32::MAX) {
            Err(GfaError::BadNumber)
        } else {
            match spec_walk_entries(f[6], mode.digit_ids) {
                Err(e) => Err(e),
                Ok(entries) => Ok(WalkView {
                    sample_id: f[1],
                    hap_index: udec_val(f[2]) as u32,
                    seq_id: f[3],
                    seq_start: int_val(f[4]) as i32,
                    seq_end: int_val(f[5]) as i32,
                    walk_dir: entries.0,
                    walk_id: entries.1,
                    opt: spec_opt(field_at(f, 7), mode.store_opt),
                }),
            }
        }
    }
}

/// A containment record: `C container dir contained dir position overlap
/// [annotation]`; the overlap field is required and always kept.
pub open spec fn spec_containment(f: Seq<Seq<u8>>, mode: ParseMode) -> Result<
    ContainmentView,
    GfaError,
> {
    if f.len() < 7 {
        Err(GfaError::MissingField)
    } else {
        match spec_parse_id(f[1], mode.digit_ids) {
            Err(e) => Err(e),
            Ok(container) => match spec_dir(f[2]) {
                Err(e) => Err(e),
                Ok(container_dir) => match spec_parse_id(f[3], mode.digit_ids) {
                    Err(e) => Err(e),
                    Ok(contained) => match spec_dir(f[4]) {
                        Err(e) => Err(e),
                        Ok(contained_dir) => {
                            if is_udec(f[5]) && udec_val(f[5]) <= u32::MAX {
                                Ok(ContainmentView {
                                    container: container,
                                    container_dir: container_dir,
                                    contained: contained,
                                    contained_dir: contained_dir,
                                    pos: udec_val(f[5]) as u32,
                                    overlap: f[6],
                                    opt: spec_opt(field_at(f, 7), mode.store_opt),
                                })
                            } else {
                                Err(GfaError::BadNumber)
                            }
                        },
                    },
                },
            },
        }
    }
}

/// A jump record: `J from dir to dir distance [annotation]`; distance `*`
/// means unknown and is encoded as -1.
pub open spec fn spec_jump(f: Seq<Seq<u8>>, mode: ParseMode) -> Result<JumpView, GfaError> {
    if f.len() < 6 {
        Err(GfaError::MissingField)
    } else {
        match spec_parse_id(f[1], mode.digit_ids) {
            Err(e) => Err(e),
            Ok(from) => match spec_dir(f[2]) {
                Err(e) => Err(e),
                Ok(from_dir) => match spec_parse_id(f[3], mode.digit_ids) {
                    Err(e) => Err(e),
                    Ok(to) => match spec_dir(f[4]) {
                        Err(e) => Err(e),
                        Ok(to_dir) => {
                            let dist: Result<i64, GfaError> = if f[5].len() == 1 && f[5][0] == 42 {
                                Ok(-1int as i64)
                            } else if is_int_str(f[5]) && i64::MIN <= int_val(f[5]) <= i64::MAX {
                                Ok(int_val(f[5]) as i64)
                            } else {
                                Err(GfaError::BadNumber)
                            };
                            match dist {
                                Err(e) => Err(e),
                                Ok(distance) => Ok(JumpView {
                                    from: from,
                                    from_dir: from_dir,
                                    to: to,
                                    to_dir: to_dir,
                                    distance: distance,
                                    opt: spec_opt(field_at(f, 6), mode.store_opt),
                                }),
                            }
                        },
                    },
                },
            },
        }
    }
}

// ------------------------------------------------------------------
// What one line writes into the arena: the text identifiers, sequence,
// overlap and annotation fields it stores, in storage order. A header,
// a blank line or an unknown tag stores nothing.
// ------------------------------------------------------------------

/// What parsing one identifier field stores: nothing for numeric identifiers,
/// the field's text otherwise.
#[verifier::opaque]
pub open spec fn id_stored(f: Seq<u8>, digit: bool) -> Seq<u8> {
    if digit {
        Seq::empty()
    } else {
        f
    }
}

/// What parsing one optional field stores: the field (empty when absent) if
/// kept, nothing otherwise.
pub open spec fn opt_stored(f: Option<Seq<u8>>, store: bool) -> Seq<u8> {
    if store {
        match f {
            Some(x) => x,
            None => Seq::empty(),
        }
    } else {
        Seq::empty()
    }
}

/// What the steps of a path field store: each step's identifier text, in
/// step order (nothing for numeric identifiers).
pub open spec fn path_entries_stored(parts: Seq<Seq<u8>>, digit: bool) -> Seq<u8>
    decreases parts.len(),
{
    if parts.len() == 0 {
        Seq::empty()
    } else {
        let p = parts[0];
        (if p.len() == 0 {
            Seq::empty()
        } else {
            id_stored(p.take(p.len() - 1), digit)
        }) + path_entries_stored(parts.skip(1), digit)
    }
}

/// What the steps of a walk string store: each step's identifier text, in
/// step order (nothing for numeric identifiers).
pub open spec fn walk_entries_stored(w: Seq<u8>, digit: bool) -> Seq<u8>
    decreases w.len(),
{
    if w.len() == 0 || !(w[0] == 60 || w[0] == 62) {
        Seq::empty()
    } else {
        let t = first_walk_sep(w.skip(1));
        if !(0 <= t <= w.len() - 1) {
            Seq::empty()
        } else {
            id_stored(w.skip(1).take(t), digit) + (if 1 + t == w.len() {
                Seq::empty()
            } else {
                walk_entries_stored(w.skip(1 + t), digit)
            })
        }
    }
}

/// Everything one line appends to the arena, in storage order; meaningful for
/// lines the decoder accepts.
pub open spec fn line_stored(line: Seq<u8>, version: Version, mode: ParseMode) -> Seq<u8> {
    let f = spec_fields(line);
    let d = mode.digit_ids;
    if f.len() == 0 {
        Seq::empty()
    } else if is_tag(f[0], 83) {
        let optk: int = if version.spec_explicit_len() {
            4
        } else {
            3
        };
        id_stored(f[1], d) + f[2] + opt_stored(field_at(f, optk), mode.store_opt)
    } else if is_tag(f[0], 72) {
        Seq::empty()
    } else if is_tag(f[0], 76) {
        id_stored(f[1], d) + id_stored(f[3], d) + opt_stored(field_at(f, 5), mode.store_overlap)
            + opt_stored(field_at(f, 6), mode.store_opt)
    } else if is_tag(f[0], 80) {
        path_entries_stored(spec_split(f[2], 44), d) + opt_stored(field_at(f, 3),
        mode.store_overlap) + opt_stored(field_at(f, 4), mode.store_opt)
    } else if is_tag(f[0], 87) {
        walk_entries_stored(f[6], d) + opt_stored(field_at(f, 7), mode.store_opt)
    } else if is_tag(f[0], 67) {
        id_stored(f[1], d) + id_stored(f[3], d) + f[6] + opt_stored(field_at(f, 7), mode.store_opt)
    } else if is_tag(f[0], 74) {
        id_stored(f[1], d) + id_stored(f[3], d) + opt_stored(field_at(f, 6), mode.store_opt)
    } else {
        Seq::empty()
    }
}

/// Decode one line against a graph state: exactly one record is appended to
/// its vector, the first header line sets the header (later ones are
/// validated but do not replace it), and a blank line or an unknown tag
/// changes nothing.
pub open spec fn spec_read_line(g: GfaView, line: Seq<u8>, version: Version) -> Result<
    GfaView,
    GfaError,
> {
    let f = spec_fields(line);
    if f.len() == 0 {
        Ok(g)
    } else if is_tag(f[0], 83) {
        match spec_segment(f, version, g.mode) {
            Err(e) => Err(e),
            Ok(s) => Ok(GfaView { segments: g.segments.push(s), ..g }),
        }
    } else if is_tag(f[0], 72) {
        match spec_header(f) {
            Err(e) => Err(e),
            Ok(h) => Ok(
                GfaView {
                    header: if header_is_set(g.header) {
                        g.header
                    } else {
                        h
                    },
                    ..g
                },
            ),
        }
    } else if is_tag(f[0], 76) {
        match spec_link(f, g.mode) {
            Err(e) => Err(e),
            Ok(l) => Ok(GfaView { links: g.links.push(l), ..g }),
        }
    } else if is_tag(f[0], 80) {
        match spec_path(f, g.mode) {
            Err(e) => Err(e),
            Ok(p) => Ok(GfaView { paths: g.paths.push(p), ..g }),
        }
    } else if is_tag(f[0], 87) {
        match spec_walk(f, g.mode) {
            Err(e) => Err(e),
            Ok(w) => Ok(GfaView { walk: g.walk.push(w), ..g }),
        }
    } else if is_tag(f[0], 67) {
        match spec_containment(f, g.mode) {
            Err(e) => Err(e),
            Ok(c) => Ok(GfaView { containment: g.containment.push(c), ..g }),
        }
    } else if is_tag(f[0], 74) {
        match spec_jump(f, g.mode) {
            Err(e) => Err(e),
            Ok(j) => Ok(GfaView { jump: g.jump.push(j), ..g }),
        }
    } else {
        Ok(g)
    }
}

/// Decode a whole line stream in order, stopping at the first malformed line.
pub open spec fn spec_parse_lines(g: GfaView, lines: Seq<Seq<u8>>, version: Version) -> Result<
    GfaView,
    GfaError,
>
    decreases lines.len(),
{
    if lines.len() == 0 {
        Ok(g)
    } else {
        match spec_read_line(g, lines[0], version) {
            Err(e) => Err(e),
            Ok(g2) => spec_parse_lines(g2, lines.skip(1), version),
        }
    }
}

/// Compact identifiers: segment `i` carries exactly the number `i + 1`, so the
/// sorted identifier set is `{1, ..., n}`.
pub open spec fn spec_compact(segs: Seq<SegView>) -> bool {
    forall|i: int| 0 <= i < segs.len() ==> (#[trigger] segs[i]).id == IdView::Num((i + 1) as usize)
}

/// A declared version numeral: `major` or `major.minor`, both decimal.
pub open spec fn spec_parse_version(s: Seq<u8>) -> Result<Version, GfaError> {
    let dots = spec_split(s, 46);
    if dots.len() == 1 {
        if is_udec(dots[0]) && udec_val(dots[0]) <= u32::MAX {
            Ok(Version { major: udec_val(dots[0]) as u32, minor: 0 })
        } else {
            Err(GfaError::BadNumber)
        }
    } else if dots.len() == 2 {
        if is_udec(dots[0]) && udec_val(dots[0]) <= u32::MAX && is_udec(dots[1]) && udec_val(
            dots[1],
        ) <= u32::MAX {
            Ok(Version { major: udec_val(dots[0]) as u32, minor: udec_val(dots[1]) as u32 })
        } else {
            Err(GfaError::BadNumber)
        }
    } else {
        Err(GfaError::BadNumber)
    }
}

/// The version declared by one header line: the third colon-separated part of
/// its second field.
pub open spec fn spec_version_of_line(line: Seq<u8>) -> Result<Version, GfaError> {
    let f = spec_fields(line);
    if f.len() < 2 {
        Err(GfaError::MissingField)
    } else {
        let parts = spec_split(f[1], 58);
        if parts.len() < 3 {
            Err(GfaError::BadHeader)
        } else {
            spec_parse_version(parts[2])
        }
    }
}

/// The file's declared version: read from the first line that starts with the
/// header tag; a file without one counts as version zero.
pub open spec fn spec_get_version(lines: Seq<Seq<u8>>) -> Result<Version, GfaError>
    decreases lines.len(),
{
    if lines.len() == 0 {
        Ok(Version { major: 0, minor: 0 })
    } else if lines[0].len() > 0 && lines[0][0] == 72 {
        spec_version_of_line(lines[0])
    } else {
        spec_get_version(lines.skip(1))
    }
}

/// The path a walk converts to: the name is sample, haplotype number, and
/// sequence name with its coordinate range, joined by the given separator; the
/// steps are the walk's steps.
pub open spec fn walk_as_path(w: WalkView, sep: Seq<u8>, mode: ParseMode) -> PathView {
    PathView {
        name: w.sample_id + sep + crate::bytes::u_dec(w.hap_index as nat) + sep + w.seq_id + seq![
            58u8,
        ] + crate::bytes::i_dec(w.seq_start as int) + seq![45u8] + crate::bytes::i_dec(
            w.seq_end as int,
        ),
        dir: w.walk_dir,
        nodes: w.walk_id,
        overlap: spec_opt(None, mode.store_overlap),
        opt: w.opt,
    }
}

/// True when every line that starts with the segment tag carries a numeric
/// identifier that fits 64 bits.
pub open spec fn line_numeric(l: Seq<u8>) -> bool {
    (l.len() > 0 && l[0] == 83) ==> {
        let f = spec_fields(l);
        f.len() >= 2 && is_udec(f[1]) && udec_val(f[1]) <= u64::MAX
    }
}

/// Every segment line of the file is numeric.
pub open spec fn spec_check_numeric(lines: Seq<Seq<u8>>) -> bool {
    forall|i: int| 0 <= i < lines.len() ==> line_numeric(#[trigger] lines[i])
}

/// The identifier values of the file's segment lines, in file order.
pub open spec fn s_id_vals(lines: Seq<Seq<u8>>) -> Seq<int>
    decreases lines.len(),
{
    if lines.len() == 0 {
        Seq::empty()
    } else {
        let rest = s_id_vals(lines.skip(1));
        if lines[0].len() > 0 && lines[0][0] == 83 {
            seq![udec_val(spec_fields(lines[0])[1]) as int] + rest
        } else {
            rest
        }
    }
}

/// Concatenate one partial graph onto an accumulated one: record vectors are
/// appended in order; the first non-empty header wins, matching the
/// first-header-wins rule of the sequential parse.
pub open spec fn merge_views(a: GfaView, b: GfaView) -> GfaView {
    GfaView {
        header: if header_is_set(a.header) {
            a.header
        } else {
            b.header
        },
        segments: a.segments + b.segments,
        links: a.links + b.links,
        paths: a.paths + b.paths,
        jump: a.jump + b.jump,
        containment: a.containment + b.containment,
        walk: a.walk + b.walk,
        mode: a.mode,
        is_digit: a.is_digit,
    }
}

/// The merge of a list of partial graphs onto an accumulator, in their
/// original chunk order.
pub open spec fn merge_fold_from(acc: GfaView, parts: Seq<GfaView>) -> GfaView
    decreases parts.len(),
{
    if parts.len() == 0 {
        acc
    } else {
        merge_fold_from(merge_views(acc, parts[0]), parts.skip(1))
    }
}

/// The merge of a list of partial graphs, in their original chunk order.
pub open spec fn merge_fold(parts: Seq<GfaView>, mode: ParseMode) -> GfaView {
    merge_fold_from(empty_gfa(mode), parts)
}

/// What one line adds does not depend on the graph it is added to: decoding
/// against any state appends exactly what decoding against the empty graph
/// produces, and fails exactly when that fails.
pub proof fn lemma_read_line_delta(g: GfaView, line: Seq<u8>, v: Version)
    ensures
        match spec_read_line(empty_gfa(g.mode), line, v) {
            Ok(d) => spec_read_line(g, line, v) is Ok && {
                let r = spec_read_line(g, line, v).unwrap();
                &&& r.segments == g.segments + d.segments
                &&& r.links == g.links + d.links
                &&& r.paths == g.paths + d.paths
                &&& r.jump == g.jump + d.jump
                &&& r.containment == g.containment + d.containment
                &&& r.walk == g.walk + d.walk
                &&& r.mode == g.mode
                &&& r.is_digit == g.is_digit
                &&& r.header == (if header_is_set(g.header) {
                    g.header
                } else {
                    d.header
                })
            },
            Err(e) => spec_read_line(g, line, v) == Err::<GfaView, GfaError>(e),
        },
{
    let e = empty_gfa(g.mode);
    match spec_read_line(e, line, v) {
        Ok(d) => {
            match spec_read_line(g, line, v) {
                Ok(r) => {
                    assert(r.segments =~= g.segments + d.segments);
                    assert(r.links =~= g.links + d.links);
                    assert(r.paths =~= g.paths + d.paths);
                    assert(r.jump =~= g.jump + d.jump);
                    assert(r.containment =~= g.containment + d.containment);
                    assert(r.walk =~= g.walk + d.walk);
                },
                Err(_) => {
                    assert(false);
                },
            }
        },
        Err(_) => {},
    }
}

/// Parsing a line stream against any starting graph appends exactly the
/// records that parsing it against the empty graph produces, with the same
/// error when one occurs.
pub proof fn lemma_parse_lines_prefix(g: GfaView, b: Seq<Seq<u8>>, v: Version)
    ensures
        match spec_parse_lines(empty_gfa(g.mode), b, v) {
            Ok(d) => spec_parse_lines(g, b, v) is Ok && {
                let r = spec_parse_lines(g, b, v).unwrap();
                &&& r.segments == g.segments + d.segments
                &&& r.links == g.links + d.links
                &&& r.paths == g.paths + d.paths
                &&& r.jump == g.jump + d.jump
                &&& r.containment == g.containment + d.containment
                &&& r.walk == g.walk + d.walk
                &&& r.mode == g.mode
                &&& r.is_digit == g.is_digit
                &&& r.header == (if header_is_set(g.header) {
                    g.header
                } else {
                    d.header
                })
            },
            Err(e) => spec_parse_lines(g, b, v) == Err::<GfaView, GfaError>(e),
        },
    decreases b.len(),
{
    let e = empty_gfa(g.mode);
    if b.len() == 0 {
        assert(g.segments + e.segments =~= g.segments);
        assert(g.links + e.links =~= g.links);
        assert(g.paths + e.paths =~= g.paths);
        assert(g.jump + e.jump =~= g.jump);
        assert(g.containment + e.containment =~= g.containment);
        assert(g.walk + e.walk =~= g.walk);
    } else {
        lemma_read_line_delta(g, b[0], v);
        match spec_read_line(e, b[0], v) {
            Ok(d0) => {
                let r0 = spec_read_line(g, b[0], v).unwrap();
                lemma_parse_lines_prefix(r0, b.skip(1), v);
                lemma_parse_lines_prefix(d0, b.skip(1), v);
                match spec_parse_lines(empty_gfa(g.mode), b.skip(1), v) {
                    Ok(dt) => {
                        assert(g.segments + (d0.segments + dt.segments) =~= (g.segments
                            + d0.segments) + dt.segments);
                        assert(g.links + (d0.links + dt.links) =~= (g.links + d0.links) + dt.links);
                        assert(g.paths + (d0.paths + dt.paths) =~= (g.paths + d0.paths) + dt.paths);
                        assert(g.jump + (d0.jump + dt.jump) =~= (g.jump + d0.jump) + dt.jump);
                        assert(g.containment + (d0.containment + dt.containment) =~= (g.containment
                            + d0.containment) + dt.containment);
                        assert(g.walk + (d0.walk + dt.walk) =~= (g.walk + d0.walk) + dt.walk);
                    },
                    Err(_) => {},
                }
            },
            Err(_) => {},
        }
    }
}

/// Parsing a concatenation is parsing the first part and going on from its
/// result.
pub proof fn lemma_parse_append(g: GfaView, a: Seq<Seq<u8>>, b: Seq<Seq<u8>>, v: Version)
    ensures
        spec_parse_lines(g, a + b, v) == (match spec_parse_lines(g, a, v) {
            Ok(m) => spec_parse_lines(m, b, v),
            Err(e) => Err(e),
        }),
    decreases a.len(),
{
    if a.len() == 0 {
        assert(a + b =~= b);
    } else {
        assert((a + b)[0] == a[0]);
        assert((a + b).skip(1) =~= a.skip(1) + b);
        match spec_read_line(g, a[0], v) {
            Ok(g2) => {
                lemma_parse_append(g2, a.skip(1), b, v);
            },
            Err(_) => {},
        }
    }
}

/// Merge equivalence for two chunks: parsing each separately and concatenating
/// the partial graphs gives exactly the graph of parsing the concatenated line
/// stream, header included; and the concatenated stream fails exactly when one
/// of the chunks fails, with the first error.
pub proof fn lemma_merge_equivalence(a: Seq<Seq<u8>>, b: Seq<Seq<u8>>, v: Version, mode: ParseMode)
    ensures
        match (spec_parse_lines(empty_gfa(mode), a, v), spec_parse_lines(empty_gfa(mode), b, v)) {
            (Ok(ma), Ok(mb)) => spec_parse_lines(empty_gfa(mode), a + b, v) == Ok::<
                GfaView,
                GfaError,
            >(merge_views(ma, mb)),
            (Err(e), _) => spec_parse_lines(empty_gfa(mode), a + b, v) == Err::<GfaView, GfaError>(
                e,
            ),
            (Ok(_), Err(e)) => spec_parse_lines(empty_gfa(mode), a + b, v) == Err::<
                GfaView,
                GfaError,
            >(e),
        },
{
    let e = empty_gfa(mode);
    lemma_parse_append(e, a, b, v);
    match spec_parse_lines(e, a, v) {
        Ok(ma) => {
            lemma_parse_lines_prefix(e, a, v);
            assert(ma.mode == mode);
            lemma_parse_lines_prefix(ma, b, v);
        },
        Err(_) => {},
    }
}

} // verus!
