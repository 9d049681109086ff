//! Executable record types. Variable-length text lives in the graph's arena
//! buffer; records hold `SeqIndex` slices into it. Each record type has a
//! well-formedness predicate (all slices in bounds) and an abstraction to its
//! model view, which resolves every slice to the bytes it denotes.

use vstd::prelude::*;
use vstd::slice::slice_subrange;
use crate::model::{IdView, HeaderView, SegView, LinkView, PathView, WalkView, ContainmentView,
    JumpView};

verus! {

/// Start and end of a stretch of text inside the arena buffer; a slice in
/// value form, so that records stay fixed-size.
#[derive(Clone, Copy, PartialEq, Eq, Structural, Debug)]
pub struct SeqIndex {
    pub start: usize,
    pub end: usize,
}

impl SeqIndex {
    /// In bounds for an arena of length `alen`.
    pub open spec fn wf(self, alen: int) -> bool {
        self.start <= self.end <= alen
    }

    /// The bytes this slice denotes in `arena`.
    pub open spec fn content(self, arena: Seq<u8>) -> Seq<u8> {
        arena.subrange(self.start as int, self.end as int)
    }

    /// Borrow the denoted text out of the arena buffer.
    pub fn get_string<'a>(&self, s: &'a [u8]) -> (r: &'a [u8])
        requires
            self.wf(s@.len() as int),
        ensures
            r@ == self.content(s@),
    {
        slice_subrange(s, self.start, self.end)
    }

    /// Length of the denoted text.
    pub fn get_len(&self) -> (r: usize)
        requires
            self.start <= self.end,
        ensures
            r == self.end - self.start,
    {
        self.end - self.start
    }

    /// Shift the slice right by `offset`: re-basing into an arena that got
    /// `offset` bytes prepended.
    pub fn adjust(&mut self, offset: usize)
        requires
            old(self).start <= old(self).end,
            old(self).end + offset <= usize::MAX,
        ensures
            final(self).start == old(self).start + offset,
            final(self).end == old(self).end + offset,
    {
        self.start = self.start + offset;
        self.end = self.end + offset;
    }
}

/// A slice keeps denoting the same bytes when the arena grows at the end.
pub proof fn lemma_content_stable(s: SeqIndex, arena: Seq<u8>, arena2: Seq<u8>)
    requires
        s.wf(arena.len() as int),
        arena.is_prefix_of(arena2),
    ensures
        s.wf(arena2.len() as int),
        s.content(arena2) == s.content(arena),
{
    assert(s.content(arena2) =~= s.content(arena));
}

/// A segment identifier: a machine integer, or text held in the arena. A graph
/// uses one representation throughout, chosen by its parse mode.
#[derive(Clone, Copy, PartialEq, Eq, Structural, Debug)]
pub enum Id {
    Num(usize),
    Text(SeqIndex),
}

impl Id {
    pub open spec fn wf(self, alen: int) -> bool {
        match self {
            Id::Num(_) => true,
            Id::Text(s) => s.wf(alen),
        }
    }

    /// The identifier matches the representation the graph was built with.
    pub open spec fn matches(self, digit: bool) -> bool {
        match self {
            Id::Num(_) => digit,
            Id::Text(_) => !digit,
        }
    }

    /// The numeric value used by the dense index; text identifiers have none
    /// and map to zero.
    pub fn get_usize(&self) -> (r: usize)
        ensures
            r == self.spec_usize(),
    {
        match self {
            Id::Num(v) => *v,
            Id::Text(_) => 0,
        }
    }

    pub open spec fn spec_usize(self) -> usize {
        match self {
            Id::Num(v) => v,
            Id::Text(_) => 0,
        }
    }
}

/// Resolve an identifier against the arena it was cut from.
pub open spec fn id_view(id: Id, arena: Seq<u8>) -> IdView {
    match id {
        Id::Num(v) => IdView::Num(v),
        Id::Text(s) => IdView::Text(s.content(arena)),
    }
}

pub proof fn lemma_id_view_stable(id: Id, arena: Seq<u8>, arena2: Seq<u8>)
    requires
        id.wf(arena.len() as int),
        arena.is_prefix_of(arena2),
    ensures
        id.wf(arena2.len() as int),
        id_view(id, arena2) == id_view(id, arena),
{
    if let Id::Text(s) = id {
        lemma_content_stable(s, arena, arena2);
    }
}

/// An optional stored field: absent, or a slice of arena text (possibly
/// empty). Parsing with storage off always yields `Absent`.
#[derive(Clone, Copy, PartialEq, Eq, Structural, Debug)]
pub enum Opt {
    Absent,
    Present(SeqIndex),
}

impl Opt {
    pub open spec fn wf(self, alen: int) -> bool {
        match self {
            Opt::Absent => true,
            Opt::Present(s) => s.wf(alen),
        }
    }
}

pub open spec fn opt_view(o: Opt, arena: Seq<u8>) -> Option<Seq<u8>> {
    match o {
        Opt::Absent => None,
        Opt::Present(s) => Some(s.content(arena)),
    }
}

pub proof fn lemma_opt_view_stable(o: Opt, arena: Seq<u8>, arena2: Seq<u8>)
    requires
        o.wf(arena.len() as int),
        arena.is_prefix_of(arena2),
    ensures
        o.wf(arena2.len() as int),
        opt_view(o, arena2) == opt_view(o, arena),
{
    if let Opt::Present(s) = o {
        lemma_content_stable(s, arena, arena2);
    }
}

/// The header record: a tag, a type letter and the declared version, all as
/// owned text since the header is read before the arena exists.
#[derive(Clone, PartialEq, Eq, Debug)]
pub struct Header {
    pub tag: Vec<u8>,
    pub typ: Vec<u8>,
    pub version_number: Vec<u8>,
}

impl View for Header {
    type V = HeaderView;

    open spec fn view(&self) -> HeaderView {
        HeaderView { tag: self.tag@, typ: self.typ@, version_number: self.version_number@ }
    }
}

/// A node: identifier, sequence text in the arena, its length, and an
/// optional annotation.
#[derive(Clone, Copy, PartialEq, Eq, Structural, Debug)]
pub struct Segment {
    pub id: Id,
    pub sequence: SeqIndex,
    pub length: u32,
    pub opt: Opt,
}

impl Segment {
    pub open spec fn wf(self, alen: int, digit: bool) -> bool {
        self.id.wf(alen) && self.id.matches(digit) && self.sequence.wf(alen) && self.opt.wf(alen)
    }
}

pub open spec fn seg_view(s: Segment, arena: Seq<u8>) -> SegView {
    SegView {
        id: id_view(s.id, arena),
        sequence: s.sequence.content(arena),
        length: s.length,
        opt: opt_view(s.opt, arena),
    }
}

/// A directed edge between two identifiers with orientation flags.
#[derive(Clone, Copy, PartialEq, Eq, Structural, Debug)]
pub struct Link {
    pub from: Id,
    pub from_dir: bool,
    pub to: Id,
    pub to_dir: bool,
    pub overlap: Opt,
    pub opt: Opt,
}

impl Link {
    pub open spec fn wf(self, alen: int, digit: bool) -> bool {
        self.from.wf(alen) && self.from.matches(digit) && self.to.wf(alen) && self.to.matches(
            digit,
        ) && self.overlap.wf(alen) && self.opt.wf(alen)
    }
}

pub open spec fn link_view(l: Link, arena: Seq<u8>) -> LinkView {
    LinkView {
        from: id_view(l.from, arena),
        from_dir: l.from_dir,
        to: id_view(l.to, arena),
        to_dir: l.to_dir,
        overlap: opt_view(l.overlap, arena),
        opt: opt_view(l.opt, arena),
    }
}

/// An ordered traversal: per-step orientation and identifier, plus a name.
#[derive(Clone, PartialEq, Eq, Debug)]
pub struct Path {
    pub name: Vec<u8>,
    pub dir: Vec<bool>,
    pub nodes: Vec<Id>,
    pub overlap: Opt,
    pub opt: Opt,
}

impl Path {
    pub open spec fn wf(self, alen: int, digit: bool) -> bool {
        &&& self.dir@.len() == self.nodes@.len()
        &&& forall|i: int|
            0 <= i < self.nodes@.len() ==> (#[trigger] self.nodes@[i]).wf(alen)
                && self.nodes@[i].matches(digit)
        &&& self.overlap.wf(alen)
        &&& self.opt.wf(alen)
    }
}

pub open spec fn ids_view(ids: Seq<Id>, arena: Seq<u8>) -> Seq<IdView> {
    Seq::new(ids.len(), |i: int| id_view(ids[i], arena))
}

pub open spec fn path_view(p: Path, arena: Seq<u8>) -> PathView {
    PathView {
        name: p.name@,
        dir: p.dir@,
        nodes: ids_view(p.nodes@, arena),
        overlap: opt_view(p.overlap, arena),
        opt: opt_view(p.opt, arena),
    }
}

/// A walk: a traversal with sample, haplotype and coordinate metadata.
#[derive(Clone, PartialEq, Eq, Debug)]
pub struct Walk {
    pub sample_id: Vec<u8>,
    pub hap_index: u32,
    pub seq_id: Vec<u8>,
    pub seq_start: i32,
    pub seq_end: i32,
    pub walk_dir: Vec<bool>,
    pub walk_id: Vec<Id>,
    pub opt: Opt,
}

impl Walk {
    pub open spec fn wf(self, alen: int, digit: bool) -> bool {
        &&& self.walk_dir@.len() == self.walk_id@.len()
        &&& forall|i: int|
            0 <= i < self.walk_id@.len() ==> (#[trigger] self.walk_id@[i]).wf(alen)
                && self.walk_id@[i].matches(digit)
        &&& self.opt.wf(alen)
    }
}

pub open spec fn walk_view(w: Walk, arena: Seq<u8>) -> WalkView {
    WalkView {
        sample_id: w.sample_id@,
        hap_index: w.hap_index,
        seq_id: w.seq_id@,
        seq_start: w.seq_start,
        seq_end: w.seq_end,
        walk_dir: w.walk_dir@,
        walk_id: ids_view(w.walk_id@, arena),
        opt: opt_view(w.opt, arena),
    }
}

/// One segment contained inside another, at a position, with an overlap.
#[derive(Clone, Copy, PartialEq, Eq, Structural, Debug)]
pub struct Containment {
    pub container: Id,
    pub container_dir: bool,
    pub contained: Id,
    pub contained_dir: bool,
    pub pos: u32,
    pub overlap: SeqIndex,
    pub opt: Opt,
}

impl Containment {
    pub open spec fn wf(self, alen: int, digit: bool) -> bool {
        self.container.wf(alen) && self.container.matches(digit) && self.contained.wf(alen)
            && self.contained.matches(digit) && self.overlap.wf(alen) && self.opt.wf(alen)
    }
}

pub open spec fn containment_view(c: Containment, arena: Seq<u8>) -> ContainmentView {
    ContainmentView {
        container: id_view(c.container, arena),
        container_dir: c.container_dir,
        contained: id_view(c.contained, arena),
        contained_dir: c.contained_dir,
        pos: c.pos,
        overlap: c.overlap.content(arena),
        opt: opt_view(c.opt, arena),
    }
}

/// A jump: a relation between two identifiers with a signed distance; -1
/// stands for an unknown distance.
#[derive(Clone, Copy, PartialEq, Eq, Structural, Debug)]
pub struct Jump {
    pub from: Id,
    pub from_dir: bool,
    pub to: Id,
    pub to_dir: bool,
    pub distance: i64,
    pub opt: Opt,
}

impl Jump {
    pub open spec fn wf(self, alen: int, digit: bool) -> bool {
        self.from.wf(alen) && self.from.matches(digit) && self.to.wf(alen) && self.to.matches(
            digit,
        ) && self.opt.wf(alen)
    }
}

pub open spec fn jump_view(j: Jump, arena: Seq<u8>) -> JumpView {
    JumpView {
        from: id_view(j.from, arena),
        from_dir: j.from_dir,
        to: id_view(j.to, arena),
        to_dir: j.to_dir,
        distance: j.distance,
        opt: opt_view(j.opt, arena),
    }
}

// ------------------------------------------------------------------
// Vector views and their stability under arena growth.
// ------------------------------------------------------------------

pub open spec fn segs_wf(segs: Seq<Segment>, alen: int, digit: bool) -> bool {
    forall|i: int| 0 <= i < segs.len() ==> (#[trigger] segs[i]).wf(alen, digit)
}

pub open spec fn segs_views(segs: Seq<Segment>, arena: Seq<u8>) -> Seq<SegView> {
    Seq::new(segs.len(), |i: int| seg_view(segs[i], arena))
}

pub open spec fn links_wf(ls: Seq<Link>, alen: int, digit: bool) -> bool {
    forall|i: int| 0 <= i < ls.len() ==> (#[trigger] ls[i]).wf(alen, digit)
}

pub open spec fn links_views(ls: Seq<Link>, arena: Seq<u8>) -> Seq<LinkView> {
    Seq::new(ls.len(), |i: int| link_view(ls[i], arena))
}

pub open spec fn paths_wf(ps: Seq<Path>, alen: int, digit: bool) -> bool {
    forall|i: int| 0 <= i < ps.len() ==> (#[trigger] ps[i]).wf(alen, digit)
}

pub open spec fn paths_views(ps: Seq<Path>, arena: Seq<u8>) -> Seq<PathView> {
    Seq::new(ps.len(), |i: int| path_view(ps[i], arena))
}

pub open spec fn walks_wf(ws: Seq<Walk>, alen: int, digit: bool) -> bool {
    forall|i: int| 0 <= i < ws.len() ==> (#[trigger] ws[i]).wf(alen, digit)
}

pub open spec fn walks_views(ws: Seq<Walk>, arena: Seq<u8>) -> Seq<WalkView> {
    Seq::new(ws.len(), |i: int| walk_view(ws[i], arena))
}

pub open spec fn conts_wf(cs: Seq<Containment>, alen: int, digit: bool) -> bool {
    forall|i: int| 0 <= i < cs.len() ==> (#[trigger] cs[i]).wf(alen, digit)
}

pub open spec fn conts_views(cs: Seq<Containment>, arena: Seq<u8>) -> Seq<ContainmentView> {
    Seq::new(cs.len(), |i: int| containment_view(cs[i], arena))
}

pub open spec fn jumps_wf(js: Seq<Jump>, alen: int, digit: bool) -> bool {
    forall|i: int| 0 <= i < js.len() ==> (#[trigger] js[i]).wf(alen, digit)
}

pub open spec fn jumps_views(js: Seq<Jump>, arena: Seq<u8>) -> Seq<JumpView> {
    Seq::new(js.len(), |i: int| jump_view(js[i], arena))
}

pub proof fn lemma_seg_view_stable(s: Segment, arena: Seq<u8>, arena2: Seq<u8>, digit: bool)
    requires
        s.wf(arena.len() as int, digit),
        arena.is_prefix_of(arena2),
    ensures
        s.wf(arena2.len() as int, digit),
        seg_view(s, arena2) == seg_view(s, arena),
{
    lemma_id_view_stable(s.id, arena, arena2);
    lemma_content_stable(s.sequence, arena, arena2);
    lemma_opt_view_stable(s.opt, arena, arena2);
}

pub proof fn lemma_ids_view_stable(ids: Seq<Id>, arena: Seq<u8>, arena2: Seq<u8>)
    requires
        forall|i: int| 0 <= i < ids.len() ==> (#[trigger] ids[i]).wf(arena.len() as int),
        arena.is_prefix_of(arena2),
    ensures
        ids_view(ids, arena2) == ids_view(ids, arena),
{
    assert forall|i: int| 0 <= i < ids.len() implies id_view(ids[i], arena2) == id_view(
        ids[i],
        arena,
    ) by {
        lemma_id_view_stable(ids[i], arena, arena2);
    }
    assert(ids_view(ids, arena2) =~= ids_view(ids, arena));
}

pub proof fn lemma_segs_views_stable(segs: Seq<Segment>, arena: Seq<u8>, arena2: Seq<u8>, digit: bool)
    requires
        segs_wf(segs, arena.len() as int, digit),
        arena.is_prefix_of(arena2),
    ensures
        segs_wf(segs, arena2.len() as int, digit),
        segs_views(segs, arena2) == segs_views(segs, arena),
{
    assert forall|i: int| 0 <= i < segs.len() implies seg_view(segs[i], arena2) == seg_view(
        segs[i],
        arena,
    ) && (#[trigger] segs[i]).wf(arena2.len() as int, digit) by {
        lemma_seg_view_stable(segs[i], arena, arena2, digit);
    }
    assert(segs_views(segs, arena2) =~= segs_views(segs, arena));
}

pub proof fn lemma_link_view_stable(l: Link, arena: Seq<u8>, arena2: Seq<u8>, digit: bool)
    requires
        l.wf(arena.len() as int, digit),
        arena.is_prefix_of(arena2),
    ensures
        l.wf(arena2.len() as int, digit),
        link_view(l, arena2) == link_view(l, arena),
{
    lemma_id_view_stable(l.from, arena, arena2);
    lemma_id_view_stable(l.to, arena, arena2);
    lemma_opt_view_stable(l.overlap, arena, arena2);
    lemma_opt_view_stable(l.opt, arena, arena2);
}

pub proof fn lemma_links_views_stable(ls: Seq<Link>, arena: Seq<u8>, arena2: Seq<u8>, digit: bool)
    requires
        links_wf(ls, arena.len() as int, digit),
        arena.is_prefix_of(arena2),
    ensures
        links_wf(ls, arena2.len() as int, digit),
        links_views(ls, arena2) == links_views(ls, arena),
{
    assert forall|i: int| 0 <= i < ls.len() implies link_view(ls[i], arena2) == link_view(
        ls[i],
        arena,
    ) && (#[trigger] ls[i]).wf(arena2.len() as int, digit) by {
        lemma_link_view_stable(ls[i], arena, arena2, digit);
    }
    assert(links_views(ls, arena2) =~= links_views(ls, arena));
}

pub proof fn lemma_path_view_stable(p: Path, arena: Seq<u8>, arena2: Seq<u8>, digit: bool)
    requires
        p.wf(arena.len() as int, digit),
        arena.is_prefix_of(arena2),
    ensures
        p.wf(arena2.len() as int, digit),
        path_view(p, arena2) == path_view(p, arena),
{
    lemma_ids_view_stable(p.nodes@, arena, arena2);
    lemma_opt_view_stable(p.overlap, arena, arena2);
    lemma_opt_view_stable(p.opt, arena, arena2);
    assert(path_view(p, arena2) =~= path_view(p, arena));
}

pub proof fn lemma_paths_views_stable(ps: Seq<Path>, arena: Seq<u8>, arena2: Seq<u8>, digit: bool)
    requires
        paths_wf(ps, arena.len() as int, digit),
        arena.is_prefix_of(arena2),
    ensures
        paths_wf(ps, arena2.len() as int, digit),
        paths_views(ps, arena2) == paths_views(ps, arena),
{
    assert forall|i: int| 0 <= i < ps.len() implies path_view(ps[i], arena2) == path_view(
        ps[i],
        arena,
    ) && (#[trigger] ps[i]).wf(arena2.len() as int, digit) by {
        lemma_path_view_stable(ps[i], arena, arena2, digit);
    }
    assert(paths_views(ps, arena2) =~= paths_views(ps, arena));
}

pub proof fn lemma_walk_view_stable(w: Walk, arena: Seq<u8>, arena2: Seq<u8>, digit: bool)
    requires
        w.wf(arena.len() as int, digit),
        arena.is_prefix_of(arena2),
    ensures
        w.wf(arena2.len() as int, digit),
        walk_view(w, arena2) == walk_view(w, arena),
{
    lemma_ids_view_stable(w.walk_id@, arena, arena2);
    lemma_opt_view_stable(w.opt, arena, arena2);
    assert(walk_view(w, arena2) =~= walk_view(w, arena));
}

pub proof fn lemma_walks_views_stable(ws: Seq<Walk>, arena: Seq<u8>, arena2: Seq<u8>, digit: bool)
    requires
        walks_wf(ws, arena.len() as int, digit),
        arena.is_prefix_of(arena2),
    ensures
        walks_wf(ws, arena2.len() as int, digit),
        walks_views(ws, arena2) == walks_views(ws, arena),
{
    assert forall|i: int| 0 <= i < ws.len() implies walk_view(ws[i], arena2) == walk_view(
        ws[i],
        arena,
    ) && (#[trigger] ws[i]).wf(arena2.len() as int, digit) by {
        lemma_walk_view_stable(ws[i], arena, arena2, digit);
    }
    assert(walks_views(ws, arena2) =~= walks_views(ws, arena));
}

pub proof fn lemma_cont_view_stable(c: Containment, arena: Seq<u8>, arena2: Seq<u8>, digit: bool)
    requires
        c.wf(arena.len() as int, digit),
        arena.is_prefix_of(arena2),
    ensures
        c.wf(arena2.len() as int, digit),
        containment_view(c, arena2) == containment_view(c, arena),
{
    lemma_id_view_stable(c.container, arena, arena2);
    lemma_id_view_stable(c.contained, arena, arena2);
    lemma_content_stable(c.overlap, arena, arena2);
    lemma_opt_view_stable(c.opt, arena, arena2);
}

pub proof fn lemma_conts_views_stable(cs: Seq<Containment>, arena: Seq<u8>, arena2: Seq<u8>, digit: bool)
    requires
        conts_wf(cs, arena.len() as int, digit),
        arena.is_prefix_of(arena2),
    ensures
        conts_wf(cs, arena2.len() as int, digit),
        conts_views(cs, arena2) == conts_views(cs, arena),
{
    assert forall|i: int| 0 <= i < cs.len() implies containment_view(cs[i], arena2)
        == containment_view(cs[i], arena) && (#[trigger] cs[i]).wf(arena2.len() as int, digit) by {
        lemma_cont_view_stable(cs[i], arena, arena2, digit);
    }
    assert(conts_views(cs, arena2) =~= conts_views(cs, arena));
}

pub proof fn lemma_jump_view_stable(j: Jump, arena: Seq<u8>, arena2: Seq<u8>, digit: bool)
    requires
        j.wf(arena.len() as int, digit),
        arena.is_prefix_of(arena2),
    ensures
        j.wf(arena2.len() as int, digit),
        jump_view(j, arena2) == jump_view(j, arena),
{
    lemma_id_view_stable(j.from, arena, arena2);
    lemma_id_view_stable(j.to, arena, arena2);
    lemma_opt_view_stable(j.opt, arena, arena2);
}

pub proof fn lemma_jumps_views_stable(js: Seq<Jump>, arena: Seq<u8>, arena2: Seq<u8>, digit: bool)
    requires
        jumps_wf(js, arena.len() as int, digit),
        arena.is_prefix_of(arena2),
    ensures
        jumps_wf(js, arena2.len() as int, digit),
        jumps_views(js, arena2) == jumps_views(js, arena),
{
    assert forall|i: int| 0 <= i < js.len() implies jump_view(js[i], arena2) == jump_view(
        js[i],
        arena,
    ) && (#[trigger] js[i]).wf(arena2.len() as int, digit) by {
        lemma_jump_view_stable(js[i], arena, arena2, digit);
    }
    assert(jumps_views(js, arena2) =~= jumps_views(js, arena));
}

} // verus!
