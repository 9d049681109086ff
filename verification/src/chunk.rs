//! Chunked parsing: the chunk indexer that cuts a line stream into
//! line-aligned byte ranges, the per-chunk parser, and the merger that
//! re-bases every arena slice while concatenating partial graphs.

use vstd::prelude::*;
use crate::bytes::slice_to_vec_u8;
use crate::model::{GfaError, Version, GfaView, empty_gfa, spec_parse_lines, merge_views,
    merge_fold, merge_fold_from, spec_get_version, segs_sorted,
    lemma_parse_lines_prefix, lemma_parse_append};
use crate::records::{SeqIndex, Id, Opt, Segment, Link, Path, Walk, Containment, Jump, id_view,
    opt_view, seg_view, link_view, path_view, walk_view, containment_view, jump_view, ids_view,
    segs_wf, segs_views, links_wf, links_views, paths_wf, paths_views, walks_wf, walks_views,
    conts_wf, conts_views, jumps_wf, jumps_views, lemma_segs_views_stable,
    lemma_links_views_stable, lemma_paths_views_stable, lemma_walks_views_stable,
    lemma_conts_views_stable, lemma_jumps_views_stable};
use crate::graph::{Gfa, get_version, lemma_deep_bytes};
use rayon::iter::{IntoParallelRefIterator, ParallelIterator};
use crate::ParseMode;

verus! {

/// A re-based slice denotes the same bytes in the concatenated arena that the
/// original denoted in its own arena.
proof fn lemma_shift_content(front: Seq<u8>, back: Seq<u8>, s: SeqIndex, s2: SeqIndex)
    requires
        s.wf(back.len() as int),
        s2.start == s.start + front.len(),
        s2.end == s.end + front.len(),
    ensures
        s2.wf((front + back).len() as int),
        s2.content(front + back) == s.content(back),
{
    assert(s2.content(front + back) =~= s.content(back));
}

/// Shift one slice right by the accumulated arena length.
fn rebase_slice(s: SeqIndex, offset: usize, Ghost(front): Ghost<Seq<u8>>, Ghost(back): Ghost<
    Seq<u8>,
>) -> (r: SeqIndex)
    requires
        s.wf(back.len() as int),
        offset == front.len(),
        front.len() + back.len() <= usize::MAX,
    ensures
        r.wf((front + back).len() as int),
        r.content(front + back) == s.content(back),
{
    let r = SeqIndex { start: s.start + offset, end: s.end + offset };
    proof {
        lemma_shift_content(front, back, s, r);
    }
    r
}

/// Shift an identifier's slice, when it has one.
fn rebase_id(id: Id, offset: usize, Ghost(front): Ghost<Seq<u8>>, Ghost(back): Ghost<Seq<u8>>) -> (r:
    Id)
    requires
        id.wf(back.len() as int),
        offset == front.len(),
        front.len() + back.len() <= usize::MAX,
    ensures
        r.wf((front + back).len() as int),
        id_view(r, front + back) == id_view(id, back),
        forall|d: bool| r.matches(d) == id.matches(d),
{
    match id {
        Id::Num(v) => Id::Num(v),
        Id::Text(s) => Id::Text(rebase_slice(s, offset, Ghost(front), Ghost(back))),
    }
}

/// Shift an optional stored field's slice, when it is present.
fn rebase_opt(o: Opt, offset: usize, Ghost(front): Ghost<Seq<u8>>, Ghost(back): Ghost<Seq<u8>>) -> (r:
    Opt)
    requires
        o.wf(back.len() as int),
        offset == front.len(),
        front.len() + back.len() <= usize::MAX,
    ensures
        r.wf((front + back).len() as int),
        opt_view(r, front + back) == opt_view(o, back),
{
    match o {
        Opt::Absent => Opt::Absent,
        Opt::Present(s) => Opt::Present(rebase_slice(s, offset, Ghost(front), Ghost(back))),
    }
}

/// Shift every identifier of a step list.
fn rebase_ids(ids: &mut Vec<Id>, offset: usize, Ghost(front): Ghost<Seq<u8>>, Ghost(back): Ghost<
    Seq<u8>,
>, Ghost(digit): Ghost<bool>)
    requires
        forall|i: int|
            0 <= i < old(ids)@.len() ==> (#[trigger] old(ids)@[i]).wf(back.len() as int)
                && old(ids)@[i].matches(digit),
        offset == front.len(),
        front.len() + back.len() <= usize::MAX,
    ensures
        final(ids)@.len() == old(ids)@.len(),
        forall|i: int|
            0 <= i < final(ids)@.len() ==> (#[trigger] final(ids)@[i]).wf((front + back).len() as int)
                && final(ids)@[i].matches(digit),
        ids_view(final(ids)@, front + back) == ids_view(old(ids)@, back),
{
    let n = ids.len();
    let mut i: usize = 0;
    while i < n
        invariant
            0 <= i <= n,
            n == ids@.len(),
            offset == front.len(),
            front.len() + back.len() <= usize::MAX,
            forall|k: int|
                i <= k < n ==> (#[trigger] ids@[k]).wf(back.len() as int) && ids@[k].matches(digit)
                    && ids@[k] == old(ids)@[k],
            forall|k: int|
                0 <= k < i ==> (#[trigger] ids@[k]).wf((front + back).len() as int)
                    && ids@[k].matches(digit) && id_view(ids@[k], front + back) == id_view(
                    old(ids)@[k],
                    back,
                ),
        decreases n - i,
    {
        let id = ids[i];
        let r = rebase_id(id, offset, Ghost(front), Ghost(back));
        ids.set(i, r);
        i = i + 1;
    }
    proof {
        assert(ids_view(ids@, front + back) =~= ids_view(old(ids)@, back));
    }
}

/// Concatenate one partial graph onto the accumulated one: append its arena,
/// re-base every slice of its records by the arena length the accumulator had,
/// and append the record vectors; the first non-empty header wins.
pub fn merge_one(acc: &mut Gfa, part: Gfa)
    requires
        old(acc).wf(),
        part.wf(),
        part.mode == old(acc).mode,
    ensures
        final(acc).wf(),
        final(acc).mode == old(acc).mode,
        final(acc).is_digit == old(acc).is_digit,
        final(acc).index_of_index@ == old(acc).index_of_index@,
        final(acc).index_low == old(acc).index_low,
        final(acc)@ == merge_views(old(acc)@, part@),
{
    let ghost digit = old(acc).mode.digit_ids;
    let ghost front = acc.sequence@;
    let ghost back = part.sequence@;
    let ghost pview = part@;
    let ghost acc0 = old(acc)@;
    let mut part = part;
    let offset = acc.sequence.len();
    acc.sequence.append(&mut part.sequence);
    let total = acc.sequence.len();
    proof {
        assert(acc.sequence@ == front + back);
        assert(total == front.len() + back.len());
        assert(front.len() + back.len() <= usize::MAX);
        assert((front + back).take(front.len() as int) =~= front);
        lemma_segs_views_stable(acc.segments@, front, front + back, digit);
        lemma_links_views_stable(acc.links@, front, front + back, digit);
        lemma_paths_views_stable(acc.paths@, front, front + back, digit);
        lemma_walks_views_stable(acc.walk@, front, front + back, digit);
        lemma_conts_views_stable(acc.containment@, front, front + back, digit);
        lemma_jumps_views_stable(acc.jump@, front, front + back, digit);
    }
    let mut segs = rebase_segments(part.segments, offset, Ghost(front), Ghost(back), Ghost(digit));
    acc.segments.append(&mut segs);
    let mut links = rebase_links(part.links, offset, Ghost(front), Ghost(back), Ghost(digit));
    acc.links.append(&mut links);
    let mut paths = rebase_paths(part.paths, offset, Ghost(front), Ghost(back), Ghost(digit));
    acc.paths.append(&mut paths);
    let mut walks = rebase_walks(part.walk, offset, Ghost(front), Ghost(back), Ghost(digit));
    acc.walk.append(&mut walks);
    let mut conts = rebase_conts(part.containment, offset, Ghost(front), Ghost(back), Ghost(digit));
    acc.containment.append(&mut conts);
    let mut jumps = rebase_jumps(part.jump, offset, Ghost(front), Ghost(back), Ghost(digit));
    acc.jump.append(&mut jumps);
    // header: the first non-empty one wins
    if acc.header.tag.len() == 0 && acc.header.typ.len() == 0
        && acc.header.version_number.len() == 0 {
        acc.header = part.header;
    }
    proof {
        assert(segs_views(acc.segments@, front + back) =~= acc0.segments + pview.segments);
        assert(links_views(acc.links@, front + back) =~= acc0.links + pview.links);
        assert(paths_views(acc.paths@, front + back) =~= acc0.paths + pview.paths);
        assert(walks_views(acc.walk@, front + back) =~= acc0.walk + pview.walk);
        assert(conts_views(acc.containment@, front + back) =~= acc0.containment + pview.containment);
        assert(jumps_views(acc.jump@, front + back) =~= acc0.jump + pview.jump);
        assert(acc@ =~= merge_views(acc0, pview));
    }
}

/// Re-base every slice of a chunk's segments into the concatenated arena.
fn rebase_segments(v: Vec<Segment>, offset: usize, Ghost(front): Ghost<Seq<u8>>, Ghost(back): Ghost<
    Seq<u8>,
>, Ghost(digit): Ghost<bool>) -> (r: Vec<Segment>)
    requires
        segs_wf(v@, back.len() as int, digit),
        offset == front.len(),
        front.len() + back.len() <= usize::MAX,
    ensures
        segs_wf(r@, (front + back).len() as int, digit),
        segs_views(r@, front + back) == segs_views(v@, back),
{
    let n = v.len();
    let mut out: Vec<Segment> = Vec::new();
    let mut i: usize = 0;
    while i < n
        invariant
            0 <= i <= n,
            n == v@.len(),
            offset == front.len(),
            front.len() + back.len() <= usize::MAX,
            segs_wf(v@, back.len() as int, digit),
            segs_wf(out@, (front + back).len() as int, digit),
            out@.len() == i,
            segs_views(out@, front + back) == segs_views(v@.take(i as int), back),
        decreases n - i,
    {
        let seg = v[i];
        let r = Segment {
            id: rebase_id(seg.id, offset, Ghost(front), Ghost(back)),
            sequence: rebase_slice(seg.sequence, offset, Ghost(front), Ghost(back)),
            length: seg.length,
            opt: rebase_opt(seg.opt, offset, Ghost(front), Ghost(back)),
        };
        let ghost pre = out@;
        out.push(r);
        proof {
            assert(seg_view(r, front + back) =~= seg_view(v@[i as int], back));
            assert(segs_views(out@, front + back) =~= segs_views(pre, front + back).push(
                seg_view(r, front + back),
            ));
            assert(segs_views(v@.take(i + 1), back) =~= segs_views(v@.take(i as int), back).push(
                seg_view(v@[i as int], back),
            ));
        }
        i = i + 1;
    }
    proof {
        assert(v@.take(n as int) =~= v@);
    }
    out
}

/// Re-base every slice of a chunk's links.
fn rebase_links(v: Vec<Link>, offset: usize, Ghost(front): Ghost<Seq<u8>>, Ghost(back): Ghost<
    Seq<u8>,
>, Ghost(digit): Ghost<bool>) -> (r: Vec<Link>)
    requires
        links_wf(v@, back.len() as int, digit),
        offset == front.len(),
        front.len() + back.len() <= usize::MAX,
    ensures
        links_wf(r@, (front + back).len() as int, digit),
        links_views(r@, front + back) == links_views(v@, back),
{
    let n = v.len();
    let mut out: Vec<Link> = Vec::new();
    let mut i: usize = 0;
    while i < n
        invariant
            0 <= i <= n,
            n == v@.len(),
            offset == front.len(),
            front.len() + back.len() <= usize::MAX,
            links_wf(v@, back.len() as int, digit),
            links_wf(out@, (front + back).len() as int, digit),
            out@.len() == i,
            links_views(out@, front + back) == links_views(v@.take(i as int), back),
        decreases n - i,
    {
        let l = v[i];
        let r = Link {
            from: rebase_id(l.from, offset, Ghost(front), Ghost(back)),
            from_dir: l.from_dir,
            to: rebase_id(l.to, offset, Ghost(front), Ghost(back)),
            to_dir: l.to_dir,
            overlap: rebase_opt(l.overlap, offset, Ghost(front), Ghost(back)),
            opt: rebase_opt(l.opt, offset, Ghost(front), Ghost(back)),
        };
        let ghost pre = out@;
        out.push(r);
        proof {
            assert(link_view(r, front + back) =~= link_view(v@[i as int], back));
            assert(links_views(out@, front + back) =~= links_views(pre, front + back).push(
                link_view(r, front + back),
            ));
            assert(links_views(v@.take(i + 1), back) =~= links_views(v@.take(i as int), back).push(
                link_view(v@[i as int], back),
            ));
        }
        i = i + 1;
    }
    proof {
        assert(v@.take(n as int) =~= v@);
    }
    out
}

/// Re-base every slice of a chunk's paths, step identifiers included.
fn rebase_paths(v: Vec<Path>, offset: usize, Ghost(front): Ghost<Seq<u8>>, Ghost(back): Ghost<
    Seq<u8>,
>, Ghost(digit): Ghost<bool>) -> (r: Vec<Path>)
    requires
        paths_wf(v@, back.len() as int, digit),
        offset == front.len(),
        front.len() + back.len() <= usize::MAX,
    ensures
        paths_wf(r@, (front + back).len() as int, digit),
        paths_views(r@, front + back) == paths_views(v@, back),
{
    let ghost orig = v@;
    let n = v.len();
    let mut v = v;
    let mut out: Vec<Path> = Vec::new();
    let mut i: usize = 0;
    while i < n
        invariant
            0 <= i <= n,
            n == orig.len(),
            v@ == orig.skip(i as int),
            offset == front.len(),
            front.len() + back.len() <= usize::MAX,
            paths_wf(orig, back.len() as int, digit),
            paths_wf(out@, (front + back).len() as int, digit),
            out@.len() == i,
            paths_views(out@, front + back) == paths_views(orig.take(i as int), back),
        decreases n - i,
    {
        proof {
            assert(orig.skip(i as int)[0] == orig[i as int]);
            assert(orig.skip(i as int).skip(1) =~= orig.skip(i + 1));
        }
        let p = v.remove(0);
        let mut nodes = p.nodes;
        rebase_ids(&mut nodes, offset, Ghost(front), Ghost(back), Ghost(digit));
        let r = Path {
            name: p.name,
            dir: p.dir,
            nodes: nodes,
            overlap: rebase_opt(p.overlap, offset, Ghost(front), Ghost(back)),
            opt: rebase_opt(p.opt, offset, Ghost(front), Ghost(back)),
        };
        let ghost pre = out@;
        out.push(r);
        proof {
            assert(path_view(r, front + back) =~= path_view(orig[i as int], back));
            assert(paths_views(out@, front + back) =~= paths_views(pre, front + back).push(
                path_view(r, front + back),
            ));
            assert(paths_views(orig.take(i + 1), back) =~= paths_views(
                orig.take(i as int),
                back,
            ).push(path_view(orig[i as int], back)));
        }
        i = i + 1;
    }
    proof {
        assert(orig.take(n as int) =~= orig);
    }
    out
}

/// Re-base every slice of a chunk's walks, step identifiers included.
fn rebase_walks(v: Vec<Walk>, offset: usize, Ghost(front): Ghost<Seq<u8>>, Ghost(back): Ghost<
    Seq<u8>,
>, Ghost(digit): Ghost<bool>) -> (r: Vec<Walk>)
    requires
        walks_wf(v@, back.len() as int, digit),
        offset == front.len(),
        front.len() + back.len() <= usize::MAX,
    ensures
        walks_wf(r@, (front + back).len() as int, digit),
        walks_views(r@, front + back) == walks_views(v@, back),
{
    let ghost orig = v@;
    let n = v.len();
    let mut v = v;
    let mut out: Vec<Walk> = Vec::new();
    let mut i: usize = 0;
    while i < n
        invariant
            0 <= i <= n,
            n == orig.len(),
            v@ == orig.skip(i as int),
            offset == front.len(),
            front.len() + back.len() <= usize::MAX,
            walks_wf(orig, back.len() as int, digit),
            walks_wf(out@, (front + back).len() as int, digit),
            out@.len() == i,
            walks_views(out@, front + back) == walks_views(orig.take(i as int), back),
        decreases n - i,
    {
        proof {
            assert(orig.skip(i as int)[0] == orig[i as int]);
            assert(orig.skip(i as int).skip(1) =~= orig.skip(i + 1));
        }
        let w = v.remove(0);
        let mut walk_id = w.walk_id;
        rebase_ids(&mut walk_id, offset, Ghost(front), Ghost(back), Ghost(digit));
        let r = Walk {
            sample_id: w.sample_id,
            hap_index: w.hap_index,
            seq_id: w.seq_id,
            seq_start: w.seq_start,
            seq_end: w.seq_end,
            walk_dir: w.walk_dir,
            walk_id: walk_id,
            opt: rebase_opt(w.opt, offset, Ghost(front), Ghost(back)),
        };
        let ghost pre = out@;
        out.push(r);
        proof {
            assert(walk_view(r, front + back) =~= walk_view(orig[i as int], back));
            assert(walks_views(out@, front + back) =~= walks_views(pre, front + back).push(
                walk_view(r, front + back),
            ));
            assert(walks_views(orig.take(i + 1), back) =~= walks_views(
                orig.take(i as int),
                back,
            ).push(walk_view(orig[i as int], back)));
        }
        i = i + 1;
    }
    proof {
        assert(orig.take(n as int) =~= orig);
    }
    out
}

/// Re-base every slice of a chunk's containments.
fn rebase_conts(v: Vec<Containment>, offset: usize, Ghost(front): Ghost<Seq<u8>>, Ghost(back): Ghost<
    Seq<u8>,
>, Ghost(digit): Ghost<bool>) -> (r: Vec<Containment>)
    requires
        conts_wf(v@, back.len() as int, digit),
        offset == front.len(),
        front.len() + back.len() <= usize::MAX,
    ensures
        conts_wf(r@, (front + back).len() as int, digit),
        conts_views(r@, front + back) == conts_views(v@, back),
{
    let n = v.len();
    let mut out: Vec<Containment> = Vec::new();
    let mut i: usize = 0;
    while i < n
        invariant
            0 <= i <= n,
            n == v@.len(),
            offset == front.len(),
            front.len() + back.len() <= usize::MAX,
            conts_wf(v@, back.len() as int, digit),
            conts_wf(out@, (front + back).len() as int, digit),
            out@.len() == i,
            conts_views(out@, front + back) == conts_views(v@.take(i as int), back),
        decreases n - i,
    {
        let c = v[i];
        let r = Containment {
            container: rebase_id(c.container, offset, Ghost(front), Ghost(back)),
            container_dir: c.container_dir,
            contained: rebase_id(c.contained, offset, Ghost(front), Ghost(back)),
            contained_dir: c.contained_dir,
            pos: c.pos,
            overlap: rebase_slice(c.overlap, offset, Ghost(front), Ghost(back)),
            opt: rebase_opt(c.opt, offset, Ghost(front), Ghost(back)),
        };
        let ghost pre = out@;
        out.push(r);
        proof {
            assert(containment_view(r, front + back) =~= containment_view(v@[i as int], back));
            assert(conts_views(out@, front + back) =~= conts_views(pre, front + back).push(
                containment_view(r, front + back),
            ));
            assert(conts_views(v@.take(i + 1), back) =~= conts_views(v@.take(i as int), back).push(
                containment_view(v@[i as int], back),
            ));
        }
        i = i + 1;
    }
    proof {
        assert(v@.take(n as int) =~= v@);
    }
    out
}

/// Re-base every slice of a chunk's jumps.
fn rebase_jumps(v: Vec<Jump>, offset: usize, Ghost(front): Ghost<Seq<u8>>, Ghost(back): Ghost<
    Seq<u8>,
>, Ghost(digit): Ghost<bool>) -> (r: Vec<Jump>)
    requires
        jumps_wf(v@, back.len() as int, digit),
        offset == front.len(),
        front.len() + back.len() <= usize::MAX,
    ensures
        jumps_wf(r@, (front + back).len() as int, digit),
        jumps_views(r@, front + back) == jumps_views(v@, back),
{
    let n = v.len();
    let mut out: Vec<Jump> = Vec::new();
    let mut i: usize = 0;
    while i < n
        invariant
            0 <= i <= n,
            n == v@.len(),
            offset == front.len(),
            front.len() + back.len() <= usize::MAX,
            jumps_wf(v@, back.len() as int, digit),
            jumps_wf(out@, (front + back).len() as int, digit),
            out@.len() == i,
            jumps_views(out@, front + back) == jumps_views(v@.take(i as int), back),
        decreases n - i,
    {
        let j = v[i];
        let r = Jump {
            from: rebase_id(j.from, offset, Ghost(front), Ghost(back)),
            from_dir: j.from_dir,
            to: rebase_id(j.to, offset, Ghost(front), Ghost(back)),
            to_dir: j.to_dir,
            distance: j.distance,
            opt: rebase_opt(j.opt, offset, Ghost(front), Ghost(back)),
        };
        let ghost pre = out@;
        out.push(r);
        proof {
            assert(jump_view(r, front + back) =~= jump_view(v@[i as int], back));
            assert(jumps_views(out@, front + back) =~= jumps_views(pre, front + back).push(
                jump_view(r, front + back),
            ));
            assert(jumps_views(v@.take(i + 1), back) =~= jumps_views(v@.take(i as int), back).push(
                jump_view(v@[i as int], back),
            ));
        }
        i = i + 1;
    }
    proof {
        assert(v@.take(n as int) =~= v@);
    }
    out
}

/// Parse one chunk of lines into a self-contained partial graph, not yet
/// finalized: exactly the model fold of its lines from the empty graph.
pub fn parse_chunk(lines: &Vec<Vec<u8>>, version: Version, mode: ParseMode) -> (r: Result<
    Gfa,
    GfaError,
>)
    ensures
        match r {
            Ok(g) => {
                &&& spec_parse_lines(empty_gfa(mode), lines.deep_view(), version) == Ok::<
                    GfaView,
                    GfaError,
                >(g@)
                &&& g.wf()
                &&& g.mode == mode
                &&& g.index_of_index@.len() == 0
            },
            Err(e) => spec_parse_lines(empty_gfa(mode), lines.deep_view(), version) == Err::<
                GfaView,
                GfaError,
            >(e),
        },
{
    let ghost ld = lines.deep_view();
    let mut g = Gfa::new(mode);
    let n = lines.len();
    let mut i: usize = 0;
    proof {
        assert(ld.skip(0) =~= ld);
    }
    while i < n
        invariant
            0 <= i <= n,
            n == lines@.len(),
            ld == lines.deep_view(),
            ld.len() == n,
            g.wf(),
            g.mode == mode,
            g.index_of_index@.len() == 0,
            spec_parse_lines(empty_gfa(mode), ld, version) == spec_parse_lines(
                g@,
                ld.skip(i as int),
                version,
            ),
        decreases n - i,
    {
        proof {
            lemma_deep_bytes(lines@[i as int]);
            assert(ld.skip(i as int)[0] == ld[i as int]);
            assert(ld.skip(i as int).skip(1) =~= ld.skip(i + 1));
        }
        match Gfa::read_lines(lines[i].as_slice(), version, &mut g) {
            Ok(_) => {},
            Err(e) => {
                return Err(e);
            },
        }
        i = i + 1;
    }
    proof {
        assert(ld.skip(i as int) =~= Seq::<Seq<u8>>::empty());
    }
    Ok(g)
}

/// Concatenate a list of partial graphs in order, re-basing as each is added.
pub fn merge_graphs(parts: Vec<Gfa>, mode: ParseMode) -> (r: Gfa)
    requires
        forall|i: int|
            0 <= i < parts@.len() ==> (#[trigger] parts@[i]).wf() && parts@[i].mode == mode,
    ensures
        r.wf(),
        r.mode == mode,
        r.index_of_index@.len() == 0,
        r@ == merge_fold(gfas_views(parts@), mode),
{
    let ghost orig = parts@;
    let mut parts = parts;
    let mut acc = Gfa::new(mode);
    let n = parts.len();
    let mut k: usize = 0;
    proof {
        assert(orig.skip(0) =~= orig);
    }
    while k < n
        invariant
            0 <= k <= n,
            n == orig.len(),
            parts@ == orig.skip(k as int),
            forall|i: int|
                0 <= i < orig.len() ==> (#[trigger] orig[i]).wf() && orig[i].mode == mode,
            acc.wf(),
            acc.mode == mode,
            acc.index_of_index@.len() == 0,
            merge_fold_from(acc@, gfas_views(orig.skip(k as int))) == merge_fold(
                gfas_views(orig),
                mode,
            ),
        decreases n - k,
    {
        proof {
            assert(orig.skip(k as int)[0] == orig[k as int]);
            assert(orig.skip(k as int).skip(1) =~= orig.skip(k + 1));
            assert(gfas_views(orig.skip(k as int))[0] == orig[k as int]@);
            assert(gfas_views(orig.skip(k as int)).skip(1) =~= gfas_views(orig.skip(k + 1)));
        }
        let part = parts.remove(0);
        merge_one(&mut acc, part);
        k = k + 1;
    }
    proof {
        assert(gfas_views(orig.skip(k as int)) =~= Seq::<GfaView>::empty());
    }
    acc
}

/// The views of a list of graphs.
pub open spec fn gfas_views(ps: Seq<Gfa>) -> Seq<GfaView> {
    Seq::new(ps.len(), |i: int| ps[i]@)
}

/// Relies on rayon: `par_iter().map(..).collect()` over an indexed parallel
/// iterator yields exactly one result per input element, in input order; the
/// mapped closure only calls the verified `parse_chunk`, so each element
/// satisfies that function's contract for the chunk at the same position.
#[verifier::external_body]
fn parse_chunks_parallel(chunks: &Vec<Vec<Vec<u8>>>, version: Version, mode: ParseMode) -> (r: Vec<
    Result<Gfa, GfaError>,
>)
    ensures
        r@.len() == chunks@.len(),
        forall|i: int|
            0 <= i < r@.len() ==> call_ensures(parse_chunk, (&chunks@[i], version, mode), r@[i]),
{
    chunks.par_iter().map(|c| parse_chunk(c, version, mode)).collect()
}

/// Parse a list of line-aligned chunks independently (in parallel), merge the
/// partial graphs in chunk order, and finalize.
///
/// The result has, record for record, the model of parsing the concatenated
/// line stream sequentially: merge re-basing is lossless. A malformed line in
/// any chunk aborts with the same error the sequential parse would give.
pub fn parse_chunks(chunks: &Vec<Vec<Vec<u8>>>, version: Version, mode: ParseMode) -> (r: Result<
    Gfa,
    GfaError,
>)
    ensures
        match r {
            Ok(g) => match spec_parse_lines(
                empty_gfa(mode),
                chunks.deep_view().flatten(),
                version,
            ) {
                Ok(m) => {
                    &&& g.finalized()
                    &&& g.mode == mode
                    &&& g.is_digit == mode.digit_ids
                    &&& g@.header == m.header
                    &&& (g.segments@.len() == 0 ==> g.index_low == 0)
                    &&& (g.segments@.len() > 0 ==> g.index_low == g.segments@[0].id.spec_usize())
                    &&& g@.segments.to_multiset() == m.segments.to_multiset()
                    &&& segs_sorted(g@.segments)
                    &&& g@.links == m.links
                    &&& g@.paths == m.paths
                    &&& g@.jump == m.jump
                    &&& g@.containment == m.containment
                    &&& g@.walk == m.walk
                    &&& g@.mode == mode
                },
                Err(_) => false,
            },
            Err(e) => spec_parse_lines(empty_gfa(mode), chunks.deep_view().flatten(), version)
                == Err::<GfaView, GfaError>(e),
        },
{
    let ghost cd = chunks.deep_view();
    let ghost flat = cd.flatten();
    let mut results = parse_chunks_parallel(chunks, version, mode);
    let ghost origres = results@;
    let mut acc = Gfa::new(mode);
    let n = results.len();
    let mut k: usize = 0;
    proof {
        assert(cd.take(0) =~= Seq::<Seq<Seq<u8>>>::empty());
        assert(cd.take(0).flatten() =~= Seq::<Seq<u8>>::empty());
    }
    while k < n
        invariant
            0 <= k <= n,
            n == origres.len(),
            n == cd.len(),
            cd == chunks.deep_view(),
            flat == cd.flatten(),
            results@ == origres.skip(k as int),
            forall|i: int|
                0 <= i < n ==> call_ensures(
                    parse_chunk,
                    (&chunks@[i], version, mode),
                    #[trigger] origres[i],
                ),
            acc.wf(),
            acc.mode == mode,
            acc.index_of_index@.len() == 0,
            match spec_parse_lines(empty_gfa(mode), cd.take(k as int).flatten(), version) {
                Ok(mk) => acc@ == mk,
                Err(_) => false,
            },
        decreases n - k,
    {
        proof {
            assert(origres.skip(k as int)[0] == origres[k as int]);
            assert(origres.skip(k as int).skip(1) =~= origres.skip(k + 1));
        }
        let res = results.remove(0);
        let ghost processed = cd.take(k as int).flatten();
        let ghost mk = spec_parse_lines(empty_gfa(mode), processed, version).unwrap();
        let ghost chunkld = cd[k as int];
        proof {
            // the lines parsed so far followed by this chunk are exactly the
            // flattening of the first k + 1 chunks
            assert(cd.take(k + 1) =~= cd.take(k as int).push(chunkld));
            cd.take(k as int).lemma_flatten_push(chunkld);
            // what the whole stream does is decided by the prefix so far
            lemma_parse_append(empty_gfa(mode), processed, chunkld, version);
            lemma_parse_lines_prefix(mk, chunkld, version);
        }
        match res {
            Ok(part) => {
                proof {
                    assert(spec_parse_lines(empty_gfa(mode), chunkld, version) == Ok::<
                        GfaView,
                        GfaError,
                    >(part@));
                    assert(spec_parse_lines(empty_gfa(mode), cd.take(k + 1).flatten(), version)
                        is Ok);
                }
                merge_one(&mut acc, part);
                proof {
                    let mk2 = spec_parse_lines(
                        empty_gfa(mode),
                        cd.take(k + 1).flatten(),
                        version,
                    ).unwrap();
                    assert(acc@ =~= mk2);
                }
            },
            Err(e) => {
                proof {
                    assert(spec_parse_lines(empty_gfa(mode), chunkld, version) == Err::<
                        GfaView,
                        GfaError,
                    >(e));
                    assert(spec_parse_lines(empty_gfa(mode), processed + chunkld, version) == Err::<
                        GfaView,
                        GfaError,
                    >(e));
                    // the whole stream fails in this chunk with the same error
                    lemma_take_skip_flatten(cd, k + 1);
                    lemma_parse_append(
                        empty_gfa(mode),
                        cd.take(k + 1).flatten(),
                        cd.skip(k + 1).flatten(),
                        version,
                    );
                    assert(spec_parse_lines(empty_gfa(mode), flat, version) == Err::<
                        GfaView,
                        GfaError,
                    >(e));
                }
                return Err(e);
            },
        }
        k = k + 1;
    }
    proof {
        assert(cd.take(k as int) =~= cd);
    }
    acc.finalize();
    Ok(acc)
}

/// A line longer than this counts as large for the two-tier cut rule.
pub const LARGE_LINE: usize = 1000000;

/// Cut after a large line once a chunk has reached this many bytes.
pub const CHUNK_TARGET: usize = 20000000;

/// Cut unconditionally once a chunk has reached this many bytes.
pub const CHUNK_HARD: usize = 40000000;

/// The offsets view of an offset vector, for stating the cut rule.
pub open spec fn offsets_as_ints(s: Seq<usize>) -> Seq<int> {
    Seq::new(s.len(), |i: int| s[i] as int)
}

/// The offsets the two-tier cut rule produces from position `i` on, given the
/// bytes counted so far (`total`) and the bytes of the open chunk (`chunk`):
/// cut after the current line when it is large and the chunk passed the
/// target, or when the chunk passed the hard maximum; close a non-empty final
/// chunk at the file's end.
pub open spec fn spec_index_tail(ld: Seq<Seq<u8>>, i: int, total: int, chunk: int) -> Seq<int>
    decreases ld.len() - i,
{
    if i < 0 || i >= ld.len() {
        if chunk != 0 {
            seq![total]
        } else {
            Seq::empty()
        }
    } else {
        let l = ld[i].len() as int;
        let total2 = total + l + 1;
        let chunk2 = chunk + l + 1;
        if (l > LARGE_LINE as int && chunk2 > CHUNK_TARGET as int) || chunk2 > CHUNK_HARD as int {
            seq![total2] + spec_index_tail(ld, i + 1, total2, 0)
        } else {
            spec_index_tail(ld, i + 1, total2, chunk2)
        }
    }
}

/// The byte offset just after line `k - 1`, counting one newline per line.
pub open spec fn prefix_len(ld: Seq<Seq<u8>>, k: int) -> int
    decreases k,
{
    if k <= 0 {
        0
    } else {
        prefix_len(ld, k - 1) + ld[k - 1].len() + 1
    }
}

/// Byte offsets never decrease along the file.
pub proof fn lemma_prefix_len_mono(ld: Seq<Seq<u8>>, a: int, b: int)
    requires
        0 <= a <= b,
    ensures
        prefix_len(ld, a) <= prefix_len(ld, b),
    decreases b - a,
{
    if a < b {
        lemma_prefix_len_mono(ld, a, b - 1);
    }
}

/// The chunk indexer: scan the lines once and produce the byte offsets that
/// cut the file into line-aligned ranges; a cut falls after the current line
/// when the line is large and the chunk has reached the target size, or
/// unconditionally when the chunk has reached the hard maximum.
///
/// Every offset produced is the byte position immediately after some line's
/// newline (or zero); the first is zero, they increase strictly, and when the
/// file has lines the last is the file length.
pub fn index_file(lines: &Vec<Vec<u8>>) -> (r: Vec<usize>)
    requires
        prefix_len(lines.deep_view(), lines.deep_view().len() as int) <= usize::MAX,
    ensures
        r@.len() >= 1,
        r@[0] == 0,
        forall|i: int| 0 <= i < r@.len() - 1 ==> #[trigger] r@[i] < r@[i + 1],
        forall|i: int|
            0 <= i < r@.len() ==> exists|k: int|
                0 <= k <= lines.deep_view().len() && #[trigger] r@[i] == prefix_len(
                    lines.deep_view(),
                    k,
                ),
        lines@.len() > 0 ==> r@[r@.len() - 1] == prefix_len(
            lines.deep_view(),
            lines.deep_view().len() as int,
        ),
        offsets_as_ints(r@) == seq![0int] + spec_index_tail(lines.deep_view(), 0, 0, 0),
{
    let ghost ld = lines.deep_view();
    let n = lines.len();
    let mut index: Vec<usize> = Vec::new();
    index.push(0);
    let mut total_len: usize = 0;
    let mut chunk_size: usize = 0;
    let mut i: usize = 0;
    proof {
        assert(ld.len() == n);
        assert(exists|k: int| 0 <= k <= ld.len() && index@[0] == prefix_len(ld, k)) by {
            assert(index@[0] == prefix_len(ld, 0));
        }
    }
    while i < n
        invariant
            0 <= i <= n,
            n == lines@.len(),
            ld == lines.deep_view(),
            ld.len() == n,
            prefix_len(ld, n as int) <= usize::MAX,
            total_len == prefix_len(ld, i as int),
            chunk_size <= total_len,
            index@.len() >= 1,
            index@[0] == 0,
            forall|j: int| 0 <= j < index@.len() - 1 ==> #[trigger] index@[j] < index@[j + 1],
            forall|j: int|
                0 <= j < index@.len() ==> exists|k: int|
                    0 <= k <= ld.len() && #[trigger] index@[j] == prefix_len(ld, k),
            index@[index@.len() - 1] + chunk_size == total_len,
            seq![0int] + spec_index_tail(ld, 0, 0, 0) == offsets_as_ints(index@)
                + spec_index_tail(ld, i as int, total_len as int, chunk_size as int),
        decreases n - i,
    {
        let l = lines[i].len();
        let ghost t0 = total_len as int;
        let ghost c0 = chunk_size as int;
        let ghost prev = index@;
        proof {
            lemma_deep_bytes(lines@[i as int]);
            assert(prefix_len(ld, i + 1) == prefix_len(ld, i as int) + l + 1);
            lemma_prefix_len_mono(ld, i + 1, n as int);
        }
        total_len = total_len + l + 1;
        chunk_size = chunk_size + l + 1;
        if l > LARGE_LINE && chunk_size > CHUNK_TARGET {
            index.push(total_len);
            chunk_size = 0;
            proof {
                assert(exists|k: int| 0 <= k <= ld.len() && total_len == prefix_len(ld, k)) by {
                    assert(total_len == prefix_len(ld, i + 1));
                }
                assert(spec_index_tail(ld, i as int, t0, c0) == seq![t0 + l + 1]
                    + spec_index_tail(ld, i + 1, t0 + l + 1, 0));
                assert(offsets_as_ints(index@) =~= offsets_as_ints(prev) + seq![total_len as int]);
                assert(offsets_as_ints(prev) + (seq![total_len as int] + spec_index_tail(
                    ld,
                    i + 1,
                    total_len as int,
                    0,
                )) =~= (offsets_as_ints(prev) + seq![total_len as int]) + spec_index_tail(
                    ld,
                    i + 1,
                    total_len as int,
                    0,
                ));
            }
        } else if chunk_size > CHUNK_HARD {
            index.push(total_len);
            chunk_size = 0;
            proof {
                assert(exists|k: int| 0 <= k <= ld.len() && total_len == prefix_len(ld, k)) by {
                    assert(total_len == prefix_len(ld, i + 1));
                }
                assert(spec_index_tail(ld, i as int, t0, c0) == seq![t0 + l + 1]
                    + spec_index_tail(ld, i + 1, t0 + l + 1, 0));
                assert(offsets_as_ints(index@) =~= offsets_as_ints(prev) + seq![total_len as int]);
                assert(offsets_as_ints(prev) + (seq![total_len as int] + spec_index_tail(
                    ld,
                    i + 1,
                    total_len as int,
                    0,
                )) =~= (offsets_as_ints(prev) + seq![total_len as int]) + spec_index_tail(
                    ld,
                    i + 1,
                    total_len as int,
                    0,
                ));
            }
        } else {
            proof {
                assert(spec_index_tail(ld, i as int, t0, c0) == spec_index_tail(
                    ld,
                    i + 1,
                    t0 + l + 1,
                    c0 + l + 1,
                ));
            }
        }
        i = i + 1;
    }
    proof {
        assert(spec_index_tail(ld, n as int, total_len as int, chunk_size as int) == (
        if chunk_size != 0 {
            seq![total_len as int]
        } else {
            Seq::<int>::empty()
        }));
    }
    if chunk_size != 0 {
        let ghost prev = index@;
        index.push(total_len);
        proof {
            assert(exists|k: int| 0 <= k <= ld.len() && total_len == prefix_len(ld, k)) by {
                assert(total_len == prefix_len(ld, n as int));
            }
            assert(offsets_as_ints(index@) =~= offsets_as_ints(prev) + seq![total_len as int]);
        }
    } else {
        proof {
            assert(offsets_as_ints(index@) + Seq::<int>::empty() =~= offsets_as_ints(index@));
        }
    }
    index
}

/// Pair each offset with the next one: the `(start, end)` byte ranges.
pub fn pair_with_next(v: &Vec<usize>) -> (r: Vec<(usize, usize)>)
    ensures
        v@.len() > 0 ==> r@.len() == v@.len() - 1,
        v@.len() == 0 ==> r@.len() == 0,
        forall|i: int| 0 <= i < r@.len() ==> (#[trigger] r@[i]).0 == v@[i] && r@[i].1 == v@[i + 1],
{
    let mut r: Vec<(usize, usize)> = Vec::new();
    let n = v.len();
    if n == 0 {
        return r;
    }
    let mut i: usize = 0;
    while i + 1 < n
        invariant
            1 <= n == v@.len(),
            0 <= i <= n - 1,
            r@.len() == i,
            forall|j: int|
                0 <= j < r@.len() ==> (#[trigger] r@[j]).0 == v@[j] && r@[j].1 == v@[j + 1],
        decreases n - i,
    {
        r.push((v[i], v[i + 1]));
        i = i + 1;
    }
    r
}

/// Cut the lines into batches: chunk boundaries follow the indexer's two-tier
/// rule, and consecutive chunks are grouped so that at most `threads` batches
/// result. The batches partition the lines in order.
pub fn split_chunks(lines: &Vec<Vec<u8>>, threads: usize) -> (r: Vec<Vec<Vec<u8>>>)
    requires
        threads >= 1,
        prefix_len(lines.deep_view(), lines.deep_view().len() as int) <= usize::MAX,
    ensures
        r.deep_view().flatten() == lines.deep_view(),
        r@.len() <= threads,
{
    let ghost ld = lines.deep_view();
    let n = lines.len();
    // first pass: how many chunks the cut rule yields
    let mut nchunks: usize = 1;
    let mut chunk_size: usize = 0;
    let mut i: usize = 0;
    while i < n
        invariant
            0 <= i <= n,
            n == lines@.len(),
            ld == lines.deep_view(),
            ld.len() == n,
            prefix_len(ld, n as int) <= usize::MAX,
            chunk_size <= prefix_len(ld, i as int),
            1 <= nchunks,
        decreases n - i,
    {
        let l = lines[i].len();
        proof {
            lemma_deep_bytes(lines@[i as int]);
            assert(prefix_len(ld, i + 1) == prefix_len(ld, i as int) + l + 1);
            lemma_prefix_len_mono(ld, i + 1, n as int);
            lemma_prefix_len_mono(ld, 0, i as int);
        }
        chunk_size = chunk_size + l + 1;
        if (l > LARGE_LINE && chunk_size > CHUNK_TARGET) || chunk_size > CHUNK_HARD {
            if nchunks < usize::MAX {
                nchunks = nchunks + 1;
            }
            chunk_size = 0;
        }
        i = i + 1;
    }
    // at most `threads` batches of consecutive chunks
    let q: usize = nchunks / threads;
    let per_batch: usize = if nchunks % threads != 0 && q < usize::MAX {
        q + 1
    } else {
        q
    };
    let per_batch: usize = if per_batch == 0 {
        1
    } else {
        per_batch
    };
    // second pass: build the batches
    let mut out: Vec<Vec<Vec<u8>>> = Vec::new();
    let mut cur: Vec<Vec<u8>> = Vec::new();
    let mut chunk_size: usize = 0;
    let mut chunks_in_batch: usize = 0;
    let mut i: usize = 0;
    proof {
        assert(out.deep_view().flatten() + cur.deep_view() =~~= ld.take(0));
    }
    while i < n
        invariant
            0 <= i <= n,
            n == lines@.len(),
            ld == lines.deep_view(),
            ld.len() == n,
            prefix_len(ld, n as int) <= usize::MAX,
            chunk_size <= prefix_len(ld, i as int),
            per_batch >= 1,
            threads >= 1,
            out@.len() < threads,
            out.deep_view().flatten() + cur.deep_view() == ld.take(i as int),
        decreases n - i,
    {
        let l = lines[i].len();
        proof {
            lemma_deep_bytes(lines@[i as int]);
            assert(prefix_len(ld, i + 1) == prefix_len(ld, i as int) + l + 1);
            lemma_prefix_len_mono(ld, i + 1, n as int);
            lemma_prefix_len_mono(ld, 0, i as int);
        }
        let line = slice_to_vec_u8(lines[i].as_slice(), 0, l);
        let ghost curprev = cur.deep_view();
        cur.push(line);
        proof {
            assert(cur.deep_view() =~~= curprev.push(ld[i as int]));
            assert(ld.take(i + 1) =~= ld.take(i as int).push(ld[i as int]));
            assert(out.deep_view().flatten() + cur.deep_view() =~~= ld.take(i + 1));
        }
        chunk_size = chunk_size + l + 1;
        if (l > LARGE_LINE && chunk_size > CHUNK_TARGET) || chunk_size > CHUNK_HARD {
            chunk_size = 0;
            if chunks_in_batch < usize::MAX {
                chunks_in_batch = chunks_in_batch + 1;
            }
            // close the batch only while another batch may still open: the
            // last batch absorbs whatever remains
            if chunks_in_batch >= per_batch && out.len() + 1 < threads {
                chunks_in_batch = 0;
                let ghost outprev = out.deep_view();
                let ghost curv = cur.deep_view();
                out.push(cur);
                cur = Vec::new();
                proof {
                    assert(out.deep_view() =~~= outprev.push(curv));
                    outprev.lemma_flatten_push(curv);
                    assert(out.deep_view().flatten() + cur.deep_view() =~~= ld.take(i + 1));
                }
            }
        }
        i = i + 1;
    }
    if cur.len() > 0 {
        let ghost outprev = out.deep_view();
        let ghost curv = cur.deep_view();
        out.push(cur);
        proof {
            assert(out.deep_view() =~~= outprev.push(curv));
            outprev.lemma_flatten_push(curv);
        }
    }
    proof {
        assert(ld.take(n as int) =~= ld);
        if out.deep_view().flatten().len() < ld.len() {
            assert(out.deep_view().flatten() + Seq::<Seq<u8>>::empty() =~= out.deep_view().flatten());
        }
        assert(out.deep_view().flatten() =~= ld);
    }
    out
}

impl Gfa {
    /// Parse a line stream through the parallel path: cut it into line-aligned
    /// chunks, parse the chunks independently, merge the partial graphs in
    /// chunk order (re-basing every slice), and finalize.
    ///
    /// The result has, record for record, the model of the sequential parse of
    /// the same lines, and fails with the same first error when a line is
    /// malformed: the parallel path is equivalent to the sequential one.
    pub fn parse_gfa_file_multi(lines: &Vec<Vec<u8>>, threads: usize, mode: ParseMode) -> (r:
        Result<Gfa, GfaError>)
        requires
            threads >= 1,
            prefix_len(lines.deep_view(), lines.deep_view().len() as int) <= usize::MAX,
        ensures
            match r {
                Ok(g) => match spec_get_version(lines.deep_view()) {
                    Ok(version) => match spec_parse_lines(
                        empty_gfa(mode),
                        lines.deep_view(),
                        version,
                    ) {
                        Ok(m) => {
                            &&& g.finalized()
                            &&& g.mode == mode
                            &&& g.is_digit == mode.digit_ids
                            &&& g@.header == m.header
                            &&& (g.segments@.len() == 0 ==> g.index_low == 0)
                            &&& (g.segments@.len() > 0 ==> g.index_low
                                == g.segments@[0].id.spec_usize())
                            &&& g@.segments.to_multiset() == m.segments.to_multiset()
                            &&& segs_sorted(g@.segments)
                            &&& g@.links == m.links
                            &&& g@.paths == m.paths
                            &&& g@.jump == m.jump
                            &&& g@.containment == m.containment
                            &&& g@.walk == m.walk
                            &&& g@.mode == mode
                        },
                        Err(_) => false,
                    },
                    Err(_) => false,
                },
                Err(e) => match spec_get_version(lines.deep_view()) {
                    Ok(version) => spec_parse_lines(empty_gfa(mode), lines.deep_view(), version)
                        == Err::<GfaView, GfaError>(e),
                    Err(e1) => e == e1,
                },
            },
    {
        let version = match get_version(lines) {
            Ok(v) => v,
            Err(e) => {
                return Err(e);
            },
        };
        let chunks = split_chunks(lines, threads);
        parse_chunks(&chunks, version, mode)
    }
}

/// A stream of chunks is the first `k` chunks followed by the rest.
proof fn lemma_take_skip_flatten(cd: Seq<Seq<Seq<u8>>>, k: int)
    requires
        0 <= k <= cd.len(),
    ensures
        cd.flatten() == cd.take(k).flatten() + cd.skip(k).flatten(),
{
    vstd::seq_lib::lemma_flatten_concat(cd.take(k), cd.skip(k));
    assert(cd.take(k) + cd.skip(k) =~= cd);
}

} // verus!
