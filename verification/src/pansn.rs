//! Grouping of paths by naming convention: a path name of the form
//! `sample<del>haplotype<del>contig` files the path under its sample and
//! haplotype. Paths are referred to by their index in the path vector they
//! were grouped from.

use vstd::prelude::*;
use crate::bytes::{spec_split, split_by, bytes_eq};
use crate::records::Path;
use crate::graph::lemma_deep_bytes;

verus! {

/// One haplotype: its name and the indices of the paths filed under it.
pub struct Haplotype {
    pub name: Vec<u8>,
    pub paths: Vec<usize>,
}

/// One sample: its name and its haplotypes.
pub struct Sample {
    pub name: Vec<u8>,
    pub haplotypes: Vec<Haplotype>,
}

/// Paths grouped by sample and haplotype.
pub struct Pansn {
    pub genomes: Vec<Sample>,
}

/// Number of path indices stored under a list of haplotypes.
pub open spec fn sum_haplos(hs: Seq<Haplotype>) -> int
    decreases hs.len(),
{
    if hs.len() == 0 {
        0
    } else {
        hs[0].paths@.len() + sum_haplos(hs.skip(1))
    }
}

/// Number of path indices stored under a list of samples.
pub open spec fn sum_samples(gs: Seq<Sample>) -> int
    decreases gs.len(),
{
    if gs.len() == 0 {
        0
    } else {
        sum_haplos(gs[0].haplotypes@) + sum_samples(gs.skip(1))
    }
}

/// Number of haplotypes across all samples.
pub open spec fn count_haplos(gs: Seq<Sample>) -> int
    decreases gs.len(),
{
    if gs.len() == 0 {
        0
    } else {
        gs[0].haplotypes@.len() + count_haplos(gs.skip(1))
    }
}

/// The path index stored at position `(g, h, t)` of the grouping.
pub open spec fn idx_at(gs: Seq<Sample>, g: int, h: int, t: int) -> usize {
    gs[g].haplotypes@[h].paths@[t]
}

/// `(g, h, t)` is a position of the grouping.
pub open spec fn pos_ok(gs: Seq<Sample>, g: int, h: int, t: int) -> bool {
    0 <= g < gs.len() && 0 <= h < gs[g].haplotypes@.len() && 0 <= t
        < gs[g].haplotypes@[h].paths@.len()
}

/// A path name in sample/haplotype/contig form: exactly three parts.
pub open spec fn is_pansn_name(name: Seq<u8>, del: u8) -> bool {
    spec_split(name, del).len() == 3
}

/// All path names follow the convention.
pub open spec fn all_pansn(paths: Seq<Path>, del: u8) -> bool {
    forall|i: int| 0 <= i < paths.len() ==> is_pansn_name((#[trigger] paths[i]).name@, del)
}

/// Every stored index lies below `npaths`.
pub open spec fn pansn_bounded(gs: Seq<Sample>, npaths: int) -> bool {
    forall|g: int, h: int, t: int| pos_ok(gs, g, h, t) ==> #[trigger] idx_at(gs, g, h, t) < npaths
}

/// Entry `(g, h)` of a haplotype listing: at the flattened position, the
/// joined `sample#haplotype` name and that haplotype's path indices.
pub open spec fn haplo_entry_ok(
    gs: Seq<Sample>,
    r: Seq<(Vec<u8>, Vec<usize>)>,
    g: int,
    h: int,
) -> bool {
    let k = haplos_before(gs, g) + h;
    &&& 0 <= k < r.len()
    &&& r[k].0@ == gs[g].name@ + seq![35u8] + gs[g].haplotypes@[h].name@
    &&& r[k].1@ == gs[g].haplotypes@[h].paths@
}

/// Entry `k` of a direct path listing names some filed path and its index.
pub open spec fn entry_ok(
    gs: Seq<Sample>,
    paths: Seq<Path>,
    r: Seq<(Vec<u8>, Vec<usize>)>,
    k: int,
) -> bool {
    exists|g: int, h: int, t: int|
        pos_ok(gs, g, h, t) && (#[trigger] r[k]).0@ == paths[idx_at(gs, g, h, t) as int].name@
            && r[k].1@ == seq![idx_at(gs, g, h, t)]
}

/// The flattened position of grouping slot `(g, h, t)` in sample, haplotype,
/// then path order.
pub open spec fn direct_pos(gs: Seq<Sample>, g: int, h: int, t: int) -> int {
    sum_samples(gs.take(g)) + sum_haplos(gs[g].haplotypes@.take(h)) + t
}

/// The direct listing's entry for grouping slot `(g, h, t)`: at that slot's
/// flattened position stand the filed path's own name and its index.
pub open spec fn direct_entry_at(
    gs: Seq<Sample>,
    paths: Seq<Path>,
    r: Seq<(Vec<u8>, Vec<usize>)>,
    g: int,
    h: int,
    t: int,
) -> bool {
    &&& 0 <= direct_pos(gs, g, h, t) < r.len()
    &&& r[direct_pos(gs, g, h, t)].0@ == paths[idx_at(gs, g, h, t) as int].name@
    &&& r[direct_pos(gs, g, h, t)].1@ == seq![idx_at(gs, g, h, t)]
}

/// First-appearance order: no sample or haplotype is empty, the indices of a
/// haplotype ascend in input order, haplotypes within a sample are ordered by
/// their first filed index, and so are the samples themselves.
pub open spec fn pansn_ordered(gs: Seq<Sample>) -> bool {
    &&& forall|g: int| 0 <= g < gs.len() ==> (#[trigger] gs[g]).haplotypes@.len() >= 1
    &&& forall|g: int, h: int|
        0 <= g < gs.len() && 0 <= h < gs[g].haplotypes@.len() ==> (
        #[trigger] gs[g].haplotypes@[h]).paths@.len() >= 1
    &&& forall|g: int, h: int, a: int, b: int|
        0 <= g < gs.len() && 0 <= h < gs[g].haplotypes@.len() && 0 <= a < b
            < gs[g].haplotypes@[h].paths@.len() ==> #[trigger] gs[g].haplotypes@[h].paths@[a]
            < #[trigger] gs[g].haplotypes@[h].paths@[b]
    &&& forall|g: int, h1: int, h2: int|
        0 <= g < gs.len() && 0 <= h1 < h2 < gs[g].haplotypes@.len() ==> (
        #[trigger] gs[g].haplotypes@[h1]).paths@[0] < (#[trigger] gs[g].haplotypes@[h2]).paths@[0]
    &&& forall|g1: int, g2: int|
        0 <= g1 < g2 < gs.len() ==> (#[trigger] gs[g1]).haplotypes@[0].paths@[0] < (
        #[trigger] gs[g2]).haplotypes@[0].paths@[0]
}

/// Path index `i` is filed at some position of the grouping.
pub open spec fn filed(gs: Seq<Sample>, i: int) -> bool {
    exists|g: int, h: int, t: int| pos_ok(gs, g, h, t) && #[trigger] idx_at(gs, g, h, t) == i
}

impl Pansn {
    /// An empty grouping.
    pub fn new() -> (r: Pansn)
        ensures
            r.genomes@.len() == 0,
    {
        Pansn { genomes: Vec::new() }
    }
}

/// Replacing one element splits a haplotype sum at that element.
proof fn lemma_sum_haplos_update(hs: Seq<Haplotype>, h: int, x: Haplotype)
    requires
        0 <= h < hs.len(),
    ensures
        sum_haplos(hs.update(h, x)) == sum_haplos(hs) - hs[h].paths@.len() + x.paths@.len(),
    decreases hs.len(),
{
    if h == 0 {
        assert(hs.update(0, x).skip(1) =~= hs.skip(1));
    } else {
        assert(hs.update(h, x).skip(1) =~= hs.skip(1).update(h - 1, x));
        lemma_sum_haplos_update(hs.skip(1), h - 1, x);
    }
}

/// Appending one haplotype adds its size to the sum.
proof fn lemma_sum_haplos_push(hs: Seq<Haplotype>, x: Haplotype)
    ensures
        sum_haplos(hs.push(x)) == sum_haplos(hs) + x.paths@.len(),
    decreases hs.len(),
{
    if hs.len() == 0 {
        assert(hs.push(x).skip(1) =~= Seq::<Haplotype>::empty());
        assert(hs.push(x)[0] == x);
        assert(sum_haplos(Seq::<Haplotype>::empty()) == 0);
    } else {
        assert(hs.push(x).skip(1) =~= hs.skip(1).push(x));
        assert(hs.push(x)[0] == hs[0]);
        lemma_sum_haplos_push(hs.skip(1), x);
    }
}

/// Replacing one sample splits a sample sum at that sample.
proof fn lemma_sum_samples_update(gs: Seq<Sample>, g: int, x: Sample)
    requires
        0 <= g < gs.len(),
    ensures
        sum_samples(gs.update(g, x)) == sum_samples(gs) - sum_haplos(gs[g].haplotypes@)
            + sum_haplos(x.haplotypes@),
    decreases gs.len(),
{
    if g == 0 {
        assert(gs.update(0, x).skip(1) =~= gs.skip(1));
    } else {
        assert(gs.update(g, x).skip(1) =~= gs.skip(1).update(g - 1, x));
        lemma_sum_samples_update(gs.skip(1), g - 1, x);
    }
}

/// Appending one sample adds its size to the sum.
proof fn lemma_sum_samples_push(gs: Seq<Sample>, x: Sample)
    ensures
        sum_samples(gs.push(x)) == sum_samples(gs) + sum_haplos(x.haplotypes@),
    decreases gs.len(),
{
    if gs.len() == 0 {
        assert(gs.push(x).skip(1) =~= Seq::<Sample>::empty());
        assert(gs.push(x)[0] == x);
        assert(sum_samples(Seq::<Sample>::empty()) == 0);
    } else {
        assert(gs.push(x).skip(1) =~= gs.skip(1).push(x));
        assert(gs.push(x)[0] == gs[0]);
        lemma_sum_samples_push(gs.skip(1), x);
    }
}

/// Appending one sample adds its haplotype count.
proof fn lemma_count_haplos_push(gs: Seq<Sample>, x: Sample)
    ensures
        count_haplos(gs.push(x)) == count_haplos(gs) + x.haplotypes@.len(),
    decreases gs.len(),
{
    if gs.len() == 0 {
        assert(gs.push(x).skip(1) =~= Seq::<Sample>::empty());
        assert(gs.push(x)[0] == x);
        assert(count_haplos(Seq::<Sample>::empty()) == 0);
    } else {
        assert(gs.push(x).skip(1) =~= gs.skip(1).push(x));
        assert(gs.push(x)[0] == gs[0]);
        lemma_count_haplos_push(gs.skip(1), x);
    }
}

impl Pansn {
    /// Group a path list by the naming convention: when every name splits into
    /// exactly three parts on `del` (and `del` is not a space), a path joins
    /// the sample named by its first part and the haplotype named by its
    /// second; otherwise each path stands alone as its own sample and
    /// haplotype.
    ///
    /// Every path index is filed somewhere, the total count of filed indices
    /// is the path count (so no index is filed twice), sample names are
    /// distinct, haplotype names are distinct within a sample, and each
    /// path sits under the sample and haplotype its own name names.
    pub fn from_graph(paths: &Vec<Path>, del: u8) -> (r: Pansn)
        ensures
            pansn_bounded(r.genomes@, paths@.len() as int),
            sum_samples(r.genomes@) == paths@.len(),
            pansn_ordered(r.genomes@),
            forall|i: int| 0 <= i < paths@.len() ==> #[trigger] filed(r.genomes@, i),
            !(del != 32 && all_pansn(paths@, del)) ==> {
                &&& r.genomes@.len() == paths@.len()
                &&& forall|g: int|
                    0 <= g < r.genomes@.len() ==> (#[trigger] r.genomes@[g]).name@
                        == paths@[g].name@ && r.genomes@[g].haplotypes@.len() == 1
                        && r.genomes@[g].haplotypes@[0].name@ == paths@[g].name@
                        && r.genomes@[g].haplotypes@[0].paths@ == seq![g as usize]
            },
            (del != 32 && all_pansn(paths@, del)) ==> {
                &&& forall|g: int, h: int, t: int|
                    pos_ok(r.genomes@, g, h, t) ==> {
                        let i = #[trigger] idx_at(r.genomes@, g, h, t);
                        &&& spec_split(paths@[i as int].name@, del)[0] == r.genomes@[g].name@
                        &&& spec_split(paths@[i as int].name@, del)[1]
                            == r.genomes@[g].haplotypes@[h].name@
                    }
                &&& forall|a: int, b: int|
                    0 <= a < b < r.genomes@.len() ==> (#[trigger] r.genomes@[a]).name@ != (
                    #[trigger] r.genomes@[b]).name@
                &&& forall|g: int, a: int, b: int|
                    0 <= g < r.genomes@.len() && 0 <= a < b < r.genomes@[g].haplotypes@.len() ==> (
                    #[trigger] r.genomes@[g].haplotypes@[a]).name@ != (
                    #[trigger] r.genomes@[g].haplotypes@[b]).name@
            },
    {
        let n = paths.len();
        // does every name follow the convention?
        let mut grouped = del != 32;
        let mut i: usize = 0;
        while i < n && grouped
            invariant
                0 <= i <= n,
                n == paths@.len(),
                grouped ==> del != 32,
                grouped ==> forall|k: int|
                    0 <= k < i ==> is_pansn_name((#[trigger] paths@[k]).name@, del),
                !grouped ==> (del == 32 || exists|k: int|
                    0 <= k < n && !is_pansn_name((#[trigger] paths@[k]).name@, del)),
            decreases n - i,
        {
            let parts = split_by(paths[i].name.as_slice(), del);
            proof {
                lemma_deep_bytes(paths@[i as int].name);
            }
            if parts.len() != 3 {
                proof {
                    assert(!is_pansn_name(paths@[i as int].name@, del));
                }
                grouped = false;
            }
            i = i + 1;
        }
        let ghost use_groups = del != 32 && all_pansn(paths@, del);
        proof {
            if grouped {
                assert(all_pansn(paths@, del));
            } else {
                assert(!use_groups);
            }
        }
        if !grouped {
            // one path, one sample, one haplotype
            let mut genomes: Vec<Sample> = Vec::new();
            let mut i: usize = 0;
            while i < n
                invariant
                    0 <= i <= n,
                    n == paths@.len(),
                    genomes@.len() == i,
                    sum_samples(genomes@) == i,
                    pansn_ordered(genomes@),
                    forall|g: int|
                        0 <= g < i ==> (#[trigger] genomes@[g]).name@ == paths@[g].name@
                            && genomes@[g].haplotypes@.len() == 1
                            && genomes@[g].haplotypes@[0].name@ == paths@[g].name@
                            && genomes@[g].haplotypes@[0].paths@ == seq![g as usize],
                decreases n - i,
            {
                let name = crate::bytes::slice_to_vec_u8(paths[i].name.as_slice(), 0, paths[i].name.len());
                let name2 = crate::bytes::slice_to_vec_u8(paths[i].name.as_slice(), 0, paths[i].name.len());
                let mut pv: Vec<usize> = Vec::new();
                pv.push(i);
                let haplo = Haplotype { name: name2, paths: pv };
                let ghost hv = haplo.paths@;
                let mut hvec: Vec<Haplotype> = Vec::new();
                hvec.push(haplo);
                let sample = Sample { name, haplotypes: hvec };
                let ghost prev = genomes@;
                genomes.push(sample);
                proof {
                    lemma_sum_samples_push(prev, genomes@[i as int]);
                    assert(sum_haplos(genomes@[i as int].haplotypes@) == hv.len()) by {
                        assert(genomes@[i as int].haplotypes@.skip(1)
                            =~= Seq::<Haplotype>::empty());
                        assert(sum_haplos(Seq::<Haplotype>::empty()) == 0);
                    }
                    assert(genomes@[i as int].haplotypes@[0].paths@ =~= seq![i as usize]);
                    assert forall|g1: int, g2: int| 0 <= g1 < g2 < genomes@.len() implies (
                    #[trigger] genomes@[g1]).haplotypes@[0].paths@[0] < (
                    #[trigger] genomes@[g2]).haplotypes@[0].paths@[0] by {
                        assert(genomes@[g1].haplotypes@[0].paths@ == seq![g1 as usize]);
                        assert(genomes@[g2].haplotypes@[0].paths@ == seq![g2 as usize]);
                    }
                }
                i = i + 1;
            }
            let r = Pansn { genomes };
            proof {
                assert forall|i2: int| 0 <= i2 < paths@.len() implies #[trigger] filed(
                    r.genomes@,
                    i2,
                ) by {
                    assert(pos_ok(r.genomes@, i2, 0, 0) && idx_at(r.genomes@, i2, 0, 0)
                        == i2 as usize);
                }
            }
            return r;
        }
        // grouped: file each path under its sample and haplotype
        let mut genomes: Vec<Sample> = Vec::new();
        let mut i: usize = 0;
        while i < n
            invariant
                0 <= i <= n,
                n == paths@.len(),
                del != 32,
                all_pansn(paths@, del),
                pansn_bounded(genomes@, i as int),
                sum_samples(genomes@) == i,
                pansn_ordered(genomes@),
                forall|k: int| 0 <= k < i ==> #[trigger] filed(genomes@, k),
                forall|g: int, h: int, t: int|
                    pos_ok(genomes@, g, h, t) ==> {
                        let k = #[trigger] idx_at(genomes@, g, h, t);
                        &&& spec_split(paths@[k as int].name@, del)[0] == genomes@[g].name@
                        &&& spec_split(paths@[k as int].name@, del)[1]
                            == genomes@[g].haplotypes@[h].name@
                    },
                forall|a: int, b: int|
                    0 <= a < b < genomes@.len() ==> (#[trigger] genomes@[a]).name@ != (
                    #[trigger] genomes@[b]).name@,
                forall|g: int, a: int, b: int|
                    0 <= g < genomes@.len() && 0 <= a < b < genomes@[g].haplotypes@.len() ==> (
                    #[trigger] genomes@[g].haplotypes@[a]).name@ != (
                    #[trigger] genomes@[g].haplotypes@[b]).name@,
            decreases n - i,
        {
            let ghost gentry = genomes@;
            let mut parts = split_by(paths[i].name.as_slice(), del);
            let ghost pv0 = parts@;
            proof {
                lemma_deep_bytes(paths@[i as int].name);
                assert(parts.deep_view().len() == 3);
                lemma_deep_bytes(pv0[0]);
                lemma_deep_bytes(pv0[1]);
            }
            let gname = parts.remove(0);
            let hname = parts.remove(0);
            let ghost gnv = gname@;
            let ghost hnv = hname@;
            proof {
                assert(gnv == spec_split(paths@[i as int].name@, del)[0]);
                assert(hnv == spec_split(paths@[i as int].name@, del)[1]);
            }
            // find the sample
            let mut gi: usize = 0;
            let mut gfound = false;
            while gi < genomes.len() && !gfound
                invariant
                    0 <= gi <= genomes@.len(),
                    gnv == gname@,
                    gfound ==> gi < genomes@.len() && genomes@[gi as int].name@ == gnv,
                    !gfound ==> forall|g: int| 0 <= g < gi ==> (#[trigger] genomes@[g]).name@ != gnv,
                decreases genomes@.len() - gi, (if gfound { 0int } else { 1int }),
            {
                if bytes_eq(genomes[gi].name.as_slice(), gname.as_slice()) {
                    gfound = true;
                } else {
                    gi = gi + 1;
                }
            }
            if !gfound {
                // new sample with one new haplotype
                let mut pv: Vec<usize> = Vec::new();
                pv.push(i);
                let haplo = Haplotype { name: hname, paths: pv };
                let mut hvec: Vec<Haplotype> = Vec::new();
                hvec.push(haplo);
                let sample = Sample { name: gname, haplotypes: hvec };
                let ghost prev = genomes@;
                genomes.push(sample);
                proof {
                    lemma_sum_samples_push(prev, genomes@[prev.len() as int]);
                    assert(sum_haplos(genomes@[prev.len() as int].haplotypes@) == 1) by {
                        assert(genomes@[prev.len() as int].haplotypes@.skip(1)
                            =~= Seq::<Haplotype>::empty());
                        assert(sum_haplos(Seq::<Haplotype>::empty()) == 0);
                    }
                    let gnew = prev.len() as int;
                    assert forall|g: int, h: int, t: int| pos_ok(genomes@, g, h, t) implies {
                        let k = #[trigger] idx_at(genomes@, g, h, t);
                        &&& k < i + 1
                        &&& spec_split(paths@[k as int].name@, del)[0] == genomes@[g].name@
                        &&& spec_split(paths@[k as int].name@, del)[1]
                            == genomes@[g].haplotypes@[h].name@
                    } by {
                        if g < gnew {
                            assert(genomes@[g] == gentry[g]);
                            assert(pos_ok(gentry, g, h, t));
                            assert(idx_at(genomes@, g, h, t) == idx_at(gentry, g, h, t));
                        } else {
                            assert(genomes@[g] == genomes@[gnew]);
                            assert(genomes@[gnew].haplotypes@.len() == 1);
                            assert(genomes@[gnew].haplotypes@[0].paths@ =~= seq![i as usize]);
                            assert(idx_at(genomes@, g, h, t) == i as usize);
                        }
                    }
                    assert forall|k: int| 0 <= k < i + 1 implies #[trigger] filed(
                        genomes@,
                        k,
                    ) by {
                        if k < i {
                            assert(prev == gentry);
                            assert(filed(gentry, k));
                            let (g, h, t) = choose|g: int, h: int, t: int|
                                pos_ok(prev, g, h, t) && #[trigger] idx_at(prev, g, h, t) == k;
                            assert(pos_ok(genomes@, g, h, t) && idx_at(genomes@, g, h, t) == k);
                        } else {
                            assert(pos_ok(genomes@, gnew, 0, 0) && idx_at(genomes@, gnew, 0, 0)
                                == i as usize);
                        }
                    }
                    // the appended sample keeps first-appearance order: its
                    // first filed index is the current path, above all others
                    assert forall|g: int| 0 <= g < genomes@.len() implies (
                    #[trigger] genomes@[g]).haplotypes@.len() >= 1 by {
                        if g < gnew {
                            assert(genomes@[g] == gentry[g]);
                        }
                    }
                    assert forall|g: int, h: int|
                        0 <= g < genomes@.len() && 0 <= h < genomes@[g].haplotypes@.len() implies (
                    #[trigger] genomes@[g].haplotypes@[h]).paths@.len() >= 1 by {
                        if g < gnew {
                            assert(genomes@[g] == gentry[g]);
                        }
                    }
                    assert forall|g: int, h: int, a: int, b: int|
                        0 <= g < genomes@.len() && 0 <= h < genomes@[g].haplotypes@.len() && 0 <= a
                            < b < genomes@[g].haplotypes@[h].paths@.len()
                        implies #[trigger] genomes@[g].haplotypes@[h].paths@[a]
                        < #[trigger] genomes@[g].haplotypes@[h].paths@[b] by {
                        if g < gnew {
                            assert(genomes@[g] == gentry[g]);
                        }
                    }
                    assert forall|g: int, h1: int, h2: int|
                        0 <= g < genomes@.len() && 0 <= h1 < h2 < genomes@[g].haplotypes@.len()
                        implies (#[trigger] genomes@[g].haplotypes@[h1]).paths@[0] < (
                    #[trigger] genomes@[g].haplotypes@[h2]).paths@[0] by {
                        if g < gnew {
                            assert(genomes@[g] == gentry[g]);
                        }
                    }
                    assert forall|g1: int, g2: int| 0 <= g1 < g2 < genomes@.len() implies (
                    #[trigger] genomes@[g1]).haplotypes@[0].paths@[0] < (
                    #[trigger] genomes@[g2]).haplotypes@[0].paths@[0] by {
                        assert(genomes@[g1] == gentry[g1]);
                        if g2 < gnew {
                            assert(genomes@[g2] == gentry[g2]);
                        } else {
                            assert(genomes@[g2].haplotypes@[0].paths@[0] == i as usize);
                            assert(pos_ok(gentry, g1, 0, 0));
                            assert(idx_at(gentry, g1, 0, 0) < i);
                        }
                    }
                }
            } else {
                // existing sample: find the haplotype
                let mut sample = genomes.remove(gi);
                let ghost prevg = genomes@;
                let ghost samp0 = sample;
                let mut hi: usize = 0;
                let mut hfound = false;
                while hi < sample.haplotypes.len() && !hfound
                    invariant
                        0 <= hi <= sample.haplotypes@.len(),
                        hnv == hname@,
                        hfound ==> hi < sample.haplotypes@.len()
                            && sample.haplotypes@[hi as int].name@ == hnv,
                        !hfound ==> forall|h: int|
                            0 <= h < hi ==> (#[trigger] sample.haplotypes@[h]).name@ != hnv,
                        sample == samp0,
                    decreases sample.haplotypes@.len() - hi, (if hfound { 0int } else { 1int }),
                {
                    if bytes_eq(sample.haplotypes[hi].name.as_slice(), hname.as_slice()) {
                        hfound = true;
                    } else {
                        hi = hi + 1;
                    }
                }
                let ghost hs0 = sample.haplotypes@;
                if hfound {
                    let mut haplo = sample.haplotypes.remove(hi);
                    let ghost h0 = haplo;
                    haplo.paths.push(i);
                    proof {
                        assert(haplo.paths@ == h0.paths@.push(i as usize));
                    }
                    sample.haplotypes.insert(hi, haplo);
                    proof {
                        assert(sample.haplotypes@ =~= hs0.update(
                            hi as int,
                            sample.haplotypes@[hi as int],
                        ));
                        lemma_sum_haplos_update(hs0, hi as int, sample.haplotypes@[hi as int]);
                    }
                } else {
                    let mut pv: Vec<usize> = Vec::new();
                    pv.push(i);
                    let haplo = Haplotype { name: hname, paths: pv };
                    sample.haplotypes.push(haplo);
                    proof {
                        lemma_sum_haplos_push(hs0, sample.haplotypes@[hs0.len() as int]);
                    }
                }
                let ghost snew = sample;
                genomes.insert(gi, sample);
                proof {
                    let gsold = prevg.insert(gi as int, samp0);
                    assert(gsold =~= gentry);
                    assert(genomes@ =~= gsold.update(gi as int, snew));
                    lemma_sum_samples_update(gsold, gi as int, snew);
                    if hfound {
                        assert(sum_haplos(snew.haplotypes@) == sum_haplos(samp0.haplotypes@) + 1);
                    } else {
                        assert(sum_haplos(snew.haplotypes@) == sum_haplos(samp0.haplotypes@) + 1);
                    }
                    assert forall|g: int, h: int, t: int| pos_ok(genomes@, g, h, t) implies {
                        let k = #[trigger] idx_at(genomes@, g, h, t);
                        &&& k < i + 1
                        &&& spec_split(paths@[k as int].name@, del)[0] == genomes@[g].name@
                        &&& spec_split(paths@[k as int].name@, del)[1]
                            == genomes@[g].haplotypes@[h].name@
                    } by {
                        assert(genomes@.len() == gsold.len());
                        if g != gi {
                            assert(genomes@[g] == gsold[g]);
                            assert(pos_ok(gentry, g, h, t));
                            assert(idx_at(genomes@, g, h, t) == idx_at(gentry, g, h, t));
                        } else {
                            assert(genomes@[g] == snew);
                            assert(snew.name@ == samp0.name@);
                            assert(samp0.name@ == gnv);
                            if hfound {
                                if h == hi {
                                    assert(snew.haplotypes@[h].name@ == samp0.haplotypes@[h].name@);
                                    assert(samp0.haplotypes@[hi as int].name@ == hnv);
                                    if t < samp0.haplotypes@[h].paths@.len() {
                                        assert(snew.haplotypes@[h].paths@[t]
                                            == samp0.haplotypes@[h].paths@[t]);
                                        assert(pos_ok(gentry, g, h, t));
                                        assert(idx_at(genomes@, g, h, t) == idx_at(
                                            gentry,
                                            g,
                                            h,
                                            t,
                                        ));
                                    } else {
                                        assert(idx_at(genomes@, g, h, t) == i as usize);
                                    }
                                } else {
                                    assert(snew.haplotypes@[h] == samp0.haplotypes@[h]);
                                    assert(pos_ok(gentry, g, h, t));
                                    assert(idx_at(genomes@, g, h, t) == idx_at(gentry, g, h, t));
                                }
                            } else {
                                if h < hs0.len() {
                                    assert(snew.haplotypes@[h] == samp0.haplotypes@[h]);
                                    assert(pos_ok(gentry, g, h, t));
                                    assert(idx_at(genomes@, g, h, t) == idx_at(gentry, g, h, t));
                                } else {
                                    assert(snew.haplotypes@[h].name@ == hnv);
                                    assert(snew.haplotypes@[h].paths@ =~= seq![i as usize]);
                                    assert(idx_at(genomes@, g, h, t) == i as usize);
                                }
                            }
                        }
                    }
                    assert forall|k: int| 0 <= k < i + 1 implies #[trigger] filed(
                        genomes@,
                        k,
                    ) by {
                        if k < i {
                            assert(filed(gentry, k));
                            assert(filed(gsold, k));
                            let (g, h, t) = choose|g: int, h: int, t: int|
                                pos_ok(gsold, g, h, t) && #[trigger] idx_at(gsold, g, h, t) == k;
                            if g != gi {
                                assert(pos_ok(genomes@, g, h, t) && idx_at(genomes@, g, h, t)
                                    == k);
                            } else {
                                if hfound && h == hi {
                                    assert(snew.haplotypes@[h].paths@[t] == samp0.haplotypes@[h].paths@[t]);
                                    assert(pos_ok(genomes@, g, h, t) && idx_at(genomes@, g, h, t)
                                        == k);
                                } else {
                                    assert(snew.haplotypes@[h] == samp0.haplotypes@[h]);
                                    assert(pos_ok(genomes@, g, h, t) && idx_at(genomes@, g, h, t)
                                        == k);
                                }
                            }
                        } else {
                            if hfound {
                                let t = (samp0.haplotypes@[hi as int].paths@.len()) as int;
                                assert(pos_ok(genomes@, gi as int, hi as int, t) && idx_at(
                                    genomes@,
                                    gi as int,
                                    hi as int,
                                    t,
                                ) == i as usize);
                            } else {
                                let h = hs0.len() as int;
                                assert(pos_ok(genomes@, gi as int, h, 0) && idx_at(
                                    genomes@,
                                    gi as int,
                                    h,
                                    0,
                                ) == i as usize);
                            }
                        }
                    }
                    // first-appearance order is kept: additions go at the end
                    // of their haplotype, haplotype list, or sample list
                    assert(samp0 == gentry[gi as int]);
                    assert forall|g: int| 0 <= g < genomes@.len() implies (
                    #[trigger] genomes@[g]).haplotypes@.len() >= 1 by {
                        if g != gi {
                            assert(genomes@[g] == gentry[g]);
                        } else {
                            assert(genomes@[g] == snew);
                        }
                    }
                    assert forall|g: int, h: int|
                        0 <= g < genomes@.len() && 0 <= h < genomes@[g].haplotypes@.len() implies (
                    #[trigger] genomes@[g].haplotypes@[h]).paths@.len() >= 1 by {
                        if g != gi {
                            assert(genomes@[g] == gentry[g]);
                        } else {
                            assert(genomes@[g] == snew);
                            if hfound {
                                if h != hi {
                                    assert(snew.haplotypes@[h] == samp0.haplotypes@[h]);
                                }
                            } else {
                                if h < hs0.len() {
                                    assert(snew.haplotypes@[h] == samp0.haplotypes@[h]);
                                }
                            }
                        }
                    }
                    assert forall|g: int, h: int, a: int, b: int|
                        0 <= g < genomes@.len() && 0 <= h < genomes@[g].haplotypes@.len() && 0 <= a
                            < b < genomes@[g].haplotypes@[h].paths@.len()
                        implies #[trigger] genomes@[g].haplotypes@[h].paths@[a]
                        < #[trigger] genomes@[g].haplotypes@[h].paths@[b] by {
                        if g != gi {
                            assert(genomes@[g] == gentry[g]);
                        } else {
                            assert(genomes@[g] == snew);
                            if hfound && h == hi {
                                let oldp = samp0.haplotypes@[hi as int].paths@;
                                assert(snew.haplotypes@[h].paths@ == oldp.push(i as usize));
                                if b < oldp.len() {
                                    assert(snew.haplotypes@[h].paths@[a] == oldp[a]);
                                    assert(snew.haplotypes@[h].paths@[b] == oldp[b]);
                                } else {
                                    assert(snew.haplotypes@[h].paths@[b] == i as usize);
                                    assert(snew.haplotypes@[h].paths@[a] == oldp[a]);
                                    assert(pos_ok(gentry, gi as int, hi as int, a));
                                    assert(idx_at(gentry, gi as int, hi as int, a) < i);
                                }
                            } else if hfound {
                                assert(snew.haplotypes@[h] == samp0.haplotypes@[h]);
                            } else {
                                if h < hs0.len() {
                                    assert(snew.haplotypes@[h] == samp0.haplotypes@[h]);
                                }
                            }
                        }
                    }
                    assert forall|g: int, h1: int, h2: int|
                        0 <= g < genomes@.len() && 0 <= h1 < h2 < genomes@[g].haplotypes@.len()
                        implies (#[trigger] genomes@[g].haplotypes@[h1]).paths@[0] < (
                    #[trigger] genomes@[g].haplotypes@[h2]).paths@[0] by {
                        if g != gi {
                            assert(genomes@[g] == gentry[g]);
                        } else {
                            assert(genomes@[g] == snew);
                            if hfound {
                                // every first element is unchanged
                                if h1 == hi {
                                    let oldp = samp0.haplotypes@[hi as int].paths@;
                                    assert(oldp.len() >= 1);
                                    assert(snew.haplotypes@[h1].paths@[0] == oldp[0]);
                                } else {
                                    assert(snew.haplotypes@[h1] == samp0.haplotypes@[h1]);
                                }
                                if h2 == hi {
                                    let oldp = samp0.haplotypes@[hi as int].paths@;
                                    assert(oldp.len() >= 1);
                                    assert(snew.haplotypes@[h2].paths@[0] == oldp[0]);
                                } else {
                                    assert(snew.haplotypes@[h2] == samp0.haplotypes@[h2]);
                                }
                            } else {
                                assert(h1 < hs0.len());
                                assert(snew.haplotypes@[h1] == samp0.haplotypes@[h1]);
                                if h2 < hs0.len() {
                                    assert(snew.haplotypes@[h2] == samp0.haplotypes@[h2]);
                                } else {
                                    assert(snew.haplotypes@[h2].paths@[0] == i as usize);
                                    assert(pos_ok(gentry, gi as int, h1, 0));
                                    assert(idx_at(gentry, gi as int, h1, 0) < i);
                                }
                            }
                        }
                    }
                    assert forall|g1: int, g2: int| 0 <= g1 < g2 < genomes@.len() implies (
                    #[trigger] genomes@[g1]).haplotypes@[0].paths@[0] < (
                    #[trigger] genomes@[g2]).haplotypes@[0].paths@[0] by {
                        // the updated sample's first haplotype keeps its first
                        // filed index, so all sample firsts are unchanged
                        assert(snew.haplotypes@[0].paths@[0]
                            == samp0.haplotypes@[0].paths@[0]) by {
                            if hfound && hi == 0 {
                                let oldp = samp0.haplotypes@[0].paths@;
                                assert(oldp.len() >= 1);
                                assert(snew.haplotypes@[0].paths@ == oldp.push(i as usize));
                            } else {
                                assert(hs0.len() >= 1);
                                assert(snew.haplotypes@[0] == samp0.haplotypes@[0]);
                            }
                        }
                        if g1 != gi {
                            assert(genomes@[g1] == gentry[g1]);
                        } else {
                            assert(genomes@[g1] == snew);
                        }
                        if g2 != gi {
                            assert(genomes@[g2] == gentry[g2]);
                        } else {
                            assert(genomes@[g2] == snew);
                        }
                    }
                }
            }
            i = i + 1;
        }
        Pansn { genomes }
    }
}

/// The path indices of a haplotype list, concatenated in order.
pub open spec fn flat_haplo_paths(hs: Seq<Haplotype>) -> Seq<usize>
    decreases hs.len(),
{
    if hs.len() == 0 {
        Seq::empty()
    } else {
        hs[0].paths@ + flat_haplo_paths(hs.skip(1))
    }
}

proof fn lemma_flat_haplo_push(hs: Seq<Haplotype>, x: Haplotype)
    ensures
        flat_haplo_paths(hs.push(x)) == flat_haplo_paths(hs) + x.paths@,
    decreases hs.len(),
{
    if hs.len() == 0 {
        assert(hs.push(x).skip(1) =~= Seq::<Haplotype>::empty());
        assert(hs.push(x)[0] == x);
        assert(flat_haplo_paths(Seq::<Haplotype>::empty()) =~= Seq::<usize>::empty());
        assert(flat_haplo_paths(hs.push(x)) =~= x.paths@);
        assert(flat_haplo_paths(hs) + x.paths@ =~= x.paths@);
    } else {
        assert(hs.push(x).skip(1) =~= hs.skip(1).push(x));
        assert(hs.push(x)[0] == hs[0]);
        lemma_flat_haplo_push(hs.skip(1), x);
        assert(hs[0].paths@ + (flat_haplo_paths(hs.skip(1)) + x.paths@) =~= (hs[0].paths@
            + flat_haplo_paths(hs.skip(1))) + x.paths@);
    }
}

/// Haplotypes in samples before sample `g`.
pub open spec fn haplos_before(gs: Seq<Sample>, g: int) -> int {
    count_haplos(gs.take(g))
}

impl Pansn {
    /// One entry per haplotype, in sample then haplotype order: the name
    /// `sample#haplotype` and the path indices filed under it.
    pub fn get_haplo_path(&self) -> (r: Vec<(Vec<u8>, Vec<usize>)>)
        ensures
            r@.len() == count_haplos(self.genomes@),
            forall|g: int, h: int|
                0 <= g < self.genomes@.len() && 0 <= h < self.genomes@[g].haplotypes@.len()
                    ==> #[trigger] haplo_entry_ok(self.genomes@, r@, g, h),
    {
        let ghost gs = self.genomes@;
        let mut r: Vec<(Vec<u8>, Vec<usize>)> = Vec::new();
        let n = self.genomes.len();
        let mut g: usize = 0;
        proof {
            assert(gs.take(0) =~= Seq::<Sample>::empty());
        }
        while g < n
            invariant
                0 <= g <= n,
                n == gs.len(),
                gs == self.genomes@,
                r@.len() == count_haplos(gs.take(g as int)),
                forall|g2: int, h2: int|
                    0 <= g2 < g && 0 <= h2 < gs[g2].haplotypes@.len()
                        ==> #[trigger] haplo_entry_ok(gs, r@, g2, h2),
            decreases n - g,
        {
            let ghost hs = gs[g as int].haplotypes@;
            let m = self.genomes[g].haplotypes.len();
            let mut h: usize = 0;
            while h < m
                invariant
                    0 <= h <= m,
                    0 <= g < n,
                    n == gs.len(),
                    m == gs[g as int].haplotypes@.len(),
                    gs == self.genomes@,
                    hs == gs[g as int].haplotypes@,
                    r@.len() == count_haplos(gs.take(g as int)) + h,
                    haplos_before(gs, g as int) == count_haplos(gs.take(g as int)),
                    forall|g2: int, h2: int|
                        0 <= g2 < g && 0 <= h2 < gs[g2].haplotypes@.len()
                            ==> #[trigger] haplo_entry_ok(gs, r@, g2, h2),
                    forall|h2: int|
                        0 <= h2 < h ==> #[trigger] haplo_entry_ok(gs, r@, g as int, h2),
                decreases m - h,
            {
                let sample = &self.genomes[g];
                let haplo = &sample.haplotypes[h];
                let mut name = crate::bytes::slice_to_vec_u8(sample.name.as_slice(), 0, sample.name.len());
                name.push(35);
                crate::graph::push_bytes(&mut name, haplo.name.as_slice());
                let idxs = crate::bytes::slice_to_vec_usize(haplo.paths.as_slice());
                let ghost prevr = r@;
                r.push((name, idxs));
                proof {
                    assert(r@[prevr.len() as int].0@ =~= gs[g as int].name@ + seq![35u8]
                        + hs[h as int].name@);
                    assert(r@[prevr.len() as int].1@ =~= hs[h as int].paths@);
                    assert forall|g2: int, h2: int|
                        0 <= g2 < g && 0 <= h2 < gs[g2].haplotypes@.len()
                            implies #[trigger] haplo_entry_ok(gs, r@, g2, h2) by {
                        assert(haplo_entry_ok(gs, prevr, g2, h2));
                        let k = haplos_before(gs, g2) + h2;
                        assert(r@[k] == prevr[k]);
                    }
                    assert forall|h2: int| 0 <= h2 < h + 1 implies #[trigger] haplo_entry_ok(
                        gs,
                        r@,
                        g as int,
                        h2,
                    ) by {
                        let k = haplos_before(gs, g as int) + h2;
                        if h2 < h {
                            assert(haplo_entry_ok(gs, prevr, g as int, h2));
                            assert(r@[k] == prevr[k]);
                        } else {
                            assert(k == prevr.len());
                        }
                    }
                }
                h = h + 1;
            }
            proof {
                assert(gs.take(g + 1) =~= gs.take(g as int).push(gs[g as int]));
                lemma_count_haplos_push(gs.take(g as int), gs[g as int]);
            }
            g = g + 1;
        }
        proof {
            assert(gs.take(n as int) =~= gs);
        }
        r
    }

    /// One entry per sample: its name and the path indices of all its
    /// haplotypes, concatenated in haplotype order.
    pub fn get_path_genome(&self) -> (r: Vec<(Vec<u8>, Vec<usize>)>)
        ensures
            r@.len() == self.genomes@.len(),
            forall|g: int|
                0 <= g < r@.len() ==> (#[trigger] r@[g]).0@ == self.genomes@[g].name@ && r@[g].1@
                    == flat_haplo_paths(self.genomes@[g].haplotypes@),
    {
        let ghost gs = self.genomes@;
        let mut r: Vec<(Vec<u8>, Vec<usize>)> = Vec::new();
        let n = self.genomes.len();
        let mut g: usize = 0;
        while g < n
            invariant
                0 <= g <= n,
                n == gs.len(),
                gs == self.genomes@,
                r@.len() == g,
                forall|g2: int|
                    0 <= g2 < g ==> (#[trigger] r@[g2]).0@ == gs[g2].name@ && r@[g2].1@
                        == flat_haplo_paths(gs[g2].haplotypes@),
            decreases n - g,
        {
            let sample = &self.genomes[g];
            let ghost hs = gs[g as int].haplotypes@;
            let name = crate::bytes::slice_to_vec_u8(sample.name.as_slice(), 0, sample.name.len());
            let mut idxs: Vec<usize> = Vec::new();
            let m = sample.haplotypes.len();
            let mut h: usize = 0;
            proof {
                assert(hs.take(0) =~= Seq::<Haplotype>::empty());
                assert(idxs@ =~= flat_haplo_paths(hs.take(0)));
            }
            while h < m
                invariant
                    0 <= h <= m,
                    0 <= g < n,
                    gs == self.genomes@,
                    n == gs.len(),
                    m == gs[g as int].haplotypes@.len(),
                    hs == gs[g as int].haplotypes@,
                    idxs@ == flat_haplo_paths(hs.take(h as int)),
                decreases m - h,
            {
                let more = crate::bytes::slice_to_vec_usize(
                    self.genomes[g].haplotypes[h].paths.as_slice(),
                );
                let mut more = more;
                idxs.append(&mut more);
                proof {
                    assert(hs.take(h + 1) =~= hs.take(h as int).push(hs[h as int]));
                    lemma_flat_haplo_push(hs.take(h as int), hs[h as int]);
                }
                h = h + 1;
            }
            proof {
                assert(hs.take(m as int) =~= hs);
            }
            r.push((name, idxs));
            g = g + 1;
        }
        r
    }

    /// One entry per stored path, in traversal order: the path's own name and
    /// its index, read out of the path vector this grouping was built from.
    pub fn get_paths_direct(&self, paths: &Vec<Path>) -> (r: Vec<(Vec<u8>, Vec<usize>)>)
        requires
            pansn_bounded(self.genomes@, paths@.len() as int),
        ensures
            r@.len() == sum_samples(self.genomes@),
            forall|k: int|
                0 <= k < r@.len() ==> #[trigger] entry_ok(self.genomes@, paths@, r@, k),
            forall|g: int, h: int, t: int|
                pos_ok(self.genomes@, g, h, t) ==> #[trigger] direct_entry_at(
                    self.genomes@,
                    paths@,
                    r@,
                    g,
                    h,
                    t,
                ),
    {
        let ghost gs = self.genomes@;
        let mut r: Vec<(Vec<u8>, Vec<usize>)> = Vec::new();
        let n = self.genomes.len();
        let mut g: usize = 0;
        proof {
            assert(gs.take(0) =~= Seq::<Sample>::empty());
        }
        while g < n
            invariant
                0 <= g <= n,
                n == gs.len(),
                gs == self.genomes@,
                pansn_bounded(gs, paths@.len() as int),
                r@.len() == sum_samples(gs.take(g as int)),
                forall|k: int|
                    0 <= k < r@.len() ==> #[trigger] entry_ok(gs, paths@, r@, k),
                forall|g2: int, h2: int, t2: int|
                    pos_ok(gs, g2, h2, t2) && g2 < g ==> #[trigger] direct_entry_at(
                        gs,
                        paths@,
                        r@,
                        g2,
                        h2,
                        t2,
                    ),
            decreases n - g,
        {
            let ghost hs = gs[g as int].haplotypes@;
            let m = self.genomes[g].haplotypes.len();
            let mut h: usize = 0;
            proof {
                assert(hs.take(0) =~= Seq::<Haplotype>::empty());
                assert(sum_haplos(hs.take(0)) == 0);
                assert forall|g2: int, h2: int, t2: int|
                    pos_ok(gs, g2, h2, t2) && (g2 < g || (g2 == g && h2 < 0))
                        implies #[trigger] direct_entry_at(gs, paths@, r@, g2, h2, t2) by {
                    assert(direct_entry_at(gs, paths@, r@, g2, h2, t2));
                }
            }
            while h < m
                invariant
                    0 <= h <= m,
                    0 <= g < n,
                    n == gs.len(),
                    gs == self.genomes@,
                    m == gs[g as int].haplotypes@.len(),
                    hs == gs[g as int].haplotypes@,
                    pansn_bounded(gs, paths@.len() as int),
                    r@.len() == sum_samples(gs.take(g as int)) + sum_haplos(hs.take(h as int)),
                    forall|k: int|
                        0 <= k < r@.len() ==> #[trigger] entry_ok(gs, paths@, r@, k),
                    forall|g2: int, h2: int, t2: int|
                        pos_ok(gs, g2, h2, t2) && (g2 < g || (g2 == g && h2 < h))
                            ==> #[trigger] direct_entry_at(gs, paths@, r@, g2, h2, t2),
                decreases m - h,
            {
                let c = self.genomes[g].haplotypes[h].paths.len();
                let mut t: usize = 0;
                while t < c
                    invariant
                        0 <= t <= c,
                        0 <= g < n,
                        0 <= h < m,
                        n == gs.len(),
                        gs == self.genomes@,
                        m == gs[g as int].haplotypes@.len(),
                        hs == gs[g as int].haplotypes@,
                        c == hs[h as int].paths@.len(),
                        pansn_bounded(gs, paths@.len() as int),
                        r@.len() == sum_samples(gs.take(g as int)) + sum_haplos(hs.take(h as int))
                            + t,
                        forall|k: int|
                            0 <= k < r@.len() ==> #[trigger] entry_ok(gs, paths@, r@, k),
                        forall|g2: int, h2: int, t2: int|
                            pos_ok(gs, g2, h2, t2) && (g2 < g || (g2 == g && (h2 < h || (h2 == h
                                && t2 < t)))) ==> #[trigger] direct_entry_at(
                                gs,
                                paths@,
                                r@,
                                g2,
                                h2,
                                t2,
                            ),
                    decreases c - t,
                {
                    let idx = self.genomes[g].haplotypes[h].paths[t];
                    proof {
                        assert(pos_ok(gs, g as int, h as int, t as int));
                        assert(idx_at(gs, g as int, h as int, t as int) == idx);
                        assert(idx < paths@.len());
                    }
                    let pname = crate::bytes::slice_to_vec_u8(
                        paths[idx].name.as_slice(),
                        0,
                        paths[idx].name.len(),
                    );
                    let mut one: Vec<usize> = Vec::new();
                    one.push(idx);
                    let ghost prevr = r@;
                    r.push((pname, one));
                    proof {
                        assert((r@[prevr.len() as int]).0@ =~= paths@[idx as int].name@);
                        assert((r@[prevr.len() as int]).1@ =~= seq![idx]);
                        assert(direct_pos(gs, g as int, h as int, t as int) == prevr.len());
                        assert(direct_entry_at(gs, paths@, r@, g as int, h as int, t as int));
                        assert forall|g2: int, h2: int, t2: int|
                            pos_ok(gs, g2, h2, t2) && (g2 < g || (g2 == g && (h2 < h || (h2 == h
                                && t2 < t + 1)))) implies #[trigger] direct_entry_at(
                            gs,
                            paths@,
                            r@,
                            g2,
                            h2,
                            t2,
                        ) by {
                            if g2 == g && h2 == h && t2 == t {
                            } else {
                                assert(direct_entry_at(gs, paths@, prevr, g2, h2, t2));
                                let p = direct_pos(gs, g2, h2, t2);
                                assert(r@[p] == prevr[p]);
                            }
                        }
                        assert forall|k: int| 0 <= k < r@.len() implies #[trigger] entry_ok(
                            gs,
                            paths@,
                            r@,
                            k,
                        ) by {
                            if k < prevr.len() {
                                assert(entry_ok(gs, paths@, prevr, k));
                                let (g2, h2, t2) = choose|g2: int, h2: int, t2: int|
                                    pos_ok(gs, g2, h2, t2) && (#[trigger] prevr[k]).0@
                                        == paths@[idx_at(gs, g2, h2, t2) as int].name@ && prevr[k].1@
                                        == seq![idx_at(gs, g2, h2, t2)];
                                assert(r@[k] == prevr[k]);
                                assert(pos_ok(gs, g2, h2, t2) && (r@[k]).0@ == paths@[idx_at(
                                    gs,
                                    g2,
                                    h2,
                                    t2,
                                ) as int].name@ && r@[k].1@ == seq![idx_at(gs, g2, h2, t2)]);
                            } else {
                                assert(pos_ok(gs, g as int, h as int, t as int) && (r@[k]).0@
                                    == paths@[idx_at(gs, g as int, h as int, t as int) as int].name@
                                    && r@[k].1@ == seq![idx_at(gs, g as int, h as int, t as int)]);
                            }
                        }
                    }
                    t = t + 1;
                }
                proof {
                    assert(hs.take(h + 1) =~= hs.take(h as int).push(hs[h as int]));
                    lemma_sum_haplos_push(hs.take(h as int), hs[h as int]);
                    assert forall|g2: int, h2: int, t2: int|
                        pos_ok(gs, g2, h2, t2) && (g2 < g || (g2 == g && h2 < h + 1))
                            implies #[trigger] direct_entry_at(gs, paths@, r@, g2, h2, t2) by {
                        if g2 == g && h2 == h {
                            assert(t2 < gs[g as int].haplotypes@[h as int].paths@.len());
                        }
                    }
                }
                h = h + 1;
            }
            proof {
                assert(hs.take(m as int) =~= hs);
                assert(gs.take(g + 1) =~= gs.take(g as int).push(gs[g as int]));
                lemma_sum_samples_push(gs.take(g as int), gs[g as int]);
                assert forall|g2: int, h2: int, t2: int|
                    pos_ok(gs, g2, h2, t2) && g2 < g + 1 implies #[trigger] direct_entry_at(
                        gs,
                        paths@,
                        r@,
                        g2,
                        h2,
                        t2,
                    ) by {
                    if g2 == g {
                        assert(h2 < gs[g as int].haplotypes@.len());
                    }
                }
            }
            g = g + 1;
        }
        proof {
            assert(gs.take(n as int) =~= gs);
            assert forall|g2: int, h2: int, t2: int| pos_ok(gs, g2, h2, t2)
                implies #[trigger] direct_entry_at(gs, paths@, r@, g2, h2, t2) by {
                assert(g2 < n);
                assert(direct_entry_at(gs, paths@, r@, g2, h2, t2));
            }
        }
        r
    }

    /// How large the grouping is: number of samples, of haplotypes, and of
    /// filed paths.
    pub fn number_of_pansn(&self) -> (r: (usize, usize, usize))
        requires
            count_haplos(self.genomes@) <= usize::MAX,
            sum_samples(self.genomes@) <= usize::MAX,
        ensures
            r.0 == self.genomes@.len(),
            r.1 == count_haplos(self.genomes@),
            r.2 == sum_samples(self.genomes@),
    {
        let ghost gs = self.genomes@;
        let n = self.genomes.len();
        let mut nh: usize = 0;
        let mut np: usize = 0;
        let mut g: usize = 0;
        proof {
            assert(gs.take(0) =~= Seq::<Sample>::empty());
        }
        while g < n
            invariant
                0 <= g <= n,
                n == gs.len(),
                gs == self.genomes@,
                count_haplos(gs) <= usize::MAX,
                sum_samples(gs) <= usize::MAX,
                nh == count_haplos(gs.take(g as int)),
                np == sum_samples(gs.take(g as int)),
            decreases n - g,
        {
            proof {
                assert(gs.take(g + 1) =~= gs.take(g as int).push(gs[g as int]));
                lemma_count_haplos_push(gs.take(g as int), gs[g as int]);
                lemma_sum_samples_push(gs.take(g as int), gs[g as int]);
                lemma_count_take_bound(gs, g + 1);
                lemma_sum_take_bound(gs, g + 1);
            }
            nh = nh + self.genomes[g].haplotypes.len();
            let ghost hs = gs[g as int].haplotypes@;
            let m = self.genomes[g].haplotypes.len();
            let mut h: usize = 0;
            let mut local: usize = 0;
            proof {
                assert(hs.take(0) =~= Seq::<Haplotype>::empty());
                lemma_sum_haplos_nonneg(hs);
            }
            while h < m
                invariant
                    0 <= h <= m,
                    0 <= g < n,
                    n == gs.len(),
                    gs == self.genomes@,
                    m == gs[g as int].haplotypes@.len(),
                    hs == gs[g as int].haplotypes@,
                    local == sum_haplos(hs.take(h as int)),
                    sum_haplos(hs.take(h as int)) <= sum_haplos(hs),
                    sum_haplos(hs) <= usize::MAX - np,
                decreases m - h,
            {
                proof {
                    assert(hs.take(h + 1) =~= hs.take(h as int).push(hs[h as int]));
                    lemma_sum_haplos_push(hs.take(h as int), hs[h as int]);
                    lemma_sum_haplos_take_bound(hs, h + 1);
                }
                local = local + self.genomes[g].haplotypes[h].paths.len();
                h = h + 1;
            }
            proof {
                assert(hs.take(m as int) =~= hs);
            }
            np = np + local;
            g = g + 1;
        }
        proof {
            assert(gs.take(n as int) =~= gs);
        }
        (n, nh, np)
    }
}

/// Haplotype sums are non-negative.
proof fn lemma_sum_haplos_nonneg(hs: Seq<Haplotype>)
    ensures
        sum_haplos(hs) >= 0,
    decreases hs.len(),
{
    if hs.len() > 0 {
        lemma_sum_haplos_nonneg(hs.skip(1));
    }
}

/// Sample sums are non-negative.
proof fn lemma_sum_samples_nonneg(gs: Seq<Sample>)
    ensures
        sum_samples(gs) >= 0,
    decreases gs.len(),
{
    if gs.len() > 0 {
        lemma_sum_haplos_nonneg(gs[0].haplotypes@);
        lemma_sum_samples_nonneg(gs.skip(1));
    }
}

/// A prefix of the haplotype list sums to at most the whole.
proof fn lemma_sum_haplos_take_bound(hs: Seq<Haplotype>, k: int)
    requires
        0 <= k <= hs.len(),
    ensures
        sum_haplos(hs.take(k)) <= sum_haplos(hs),
    decreases hs.len() - k,
{
    if k < hs.len() {
        lemma_sum_haplos_take_bound(hs, k + 1);
        assert(hs.take(k + 1) =~= hs.take(k).push(hs[k]));
        lemma_sum_haplos_push(hs.take(k), hs[k]);
    } else {
        assert(hs.take(k) =~= hs);
    }
}

/// A prefix of the sample list has at most the whole haplotype count.
proof fn lemma_count_take_bound(gs: Seq<Sample>, k: int)
    requires
        0 <= k <= gs.len(),
    ensures
        count_haplos(gs.take(k)) <= count_haplos(gs),
    decreases gs.len() - k,
{
    if k < gs.len() {
        lemma_count_take_bound(gs, k + 1);
        assert(gs.take(k + 1) =~= gs.take(k).push(gs[k]));
        lemma_count_haplos_push(gs.take(k), gs[k]);
    } else {
        assert(gs.take(k) =~= gs);
    }
}

/// A prefix of the sample list sums to at most the whole.
proof fn lemma_sum_take_bound(gs: Seq<Sample>, k: int)
    requires
        0 <= k <= gs.len(),
    ensures
        sum_samples(gs.take(k)) <= sum_samples(gs),
    decreases gs.len() - k,
{
    if k < gs.len() {
        lemma_sum_take_bound(gs, k + 1);
        assert(gs.take(k + 1) =~= gs.take(k).push(gs[k]));
        lemma_sum_samples_push(gs.take(k), gs[k]);
        lemma_sum_haplos_nonneg(gs[k].haplotypes@);
    } else {
        assert(gs.take(k) =~= gs);
    }
}

} // verus!
