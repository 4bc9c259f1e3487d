//! The graph engine: nodes, derived relationships, and drag maintenance.
//!
//! Node identities are dense indices, assigned monotonically and never
//! reused. The relationship collection is kept exactly equal to the set of
//! qualifying pairs under the proximity model, except, in cheap drag mode,
//! for pairs touching the node currently being dragged, whose links are
//! removed at drag start and rebuilt at drag end.
//!
//! The visibility threshold and the node size derive from a configured
//! expected total node count, fixed when the graph is created; the live
//! count may differ from it while nodes are still being added.

use rayon::iter::{IntoParallelIterator, ParallelIterator};
use vstd::prelude::*;
use crate::proximity::{
    Point, COUNT_MAX, dist_sq, within_threshold_spec, intensity_spec, vt_spec,
    node_size_spec, visibility_threshold, within_threshold, intensity, node_size, dist_sq_fp,
    lemma_intensity_range,
};

verus! {

/// A derived link: an unordered pair of distinct node identities, stored
/// with the smaller identity first, and its intensity in `[0, SCALE]`.
#[derive(Clone, Copy, PartialEq, Eq, Structural, Debug)]
pub struct Rel {
    pub a: usize,
    pub b: usize,
    pub intensity: u64,
}

/// Relationship maintenance discipline while a node is dragged.
///
/// `Exact` rebuilds the dragged node's links on every move; `Cheap` removes
/// them once at drag start and rebuilds them once at drag end, accepting
/// stale links mid-drag for constant per-frame cost.
#[derive(Clone, Copy, PartialEq, Eq, Structural, Debug)]
pub enum DragMode {
    Exact,
    Cheap,
}

/// Whether a relationship has `id` as one of its endpoints.
pub open spec fn touches(r: Rel, id: usize) -> bool {
    r.a == id || r.b == id
}

/// A relationship is valid for the current positions: endpoints are
/// distinct, ordered, in range, within the visibility threshold for the
/// configured count, and carry the model intensity.
pub open spec fn rel_ok(nodes: Seq<Point>, cfg: int, r: Rel) -> bool {
    &&& (r.a as int) < (r.b as int)
    &&& (r.b as int) < nodes.len()
    &&& within_threshold_spec(nodes[r.a as int], nodes[r.b as int], vt_spec(cfg))
    &&& r.intensity as int == intensity_spec(nodes[r.a as int], nodes[r.b as int], cfg)
}

/// Every stored relationship is valid.
pub open spec fn rels_sound(nodes: Seq<Point>, cfg: int, rels: Seq<Rel>) -> bool {
    forall|k: int| 0 <= k < rels.len() ==> rel_ok(nodes, cfg, #[trigger] rels[k])
}

/// No unordered pair appears twice.
pub open spec fn rels_nodup(rels: Seq<Rel>) -> bool {
    forall|k1: int, k2: int|
        0 <= k1 < k2 < rels.len() ==> !((#[trigger] rels[k1]).a == (#[trigger] rels[k2]).a
            && rels[k1].b == rels[k2].b)
}

/// No stored relationship touches `id`.
pub open spec fn rels_avoid(rels: Seq<Rel>, id: usize) -> bool {
    forall|k: int| 0 <= k < rels.len() ==> !touches(#[trigger] rels[k], id)
}

/// The smaller of two identities.
pub open spec fn pair_lo(i: usize, j: usize) -> usize {
    if i < j { i } else { j }
}

/// The larger of two identities.
pub open spec fn pair_hi(i: usize, j: usize) -> usize {
    if i < j { j } else { i }
}

/// The pair `(i, j)` is present.
pub open spec fn has_pair(rels: Seq<Rel>, i: usize, j: usize) -> bool {
    exists|k: int| 0 <= k < rels.len() && (#[trigger] rels[k]).a == i && rels[k].b == j
}

/// Every qualifying pair whose endpoints both differ from the excluded
/// node (if any) is present.
pub open spec fn rels_complete_except(
    nodes: Seq<Point>,
    cfg: int,
    rels: Seq<Rel>,
    ex: Option<usize>,
) -> bool {
    forall|i: usize, j: usize|
        i < j && (j as int) < nodes.len() && ex != Some(i) && ex != Some(j)
            && within_threshold_spec(nodes[i as int], nodes[j as int], vt_spec(cfg))
            ==> #[trigger] has_pair(rels, i, j)
}

/// The set of all valid relationships for given positions and count.
pub open spec fn full_rel_set(nodes: Seq<Point>, cfg: int) -> Set<Rel> {
    Set::new(|r: Rel| rel_ok(nodes, cfg, r))
}

/// The graph engine.
pub struct Graph {
    nodes: Vec<Point>,
    rels: Vec<Rel>,
    picked_up: Option<usize>,
    mode: DragMode,
    config_count: u64,
}

impl Graph {
    /// The node positions; the identity of a node is its index.
    pub closed spec fn nodes_seq(self) -> Seq<Point> {
        self.nodes@
    }

    /// The stored relationships.
    pub closed spec fn rels_seq(self) -> Seq<Rel> {
        self.rels@
    }

    /// The node being dragged, if any.
    pub closed spec fn picked(self) -> Option<usize> {
        self.picked_up
    }

    /// The drag maintenance discipline.
    pub closed spec fn drag_mode(self) -> DragMode {
        self.mode
    }

    /// The configured total node count that drives the threshold and node
    /// size formulas.
    pub closed spec fn config(self) -> u64 {
        self.config_count
    }

    /// The visibility threshold currently in force.
    pub open spec fn threshold(self) -> int {
        vt_spec(self.config() as int)
    }

    /// The relationship collection matches the model: complete, except
    /// that in cheap mode a mid-drag state omits every link of the dragged
    /// node.
    pub open spec fn rels_state(self) -> bool {
        match (self.drag_mode(), self.picked()) {
            (DragMode::Cheap, Some(id)) => {
                &&& rels_complete_except(
                    self.nodes_seq(),
                    self.config() as int,
                    self.rels_seq(),
                    Some(id),
                )
                &&& rels_avoid(self.rels_seq(), id)
            },
            _ => rels_complete_except(
                self.nodes_seq(),
                self.config() as int,
                self.rels_seq(),
                None,
            ),
        }
    }

    /// Well-formedness: positions in fixed-point range, relationships
    /// sound, duplicate-free and as complete as the drag state allows, and
    /// the picked node, if any, exists.
    pub open spec fn wf(self) -> bool {
        &&& self.config() <= COUNT_MAX
        &&& forall|i: int|
            0 <= i < self.nodes_seq().len() ==> (#[trigger] self.nodes_seq()[i]).wf()
        &&& rels_sound(self.nodes_seq(), self.config() as int, self.rels_seq())
        &&& rels_nodup(self.rels_seq())
        &&& match self.picked() {
            Some(id) => (id as int) < self.nodes_seq().len(),
            None => true,
        }
        &&& self.rels_state()
    }

    /// An empty graph configured for an expected total node count and a
    /// drag discipline.
    pub fn new(config_count: u64, mode: DragMode) -> (g: Graph)
        requires
            config_count <= COUNT_MAX,
        ensures
            g.wf(),
            g.nodes_seq() == Seq::<Point>::empty(),
            g.rels_seq() == Seq::<Rel>::empty(),
            g.picked() is None,
            g.drag_mode() == mode,
            g.config() == config_count,
    {
        let g = Graph {
            nodes: Vec::new(),
            rels: Vec::new(),
            picked_up: None,
            mode,
            config_count,
        };
        g
    }

    /// Append the qualifying links between `id` and every other node
    /// (except `skip`, if given). Requires that no link of `id` is stored
    /// yet, so no duplicate pair can arise.
    fn append_rels(&mut self, id: usize, skip: Option<usize>)
        requires
            old(self).config() <= COUNT_MAX,
            (id as int) < old(self).nodes_seq().len(),
            forall|i: int|
                0 <= i < old(self).nodes_seq().len() ==> (#[trigger] old(self).nodes_seq()[i]).wf(),
            rels_sound(old(self).nodes_seq(), old(self).config() as int, old(self).rels_seq()),
            rels_nodup(old(self).rels_seq()),
            rels_avoid(old(self).rels_seq(), id),
        ensures
            final(self).nodes_seq() == old(self).nodes_seq(),
            final(self).picked() == old(self).picked(),
            final(self).drag_mode() == old(self).drag_mode(),
            final(self).config() == old(self).config(),
            rels_sound(final(self).nodes_seq(), final(self).config() as int, final(self).rels_seq()),
            rels_nodup(final(self).rels_seq()),
            final(self).rels_seq().len() >= old(self).rels_seq().len(),
            forall|k: int|
                0 <= k < old(self).rels_seq().len()
                    ==> #[trigger] final(self).rels_seq()[k] == old(self).rels_seq()[k],
            forall|k: int|
                old(self).rels_seq().len() <= k < final(self).rels_seq().len()
                    ==> touches(#[trigger] final(self).rels_seq()[k], id),
            forall|k: int|
                old(self).rels_seq().len() <= k < final(self).rels_seq().len() ==> ({
                    let r = #[trigger] final(self).rels_seq()[k];
                    let other = if r.a == id { r.b } else { r.a };
                    skip != Some(other) && other != id
                }),
            forall|j: usize|
                (j as int) < old(self).nodes_seq().len() && j != id && skip != Some(j)
                    && within_threshold_spec(
                        old(self).nodes_seq()[id as int],
                        old(self).nodes_seq()[j as int],
                        vt_spec(old(self).config() as int),
                    )
                    ==> #[trigger] has_pair(final(self).rels_seq(), pair_lo(id, j), pair_hi(id, j)),
    {
        let ghost base = self.rels@;
        let t: u64 = visibility_threshold(self.config_count);
        let n: usize = self.nodes.len();
        let mut j: usize = 0;
        while j < n
            invariant
                j <= n,
                n == self.nodes_seq().len(),
                (id as int) < n as int,
                self.config() <= COUNT_MAX,
                t as int == vt_spec(self.config() as int),
                1 <= t <= 500_000,
                self.nodes_seq() == old(self).nodes_seq(),
                self.picked() == old(self).picked(),
                self.drag_mode() == old(self).drag_mode(),
                self.config() == old(self).config(),
                forall|i: int|
                    0 <= i < self.nodes_seq().len() ==> (#[trigger] self.nodes_seq()[i]).wf(),
                base == old(self).rels_seq(),
                rels_sound(self.nodes_seq(), self.config() as int, self.rels_seq()),
                rels_nodup(self.rels_seq()),
                rels_avoid(base, id),
                self.rels_seq().len() >= base.len(),
                forall|k: int|
                    0 <= k < base.len() ==> #[trigger] self.rels_seq()[k] == base[k],
                forall|k: int|
                    base.len() <= k < self.rels_seq().len() ==> touches(
                        #[trigger] self.rels_seq()[k],
                        id,
                    ),
                forall|k: int|
                    base.len() <= k < self.rels_seq().len() ==> ({
                        let r = #[trigger] self.rels_seq()[k];
                        (if r.a == id { r.b as int } else { r.a as int }) < j as int
                    }),
                forall|k: int|
                    base.len() <= k < self.rels_seq().len() ==> ({
                        let r = #[trigger] self.rels_seq()[k];
                        let other = if r.a == id { r.b } else { r.a };
                        skip != Some(other) && other != id
                    }),
                forall|jj: usize|
                    (jj as int) < j as int && jj != id && skip != Some(jj)
                        && within_threshold_spec(
                            self.nodes_seq()[id as int],
                            self.nodes_seq()[jj as int],
                            vt_spec(self.config() as int),
                        )
                        ==> #[trigger] has_pair(self.rels_seq(), pair_lo(id, jj), pair_hi(id, jj)),
            decreases n - j,
        {
            let ghost prev0 = self.rels@;
            let mut do_pair: bool = j != id;
            if let Some(s) = skip {
                if j == s {
                    do_pair = false;
                }
            }
            if do_pair {
                let lo: usize = if j < id { j } else { id };
                let hi: usize = if j < id { id } else { j };
                proof {
                    crate::proximity::lemma_dist_sq_basics(
                        self.nodes_seq()[lo as int],
                        self.nodes_seq()[hi as int],
                    );
                }
                if within_threshold(&self.nodes[lo], &self.nodes[hi], t) {
                    let w: u64 = intensity(&self.nodes[lo], &self.nodes[hi], self.config_count);
                    let ghost prev = self.rels@;
                    let r = Rel { a: lo, b: hi, intensity: w };
                    self.rels.push(r);
                    proof {
                        assert(rel_ok(self.nodes_seq(), self.config() as int, r));
                        assert forall|ii: usize, jj: usize|
                            has_pair(prev, ii, jj) implies has_pair(self.rels_seq(), ii, jj) by {
                            let k = choose|k: int|
                                0 <= k < prev.len() && (#[trigger] prev[k]).a == ii
                                    && prev[k].b == jj;
                            assert(self.rels_seq()[k] == prev[k]);
                        }
                        assert(self.rels_seq()[prev.len() as int] == r);
                        assert(has_pair(self.rels_seq(), pair_lo(id, j), pair_hi(id, j)));
                    }
                } else {
                    proof {
                        assert(!within_threshold_spec(
                            self.nodes_seq()[id as int],
                            self.nodes_seq()[j as int],
                            vt_spec(self.config() as int),
                        ));
                    }
                }
            }
            let ghost jdone: usize = j;
            j = j + 1;
            proof {
                assert(self.rels_seq().len() >= prev0.len());
                assert(forall|k: int|
                    0 <= k < prev0.len() ==> #[trigger] self.rels_seq()[k] == prev0[k]);
                assert forall|ii: usize, jj: usize|
                    has_pair(prev0, ii, jj) implies has_pair(self.rels_seq(), ii, jj) by {
                    let k = choose|k: int|
                        0 <= k < prev0.len() && (#[trigger] prev0[k]).a == ii && prev0[k].b == jj;
                    assert(self.rels_seq()[k] == prev0[k]);
                }
                assert forall|jj: usize|
                    (jj as int) < j as int && jj != id && skip != Some(jj)
                        && within_threshold_spec(
                            self.nodes_seq()[id as int],
                            self.nodes_seq()[jj as int],
                            vt_spec(self.config() as int),
                        ) implies #[trigger] has_pair(
                        self.rels_seq(),
                        pair_lo(id, jj),
                        pair_hi(id, jj),
                    ) by {
                    if (jj as int) < j as int - 1 {
                        assert(has_pair(prev0, pair_lo(id, jj), pair_hi(id, jj)));
                        assert(has_pair(self.rels_seq(), pair_lo(id, jj), pair_hi(id, jj)));
                    } else {
                        assert(jj == jdone);
                    }
                }
            }
        }
    }

    /// Remove every link touching `id`, keeping all others.
    fn clear_rels(&mut self, id: usize)
        requires
            rels_nodup(old(self).rels_seq()),
        ensures
            final(self).nodes_seq() == old(self).nodes_seq(),
            final(self).picked() == old(self).picked(),
            final(self).drag_mode() == old(self).drag_mode(),
            final(self).config() == old(self).config(),
            rels_avoid(final(self).rels_seq(), id),
            rels_nodup(final(self).rels_seq()),
            forall|m: int|
                0 <= m < final(self).rels_seq().len() ==> old(self).rels_seq().contains(
                    #[trigger] final(self).rels_seq()[m],
                ),
            forall|k: int|
                0 <= k < old(self).rels_seq().len() && !touches(
                    #[trigger] old(self).rels_seq()[k],
                    id,
                ) ==> final(self).rels_seq().contains(old(self).rels_seq()[k]),
    {
        let ghost orig = self.rels@;
        let mut out: Vec<Rel> = Vec::new();
        let n: usize = self.rels.len();
        let mut k: usize = 0;
        while k < n
            invariant
                k <= n,
                n == self.rels_seq().len(),
                self.rels_seq() == orig,
                rels_nodup(orig),
                rels_avoid(out@, id),
                rels_nodup(out@),
                forall|m: int|
                    #![trigger out@[m]]
                    0 <= m < out@.len() ==> exists|kk: int|
                        0 <= kk < k as int && out@[m] == #[trigger] orig[kk],
                forall|kk: int|
                    0 <= kk < k as int && !touches(#[trigger] orig[kk], id) ==> out@.contains(
                        orig[kk],
                    ),
            decreases n - k,
        {
            let r = self.rels[k];
            if !(r.a == id || r.b == id) {
                let ghost prev = out@;
                out.push(r);
                proof {
                    assert(out@[prev.len() as int] == r);
                    assert forall|m: int| #![trigger out@[m]] 0 <= m < out@.len() implies exists|kk: int|
                        0 <= kk < k as int + 1 && out@[m] == #[trigger] orig[kk] by {
                        if m < prev.len() {
                            let kk = choose|kk: int|
                                0 <= kk < k as int && prev[m] == #[trigger] orig[kk];
                            assert(out@[m] == orig[kk]);
                        } else {
                            assert(out@[m] == orig[k as int]);
                        }
                    }
                    assert forall|kk: int|
                        0 <= kk < k as int + 1 && !touches(#[trigger] orig[kk], id)
                        implies out@.contains(orig[kk]) by {
                        if kk < k as int {
                            let m = choose|m: int| 0 <= m < prev.len() && prev[m] == orig[kk];
                            assert(out@[m] == orig[kk]);
                        } else {
                            assert(out@[prev.len() as int] == orig[kk]);
                        }
                    }
                    assert forall|m1: int, m2: int| 0 <= m1 < m2 < out@.len() implies !((
                    #[trigger] out@[m1]).a == (#[trigger] out@[m2]).a && out@[m1].b
                        == out@[m2].b) by {
                        if m2 == prev.len() {
                            let kk = choose|kk: int|
                                0 <= kk < k as int && prev[m1] == #[trigger] orig[kk];
                            assert(out@[m1] == orig[kk]);
                            assert(out@[m2] == orig[k as int]);
                            assert(!(orig[kk].a == orig[k as int].a && orig[kk].b
                                == orig[k as int].b));
                        }
                    }
                }
            } else {
                proof {
                    assert forall|kk: int|
                        0 <= kk < k as int + 1 && !touches(#[trigger] orig[kk], id)
                        implies out@.contains(orig[kk]) by {
                        assert(kk < k as int);
                    }
                }
            }
            k = k + 1;
        }
        self.rels = out;
        proof {
            assert forall|m: int|
                0 <= m < self.rels_seq().len() implies orig.contains(
                #[trigger] self.rels_seq()[m],
            ) by {
                let kk = choose|kk: int|
                    0 <= kk < n as int && out@[m] == #[trigger] orig[kk];
                assert(orig[kk] == self.rels_seq()[m]);
            }
        }
    }

    /// Insert a node at `p`: it gets the next identity, and its qualifying
    /// links with all existing nodes are appended. Existing links are
    /// untouched; every appended link has the new node as an endpoint.
    /// While a cheap-mode drag is in progress, the pair with the dragged
    /// node is left to the drag-end rebuild, so no pair can appear twice.
    pub fn insert(&mut self, p: Point) -> (id: usize)
        requires
            old(self).wf(),
            p.wf(),
        ensures
            final(self).wf(),
            id as int == old(self).nodes_seq().len(),
            final(self).nodes_seq() == old(self).nodes_seq().push(p),
            final(self).picked() == old(self).picked(),
            final(self).drag_mode() == old(self).drag_mode(),
            final(self).config() == old(self).config(),
            forall|k: int|
                0 <= k < old(self).rels_seq().len()
                    ==> #[trigger] final(self).rels_seq()[k] == old(self).rels_seq()[k],
            forall|k: int|
                old(self).rels_seq().len() <= k < final(self).rels_seq().len()
                    ==> touches(#[trigger] final(self).rels_seq()[k], id),
    {
        let id: usize = self.nodes.len();
        let ghost old_nodes = self.nodes@;
        let ghost old_rels = self.rels@;
        self.nodes.push(p);
        let skip: Option<usize> = match self.mode {
            DragMode::Cheap => self.picked_up,
            DragMode::Exact => None,
        };
        proof {
            assert forall|k: int|
                0 <= k < self.rels_seq().len() implies rel_ok(
                self.nodes_seq(),
                self.config() as int,
                #[trigger] self.rels_seq()[k],
            ) by {
                assert(rel_ok(old_nodes, self.config() as int, self.rels_seq()[k]));
                assert(self.nodes_seq()[self.rels_seq()[k].a as int]
                    == old_nodes[self.rels_seq()[k].a as int]);
                assert(self.nodes_seq()[self.rels_seq()[k].b as int]
                    == old_nodes[self.rels_seq()[k].b as int]);
            }
            assert forall|k: int|
                0 <= k < self.rels_seq().len() implies !touches(
                #[trigger] self.rels_seq()[k],
                id,
            ) by {
                assert(rel_ok(old_nodes, self.config() as int, self.rels_seq()[k]));
            }
        }
        self.append_rels(id, skip);
        proof {
            let nodes = self.nodes_seq();
            let cfg = self.config() as int;
            let rels = self.rels_seq();
            let ex: Option<usize> = match (self.drag_mode(), self.picked()) {
                (DragMode::Cheap, Some(pid)) => Some(pid),
                _ => None,
            };
            assert forall|i: usize, j: usize|
                i < j && (j as int) < nodes.len() && ex != Some(i) && ex != Some(j)
                    && within_threshold_spec(nodes[i as int], nodes[j as int], vt_spec(cfg))
                implies #[trigger] has_pair(rels, i, j) by {
                if (j as int) < old_nodes.len() {
                    assert(nodes[i as int] == old_nodes[i as int]);
                    assert(nodes[j as int] == old_nodes[j as int]);
                    assert(has_pair(old_rels, i, j));
                    let k = choose|k: int|
                        0 <= k < old_rels.len() && (#[trigger] old_rels[k]).a == i
                            && old_rels[k].b == j;
                    assert(rels[k] == old_rels[k]);
                } else {
                    assert(j == id);
                    crate::proximity::lemma_dist_sq_basics(nodes[i as int], nodes[j as int]);
                    assert(within_threshold_spec(nodes[id as int], nodes[i as int], vt_spec(cfg)));
                    assert(has_pair(rels, pair_lo(id, i), pair_hi(id, i)));
                }
            }
        }
        id
    }

    /// Move a node to a new position. In exact mode its links are removed,
    /// the node moves, and its links are recomputed, so the collection
    /// stays complete. In cheap mode the node (which must be the one being
    /// dragged) just moves; its links were removed at drag start and are
    /// rebuilt at drag end.
    pub fn move_node(&mut self, id: usize, p: Point)
        requires
            old(self).wf(),
            p.wf(),
            (id as int) < old(self).nodes_seq().len(),
            old(self).drag_mode() == DragMode::Cheap ==> old(self).picked() == Some(id),
        ensures
            final(self).wf(),
            final(self).nodes_seq() == old(self).nodes_seq().update(id as int, p),
            final(self).picked() == old(self).picked(),
            final(self).drag_mode() == old(self).drag_mode(),
            final(self).config() == old(self).config(),
            old(self).drag_mode() == DragMode::Cheap ==> final(self).rels_seq()
                == old(self).rels_seq(),
    {
        let ghost old_nodes = self.nodes@;
        let ghost old_rels = self.rels@;
        let ghost cfg = self.config() as int;
        match self.mode {
            DragMode::Cheap => {
                self.nodes[id] = p;
                proof {
                    assert forall|k: int|
                        0 <= k < self.rels_seq().len() implies rel_ok(
                        self.nodes_seq(),
                        cfg,
                        #[trigger] self.rels_seq()[k],
                    ) by {
                        let r = self.rels_seq()[k];
                        assert(rel_ok(old_nodes, cfg, r));
                        assert(!touches(r, id));
                        assert(self.nodes_seq()[r.a as int] == old_nodes[r.a as int]);
                        assert(self.nodes_seq()[r.b as int] == old_nodes[r.b as int]);
                    }
                    assert forall|i: usize, j: usize|
                        i < j && (j as int) < self.nodes_seq().len() && Some(id) != Some(i)
                            && Some(id) != Some(j) && within_threshold_spec(
                            self.nodes_seq()[i as int],
                            self.nodes_seq()[j as int],
                            vt_spec(cfg),
                        ) implies #[trigger] has_pair(self.rels_seq(), i, j) by {
                        assert(self.nodes_seq()[i as int] == old_nodes[i as int]);
                        assert(self.nodes_seq()[j as int] == old_nodes[j as int]);
                        assert(has_pair(old_rels, i, j));
                    }
                }
            },
            DragMode::Exact => {
                self.clear_rels(id);
                let ghost cleared = self.rels@;
                proof {
                    assert forall|m: int|
                        0 <= m < cleared.len() implies rel_ok(
                        old_nodes,
                        cfg,
                        #[trigger] cleared[m],
                    ) by {
                        let kk = choose|kk: int|
                            0 <= kk < old_rels.len() && old_rels[kk] == cleared[m];
                        assert(rel_ok(old_nodes, cfg, old_rels[kk]));
                    }
                }
                self.nodes[id] = p;
                proof {
                    assert forall|m: int|
                        0 <= m < self.rels_seq().len() implies rel_ok(
                        self.nodes_seq(),
                        cfg,
                        #[trigger] self.rels_seq()[m],
                    ) by {
                        let r = self.rels_seq()[m];
                        assert(rel_ok(old_nodes, cfg, r));
                        assert(!touches(r, id));
                        assert(self.nodes_seq()[r.a as int] == old_nodes[r.a as int]);
                        assert(self.nodes_seq()[r.b as int] == old_nodes[r.b as int]);
                    }
                }
                self.append_rels(id, None);
                proof {
                    let nodes = self.nodes_seq();
                    let rels = self.rels_seq();
                    assert forall|i: usize, j: usize|
                        i < j && (j as int) < nodes.len() && within_threshold_spec(
                            nodes[i as int],
                            nodes[j as int],
                            vt_spec(cfg),
                        ) implies #[trigger] has_pair(rels, i, j) by {
                        if i == id || j == id {
                            crate::proximity::lemma_dist_sq_basics(
                                nodes[i as int],
                                nodes[j as int],
                            );
                            if i == id {
                                assert(has_pair(rels, pair_lo(id, j), pair_hi(id, j)));
                            } else {
                                assert(within_threshold_spec(
                                    nodes[id as int],
                                    nodes[i as int],
                                    vt_spec(cfg),
                                ));
                                assert(has_pair(rels, pair_lo(id, i), pair_hi(id, i)));
                            }
                        } else {
                            assert(nodes[i as int] == old_nodes[i as int]);
                            assert(nodes[j as int] == old_nodes[j as int]);
                            assert(has_pair(old_rels, i, j));
                            let k = choose|k: int|
                                0 <= k < old_rels.len() && (#[trigger] old_rels[k]).a == i
                                    && old_rels[k].b == j;
                            assert(!touches(old_rels[k], id));
                            assert(cleared.contains(old_rels[k]));
                            let m = choose|m: int|
                                0 <= m < cleared.len() && cleared[m] == old_rels[k];
                            assert(rels[m] == cleared[m]);
                        }
                    }
                }
            },
        }
    }

    /// Begin a drag: if no node is picked up and `pos` falls within the
    /// pick radius of at least one node, the last such node in identity
    /// order becomes picked up; in cheap mode its links are removed. A
    /// pointer-down while already dragging does nothing.
    pub fn pointer_down(&mut self, pos: Point)
        requires
            old(self).wf(),
            pos.wf(),
        ensures
            final(self).wf(),
            final(self).nodes_seq() == old(self).nodes_seq(),
            final(self).drag_mode() == old(self).drag_mode(),
            final(self).config() == old(self).config(),
            old(self).picked() is Some ==> final(self).picked() == old(self).picked()
                && final(self).rels_seq() == old(self).rels_seq(),
            old(self).picked() is None ==> final(self).picked() == spec_pick(
                old(self).nodes_seq(),
                pos,
                node_size_spec(old(self).config() as int) / 2,
            ),
            old(self).picked() is None && old(self).drag_mode() == DragMode::Exact
                ==> final(self).rels_seq() == old(self).rels_seq(),
    {
        if self.picked_up.is_some() {
            return ;
        }
        let ghost old_rels = self.rels@;
        let radius: u64 = node_size(self.config_count) / 2;
        let ghost r = radius as int;
        let n: usize = self.nodes.len();
        let mut found: Option<usize> = None;
        let mut i: usize = 0;
        assert(self.nodes_seq().take(0) =~= Seq::<Point>::empty());
        while i < n
            invariant
                i <= n,
                n == self.nodes_seq().len(),
                self.config() <= COUNT_MAX,
                radius <= 50_000_000,
                r == radius as int,
                forall|k: int|
                    0 <= k < self.nodes_seq().len() ==> (#[trigger] self.nodes_seq()[k]).wf(),
                pos.wf(),
                found == spec_pick(self.nodes_seq().take(i as int), pos, r),
                match found {
                    Some(f) => (f as int) < i as int,
                    None => true,
                },
            decreases n - i,
        {
            let ds: u128 = dist_sq_fp(&self.nodes[i], &pos);
            assert((radius as int) * (radius as int) <= 2_500_000_000_000_000int)
                by (nonlinear_arith)
                requires 0 <= radius as int <= 50_000_000;
            if ds < (radius as u128) * (radius as u128) {
                found = Some(i);
            }
            proof {
                let taken = self.nodes_seq().take(i as int + 1);
                assert(taken.drop_last() =~= self.nodes_seq().take(i as int));
                assert(taken[taken.len() - 1] == self.nodes_seq()[i as int]);
            }
            i = i + 1;
        }
        proof {
            assert(self.nodes_seq().take(n as int) =~= self.nodes_seq());
        }
        self.picked_up = found;
        let do_clear: bool = match self.mode {
            DragMode::Cheap => self.picked_up.is_some(),
            DragMode::Exact => false,
        };
        if do_clear {
            let id: usize = match self.picked_up {
                Some(id) => id,
                None => 0,
            };
            self.clear_rels(id);
            proof {
                let nodes = self.nodes_seq();
                let rels = self.rels_seq();
                let cfg = self.config() as int;
                assert forall|m: int|
                    0 <= m < rels.len() implies rel_ok(nodes, cfg, #[trigger] rels[m]) by {
                    let kk = choose|kk: int| 0 <= kk < old_rels.len() && old_rels[kk] == rels[m];
                    assert(rel_ok(nodes, cfg, old_rels[kk]));
                }
                assert forall|ii: usize, jj: usize|
                    ii < jj && (jj as int) < nodes.len() && Some(id) != Some(ii) && Some(id)
                        != Some(jj) && within_threshold_spec(
                        nodes[ii as int],
                        nodes[jj as int],
                        vt_spec(cfg),
                    ) implies #[trigger] has_pair(rels, ii, jj) by {
                    assert(has_pair(old_rels, ii, jj));
                    let k = choose|k: int|
                        0 <= k < old_rels.len() && (#[trigger] old_rels[k]).a == ii
                            && old_rels[k].b == jj;
                    assert(!touches(old_rels[k], id));
                    assert(rels.contains(old_rels[k]));
                    let m = choose|m: int| 0 <= m < rels.len() && rels[m] == old_rels[k];
                }
            }
        }
    }

    /// End a drag: in cheap mode the dragged node's links are recomputed
    /// for its final position; the picked-up mark is cleared. A pointer-up
    /// while idle does nothing.
    pub fn pointer_up(&mut self)
        requires
            old(self).wf(),
        ensures
            final(self).wf(),
            final(self).nodes_seq() == old(self).nodes_seq(),
            final(self).drag_mode() == old(self).drag_mode(),
            final(self).config() == old(self).config(),
            final(self).picked() is None,
            old(self).drag_mode() == DragMode::Exact ==> final(self).rels_seq()
                == old(self).rels_seq(),
            old(self).picked() is None ==> final(self).rels_seq() == old(self).rels_seq(),
    {
        let ghost old_rels = self.rels@;
        let ghost cfg = self.config() as int;
        let pk: Option<usize> = self.picked_up;
        match pk {
            None => {},
            Some(id) => {
                let do_rebuild: bool = match self.mode {
                    DragMode::Cheap => true,
                    DragMode::Exact => false,
                };
                if do_rebuild {
                    self.append_rels(id, None);
                    proof {
                        let nodes = self.nodes_seq();
                        let rels = self.rels_seq();
                        assert forall|i: usize, j: usize|
                            i < j && (j as int) < nodes.len() && within_threshold_spec(
                                nodes[i as int],
                                nodes[j as int],
                                vt_spec(cfg),
                            ) implies #[trigger] has_pair(rels, i, j) by {
                            if i == id || j == id {
                                crate::proximity::lemma_dist_sq_basics(
                                    nodes[i as int],
                                    nodes[j as int],
                                );
                                if i == id {
                                    assert(has_pair(rels, pair_lo(id, j), pair_hi(id, j)));
                                } else {
                                    assert(within_threshold_spec(
                                        nodes[id as int],
                                        nodes[i as int],
                                        vt_spec(cfg),
                                    ));
                                    assert(has_pair(rels, pair_lo(id, i), pair_hi(id, i)));
                                }
                            } else {
                                assert(has_pair(old_rels, i, j));
                                let k = choose|k: int|
                                    0 <= k < old_rels.len() && (#[trigger] old_rels[k]).a == i
                                        && old_rels[k].b == j;
                                assert(rels[k] == old_rels[k]);
                            }
                        }
                    }
                }
                self.picked_up = None;
            },
        }
    }

    /// Move the pointer while dragging: the picked-up node, if any,
    /// follows the pointer under the configured maintenance discipline.
    pub fn pointer_move(&mut self, pos: Point)
        requires
            old(self).wf(),
            pos.wf(),
        ensures
            final(self).wf(),
            final(self).picked() == old(self).picked(),
            final(self).drag_mode() == old(self).drag_mode(),
            final(self).config() == old(self).config(),
            match old(self).picked() {
                Some(id) => final(self).nodes_seq() == old(self).nodes_seq().update(
                    id as int,
                    pos,
                ),
                None => final(self).nodes_seq() == old(self).nodes_seq()
                    && final(self).rels_seq() == old(self).rels_seq(),
            },
    {
        let pk: Option<usize> = self.picked_up;
        match pk {
            Some(id) => {
                self.move_node(id, pos);
            },
            None => {},
        }
    }

    /// A snapshot of the nodes as `(identity, position)` pairs.
    pub fn query_nodes(&self) -> (r: Vec<(usize, Point)>)
        ensures
            r@.len() == self.nodes_seq().len(),
            forall|i: int|
                0 <= i < r@.len() ==> (#[trigger] r@[i]).0 == i as usize && r@[i].1
                    == self.nodes_seq()[i],
    {
        let mut out: Vec<(usize, Point)> = Vec::new();
        let n: usize = self.nodes.len();
        let mut i: usize = 0;
        while i < n
            invariant
                i <= n,
                n == self.nodes_seq().len(),
                out@.len() == i as int,
                forall|k: int|
                    0 <= k < i as int ==> (#[trigger] out@[k]).0 == k as usize && out@[k].1
                        == self.nodes_seq()[k],
            decreases n - i,
        {
            let p: Point = self.nodes[i];
            out.push((i, p));
            i = i + 1;
        }
        out
    }

    /// A snapshot of the relationships.
    pub fn query_relationships(&self) -> (r: Vec<Rel>)
        ensures
            r@ == self.rels_seq(),
    {
        let mut out: Vec<Rel> = Vec::new();
        let n: usize = self.rels.len();
        let mut k: usize = 0;
        while k < n
            invariant
                k <= n,
                n == self.rels_seq().len(),
                out@ == self.rels_seq().take(k as int),
            decreases n - k,
        {
            let r: Rel = self.rels[k];
            out.push(r);
            proof {
                assert(self.rels_seq().take(k as int).push(self.rels_seq()[k as int])
                    =~= self.rels_seq().take(k as int + 1));
            }
            k = k + 1;
        }
        proof {
            assert(self.rels_seq().take(n as int) =~= self.rels_seq());
        }
        out
    }

    /// The node currently being dragged, if any.
    pub fn picked_node(&self) -> (r: Option<usize>)
        ensures
            r == self.picked(),
    {
        self.picked_up
    }

    /// The configured total node count.
    pub fn config_count(&self) -> (n: u64)
        ensures
            n == self.config(),
    {
        self.config_count
    }

    /// The number of nodes.
    pub fn node_count(&self) -> (n: usize)
        ensures
            n as int == self.nodes_seq().len(),
    {
        self.nodes.len()
    }

    /// Build a graph sequentially: nodes are inserted one by one, each
    /// insertion appending the new node's qualifying links. The configured
    /// count is the total number of points.
    pub fn bulk_build(points: &Vec<Point>, mode: DragMode) -> (g: Graph)
        requires
            points@.len() <= COUNT_MAX as int,
            forall|i: int| 0 <= i < points@.len() ==> (#[trigger] points@[i]).wf(),
        ensures
            g.wf(),
            g.nodes_seq() == points@,
            g.picked() is None,
            g.drag_mode() == mode,
            g.config() as int == points@.len(),
            g.rels_seq().to_set() == full_rel_set(points@, points@.len() as int),
    {
        let n: usize = points.len();
        let mut g: Graph = Graph::new(n as u64, mode);
        assert(g.nodes_seq() =~= points@.take(0));
        let mut i: usize = 0;
        while i < n
            invariant
                i <= n,
                n == points@.len(),
                points@.len() <= COUNT_MAX as int,
                forall|k: int| 0 <= k < points@.len() ==> (#[trigger] points@[k]).wf(),
                g.wf(),
                g.nodes_seq() == points@.take(i as int),
                g.picked() is None,
                g.drag_mode() == mode,
                g.config() as int == points@.len(),
            decreases n - i,
        {
            let p: Point = points[i];
            g.insert(p);
            proof {
                assert(points@.take(i as int).push(points@[i as int])
                    =~= points@.take(i as int + 1));
            }
            i = i + 1;
        }
        proof {
            assert(points@.take(n as int) =~= points@);
            lemma_rels_characterized(g.nodes_seq(), g.config() as int, g.rels_seq());
        }
        g
    }

    /// Build a graph with the parallel decomposition: all identities are
    /// assigned as the dense range up front, then every qualifying unordered
    /// pair `(i, j)` with `i < j` is found and its intensity computed per
    /// outer index in parallel, and the results are merged by concatenation.
    /// The relationship set is the same as the sequential path's.
    pub fn bulk_build_par(points: &Vec<Point>, mode: DragMode) -> (g: Graph)
        requires
            points@.len() <= COUNT_MAX as int,
            forall|i: int| 0 <= i < points@.len() ==> (#[trigger] points@[i]).wf(),
        ensures
            g.wf(),
            g.nodes_seq() == points@,
            g.picked() is None,
            g.drag_mode() == mode,
            g.config() as int == points@.len(),
            g.rels_seq().to_set() == full_rel_set(points@, points@.len() as int),
    {
        let n: usize = points.len();
        let mut nodes: Vec<Point> = Vec::new();
        let mut i: usize = 0;
        while i < n
            invariant
                i <= n,
                n == points@.len(),
                nodes@ == points@.take(i as int),
                forall|k: int| 0 <= k < points@.len() ==> (#[trigger] points@[k]).wf(),
            decreases n - i,
        {
            let p: Point = points[i];
            nodes.push(p);
            proof {
                assert(points@.take(i as int).push(points@[i as int]) =~= points@.take(i as int + 1));
            }
            i = i + 1;
        }
        proof {
            assert(points@.take(n as int) =~= points@);
        }
        let rels: Vec<Rel> = par_all_rows(&nodes, n as u64);
        proof {
            let cfg = n as int;
            let ar = all_rows(points@, cfg, 0);
            lemma_all_rows_props(points@, cfg, 0);
            ar.to_multiset_ensures();
            rels@.to_multiset_ensures();
            assert forall|k: int|
                0 <= k < rels@.len() implies rel_ok(points@, cfg, #[trigger] rels@[k]) by {
                assert(rels@.contains(rels@[k]));
                assert(rels@.to_multiset().count(rels@[k]) > 0);
                assert(ar.to_multiset().count(rels@[k]) > 0);
                assert(ar.contains(rels@[k]));
                let m = choose|m: int| 0 <= m < ar.len() && ar[m] == rels@[k];
                assert(rel_ok(points@, cfg, ar[m]));
            }
            ar.lemma_multiset_has_no_duplicates();
            assert forall|x: Rel|
                rels@.to_multiset().contains(x) implies rels@.to_multiset().count(x) == 1 by {
                assert(ar.to_multiset().count(x) > 0);
                assert(ar.to_multiset().contains(x));
            }
            rels@.lemma_multiset_has_no_duplicates_conv();
            assert forall|k1: int, k2: int| 0 <= k1 < k2 < rels@.len() implies !((
            #[trigger] rels@[k1]).a == (#[trigger] rels@[k2]).a && rels@[k1].b == rels@[k2].b) by {
                if rels@[k1].a == rels@[k2].a && rels@[k1].b == rels@[k2].b {
                    assert(rel_ok(points@, cfg, rels@[k1]));
                    assert(rel_ok(points@, cfg, rels@[k2]));
                    assert(rels@[k1] == rels@[k2]);
                    assert(false);
                }
            }
            assert forall|x: usize, y: usize|
                x < y && (y as int) < points@.len() && within_threshold_spec(
                    points@[x as int],
                    points@[y as int],
                    vt_spec(cfg),
                ) implies #[trigger] has_pair(rels@, x, y) by {
                assert(has_pair(ar, x, y));
                let m = choose|m: int|
                    0 <= m < ar.len() && (#[trigger] ar[m]).a == x && ar[m].b == y;
                assert(ar.contains(ar[m]));
                assert(ar.to_multiset().count(ar[m]) > 0);
                assert(rels@.to_multiset().count(ar[m]) > 0);
                assert(rels@.contains(ar[m]));
                let k = choose|k: int| 0 <= k < rels@.len() && rels@[k] == ar[m];
                assert((rels@[k]).a == x && rels@[k].b == y);
            }
        }
        let g = Graph { nodes, rels, picked_up: None, mode, config_count: n as u64 };
        proof {
            lemma_rels_characterized(g.nodes_seq(), g.config() as int, g.rels_seq());
        }
        g
    }
}

/// The node picked by a pointer-down at `pos` with pick radius `r`: the
/// last node in identity order whose distance to `pos` is under `r`.
pub open spec fn spec_pick(nodes: Seq<Point>, pos: Point, r: int) -> Option<usize>
    decreases nodes.len(),
{
    if nodes.len() == 0 {
        None
    } else if dist_sq(nodes[nodes.len() - 1], pos) < r * r {
        Some((nodes.len() - 1) as usize)
    } else {
        spec_pick(nodes.drop_last(), pos, r)
    }
}

/// The links of node `i` with partners `j, j + 1, ...` in partner order:
/// one entry for each partner within the visibility threshold.
pub open spec fn row_rels_from(nodes: Seq<Point>, cfg: int, i: int, j: int) -> Seq<Rel>
    decreases nodes.len() - j,
{
    if nodes.len() <= j {
        Seq::empty()
    } else {
        let rest = row_rels_from(nodes, cfg, i, j + 1);
        if within_threshold_spec(nodes[i], nodes[j], vt_spec(cfg)) {
            seq![
                Rel {
                    a: i as usize,
                    b: j as usize,
                    intensity: intensity_spec(nodes[i], nodes[j], cfg) as u64,
                },
            ] + rest
        } else {
            rest
        }
    }
}

/// The concatenation of the rows of all nodes from `i` on: every
/// qualifying pair `(x, y)` with `i <= x < y` appears exactly once.
pub open spec fn all_rows(nodes: Seq<Point>, cfg: int, i: int) -> Seq<Rel>
    decreases nodes.len() - i,
{
    if nodes.len() <= i {
        Seq::empty()
    } else {
        row_rels_from(nodes, cfg, i, i + 1) + all_rows(nodes, cfg, i + 1)
    }
}

/// A row holds exactly the valid links of `i` with partners from `j` on,
/// in strictly increasing partner order.
pub proof fn lemma_row_props(nodes: Seq<Point>, cfg: int, i: int, j: int)
    requires
        0 <= cfg <= COUNT_MAX as int,
        0 <= i < nodes.len(),
        i < j,
        nodes.len() <= usize::MAX as int,
    ensures
        forall|k: int|
            0 <= k < row_rels_from(nodes, cfg, i, j).len() ==> ({
                let r = #[trigger] row_rels_from(nodes, cfg, i, j)[k];
                r.a as int == i && j <= r.b as int && (r.b as int) < nodes.len() && rel_ok(nodes, cfg, r)
            }),
        forall|k1: int, k2: int|
            0 <= k1 < k2 < row_rels_from(nodes, cfg, i, j).len()
                ==> (#[trigger] row_rels_from(nodes, cfg, i, j)[k1]).b
                < (#[trigger] row_rels_from(nodes, cfg, i, j)[k2]).b,
        forall|jj: usize|
            j <= jj as int && (jj as int) < nodes.len() && within_threshold_spec(
                nodes[i],
                nodes[jj as int],
                vt_spec(cfg),
            ) ==> #[trigger] has_pair(row_rels_from(nodes, cfg, i, j), i as usize, jj),
    decreases nodes.len() - j,
{
    let row = row_rels_from(nodes, cfg, i, j);
    if nodes.len() <= j {
    } else {
        lemma_row_props(nodes, cfg, i, j + 1);
        let rest = row_rels_from(nodes, cfg, i, j + 1);
        if within_threshold_spec(nodes[i], nodes[j], vt_spec(cfg)) {
            let e = Rel {
                a: i as usize,
                b: j as usize,
                intensity: intensity_spec(nodes[i], nodes[j], cfg) as u64,
            };
            assert(row == seq![e] + rest);
            lemma_intensity_range(nodes[i], nodes[j], cfg);
            assert(row[0] == e);
            assert(forall|k: int| 1 <= k < row.len() ==> #[trigger] row[k] == rest[k - 1]);
            assert(rel_ok(nodes, cfg, e));
            assert forall|jj: usize|
                j <= jj as int && (jj as int) < nodes.len() && within_threshold_spec(
                    nodes[i],
                    nodes[jj as int],
                    vt_spec(cfg),
                ) implies #[trigger] has_pair(row, i as usize, jj) by {
                if jj as int == j {
                    assert(row[0] == e);
                } else {
                    assert(has_pair(rest, i as usize, jj));
                    let k = choose|k: int|
                        0 <= k < rest.len() && (#[trigger] rest[k]).a == i as usize && rest[k].b
                            == jj;
                    assert(row[k + 1] == rest[k]);
                }
            }
        } else {
            assert(row == rest);
            assert forall|jj: usize|
                j <= jj as int && (jj as int) < nodes.len() && within_threshold_spec(
                    nodes[i],
                    nodes[jj as int],
                    vt_spec(cfg),
                ) implies #[trigger] has_pair(row, i as usize, jj) by {
                if jj as int == j {
                    assert(false);
                } else {
                    assert(has_pair(rest, i as usize, jj));
                }
            }
        }
    }
}

/// The concatenated rows hold every qualifying pair `(x, y)` with
/// `i <= x < y` exactly once, each as a valid link.
pub proof fn lemma_all_rows_props(nodes: Seq<Point>, cfg: int, i: int)
    requires
        0 <= cfg <= COUNT_MAX as int,
        0 <= i,
        nodes.len() <= usize::MAX as int,
    ensures
        forall|k: int|
            0 <= k < all_rows(nodes, cfg, i).len() ==> ({
                let r = #[trigger] all_rows(nodes, cfg, i)[k];
                i <= r.a as int && rel_ok(nodes, cfg, r)
            }),
        rels_nodup(all_rows(nodes, cfg, i)),
        all_rows(nodes, cfg, i).no_duplicates(),
        forall|x: usize, y: usize|
            i <= x as int && x < y && (y as int) < nodes.len() && within_threshold_spec(
                nodes[x as int],
                nodes[y as int],
                vt_spec(cfg),
            ) ==> #[trigger] has_pair(all_rows(nodes, cfg, i), x, y),
    decreases nodes.len() - i,
{
    let ar = all_rows(nodes, cfg, i);
    if nodes.len() <= i {
    } else {
        lemma_row_props(nodes, cfg, i, i + 1);
        lemma_all_rows_props(nodes, cfg, i + 1);
        let row = row_rels_from(nodes, cfg, i, i + 1);
        let rest = all_rows(nodes, cfg, i + 1);
        assert(ar == row + rest);
        assert(forall|k: int| 0 <= k < row.len() ==> #[trigger] ar[k] == row[k]);
        assert(forall|k: int|
            0 <= k < rest.len() ==> #[trigger] rest[k] == ar[k + row.len()]);
        assert forall|k: int| 0 <= k < ar.len() implies ({
            let r = #[trigger] ar[k];
            i <= r.a as int && rel_ok(nodes, cfg, r)
        }) by {
            if k < row.len() {
                assert(ar[k] == row[k]);
            } else {
                assert(ar[k] == rest[k - row.len()]);
            }
        }
        assert forall|k1: int, k2: int| 0 <= k1 < k2 < ar.len() implies !((
        #[trigger] ar[k1]).a == (#[trigger] ar[k2]).a && ar[k1].b == ar[k2].b) by {
            if k2 < row.len() {
            } else if k1 >= row.len() {
                assert(ar[k1] == rest[k1 - row.len()]);
                assert(ar[k2] == rest[k2 - row.len()]);
            } else {
                assert(ar[k1] == row[k1]);
                assert(ar[k2] == rest[k2 - row.len()]);
                assert(ar[k1].a as int == i);
                assert(i + 1 <= ar[k2].a as int);
            }
        }
        assert forall|k1: int, k2: int|
            0 <= k1 < ar.len() && 0 <= k2 < ar.len() && k1 != k2 implies #[trigger] ar[k1]
            != #[trigger] ar[k2] by {
            if k1 < k2 {
                assert(!(ar[k1].a == ar[k2].a && ar[k1].b == ar[k2].b));
            } else {
                assert(!(ar[k2].a == ar[k1].a && ar[k2].b == ar[k1].b));
            }
        }
        assert forall|x: usize, y: usize|
            i <= x as int && x < y && (y as int) < nodes.len() && within_threshold_spec(
                nodes[x as int],
                nodes[y as int],
                vt_spec(cfg),
            ) implies #[trigger] has_pair(ar, x, y) by {
            if x as int == i {
                assert(i as usize == x);
                assert(within_threshold_spec(nodes[i], nodes[y as int], vt_spec(cfg)));
                assert(has_pair(row, i as usize, y));
                assert(has_pair(row, x, y));
                let k = choose|k: int|
                    0 <= k < row.len() && (#[trigger] row[k]).a == x && row[k].b == y;
                assert(ar[k] == row[k]);
            } else {
                assert(has_pair(rest, x, y));
                let k = choose|k: int|
                    0 <= k < rest.len() && (#[trigger] rest[k]).a == x && rest[k].b == y;
                assert(ar[k + row.len()] == rest[k]);
            }
        }
    }
}

/// The links of node `i` with every later node, in partner order.
pub fn rels_for_node(nodes: &Vec<Point>, cfg: u64, i: usize) -> (r: Vec<Rel>)
    requires
        cfg <= COUNT_MAX,
        (i as int) < nodes@.len(),
        forall|k: int| 0 <= k < nodes@.len() ==> (#[trigger] nodes@[k]).wf(),
    ensures
        r@ == row_rels_from(nodes@, cfg as int, i as int, i as int + 1),
{
    let t: u64 = visibility_threshold(cfg);
    let mut out: Vec<Rel> = Vec::new();
    let n: usize = nodes.len();
    let mut j: usize = i + 1;
    while j < n
        invariant
            i < j <= n,
            n == nodes@.len(),
            (i as int) < n as int,
            cfg <= COUNT_MAX,
            t as int == vt_spec(cfg as int),
            1 <= t <= 500_000,
            forall|k: int| 0 <= k < nodes@.len() ==> (#[trigger] nodes@[k]).wf(),
            out@ + row_rels_from(nodes@, cfg as int, i as int, j as int) == row_rels_from(
                nodes@,
                cfg as int,
                i as int,
                i as int + 1,
            ),
        decreases n - j,
    {
        let ghost rest = row_rels_from(nodes@, cfg as int, i as int, j as int + 1);
        if within_threshold(&nodes[i], &nodes[j], t) {
            let w: u64 = intensity(&nodes[i], &nodes[j], cfg);
            let ghost prev = out@;
            let e = Rel { a: i, b: j, intensity: w };
            out.push(e);
            proof {
                lemma_intensity_range(nodes@[i as int], nodes@[j as int], cfg as int);
                assert(e == Rel {
                    a: i,
                    b: j,
                    intensity: intensity_spec(nodes@[i as int], nodes@[j as int], cfg as int)
                        as u64,
                });
                assert(row_rels_from(nodes@, cfg as int, i as int, j as int) == seq![e] + rest);
                assert(out@ =~= prev + seq![e]);
                assert((prev + seq![e]) + rest =~= prev + (seq![e] + rest));
            }
        } else {
            proof {
                assert(row_rels_from(nodes@, cfg as int, i as int, j as int) == rest);
            }
        }
        j = j + 1;
    }
    proof {
        assert(row_rels_from(nodes@, cfg as int, i as int, j as int).len() == 0);
        assert(out@ + row_rels_from(nodes@, cfg as int, i as int, j as int) =~= out@);
    }
    out
}

/// Relies on rayon's `into_par_iter` over a range, `flat_map_iter` and
/// `collect` into a `Vec`: the collected vector holds exactly the items of
/// the per-index vectors, one per index of the range; rayon's fork-join
/// reduction concatenates the partial results of the splits, so membership
/// (with multiplicity) does not depend on scheduling. Only the multiset of
/// items is relied upon, not their order.
#[verifier::external_body]
fn par_all_rows(nodes: &Vec<Point>, cfg: u64) -> (r: Vec<Rel>)
    requires
        cfg <= COUNT_MAX,
        forall|k: int| 0 <= k < nodes@.len() ==> (#[trigger] nodes@[k]).wf(),
    ensures
        r@.to_multiset() == all_rows(nodes@, cfg as int, 0).to_multiset(),
{
    (0..nodes.len())
        .into_par_iter()
        .flat_map_iter(|i| rels_for_node(nodes, cfg, i))
        .collect()
}

/// A sound and fully complete relationship sequence holds exactly the
/// valid links of the model, as a set: soundness gives one inclusion,
/// completeness (with the intensity pinned by validity) the other.
pub proof fn lemma_rels_characterized(nodes: Seq<Point>, cfg: int, rels: Seq<Rel>)
    requires
        rels_sound(nodes, cfg, rels),
        rels_complete_except(nodes, cfg, rels, None),
    ensures
        rels.to_set() == full_rel_set(nodes, cfg),
{
    assert forall|r: Rel|
        rels.to_set().contains(r) implies full_rel_set(nodes, cfg).contains(r) by {
        assert(rels.contains(r));
        let k = choose|k: int| 0 <= k < rels.len() && rels[k] == r;
        assert(rel_ok(nodes, cfg, rels[k]));
    }
    assert forall|r: Rel|
        full_rel_set(nodes, cfg).contains(r) implies rels.to_set().contains(r) by {
        assert(rel_ok(nodes, cfg, r));
        assert(has_pair(rels, r.a, r.b));
        let k = choose|k: int|
            0 <= k < rels.len() && (#[trigger] rels[k]).a == r.a && rels[k].b == r.b;
        assert(rel_ok(nodes, cfg, rels[k]));
        assert(rels[k] == r);
        assert(rels.contains(r));
    }
    assert(rels.to_set() =~= full_rel_set(nodes, cfg));
}

/// Law: in any fully maintained state (exact mode, or idle in cheap
/// mode), every stored relationship joins two distinct existing nodes
/// whose distance is strictly under the visibility threshold of the
/// configured count, and no unordered pair appears twice.
pub proof fn lemma_invariant_holds(g: Graph)
    requires
        g.wf(),
        g.drag_mode() == DragMode::Exact || g.picked() is None,
    ensures
        forall|k: int|
            0 <= k < g.rels_seq().len() ==> ({
                let r = #[trigger] g.rels_seq()[k];
                (r.a as int) < (r.b as int) && (r.b as int) < g.nodes_seq().len() && dist_sq(
                    g.nodes_seq()[r.a as int],
                    g.nodes_seq()[r.b as int],
                ) < g.threshold() * g.threshold() && 1 <= r.intensity
            }),
        rels_nodup(g.rels_seq()),
{
    assert forall|k: int| 0 <= k < g.rels_seq().len() implies 1 <= (
    #[trigger] g.rels_seq()[k]).intensity by {
        let r = g.rels_seq()[k];
        assert(rel_ok(g.nodes_seq(), g.config() as int, r));
        crate::proximity::lemma_candidate_intensity_positive(
            g.nodes_seq()[r.a as int],
            g.nodes_seq()[r.b as int],
            g.config() as int,
        );
    }
}

/// Law: two fully maintained graphs over the same positions and the same
/// configured count store the same set of relationships. This covers the
/// sequential and parallel bulk builds on one input, and a cheap-mode
/// graph right after pointer-up against an exact-mode graph at the same
/// final positions: the two disciplines converge once a drag ends.
pub proof fn lemma_same_rel_set(g1: Graph, g2: Graph)
    requires
        g1.wf(),
        g2.wf(),
        g1.nodes_seq() == g2.nodes_seq(),
        g1.config() == g2.config(),
        g1.drag_mode() == DragMode::Exact || g1.picked() is None,
        g2.drag_mode() == DragMode::Exact || g2.picked() is None,
    ensures
        g1.rels_seq().to_set() == g2.rels_seq().to_set(),
{
    lemma_rels_characterized(g1.nodes_seq(), g1.config() as int, g1.rels_seq());
    lemma_rels_characterized(g2.nodes_seq(), g2.config() as int, g2.rels_seq());
}

} // verus!
