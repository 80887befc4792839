//! The ultrametric facade: single-linkage reconstruction of a point
//! order plus gap weights, and constant-time distance queries over them.

use vstd::prelude::*;
use crate::cut_weights::CwParams;
use crate::points::PointSet;
use crate::rmq::{lemma_seq_max_in_range, lemma_seq_max_mono, lemma_seq_max_split, seq_max, Rmq};
use crate::rng::Prng;
use crate::spanning_tree::{
    lemma_reach_endpoints, lemma_reach_push, lemma_reach_unfold, reach, sorted_by_weight, Edge,
    MstParams,
};
use crate::union_find::{
    arena_gaps, clone_weights, lemma_arena_single, lemma_root_props, lemma_root_set_finite,
    root_of, root_set, UnionFindWithData,
};
use vstd::multiset::Multiset;

verus! {

/// An immutable ultrametric over `n` points: a linear position for each
/// point and a range-maximum structure over the `n - 1` gap weights
/// between consecutive positions.
pub struct Ultrametric {
    id_to_pos: Vec<usize>,
    rmq: Rmq,
}

impl Ultrametric {
    /// The linear position of point `i`.
    pub closed spec fn pos(&self, i: int) -> int {
        self.id_to_pos@[i] as int
    }

    /// Number of points.
    pub closed spec fn spec_n(&self) -> int {
        self.id_to_pos@.len() as int
    }

    /// The gap-weight array.
    pub closed spec fn gaps(&self) -> Seq<u64> {
        self.rmq.spec_weights()
    }

    /// The underlying range-maximum structure is usable.
    pub closed spec fn rmq_wf(&self) -> bool {
        self.rmq.wf()
    }

    /// Positions are a permutation of `[0, n)` and there is one gap
    /// weight less than points.
    pub open spec fn wf(&self) -> bool {
        &&& self.rmq_wf()
        &&& self.spec_n() == self.gaps().len() + 1
        &&& forall|i: int| 0 <= i < self.spec_n() ==> 0 <= #[trigger] self.pos(i) < self.spec_n()
        &&& forall|i: int, j: int|
            0 <= i < self.spec_n() && 0 <= j < self.spec_n() && i != j ==> self.pos(i)
                != self.pos(j)
    }

    /// The distance the structure represents: zero on the diagonal,
    /// else the largest gap weight strictly between the two positions.
    pub open spec fn dist_spec(&self, i: int, j: int) -> int {
        if i == j {
            0
        } else {
            let a = self.pos(i);
            let b = self.pos(j);
            let lo = if a <= b {
                a
            } else {
                b
            };
            let hi = if a <= b {
                b
            } else {
                a
            };
            seq_max(self.gaps(), lo, hi)
        }
    }

    /// Number of points.
    pub fn len(&self) -> (r: usize)
        ensures
            r == self.spec_n(),
    {
        self.id_to_pos.len()
    }

    /// The ultrametric distance between points `i` and `j`.
    pub fn dist(&self, i: usize, j: usize) -> (r: u64)
        requires
            self.wf(),
            i < self.spec_n(),
            j < self.spec_n(),
        ensures
            r as int == self.dist_spec(i as int, j as int),
    {
        if i == j {
            return 0;
        }
        let pi = self.id_to_pos[i];
        let pj = self.id_to_pos[j];
        proof {
            assert(self.pos(i as int) != self.pos(j as int));
        }
        let (lo, hi) = if pi <= pj {
            (pi, pj)
        } else {
            (pj, pi)
        };
        match self.rmq.get_max(lo, hi) {
            Some(m) => m,
            None => {
                proof {
                    assert(false);
                }
                0
            },
        }
    }

    /// Flattens a dendrogram given by `n - 1` tree edges sorted
    /// ascending by weight: merges clusters in that order, concatenating
    /// their member orders with the edge weight as the junction gap.
    ///
    /// Succeeds exactly when there is at least one edge and the edges
    /// connect all `n` points.
    pub fn single_linkage(cut_weights: Vec<Edge>) -> (r: Option<Ultrametric>)
        requires
            sorted_by_weight(cut_weights@),
            cut_weights@.len() < usize::MAX,
            forall|t: int|
                0 <= t < cut_weights@.len() ==> (#[trigger] cut_weights@[t]).0
                    < cut_weights@.len() + 1 && cut_weights@[t].1 < cut_weights@.len() + 1,
        ensures
            ({
                let n = cut_weights@.len() + 1;
                &&& (r is Some <==> (cut_weights@.len() >= 1 && forall|i: int, j: int|
                    0 <= i < n && 0 <= j < n ==> reach(cut_weights@, i, j)))
                &&& (match r {
                    Some(u) => {
                        &&& u.wf()
                        &&& u.spec_n() == n
                        &&& u.gaps().to_multiset() == cut_weights@.map_values(
                            |e: Edge| e.2,
                        ).to_multiset()
                    },
                    None => true,
                })
            }),
    {
        broadcast use vstd::set::group_set_axioms;

        let n = cut_weights.len() + 1;
        let mut ufd = UnionFindWithData::new(n);
        let mut accepted: usize = 0;
        let mut t: usize = 0;
        let ghost mut acc_ms: Multiset<u64> = Multiset::empty();
        proof {
            broadcast use vstd::seq_lib::group_to_multiset_ensures;
            broadcast use vstd::multiset::group_multiset_axioms;

            lemma_root_set_finite(ufd.parents());
            assert(cut_weights@.take(0) =~= Seq::<Edge>::empty());
            assert(cut_weights@.take(0).map_values(|e: Edge| e.2) =~= Seq::<u64>::empty());
            assert forall|a: u64| #[trigger]
                Seq::<u64>::empty().to_multiset().count(a) == 0 by {
                assert(!Seq::<u64>::empty().contains(a));
            }
            assert(Seq::<u64>::empty().to_multiset() =~= Multiset::<u64>::empty());
        }
        while t < cut_weights.len()
            invariant
                t <= cut_weights@.len(),
                n == cut_weights@.len() + 1,
                forall|x: int|
                    0 <= x < cut_weights@.len() ==> (#[trigger] cut_weights@[x]).0 < n
                        && cut_weights@[x].1 < n,
                ufd.wf(),
                ufd.spec_len() == n,
                accepted <= t,
                forall|i: int, j: int|
                    0 <= i < n && 0 <= j < n && ufd.same(i, j) ==> reach(
                        cut_weights@.take(t as int),
                        i,
                        j,
                    ),
                forall|i: int, j: int|
                    0 <= i < n && 0 <= j < n && reach(cut_weights@.take(t as int), i, j)
                        ==> ufd.same(i, j),
                root_set(ufd.parents()).finite(),
                root_set(ufd.parents()).len() + accepted == n,
                arena_gaps(&ufd, n as int) == acc_ms,
                accepted == t ==> acc_ms == cut_weights@.take(t as int).map_values(
                    |e: Edge| e.2,
                ).to_multiset(),
            decreases cut_weights@.len() - t,
        {
            broadcast use vstd::set::group_set_axioms;

            let e = cut_weights[t];
            let ghost old_ufd = ufd;
            let merged = ufd.merge(e.0, e.1, e.2);
            proof {
                assert(cut_weights@.take(t + 1).drop_last() =~= cut_weights@.take(t as int));
                assert(cut_weights@.take(t + 1).last() == e);
            }
            match merged {
                Some(_) => {
                    proof {
                        assert(forall|i2: int, j2: int|
                            0 <= i2 < n && 0 <= j2 < n && old_ufd.same(i2, j2) ==> reach(
                                cut_weights@.take(t as int),
                                i2,
                                j2,
                            ));
                        assert(forall|i2: int, j2: int|
                            0 <= i2 < n && 0 <= j2 < n && reach(
                                cut_weights@.take(t as int),
                                i2,
                                j2,
                            ) ==> old_ufd.same(i2, j2));
                        let ru = root_of(old_ufd.parents(), e.0 as int);
                        let rv = root_of(old_ufd.parents(), e.1 as int);
                        let small = if ru <= rv {
                            ru
                        } else {
                            rv
                        };
                        let big = if ru <= rv {
                            rv
                        } else {
                            ru
                        };
                        let p2 = cut_weights@.take(t + 1);
                        assert forall|i: int, j: int|
                            0 <= i < n && 0 <= j < n && ufd.same(i, j) implies reach(
                            p2,
                            i,
                            j,
                        ) by {
                            let oi = root_of(old_ufd.parents(), i);
                            let oj = root_of(old_ufd.parents(), j);
                            assert(root_of(ufd.parents(), i) == if oi == big {
                                small
                            } else {
                                oi
                            });
                            assert(root_of(ufd.parents(), j) == if oj == big {
                                small
                            } else {
                                oj
                            });
                            assert((e.0 as int) < n && (e.1 as int) < n);
                            if oi == oj {
                                assert(old_ufd.same(i, j));
                                assert(reach(cut_weights@.take(t as int), i, j));
                                lemma_reach_push(cut_weights@.take(t as int), e, i, j);
                                assert(cut_weights@.take(t as int).push(e) =~= p2);
                            } else {
                                if oi == ru && oj == rv {
                                    assert(old_ufd.same(i, e.0 as int));
                                    assert(old_ufd.same(e.1 as int, j));
                                    assert(reach(cut_weights@.take(t as int), i, e.0 as int));
                                    assert(reach(cut_weights@.take(t as int), e.1 as int, j));
                                } else {
                                    assert(oi == rv && oj == ru);
                                    assert(old_ufd.same(i, e.1 as int));
                                    assert(old_ufd.same(e.0 as int, j));
                                    assert(reach(cut_weights@.take(t as int), i, e.1 as int));
                                    assert(reach(cut_weights@.take(t as int), e.0 as int, j));
                                }
                            }
                        }
                        assert forall|i: int, j: int|
                            0 <= i < n && 0 <= j < n && reach(p2, i, j) implies ufd.same(
                            i,
                            j,
                        ) by {
                            let oi = root_of(old_ufd.parents(), i);
                            let oj = root_of(old_ufd.parents(), j);
                            assert(root_of(ufd.parents(), i) == if oi == big {
                                small
                            } else {
                                oi
                            });
                            assert(root_of(ufd.parents(), j) == if oj == big {
                                small
                            } else {
                                oj
                            });
                            if i != j {
                                lemma_reach_unfold(p2, i, j);
                                let prev = cut_weights@.take(t as int);
                                if reach(prev, i, j) {
                                    assert(old_ufd.same(i, j));
                                } else if reach(prev, i, e.0 as int) && reach(
                                    prev,
                                    e.1 as int,
                                    j,
                                ) {
                                    assert(old_ufd.same(i, e.0 as int));
                                    assert(old_ufd.same(e.1 as int, j));
                                } else {
                                    assert(reach(prev, i, e.1 as int) && reach(
                                        prev,
                                        e.0 as int,
                                        j,
                                    ));
                                    assert(old_ufd.same(i, e.1 as int));
                                    assert(old_ufd.same(e.0 as int, j));
                                }
                            }
                        }
                        vstd::set::axiom_set_remove_len(root_set(old_ufd.parents()), big);
                        broadcast use vstd::seq_lib::group_to_multiset_ensures;
                        broadcast use vstd::multiset::group_multiset_axioms;

                        acc_ms = acc_ms.insert(e.2);
                        if accepted == t {
                            assert(cut_weights@.take(t + 1).map_values(|e2: Edge| e2.2)
                                =~= cut_weights@.take(t as int).map_values(
                                |e2: Edge| e2.2,
                            ).push(e.2));
                        }
                    }
                    accepted += 1;
                },
                None => {
                    proof {
                        assert(forall|i2: int, j2: int|
                            0 <= i2 < n && 0 <= j2 < n && reach(
                                cut_weights@.take(t as int),
                                i2,
                                j2,
                            ) ==> old_ufd.same(i2, j2));
                        let p2 = cut_weights@.take(t + 1);
                        assert forall|i: int, j: int|
                            0 <= i < n && 0 <= j < n && ufd.same(i, j) implies reach(
                            p2,
                            i,
                            j,
                        ) by {
                            assert(reach(cut_weights@.take(t as int), i, j));
                            lemma_reach_push(cut_weights@.take(t as int), e, i, j);
                            assert(cut_weights@.take(t as int).push(e) =~= p2);
                        }
                        assert forall|i: int, j: int|
                            0 <= i < n && 0 <= j < n && reach(p2, i, j) implies ufd.same(
                            i,
                            j,
                        ) by {
                            if i != j {
                                lemma_reach_unfold(p2, i, j);
                                let prev = cut_weights@.take(t as int);
                                assert(old_ufd.same(e.0 as int, e.1 as int));
                                if reach(prev, i, j) {
                                    assert(old_ufd.same(i, j));
                                } else if reach(prev, i, e.0 as int) && reach(
                                    prev,
                                    e.1 as int,
                                    j,
                                ) {
                                    assert(old_ufd.same(i, e.0 as int));
                                    assert(old_ufd.same(e.1 as int, j));
                                } else {
                                    assert(reach(prev, i, e.1 as int) && reach(
                                        prev,
                                        e.0 as int,
                                        j,
                                    ));
                                    assert(old_ufd.same(i, e.1 as int));
                                    assert(old_ufd.same(e.0 as int, j));
                                }
                            }
                        }
                    }
                },
            }
            t += 1;
        }
        proof {
            assert(cut_weights@.take(cut_weights@.len() as int) =~= cut_weights@);
        }
        if accepted == n - 1 && n >= 2 {
            proof {
                let s = root_set(ufd.parents());
                assert(s.len() == 1);
            }
            let root = ufd.find(0);
            proof {
                lemma_root_props(ufd.parents(), 0);
                assert(ufd.cluster_ok(root as int));
            }
            let order = ufd.iter_cluster(root);
            let ghost ord = order@;
            proof {
                // the one cluster holds every point exactly once
                assert forall|x: int| 0 <= x < n implies ord.contains(#[trigger] (x as usize)) by {
                    lemma_root_props(ufd.parents(), x);
                    let rx = root_of(ufd.parents(), x);
                    let s = root_set(ufd.parents());
                    if rx != root as int {
                        vstd::set::axiom_set_remove_len(s, root as int);
                        s.remove(root as int).lemma_len0_is_empty();
                        assert(s.remove(root as int).contains(rx));
                        assert(false);
                    }
                }
                let m = ord.map_values(|u: usize| u as int);
                assert(ord.no_duplicates());
                ord.lemma_no_duplicates_injective(|u: usize| u as int);
                m.unique_seq_to_set();
                assert forall|a: int| m.to_set().contains(a) implies vstd::set_lib::set_int_range(
                    0,
                    n as int,
                ).contains(a) by {
                    assert(m.contains(a));
                    let ix = choose|ix: int| 0 <= ix < m.len() && m[ix] == a;
                    assert(ord[ix] < n);
                }
                assert forall|a: int|
                    vstd::set_lib::set_int_range(0, n as int).contains(a) implies m.to_set()
                    .contains(a) by {
                    assert(ord.contains(a as usize));
                    let ix = choose|ix: int| 0 <= ix < ord.len() && ord[ix] == a as usize;
                    assert(m[ix] == a);
                    assert(m.contains(a));
                }
                assert(m.to_set() =~= vstd::set_lib::set_int_range(0, n as int));
                vstd::set_lib::lemma_int_range(0, n as int);
                assert(ord.len() == n);
            }
            proof {
                assert(ord.no_duplicates());
                assert forall|x: int| 0 <= x < ord.len() implies (#[trigger] ord[x]) < n by {
                    assert(ufd.spec_order(root as int)[x] == ord[x]);
                }
            }
            let gaps = ufd.iter_data(root);
            let mut id_to_pos: Vec<usize> = Vec::new();
            let mut z: usize = 0;
            while z < n
                invariant
                    z <= n,
                    id_to_pos@.len() == z,
                decreases n - z,
            {
                id_to_pos.push(0);
                z += 1;
            }
            let olen = order.len();
            let mut p: usize = 0;
            while p < olen
                invariant
                    p <= olen,
                    olen == ord.len(),
                    ord.len() == n,
                    ord == order@,
                    ord.no_duplicates(),
                    forall|x: int| 0 <= x < ord.len() ==> (#[trigger] ord[x]) < n,
                    id_to_pos@.len() == n,
                    forall|p2: int|
                        0 <= p2 < p ==> id_to_pos@[(#[trigger] ord[p2]) as int] == p2,
                decreases olen - p,
            {
                let id = order[p];
                proof {
                    assert(ord[p as int] < n);
                }
                id_to_pos.set(id, p);
                proof {
                    assert forall|p2: int|
                        0 <= p2 < p + 1 implies id_to_pos@[(#[trigger] ord[p2]) as int] == p2 by {
                        if p2 < p {
                            assert(ord[p2] != ord[p as int]);
                        }
                    }
                }
                p += 1;
            }
            let gaps_owned = clone_weights(gaps);
            proof {
                assert(gaps_owned@.len() + 1 == n);
            }
            match Rmq::new(gaps_owned) {
                Some(rmq) => {
                    let u = Ultrametric { id_to_pos, rmq };
                    proof {
                        assert forall|i: int| 0 <= i < n implies 0 <= #[trigger] u.pos(i)
                            < n by {
                            assert(ord.contains(i as usize));
                            let ix = choose|ix: int| 0 <= ix < ord.len() && ord[ix] == i as usize;
                            assert(id_to_pos@[i] == ix);
                        }
                        assert forall|i: int, j: int|
                            0 <= i < n && 0 <= j < n && i != j implies u.pos(i) != u.pos(
                            j,
                        ) by {
                            assert(ord.contains(i as usize));
                            assert(ord.contains(j as usize));
                            let ix = choose|ix: int| 0 <= ix < ord.len() && ord[ix] == i as usize;
                            let jx = choose|jx: int| 0 <= jx < ord.len() && ord[jx] == j as usize;
                            assert(id_to_pos@[i] == ix);
                            assert(id_to_pos@[j] == jx);
                            assert(ix != jx);
                        }
                        assert(u.wf());
                        // success means the edges connect everything
                        let s = root_set(ufd.parents());
                        assert forall|i: int, j: int| 0 <= i < n && 0 <= j < n implies reach(
                            cut_weights@,
                            i,
                            j,
                        ) by {
                            lemma_root_props(ufd.parents(), i);
                            lemma_root_props(ufd.parents(), j);
                            let ri = root_of(ufd.parents(), i);
                            let rj = root_of(ufd.parents(), j);
                            if ri != rj {
                                vstd::set::axiom_set_remove_len(s, ri);
                                s.remove(ri).lemma_len0_is_empty();
                                assert(s.remove(ri).contains(rj));
                                assert(false);
                            }
                            assert(ufd.same(i, j));
                        }
                        // the gap weights are exactly the input weights
                        assert forall|r2: int|
                            0 <= r2 < n && r2 != root as int implies ufd.parents()[r2]
                            != r2 by {
                            if ufd.parents()[r2] == r2 {
                                assert(s.contains(r2));
                                assert(s.contains(root as int));
                                vstd::set::axiom_set_remove_len(s, root as int);
                                s.remove(root as int).lemma_len0_is_empty();
                                assert(s.remove(root as int).contains(r2));
                                assert(false);
                            }
                        }
                        lemma_arena_single(&ufd, n as int, root as int);
                        assert(u.gaps() == ufd.spec_gaps(root as int));
                        assert(accepted == cut_weights@.len());
                        assert(cut_weights@.take(cut_weights@.len() as int) =~= cut_weights@);
                        assert(u.gaps().to_multiset() == cut_weights@.map_values(
                            |e2: Edge| e2.2,
                        ).to_multiset());
                    }
                    Some(u)
                },
                None => {
                    proof {
                        assert(false);
                    }
                    None
                },
            }
        } else {
            proof {
                if n >= 2 && accepted != n - 1 {
                    let s = root_set(ufd.parents());
                    lemma_root_props(ufd.parents(), 0);
                    let r1 = root_of(ufd.parents(), 0);
                    assert(s.contains(r1));
                    assert(s.len() >= 2);
                    vstd::set::axiom_set_remove_len(s, r1);
                    vstd::set_lib::lemma_set_empty_equivalency_len(s.remove(r1));
                    let r2 = choose|x: int| s.remove(r1).contains(x);
                    assert(s.remove(r1).contains(r2));
                    assert(root_of(ufd.parents(), r1) == r1);
                    assert(root_of(ufd.parents(), r2) == r2);
                    assert(!ufd.same(r1, r2));
                    assert(!reach(cut_weights@, r1, r2));
                    assert(0 <= r1 < n && 0 <= r2 < n);
                }
            }
            None
        }
    }

    /// Builds the whole pipeline: candidate graph, exact minimum
    /// spanning tree, cut-weight transform, single-linkage flattening.
    /// The second component names the drawn candidate edge list, so
    /// failure is characterized over what was actually drawn: with two
    /// or more points, the construction returns `None` exactly because
    /// some ascending ordering of that draw leaves two points
    /// disconnected.
    pub fn new(
        points: &PointSet,
        kt_params: &MstParams,
        cw_params: &CwParams,
        rng: &mut Prng,
    ) -> (r: (Option<Ultrametric>, Ghost<Seq<Edge>>))
        requires
            points.wf(),
            kt_params.wf(),
            cw_params.wf(),
            points.spec_n() >= 1,
        ensures
            match r.0 {
                Some(u) => u.wf() && u.spec_n() == points.spec_n(),
                None => points.spec_n() == 1 || exists|es: Seq<Edge>|
                    {
                        &&& es.to_multiset() == r.1@.to_multiset()
                        &&& sorted_by_weight(es)
                        &&& exists|i: int, j: int|
                            0 <= i < points.spec_n() && 0 <= j < points.spec_n() && !reach(
                                es,
                                i,
                                j,
                            )
                    },
            },
            forall|t: int|
                0 <= t < r.1@.len() ==> crate::spanning_tree::kt::edge_ok(
                    points,
                    #[trigger] r.1@[t],
                ),
            points.spec_n() == 1 ==> r.0 is None,
    {
        let n = points.len();
        let (mst, drawn) = kt_params.compute_mst(points, rng);
        let tree = match mst {
            Some(t) => t,
            None => {
                return (None, drawn);
            },
        };
        let cw = cw_params.compute_weights(&tree);
        proof {
            assert forall|a: int, b: int| 0 <= a <= b < cw@.len() implies (#[trigger] cw@[a]).2
                <= (#[trigger] cw@[b]).2 by {
                cw_params.lemma_monotone(tree.edges@[a].2, tree.edges@[b].2);
            }
            assert forall|i: int, j: int| 0 <= i < n && 0 <= j < n implies reach(cw@, i, j) by {
                lemma_reach_endpoints(tree.edges@, cw@, i, j);
            }
        }
        (Ultrametric::single_linkage(cw), drawn)
    }
}

/// Every represented distance is zero on the diagonal and non-negative
/// everywhere.
pub proof fn lemma_dist_identity(u: &Ultrametric, i: int, j: int)
    requires
        u.wf(),
        0 <= i < u.spec_n(),
        0 <= j < u.spec_n(),
    ensures
        u.dist_spec(i, i) == 0,
        0 <= u.dist_spec(i, j),
{
    if i != j {
        lemma_seq_max_in_range(
            u.gaps(),
            if u.pos(i) <= u.pos(j) {
                u.pos(i)
            } else {
                u.pos(j)
            },
            if u.pos(i) <= u.pos(j) {
                u.pos(j)
            } else {
                u.pos(i)
            },
        );
    }
}

/// The represented distance is symmetric.
pub proof fn lemma_dist_symmetric(u: &Ultrametric, i: int, j: int)
    ensures
        u.dist_spec(i, j) == u.dist_spec(j, i),
{
}

/// The strong triangle inequality: no distance exceeds the larger of
/// the two distances through any third point.
pub proof fn lemma_ultrametric_inequality(u: &Ultrametric, i: int, j: int, k: int)
    requires
        u.wf(),
        0 <= i < u.spec_n(),
        0 <= j < u.spec_n(),
        0 <= k < u.spec_n(),
    ensures
        u.dist_spec(i, j) <= if u.dist_spec(i, k) > u.dist_spec(j, k) {
            u.dist_spec(i, k)
        } else {
            u.dist_spec(j, k)
        },
{
    let w = u.gaps();
    if i == j {
        lemma_dist_identity(u, i, k);
        lemma_dist_identity(u, j, k);
    } else if k == i || k == j {
        lemma_dist_symmetric(u, i, k);
        lemma_dist_symmetric(u, j, k);
    } else {
        let a = u.pos(i);
        let b = u.pos(j);
        let c = u.pos(k);
        let lo = if a <= b {
            a
        } else {
            b
        };
        let hi = if a <= b {
            b
        } else {
            a
        };
        assert(a != b && a != c && b != c);
        assert(0 <= lo < hi <= w.len());
        if c < lo {
            lemma_seq_max_mono(w, c, hi, lo, hi);
            assert(seq_max(w, c, hi) == if u.pos(i) <= u.pos(j) {
                u.dist_spec(j, k)
            } else {
                u.dist_spec(i, k)
            });
        } else if c > hi {
            lemma_seq_max_mono(w, lo, c, lo, hi);
            assert(seq_max(w, lo, c) == if u.pos(i) <= u.pos(j) {
                u.dist_spec(i, k)
            } else {
                u.dist_spec(j, k)
            });
        } else {
            assert(lo < c < hi);
            lemma_seq_max_split(w, lo, c, hi);
            assert(seq_max(w, lo, c) == if u.pos(i) <= u.pos(j) {
                u.dist_spec(i, k)
            } else {
                u.dist_spec(j, k)
            });
            assert(seq_max(w, c, hi) == if u.pos(i) <= u.pos(j) {
                u.dist_spec(j, k)
            } else {
                u.dist_spec(i, k)
            });
        }
    }
}

} // verus!
