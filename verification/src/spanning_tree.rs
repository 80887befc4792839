//! Candidate-edge sorting, connectivity, and exact minimum-spanning-tree
//! extraction with Kruskal's scan over a union-find.

pub mod kt;

use vstd::prelude::*;
use crate::points::PointSet;
use crate::rng::Prng;
use crate::union_find::{root_of, root_set, UnionFind};
use crate::union_find::{lemma_root_props, lemma_root_set_finite};
use vstd::set_lib::set_int_range;

verus! {

/// An undirected weighted edge: endpoints and weight.
#[derive(Clone, Copy, Debug)]
pub struct Edge(pub usize, pub usize, pub u64);

/// A spanning tree: `n - 1` accepted edges, sorted by weight.
#[derive(Clone, Debug)]
pub struct SpanningTree {
    pub edges: Vec<Edge>,
}

/// Parameters of the candidate-graph construction: the radius ladder,
/// the number of hash coordinates per bucketing pass, and the number of
/// independent passes per rung.
#[derive(Clone, Debug)]
pub struct MstParams {
    pub rungs: Vec<kt::Rung>,
    pub k: usize,
    pub passes: usize,
}

impl MstParams {
    /// Every rung's bucket width is usable.
    pub open spec fn wf(&self) -> bool {
        forall|j: int|
            0 <= j < self.rungs@.len() ==> 1 <= (#[trigger] self.rungs@[j]).width
                <= crate::lsh::WIDTH_LIMIT
    }

    /// Builds the candidate graph over the radius ladder and extracts
    /// its exact minimum spanning tree. Success yields `n - 1` sorted
    /// edges that connect all points, each weighted with the exact
    /// squared distance of its two distinct endpoints; failure names
    /// the drawn candidate list this construction could not connect:
    /// the second component is that draw, so the disconnection witness
    /// speaks of what actually happened.
    pub fn compute_mst(&self, points: &PointSet, rng: &mut Prng) -> (r: (
        Option<SpanningTree>,
        Ghost<Seq<Edge>>,
    ))
        requires
            points.wf(),
            self.wf(),
            points.spec_n() >= 1,
        ensures
            forall|t: int| 0 <= t < r.1@.len() ==> kt::edge_ok(points, #[trigger] r.1@[t]),
            forall|t: int|
                0 <= t < r.1@.len() ==> kt::under_some_rung(self.rungs@, (#[trigger] r.1@[t]).2),
            match r.0 {
                Some(tree) => {
                    &&& tree.edges@.len() == points.spec_n() - 1
                    &&& sorted_by_weight(tree.edges@)
                    &&& forall|t: int|
                        0 <= t < tree.edges@.len() ==> kt::edge_ok(
                            points,
                            #[trigger] tree.edges@[t],
                        )
                    &&& forall|i: int, j: int|
                        0 <= i < points.spec_n() && 0 <= j < points.spec_n() ==> reach(
                            tree.edges@,
                            i,
                            j,
                        )
                    &&& forall|e: Edge| #[trigger]
                        tree.edges@.to_multiset().count(e) <= r.1@.to_multiset().count(e)
                },
                None => exists|es: Seq<Edge>|
                    {
                        &&& es.to_multiset() == r.1@.to_multiset()
                        &&& sorted_by_weight(es)
                        &&& exists|i: int, j: int|
                            0 <= i < points.spec_n() && 0 <= j < points.spec_n() && !reach(
                                es,
                                i,
                                j,
                            )
                    },
            },
            points.spec_n() == 1 ==> r.0 is Some,
    {
        broadcast use vstd::seq_lib::group_to_multiset_ensures;
        broadcast use vstd::multiset::group_multiset_axioms;

        let candidates = kt::gamma_kt(points, &self.rungs, self.k, self.passes, rng);
        let ghost drawn = candidates@;
        let n = points.len();
        let r = exact_mst_kruskal(candidates, n);
        proof {
            if let Some(tree) = &r {
                drawn.to_multiset_ensures();
                assert forall|t: int| 0 <= t < tree.edges@.len() implies kt::edge_ok(
                    points,
                    #[trigger] tree.edges@[t],
                ) by {
                    assert(drawn.to_multiset().contains(tree.edges@[t]));
                    assert(drawn.contains(tree.edges@[t]));
                    let idx = choose|idx: int| 0 <= idx < drawn.len() && drawn[idx] == tree.edges@[t];
                    assert(kt::edge_ok(points, drawn[idx]));
                }
            }
        }
        (r, Ghost(drawn))
    }
}

/// Weights never decrease along the sequence.
pub open spec fn sorted_by_weight(es: Seq<Edge>) -> bool {
    forall|a: int, b: int| 0 <= a <= b < es.len() ==> (#[trigger] es[a]).2 <= (#[trigger] es[b]).2
}

/// `i` and `j` are connected by the edges of `es`.
pub open spec fn reach(es: Seq<Edge>, i: int, j: int) -> bool
    decreases es.len(),
{
    if i == j {
        true
    } else if es.len() == 0 {
        false
    } else {
        let e = es.last();
        let rest = es.drop_last();
        reach(rest, i, j) || (reach(rest, i, e.0 as int) && reach(rest, e.1 as int, j)) || (reach(
            rest,
            i,
            e.1 as int,
        ) && reach(rest, e.0 as int, j))
    }
}

/// Connectivity only reads the endpoints: reweighted edges connect the
/// same pairs.
pub proof fn lemma_reach_endpoints(es1: Seq<Edge>, es2: Seq<Edge>, i: int, j: int)
    requires
        es1.len() == es2.len(),
        forall|t: int|
            0 <= t < es1.len() ==> (#[trigger] es2[t]).0 == es1[t].0 && es2[t].1 == es1[t].1,
        reach(es1, i, j),
    ensures
        reach(es2, i, j),
    decreases es1.len(),
{
    if i != j && es1.len() > 0 {
        let r1 = es1.drop_last();
        let r2 = es2.drop_last();
        assert(forall|t: int|
            0 <= t < r1.len() ==> (#[trigger] r2[t]).0 == r1[t].0 && r2[t].1 == r1[t].1);
        let e1 = es1.last();
        let e2 = es2.last();
        assert(e2.0 == e1.0 && e2.1 == e1.1);
        if reach(r1, i, j) {
            lemma_reach_endpoints(r1, r2, i, j);
        } else if reach(r1, i, e1.0 as int) && reach(r1, e1.1 as int, j) {
            lemma_reach_endpoints(r1, r2, i, e1.0 as int);
            lemma_reach_endpoints(r1, r2, e1.1 as int, j);
        } else {
            assert(reach(r1, i, e1.1 as int) && reach(r1, e1.0 as int, j));
            lemma_reach_endpoints(r1, r2, i, e1.1 as int);
            lemma_reach_endpoints(r1, r2, e1.0 as int, j);
        }
    }
}

/// One step of the connectivity definition: a connection through a
/// non-empty edge sequence either avoids the last edge or crosses it.
pub proof fn lemma_reach_unfold(es: Seq<Edge>, i: int, j: int)
    requires
        es.len() > 0,
        i != j,
        reach(es, i, j),
    ensures
        reach(es.drop_last(), i, j) || (reach(es.drop_last(), i, es.last().0 as int) && reach(
            es.drop_last(),
            es.last().1 as int,
            j,
        )) || (reach(es.drop_last(), i, es.last().1 as int) && reach(
            es.drop_last(),
            es.last().0 as int,
            j,
        )),
{
}

/// Adding an edge keeps every existing connection.
pub proof fn lemma_reach_push(es: Seq<Edge>, e: Edge, i: int, j: int)
    requires
        reach(es, i, j),
    ensures
        reach(es.push(e), i, j),
{
    assert(es.push(e).drop_last() =~= es);
    assert(es.push(e).len() == es.len() + 1);
}

/// Sorts edges ascending by weight, keeping the multiset of edges.
pub fn sort_edges(edges: Vec<Edge>) -> (r: Vec<Edge>)
    ensures
        sorted_by_weight(r@),
        r@.to_multiset() == edges@.to_multiset(),
        r@.len() == edges@.len(),
{
    broadcast use vstd::seq_lib::group_to_multiset_ensures;
    broadcast use vstd::seq_lib::to_multiset_insert;
    broadcast use vstd::multiset::group_multiset_axioms;

    let mut v = edges;
    let ghost orig = v@;
    if v.len() <= 1 {
        return v;
    }
    let mut idx: usize = 1;
    while idx < v.len()
        invariant
            1 <= idx <= v@.len(),
            v@.len() == orig.len(),
            v@.to_multiset() == orig.to_multiset(),
            sorted_by_weight(v@.take(idx as int)),
        decreases v@.len() - idx,
    {
        let e = v[idx];
        let mut j = idx;
        while j > 0 && v[j - 1].2 > e.2
            invariant
                j <= idx < v@.len(),
                e == v@[idx as int],
                sorted_by_weight(v@.take(idx as int)),
                forall|t: int| j <= t < idx ==> (#[trigger] v@[t]).2 > e.2,
            decreases j,
        {
            j -= 1;
        }
        let ghost before = v@;
        let removed = v.remove(idx);
        v.insert(j, removed);
        proof {
            before.to_multiset_ensures();
            assert(before[idx as int] == e);
            assert(before.contains(e));
            assert(before.to_multiset().count(e) > 0);
            vstd::seq_lib::to_multiset_insert(before.remove(idx as int), j as int, e);
            assert(before.remove(idx as int).to_multiset() == before.to_multiset().remove(e));
            assert(v@ == before.remove(idx as int).insert(j as int, e));
            assert(v@.to_multiset() == before.to_multiset().remove(e).insert(e));
            assert(v@.to_multiset() =~= before.to_multiset());
            assert forall|a: int, b: int|
                0 <= a <= b < idx + 1 implies (#[trigger] v@.take(idx + 1)[a]).2 <= (
            #[trigger] v@.take(idx + 1)[b]).2 by {
                assert(forall|t: int|
                    0 <= t < j ==> v@[t] == before[t] && before[t] == before.take(idx as int)[t]);
                assert(v@[j as int] == e);
                assert(forall|t: int| j < t <= idx ==> v@[t] == before[t - 1]);
                if j > 0 {
                    assert(before[j - 1].2 <= e.2);
                }
            }
        }
        idx += 1;
    }
    proof {
        assert(v@.take(v@.len() as int) =~= v@);
    }
    v
}

/// Kruskal's algorithm: sort the candidate edges ascending, scan them,
/// and accept each edge whose endpoints are not yet connected.
///
/// Success yields exactly `n - 1` edges that connect every pair of
/// points; failure means some ascending ordering of the candidates
/// leaves two points disconnected.
pub fn exact_mst_kruskal(edges: Vec<Edge>, n: usize) -> (r: Option<SpanningTree>)
    requires
        n >= 1,
        forall|t: int|
            0 <= t < edges@.len() ==> (#[trigger] edges@[t]).0 < n && edges@[t].1 < n,
    ensures
        match r {
            Some(tree) => {
                &&& tree.edges@.len() == n - 1
                &&& sorted_by_weight(tree.edges@)
                &&& forall|t: int|
                    0 <= t < tree.edges@.len() ==> (#[trigger] tree.edges@[t]).0 < n
                        && tree.edges@[t].1 < n && tree.edges@[t].0 != tree.edges@[t].1
                &&& forall|i: int, j: int|
                    0 <= i < n && 0 <= j < n ==> reach(tree.edges@, i, j)
                &&& forall|t: int|
                    0 <= t < tree.edges@.len() ==> edges@.to_multiset().contains(
                        #[trigger] tree.edges@[t],
                    )
                &&& forall|e: Edge| #[trigger]
                    tree.edges@.to_multiset().count(e) <= edges@.to_multiset().count(e)
            },
            None => exists|es: Seq<Edge>|
                {
                    &&& es.to_multiset() == edges@.to_multiset()
                    &&& sorted_by_weight(es)
                    &&& exists|i: int, j: int|
                        0 <= i < n && 0 <= j < n && !reach(es, i, j)
                },
        },
        n == 1 ==> r is Some,
{
    broadcast use vstd::seq_lib::group_to_multiset_ensures;
    broadcast use vstd::set::group_set_axioms;
    broadcast use vstd::multiset::group_multiset_axioms;

    let ghost input = edges@;
    let sorted = sort_edges(edges);
    proof {
        assert forall|t: int|
            0 <= t < sorted@.len() implies (#[trigger] sorted@[t]).0 < n && sorted@[t].1
            < n by {
            assert(sorted@.contains(sorted@[t]));
            assert(sorted@.to_multiset().contains(sorted@[t]));
            assert(input.to_multiset().contains(sorted@[t]));
            assert(input.contains(sorted@[t]));
            let k = choose|k: int| 0 <= k < input.len() && input[k] == sorted@[t];
            assert(input[k].0 < n && input[k].1 < n);
        }
    }
    let mut uf = UnionFind::new(n);
    let mut acc: Vec<Edge> = Vec::new();
    let mut t: usize = 0;
    proof {
        lemma_root_set_finite(uf.parents());
    }
    while t < sorted.len()
        invariant
            t <= sorted@.len(),
            uf.wf(),
            uf.spec_len() == n,
            n >= 1,
            sorted_by_weight(sorted@),
            sorted@.to_multiset() == input.to_multiset(),
            forall|k: int|
                0 <= k < sorted@.len() ==> (#[trigger] sorted@[k]).0 < n && sorted@[k].1 < n,
            sorted_by_weight(acc@),
            forall|a: int, k: int|
                0 <= a < acc@.len() && t <= k < sorted@.len() ==> (#[trigger] acc@[a]).2 <= (
                #[trigger] sorted@[k]).2,
            forall|a: int|
                0 <= a < acc@.len() ==> (#[trigger] acc@[a]).0 < n && acc@[a].1 < n && acc@[a].0
                    != acc@[a].1,
            forall|a: int|
                0 <= a < acc@.len() ==> input.to_multiset().contains(#[trigger] acc@[a]),
            forall|e: Edge| #[trigger]
                acc@.to_multiset().count(e) <= sorted@.take(t as int).to_multiset().count(e),
            forall|i: int, j: int|
                0 <= i < n && 0 <= j < n && uf.same(i, j) ==> reach(acc@, i, j),
            forall|i: int, j: int|
                0 <= i < n && 0 <= j < n && reach(sorted@.take(t as int), i, j) ==> uf.same(i, j),
            root_set(uf.parents()).finite(),
            root_set(uf.parents()).len() + acc@.len() == n,
        decreases sorted@.len() - t,
    {
        let e = sorted[t];
        let ghost old_uf = uf;
        let ghost old_acc = acc@;
        let merged = uf.merge(e.0, e.1);
        proof {
            assert(sorted@.take(t + 1).drop_last() =~= sorted@.take(t as int));
            assert(sorted@.take(t + 1).last() == e);
        }
        match merged {
            Some(_) => {
                proof {
                    assert(forall|i2: int, j2: int|
                        0 <= i2 < n && 0 <= j2 < n && old_uf.same(i2, j2) ==> reach(
                            old_acc,
                            i2,
                            j2,
                        ));
                    assert(old_acc == acc@);
                    let ru = root_of(old_uf.parents(), e.0 as int);
                    let rv = root_of(old_uf.parents(), e.1 as int);
                    let p2 = acc@.push(e);
                    assert(p2.drop_last() =~= acc@);
                    assert(p2.last() == e);
                    let small = if ru <= rv {
                        ru
                    } else {
                        rv
                    };
                    let big = if ru <= rv {
                        rv
                    } else {
                        ru
                    };
                    // every pair joined by the new partition is reached
                    assert forall|i: int, j: int|
                        0 <= i < n && 0 <= j < n && uf.same(i, j) implies reach(p2, i, j) by {
                        let oi = root_of(old_uf.parents(), i);
                        let oj = root_of(old_uf.parents(), j);
                        assert(root_of(uf.parents(), i) == if oi == big {
                            small
                        } else {
                            oi
                        });
                        assert(root_of(uf.parents(), j) == if oj == big {
                            small
                        } else {
                            oj
                        });
                        if oi == oj {
                            assert(reach(acc@, i, j));
                            lemma_reach_push(acc@, e, i, j);
                        } else {
                            if oi == ru && oj == rv {
                                assert(reach(acc@, i, e.0 as int));
                                assert(reach(acc@, e.1 as int, j));
                            } else {
                                assert(oi == rv && oj == ru);
                                assert(reach(acc@, i, e.1 as int));
                                assert(reach(acc@, e.0 as int, j));
                            }
                        }
                    }
                    // every pair reached through the processed prefix is joined
                    assert(forall|i2: int, j2: int|
                        0 <= i2 < n && 0 <= j2 < n && reach(sorted@.take(t as int), i2, j2)
                            ==> old_uf.same(i2, j2));
                    assert forall|i: int, j: int|
                        0 <= i < n && 0 <= j < n && reach(sorted@.take(t + 1), i, j) implies
                        uf.same(i, j) by {
                        let oi = root_of(old_uf.parents(), i);
                        let oj = root_of(old_uf.parents(), j);
                        assert(root_of(uf.parents(), i) == if oi == big {
                            small
                        } else {
                            oi
                        });
                        assert(root_of(uf.parents(), j) == if oj == big {
                            small
                        } else {
                            oj
                        });
                        if i != j {
                            let es1 = sorted@.take(t + 1);
                            lemma_reach_unfold(es1, i, j);
                            assert(es1.drop_last() == sorted@.take(t as int));
                            assert(es1.last() == e);
                            let prev = sorted@.take(t as int);
                            if reach(prev, i, j) {
                                assert(old_uf.same(i, j));
                            } else if reach(prev, i, e.0 as int) && reach(prev, e.1 as int, j) {
                                assert(old_uf.same(i, e.0 as int));
                                assert(old_uf.same(e.1 as int, j));
                                assert(oi == ru && oj == rv);
                            } else {
                                assert(reach(prev, i, e.1 as int) && reach(prev, e.0 as int, j));
                                assert(old_uf.same(i, e.1 as int));
                                assert(old_uf.same(e.0 as int, j));
                                assert(oi == rv && oj == ru);
                            }
                        }
                    }
                    vstd::set::axiom_set_remove_len(root_set(old_uf.parents()), big);
                    sorted@.to_multiset_ensures();
                    assert(sorted@.contains(e));
                    assert(sorted@.to_multiset().contains(e));
                    assert(sorted@.take(t + 1) =~= sorted@.take(t as int).push(e));
                    acc@.to_multiset_ensures();
                    sorted@.take(t as int).to_multiset_ensures();
                    assert(acc@.push(e).to_multiset() =~= acc@.to_multiset().insert(e));
                    assert(sorted@.take(t + 1).to_multiset() =~= sorted@.take(
                        t as int,
                    ).to_multiset().insert(e));
                }
                acc.push(e);
            },
            None => {
                proof {
                    assert(sorted@.take(t + 1) =~= sorted@.take(t as int).push(e));
                    sorted@.take(t as int).to_multiset_ensures();
                    assert(sorted@.take(t + 1).to_multiset() =~= sorted@.take(
                        t as int,
                    ).to_multiset().insert(e));
                    assert(forall|i2: int, j2: int|
                        0 <= i2 < n && 0 <= j2 < n && reach(sorted@.take(t as int), i2, j2)
                            ==> old_uf.same(i2, j2));
                    assert forall|i: int, j: int|
                        0 <= i < n && 0 <= j < n && reach(sorted@.take(t + 1), i, j) implies
                        uf.same(i, j) by {
                        assert(uf.parents() == old_uf.parents());
                        if i != j {
                            let es1 = sorted@.take(t + 1);
                            lemma_reach_unfold(es1, i, j);
                            assert(es1.drop_last() == sorted@.take(t as int));
                            assert(es1.last() == e);
                            let prev = sorted@.take(t as int);
                            assert(old_uf.same(e.0 as int, e.1 as int));
                            if reach(prev, i, j) {
                                assert(old_uf.same(i, j));
                            } else if reach(prev, i, e.0 as int) && reach(prev, e.1 as int, j) {
                                assert(old_uf.same(i, e.0 as int));
                                assert(old_uf.same(e.1 as int, j));
                            } else {
                                assert(reach(prev, i, e.1 as int) && reach(prev, e.0 as int, j));
                                assert(old_uf.same(i, e.1 as int));
                                assert(old_uf.same(e.0 as int, j));
                            }
                        }
                    }
                }
            },
        }
        t += 1;
    }
    proof {
        assert(sorted@.take(sorted@.len() as int) =~= sorted@);
    }
    if acc.len() == n - 1 {
        proof {
            let s = root_set(uf.parents());
            assert(s.len() == 1);
            assert(forall|i2: int, j2: int|
                0 <= i2 < n && 0 <= j2 < n && uf.same(i2, j2) ==> reach(acc@, i2, j2));
            assert forall|i: int, j: int| 0 <= i < n && 0 <= j < n implies reach(acc@, i, j) by {
                lemma_root_props(uf.parents(), i);
                lemma_root_props(uf.parents(), j);
                let ri = root_of(uf.parents(), i);
                let rj = root_of(uf.parents(), j);
                assert(s.contains(ri));
                assert(s.contains(rj));
                if ri != rj {
                    vstd::set::axiom_set_remove_len(s, ri);
                    assert(s.remove(ri).len() == 0);
                    assert(s.remove(ri).finite());
                    s.remove(ri).lemma_len0_is_empty();
                    assert(s.remove(ri).contains(rj));
                    assert(false);
                }
                assert(ri == rj);
                assert(uf.same(i, j));
                assert(reach(acc@, i, j));
            }
        }
        Some(SpanningTree { edges: acc })
    } else {
        proof {
            let s = root_set(uf.parents());
            lemma_root_props(uf.parents(), 0);
            let r1 = root_of(uf.parents(), 0);
            assert(s.contains(r1));
            assert(s.len() >= 1);
            assert(s.len() >= 2);
            vstd::set::axiom_set_remove_len(s, r1);
            assert(s.remove(r1).len() >= 1);
            vstd::set_lib::lemma_set_empty_equivalency_len(s.remove(r1));
            let r2 = choose|x: int| s.remove(r1).contains(x);
            assert(s.remove(r1).contains(r2));
            assert(root_of(uf.parents(), r1) == r1);
            assert(root_of(uf.parents(), r2) == r2);
            assert(!uf.same(r1, r2));
            assert(!reach(sorted@, r1, r2));
            assert(0 <= r1 < n && 0 <= r2 < n);
            assert({
                &&& sorted@.to_multiset() == input.to_multiset()
                &&& sorted_by_weight(sorted@)
                &&& exists|i: int, j: int| 0 <= i < n && 0 <= j < n && !reach(sorted@, i, j)
            });
        }
        None
    }
}

} // verus!
