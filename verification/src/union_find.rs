//! Plain union-find over `[0, n)`, linking larger roots under smaller
//! ones so that parent links strictly decrease.

use vstd::prelude::*;
use vstd::multiset::Multiset;
use vstd::seq_lib::lemma_multiset_commutative;
use vstd::set_lib::*;

verus! {

/// Root of `i` under parent sequence `p`, following links while they
/// strictly decrease.
pub open spec fn root_of(p: Seq<usize>, i: int) -> int
    decreases i,
{
    if 0 <= i < p.len() && p[i] < i {
        root_of(p, p[i] as int)
    } else {
        i
    }
}

/// Parent links never grow.
pub open spec fn parents_wf(p: Seq<usize>) -> bool {
    forall|i: int| 0 <= i < p.len() ==> #[trigger] p[i] <= i
}

/// The set of elements that are their own parent.
pub open spec fn root_set(p: Seq<usize>) -> Set<int> {
    Set::new(|r: int| 0 <= r < p.len() && p[r] == r)
}

/// A root is reached from every element, is a fixed point, and is in
/// the root set.
pub proof fn lemma_root_props(p: Seq<usize>, i: int)
    requires
        parents_wf(p),
        0 <= i < p.len(),
    ensures
        0 <= root_of(p, i) <= i,
        p[root_of(p, i)] == root_of(p, i),
        root_set(p).contains(root_of(p, i)),
    decreases i,
{
    if p[i] < i {
        lemma_root_props(p, p[i] as int);
    }
}

/// The root set is finite, with at most one root per element.
pub proof fn lemma_root_set_finite(p: Seq<usize>)
    ensures
        root_set(p).finite(),
        root_set(p).len() <= p.len(),
{
    lemma_int_range(0, p.len() as int);
    assert(root_set(p).subset_of(set_int_range(0, p.len() as int)));
    lemma_len_subset(root_set(p), set_int_range(0, p.len() as int));
}

/// Linking root `big` under root `small` redirects exactly the elements
/// rooted at `big`.
proof fn lemma_link_one(p: Seq<usize>, big: int, small: int, i: int)
    requires
        parents_wf(p),
        0 <= small < big < p.len(),
        p[big] == big,
        p[small] == small,
        0 <= i < p.len(),
    ensures
        root_of(p.update(big, small as usize), i) == if root_of(p, i) == big {
            small
        } else {
            root_of(p, i)
        },
    decreases i,
{
    let q = p.update(big, small as usize);
    if i == big {
        assert(q[big] == small && small < big);
        assert(root_of(q, big) == root_of(q, small));
        assert(q[small] == small);
        assert(root_of(q, small) == small);
        assert(root_of(p, big) == big);
    } else {
        if p[i] < i {
            lemma_link_one(p, big, small, p[i] as int);
            assert(q[i] == p[i]);
            assert(root_of(q, i) == root_of(q, p[i] as int));
            assert(root_of(p, i) == root_of(p, p[i] as int));
        } else {
            assert(p[i] == i);
            assert(q[i] == i);
            assert(root_of(q, i) == i);
            assert(root_of(p, i) == i);
        }
    }
}

pub struct UnionFind {
    parent: Vec<usize>,
}

impl UnionFind {
    /// The parent links.
    pub closed spec fn parents(&self) -> Seq<usize> {
        self.parent@
    }

    /// Number of elements.
    pub open spec fn spec_len(&self) -> int {
        self.parents().len() as int
    }

    /// Well-formedness of the parent links.
    pub open spec fn wf(&self) -> bool {
        parents_wf(self.parents())
    }

    /// Whether `i` and `j` are in the same set.
    pub open spec fn same(&self, i: int, j: int) -> bool {
        root_of(self.parents(), i) == root_of(self.parents(), j)
    }

    /// A fresh partition of `[0, n)` into singletons.
    pub fn new(n: usize) -> (r: UnionFind)
        ensures
            r.wf(),
            r.spec_len() == n,
            forall|i: int| 0 <= i < n ==> root_of(r.parents(), i) == i,
            root_set(r.parents()) == set_int_range(0, n as int),
            root_set(r.parents()).len() == n,
    {
        let mut parent: Vec<usize> = Vec::new();
        let mut i: usize = 0;
        while i < n
            invariant
                i <= n,
                parent@.len() == i,
                forall|t: int| 0 <= t < i ==> #[trigger] parent@[t] == t,
            decreases n - i,
        {
            parent.push(i);
            i += 1;
        }
        proof {
            assert(root_set(parent@) =~= set_int_range(0, n as int));
            lemma_int_range(0, n as int);
        }
        UnionFind { parent }
    }

    /// Number of elements.
    pub fn len(&self) -> (r: usize)
        ensures
            r == self.spec_len(),
    {
        self.parent.len()
    }

    /// Representative of the set containing `x`.
    pub fn find(&self, x: usize) -> (r: usize)
        requires
            self.wf(),
            x < self.spec_len(),
        ensures
            r == root_of(self.parents(), x as int),
            r <= x,
            self.parents()[r as int] == r,
    {
        proof {
            lemma_root_props(self.parents(), x as int);
        }
        let mut c = x;
        while self.parent[c] != c
            invariant
                self.wf(),
                c < self.spec_len(),
                c <= x,
                root_of(self.parents(), c as int) == root_of(self.parents(), x as int),
            decreases c,
        {
            c = self.parent[c];
        }
        c
    }

    /// Merges the sets of `u` and `v`; `None` exactly when they are
    /// already one set, in which case nothing changes. On success the
    /// kept representative is the smaller root, the elements rooted at
    /// the larger root move under it, and the root set loses exactly
    /// that larger root.
    pub fn merge(&mut self, u: usize, v: usize) -> (r: Option<usize>)
        requires
            old(self).wf(),
            u < old(self).spec_len(),
            v < old(self).spec_len(),
        ensures
            final(self).wf(),
            final(self).spec_len() == old(self).spec_len(),
            r is None <==> old(self).same(u as int, v as int),
            r is None ==> *final(self) == *old(self),
            ({
                let ru = root_of(old(self).parents(), u as int);
                let rv = root_of(old(self).parents(), v as int);
                let small = if ru <= rv {
                    ru
                } else {
                    rv
                };
                let big = if ru <= rv {
                    rv
                } else {
                    ru
                };
                r is Some ==> {
                    &&& r == Some(small as usize)
                    &&& final(self).parents() == old(self).parents().update(big, small as usize)
                    &&& old(self).parents()[small] == small
                    &&& old(self).parents()[big] == big
                    &&& forall|i: int|
                        0 <= i < old(self).spec_len() ==> root_of(final(self).parents(), i) == (
                        if root_of(old(self).parents(), i) == big {
                            small
                        } else {
                            root_of(old(self).parents(), i)
                        })
                    &&& root_set(final(self).parents()) == root_set(old(self).parents()).remove(
                        big,
                    )
                    &&& root_set(old(self).parents()).contains(big)
                }
            }),
    {
        let ru = self.find(u);
        let rv = self.find(v);
        if ru == rv {
            return None;
        }
        let (small, big) = if ru <= rv {
            (ru, rv)
        } else {
            (rv, ru)
        };
        proof {
            lemma_root_props(self.parents(), u as int);
            lemma_root_props(self.parents(), v as int);
            let p = self.parents();
            let q = p.update(big as int, small);
            assert forall|i: int| 0 <= i < p.len() implies root_of(q, i) == (if root_of(p, i)
                == big as int {
                small as int
            } else {
                root_of(p, i)
            }) by {
                lemma_link_one(p, big as int, small as int, i);
            }
            assert(root_set(q) =~= root_set(p).remove(big as int));
        }
        self.parent.set(big, small);
        Some(small)
    }
}

fn clone_ids(v: &Vec<usize>) -> (r: Vec<usize>)
    ensures
        r@ == v@,
{
    let mut out: Vec<usize> = Vec::new();
    let mut i: usize = 0;
    while i < v.len()
        invariant
            i <= v@.len(),
            out@ == v@.take(i as int),
        decreases v@.len() - i,
    {
        out.push(v[i]);
        proof {
            assert(out@ =~= v@.take(i + 1));
        }
        i += 1;
    }
    proof {
        assert(v@.take(v@.len() as int) =~= v@);
    }
    out
}

pub(crate) fn clone_weights(v: &Vec<u64>) -> (r: Vec<u64>)
    ensures
        r@ == v@,
{
    let mut out: Vec<u64> = Vec::new();
    let mut i: usize = 0;
    while i < v.len()
        invariant
            i <= v@.len(),
            out@ == v@.take(i as int),
        decreases v@.len() - i,
    {
        out.push(v[i]);
        proof {
            assert(out@ =~= v@.take(i + 1));
        }
        i += 1;
    }
    proof {
        assert(v@.take(v@.len() as int) =~= v@);
    }
    out
}

/// Union-find where every cluster root also owns the linear order of
/// its members and the gap weights between consecutive members.
pub struct UnionFindWithData {
    uf: UnionFind,
    order: Vec<Vec<usize>>,
    gaps: Vec<Vec<u64>>,
}

impl UnionFindWithData {
    /// The parent links of the underlying partition.
    pub closed spec fn parents(&self) -> Seq<usize> {
        self.uf.parents()
    }

    /// Number of elements.
    pub open spec fn spec_len(&self) -> int {
        self.parents().len() as int
    }

    /// The member order owned by element `r`.
    pub closed spec fn spec_order(&self, r: int) -> Seq<usize> {
        self.order@[r]@
    }

    /// The gap weights owned by element `r`.
    pub closed spec fn spec_gaps(&self, r: int) -> Seq<u64> {
        self.gaps@[r]@
    }

    /// Whether `i` and `j` are in the same cluster.
    pub open spec fn same(&self, i: int, j: int) -> bool {
        root_of(self.parents(), i) == root_of(self.parents(), j)
    }

    /// The order and gaps of a root list exactly its cluster: the
    /// members in merge order, without repetition, with one gap less
    /// than members.
    pub open spec fn cluster_ok(&self, r: int) -> bool {
        &&& self.spec_order(r).no_duplicates()
        &&& self.spec_gaps(r).len() + 1 == self.spec_order(r).len()
        &&& forall|t: int|
            0 <= t < self.spec_order(r).len() ==> (#[trigger] self.spec_order(r)[t])
                < self.spec_len() && root_of(self.parents(), self.spec_order(r)[t] as int) == r
        &&& forall|x: int|
            0 <= x < self.spec_len() && root_of(self.parents(), x) == r
                ==> self.spec_order(r).contains(x as usize)
    }

    /// There is one order arena and one gap arena per element.
    pub closed spec fn arenas_ok(&self) -> bool {
        &&& self.order@.len() == self.spec_len()
        &&& self.gaps@.len() == self.spec_len()
    }

    /// Well-formedness of the partition and of every root's data.
    pub open spec fn wf(&self) -> bool {
        &&& parents_wf(self.parents())
        &&& self.arenas_ok()
        &&& forall|r: int|
            0 <= r < self.spec_len() && self.parents()[r] == r ==> self.cluster_ok(r)
    }

    /// A fresh partition of `[0, n)` into singleton clusters.
    pub fn new(n: usize) -> (r: UnionFindWithData)
        ensures
            r.wf(),
            r.spec_len() == n,
            forall|i: int| 0 <= i < n ==> root_of(r.parents(), i) == i,
            root_set(r.parents()).len() == n,
            arena_gaps(&r, n as int) == Multiset::<u64>::empty(),
    {
        let uf = UnionFind::new(n);
        let mut order: Vec<Vec<usize>> = Vec::new();
        let mut gaps: Vec<Vec<u64>> = Vec::new();
        let mut i: usize = 0;
        while i < n
            invariant
                i <= n,
                order@.len() == i,
                gaps@.len() == i,
                forall|t: int| 0 <= t < i ==> (#[trigger] order@[t])@ == seq![t as usize],
                forall|t: int| 0 <= t < i ==> (#[trigger] gaps@[t])@.len() == 0,
            decreases n - i,
        {
            let mut o: Vec<usize> = Vec::new();
            o.push(i);
            proof {
                assert(o@ =~= seq![i]);
            }
            order.push(o);
            gaps.push(Vec::new());
            proof {
                assert(order@[i as int]@ == seq![i]);
                assert(gaps@[i as int]@ =~= Seq::<u64>::empty());
            }
            i += 1;
        }
        let r = UnionFindWithData { uf, order, gaps };
        proof {
            assert forall|rr: int|
                0 <= rr < r.spec_len() && r.parents()[rr] == rr implies r.cluster_ok(rr) by {
                assert(r.spec_order(rr) == seq![rr as usize]);
                assert(r.spec_gaps(rr).len() == 0);
                assert(r.spec_order(rr)[0] == rr as usize);
                assert(root_of(r.parents(), rr) == rr);
                assert forall|x: int|
                    0 <= x < r.spec_len() && root_of(r.parents(), x) == rr implies r.spec_order(
                    rr,
                ).contains(x as usize) by {
                    assert(root_of(r.parents(), x) == x);
                    assert(r.spec_order(rr)[0] == x as usize);
                }
            }
            assert(forall|rr: int| 0 <= rr < n ==> (#[trigger] r.spec_gaps(rr)).len() == 0);
            lemma_arena_empty(&r, n as int);
        }
        r
    }

    /// Number of elements.
    pub fn len(&self) -> (r: usize)
        ensures
            r == self.spec_len(),
    {
        self.uf.len()
    }

    /// Representative of the cluster containing `x`.
    pub fn find(&self, x: usize) -> (r: usize)
        requires
            self.wf(),
            x < self.spec_len(),
        ensures
            r == root_of(self.parents(), x as int),
    {
        self.uf.find(x)
    }

    /// Merges the clusters of `u` and `v` with linkage weight `w`;
    /// `None` exactly when they already share a cluster, in which case
    /// nothing changes. On success the kept root owns the concatenated
    /// member orders with `w` as the gap at the junction.
    pub fn merge(&mut self, u: usize, v: usize, w: u64) -> (r: Option<usize>)
        requires
            old(self).wf(),
            u < old(self).spec_len(),
            v < old(self).spec_len(),
        ensures
            final(self).wf(),
            final(self).spec_len() == old(self).spec_len(),
            r is None <==> old(self).same(u as int, v as int),
            r is None ==> *final(self) == *old(self),
            ({
                let ru = root_of(old(self).parents(), u as int);
                let rv = root_of(old(self).parents(), v as int);
                let small = if ru <= rv {
                    ru
                } else {
                    rv
                };
                let big = if ru <= rv {
                    rv
                } else {
                    ru
                };
                r is Some ==> {
                    &&& r == Some(small as usize)
                    &&& forall|i: int|
                        0 <= i < old(self).spec_len() ==> root_of(final(self).parents(), i) == (
                        if root_of(old(self).parents(), i) == big {
                            small
                        } else {
                            root_of(old(self).parents(), i)
                        })
                    &&& root_set(final(self).parents()) == root_set(old(self).parents()).remove(
                        big,
                    )
                    &&& root_set(old(self).parents()).contains(big)
                    &&& final(self).spec_order(small) == old(self).spec_order(small) + old(
                        self,
                    ).spec_order(big)
                    &&& final(self).spec_gaps(small) == old(self).spec_gaps(small) + seq![w] + old(
                        self,
                    ).spec_gaps(big)
                    &&& arena_gaps(final(self), final(self).spec_len()) == arena_gaps(
                        old(self),
                        old(self).spec_len(),
                    ).insert(w)
                }
            }),
    {
        let ru = self.uf.find(u);
        let rv = self.uf.find(v);
        if ru == rv {
            return None;
        }
        let (small, big) = if ru <= rv {
            (ru, rv)
        } else {
            (rv, ru)
        };
        let ghost pre = *self;
        let merged = self.uf.merge(u, v);
        proof {
            assert(merged == Some(small));
        }
        let mut new_order = clone_ids(&self.order[small]);
        let ob = clone_ids(&self.order[big]);
        let mut t: usize = 0;
        while t < ob.len()
            invariant
                t <= ob@.len(),
                new_order@ == pre.spec_order(small as int) + ob@.take(t as int),
                ob@ == pre.spec_order(big as int),
            decreases ob@.len() - t,
        {
            new_order.push(ob[t]);
            proof {
                assert(new_order@ =~= pre.spec_order(small as int) + ob@.take(t + 1));
            }
            t += 1;
        }
        proof {
            assert(ob@.take(ob@.len() as int) =~= ob@);
        }
        let mut new_gaps = clone_weights(&self.gaps[small]);
        new_gaps.push(w);
        let gb = clone_weights(&self.gaps[big]);
        let mut t2: usize = 0;
        while t2 < gb.len()
            invariant
                t2 <= gb@.len(),
                new_gaps@ == pre.spec_gaps(small as int) + seq![w] + gb@.take(t2 as int),
                gb@ == pre.spec_gaps(big as int),
            decreases gb@.len() - t2,
        {
            new_gaps.push(gb[t2]);
            proof {
                assert(new_gaps@ =~= pre.spec_gaps(small as int) + seq![w] + gb@.take(t2 + 1));
            }
            t2 += 1;
        }
        proof {
            assert(new_gaps@ =~= pre.spec_gaps(small as int) + seq![w] + gb@);
            assert(gb@.take(gb@.len() as int) =~= gb@);
        }
        self.order.set(small, new_order);
        self.order.set(big, Vec::new());
        self.gaps.set(small, new_gaps);
        self.gaps.set(big, Vec::new());
        proof {
            self.lemma_merge_wf(pre, small as int, big as int, w);
            lemma_arena_merge(self, &pre, small as int, big as int, w, self.spec_len());
        }
        Some(small)
    }

    /// After linking `big` under `small` and concatenating their data,
    /// every root's data still lists exactly its cluster.
    proof fn lemma_merge_wf(&self, pre: UnionFindWithData, small: int, big: int, w: u64)
        requires
            pre.wf(),
            0 <= small < big < pre.spec_len(),
            pre.parents()[small] == small,
            pre.parents()[big] == big,
            self.spec_len() == pre.spec_len(),
            self.order@.len() == pre.spec_len(),
            self.gaps@.len() == pre.spec_len(),
            parents_wf(self.parents()),
            forall|i: int|
                0 <= i < pre.spec_len() ==> root_of(self.parents(), i) == (if root_of(
                    pre.parents(),
                    i,
                ) == big {
                    small
                } else {
                    root_of(pre.parents(), i)
                }),
            self.parents()[small] == small,
            forall|r: int|
                0 <= r < pre.spec_len() && r != small && r != big ==> self.parents()[r]
                    == pre.parents()[r],
            self.parents()[big] == small,
            self.spec_order(small) == pre.spec_order(small) + pre.spec_order(big),
            self.spec_gaps(small) == pre.spec_gaps(small) + seq![w] + pre.spec_gaps(big),
            forall|r: int|
                0 <= r < pre.spec_len() && r != small && r != big ==> self.spec_order(r)
                    == pre.spec_order(r) && self.spec_gaps(r) == pre.spec_gaps(r),
        ensures
            self.wf(),
    {
        assert forall|r: int|
            0 <= r < self.spec_len() && self.parents()[r] == r implies self.cluster_ok(r) by {
            assert(root_of(pre.parents(), r) == r);
            if r == small {
                let os = pre.spec_order(small);
                let ob = pre.spec_order(big);
                let cat = os + ob;
                assert(pre.cluster_ok(small));
                assert(pre.cluster_ok(big));
                assert forall|a: int, b: int|
                    0 <= a < cat.len() && 0 <= b < cat.len() && a != b implies cat[a] != cat[
                    b] by {
                    if a < os.len() && b < os.len() {
                        assert(os.no_duplicates());
                    } else if a >= os.len() && b >= os.len() {
                        assert(ob.no_duplicates());
                        assert(cat[a] == ob[a - os.len()]);
                        assert(cat[b] == ob[b - os.len()]);
                    } else {
                        let (ia, ib) = if a < os.len() {
                            (a, b)
                        } else {
                            (b, a)
                        };
                        assert(root_of(pre.parents(), cat[ia] as int) == small);
                        assert(root_of(pre.parents(), cat[ib] as int) == big);
                    }
                }
                assert(cat.no_duplicates());
                assert forall|t: int| 0 <= t < cat.len() implies (#[trigger] cat[t])
                    < self.spec_len() && root_of(self.parents(), cat[t] as int) == small by {
                    if t < os.len() {
                        assert(root_of(pre.parents(), cat[t] as int) == small);
                    } else {
                        assert(cat[t] == ob[t - os.len()]);
                        assert(root_of(pre.parents(), cat[t] as int) == big);
                    }
                }
                assert forall|x: int|
                    0 <= x < self.spec_len() && root_of(self.parents(), x) == small implies
                    cat.contains(x as usize) by {
                    if root_of(pre.parents(), x) == big {
                        assert(ob.contains(x as usize));
                        let ix = choose|ix: int| 0 <= ix < ob.len() && ob[ix] == x as usize;
                        assert(cat[os.len() + ix] == x as usize);
                    } else {
                        assert(root_of(pre.parents(), x) == small);
                        assert(os.contains(x as usize));
                        let ix = choose|ix: int| 0 <= ix < os.len() && os[ix] == x as usize;
                        assert(cat[ix] == x as usize);
                    }
                }
            } else {
                assert(r != big);
                assert(pre.cluster_ok(r));
                assert forall|x: int|
                    0 <= x < self.spec_len() && root_of(self.parents(), x) == r implies self
                    .spec_order(r).contains(x as usize) by {
                    assert(root_of(pre.parents(), x) == r);
                }
            }
        }
    }

    /// The member order owned by the root of `x`.
    pub fn iter_cluster(&self, x: usize) -> (r: &Vec<usize>)
        requires
            self.wf(),
            x < self.spec_len(),
            self.parents()[x as int] == x,
        ensures
            r@ == self.spec_order(x as int),
    {
        &self.order[x]
    }

    /// The gap weights owned by the root of `x`.
    pub fn iter_data(&self, x: usize) -> (r: &Vec<u64>)
        requires
            self.wf(),
            x < self.spec_len(),
            self.parents()[x as int] == x,
        ensures
            r@ == self.spec_gaps(x as int),
    {
        &self.gaps[x]
    }
}

/// The gap weights held by the roots among the first `k` elements, as
/// one multiset.
pub open spec fn arena_gaps(ufd: &UnionFindWithData, k: int) -> Multiset<u64>
    decreases k,
{
    if k <= 0 {
        Multiset::empty()
    } else if ufd.parents()[k - 1] == k - 1 {
        arena_gaps(ufd, k - 1).add(ufd.spec_gaps(k - 1).to_multiset())
    } else {
        arena_gaps(ufd, k - 1)
    }
}

/// While every gap list is empty, no root holds any weight.
proof fn lemma_arena_empty(ufd: &UnionFindWithData, k: int)
    requires
        forall|r: int| 0 <= r < k ==> (#[trigger] ufd.spec_gaps(r)).len() == 0,
    ensures
        arena_gaps(ufd, k) == Multiset::<u64>::empty(),
    decreases k,
{
    broadcast use vstd::multiset::group_multiset_axioms;
    broadcast use vstd::seq_lib::group_to_multiset_ensures;
    broadcast use vstd::multiset::lemma_multiset_empty_len;

    if k > 0 {
        lemma_arena_empty(ufd, k - 1);
        if ufd.parents()[k - 1] == k - 1 {
            assert(ufd.spec_gaps(k - 1).to_multiset().len() == 0);
            assert(ufd.spec_gaps(k - 1).to_multiset() =~= Multiset::<u64>::empty());
            assert(arena_gaps(ufd, k) =~= Multiset::<u64>::empty());
        }
    }
}

/// A merge moves the two clusters' gap weights to the kept root and adds
/// the junction weight: altogether the arena gains exactly that weight.
proof fn lemma_arena_merge(
    post: &UnionFindWithData,
    pre: &UnionFindWithData,
    small: int,
    big: int,
    w: u64,
    k: int,
)
    requires
        0 <= small < big < pre.spec_len(),
        pre.parents()[small] == small,
        pre.parents()[big] == big,
        post.spec_len() == pre.spec_len(),
        post.parents()[small] == small,
        post.parents()[big] == small,
        forall|r: int|
            0 <= r < pre.spec_len() && r != small && r != big ==> #[trigger] post.parents()[r]
                == pre.parents()[r],
        forall|r: int|
            0 <= r < pre.spec_len() && r != small && r != big ==> #[trigger] post.spec_gaps(r)
                == pre.spec_gaps(r),
        post.spec_gaps(small) == pre.spec_gaps(small) + seq![w] + pre.spec_gaps(big),
        0 <= k <= pre.spec_len(),
    ensures
        k <= small ==> arena_gaps(post, k) == arena_gaps(pre, k),
        small < k <= big ==> arena_gaps(post, k) == arena_gaps(pre, k).insert(w).add(
            pre.spec_gaps(big).to_multiset(),
        ),
        big < k ==> arena_gaps(post, k) == arena_gaps(pre, k).insert(w),
    decreases k,
{
    broadcast use vstd::multiset::group_multiset_axioms;
    broadcast use vstd::seq_lib::group_to_multiset_ensures;
    broadcast use vstd::seq_lib::lemma_multiset_commutative;

    if k > 0 {
        lemma_arena_merge(post, pre, small, big, w, k - 1);
        let ghost rest_pre = arena_gaps(pre, k - 1);
        let ghost rest_post = arena_gaps(post, k - 1);
        if k - 1 == small {
            let gs = pre.spec_gaps(small);
            let gb = pre.spec_gaps(big);
            lemma_multiset_commutative(gs + seq![w], gb);
            lemma_multiset_commutative(gs, seq![w]);
            assert(seq![w] =~= Seq::<u64>::empty().push(w));
            assert forall|a: u64| #[trigger]
                Seq::<u64>::empty().to_multiset().count(a) == 0 by {
                assert(!Seq::<u64>::empty().contains(a));
            }
            assert(Seq::<u64>::empty().to_multiset() =~= Multiset::<u64>::empty());
            assert(seq![w].to_multiset() =~= Multiset::<u64>::empty().insert(w));
            assert(post.spec_gaps(small).to_multiset() =~= gs.to_multiset().insert(w).add(
                gb.to_multiset(),
            ));
            assert(rest_post == rest_pre);
            assert(arena_gaps(post, k) =~= arena_gaps(pre, k).insert(w).add(gb.to_multiset()));
        } else if k - 1 == big {
            assert(post.parents()[big] != big);
            assert(arena_gaps(post, k) == rest_post);
            assert(arena_gaps(pre, k) == rest_pre.add(pre.spec_gaps(big).to_multiset()));
            assert(rest_post == rest_pre.insert(w).add(pre.spec_gaps(big).to_multiset()));
            assert(arena_gaps(post, k) =~= arena_gaps(pre, k).insert(w));
        } else {
            assert(post.parents()[k - 1] == pre.parents()[k - 1]);
            if pre.parents()[k - 1] == k - 1 {
                assert(post.spec_gaps(k - 1) == pre.spec_gaps(k - 1));
                if small < k - 1 {
                    if k - 1 <= big {
                        assert(arena_gaps(post, k) =~= arena_gaps(pre, k).insert(w).add(
                            pre.spec_gaps(big).to_multiset(),
                        ));
                    } else {
                        assert(arena_gaps(post, k) =~= arena_gaps(pre, k).insert(w));
                    }
                }
            } else {
                if small < k - 1 {
                    if k - 1 <= big {
                        assert(arena_gaps(post, k) =~= arena_gaps(pre, k).insert(w).add(
                            pre.spec_gaps(big).to_multiset(),
                        ));
                    } else {
                        assert(arena_gaps(post, k) =~= arena_gaps(pre, k).insert(w));
                    }
                }
            }
        }
    }
}

/// When one root remains, the arena is exactly that root's gap list.
pub proof fn lemma_arena_single(ufd: &UnionFindWithData, k: int, root: int)
    requires
        0 <= root < ufd.spec_len(),
        ufd.parents()[root as int] == root,
        forall|r: int| 0 <= r < ufd.spec_len() && r != root ==> ufd.parents()[r] != r,
        0 <= k <= ufd.spec_len(),
    ensures
        arena_gaps(ufd, k) == if root < k {
            ufd.spec_gaps(root).to_multiset()
        } else {
            Multiset::<u64>::empty()
        },
    decreases k,
{
    broadcast use vstd::multiset::group_multiset_axioms;

    if k > 0 {
        lemma_arena_single(ufd, k - 1, root);
        if k - 1 == root {
            assert(arena_gaps(ufd, k) =~= ufd.spec_gaps(root).to_multiset());
        }
    }
}

} // verus!
