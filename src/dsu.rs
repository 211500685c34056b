//! Disjoint sets over cell ids, with path compression and size-based merging.

use vstd::prelude::*;

verus! {

/// Sum of a sequence of integers.
pub open spec fn total(s: Seq<int>) -> int
    decreases s.len(),
{
    if s.len() == 0 {
        0
    } else {
        total(s.drop_last()) + s.last()
    }
}

/// The size recorded for each root; zero for the other elements.
pub open spec fn root_sizes(parent: Seq<usize>, size: Seq<usize>) -> Seq<int> {
    Seq::new(parent.len(), |i: int| if parent[i] == i { size[i] as int } else { 0 })
}

/// `s` with every occurrence of `from` replaced by `to`.
pub open spec fn relabel(s: Seq<int>, from: int, to: int) -> Seq<int> {
    Seq::new(s.len(), |i: int| if s[i] == from { to } else { s[i] })
}

/// After merging the sets of `a` and `b` (given by representatives `s`),
/// whether `x` and `y` share a set.
pub open spec fn merged_same(s: Seq<int>, a: int, b: int, x: int, y: int) -> bool {
    s[x] == s[y] || ((s[x] == s[a] || s[x] == s[b]) && (s[y] == s[a] || s[y] == s[b]))
}

/// Relabelling one representative as another merges exactly those two sets.
pub proof fn lemma_relabel_same(s: Seq<int>, from: int, to: int, x: int, y: int)
    requires
        0 <= x < s.len(),
        0 <= y < s.len(),
    ensures
        (relabel(s, from, to)[x] == relabel(s, from, to)[y]) <==> (s[x] == s[y] || ((s[x] == from
            || s[x] == to) && (s[y] == from || s[y] == to))),
{
}

proof fn lemma_total_update(s: Seq<int>, j: int, v: int)
    requires
        0 <= j < s.len(),
    ensures
        total(s.update(j, v)) == total(s) - s[j] + v,
    decreases s.len(),
{
    let t = s.update(j, v);
    if j == s.len() - 1 {
        assert(t.drop_last() =~= s.drop_last());
    } else {
        lemma_total_update(s.drop_last(), j, v);
        assert(t.drop_last() =~= s.drop_last().update(j, v));
    }
}

proof fn lemma_total_ones(k: nat)
    ensures
        total(Seq::new(k, |i: int| 1int)) == k,
    decreases k,
{
    if k > 0 {
        lemma_total_ones((k - 1) as nat);
        assert(Seq::new(k, |i: int| 1int).drop_last() =~= Seq::new((k - 1) as nat, |i: int| 1int));
    }
}

proof fn lemma_total_two(s: Seq<int>, a: int, b: int)
    requires
        0 <= a < s.len(),
        0 <= b < s.len(),
        a != b,
        forall|i: int| 0 <= i < s.len() ==> s[i] >= 0,
    ensures
        s[a] + s[b] <= total(s),
    decreases s.len(),
{
    lemma_total_nonneg(s.drop_last());
    let l = s.len() - 1;
    if a == l {
        lemma_total_one(s.drop_last(), b);
    } else if b == l {
        lemma_total_one(s.drop_last(), a);
    } else {
        lemma_total_two(s.drop_last(), a, b);
    }
}

proof fn lemma_total_one(s: Seq<int>, a: int)
    requires
        0 <= a < s.len(),
        forall|i: int| 0 <= i < s.len() ==> s[i] >= 0,
    ensures
        s[a] <= total(s),
    decreases s.len(),
{
    lemma_total_nonneg(s.drop_last());
    if a < s.len() - 1 {
        lemma_total_one(s.drop_last(), a);
    }
}

proof fn lemma_total_nonneg(s: Seq<int>)
    requires
        forall|i: int| 0 <= i < s.len() ==> s[i] >= 0,
    ensures
        total(s) >= 0,
    decreases s.len(),
{
    if s.len() > 0 {
        lemma_total_nonneg(s.drop_last());
    }
}

/// Each parent link stays in range and keeps the recorded representative;
/// representatives are roots; depth falls along each link and toward the root.
pub open spec fn links_ok(parent: Seq<usize>, rep: Seq<int>, depth: Seq<nat>) -> bool {
    let n = parent.len();
    &&& rep.len() == n
    &&& depth.len() == n
    &&& forall|i: int|
        #![trigger parent[i]]
        0 <= i < n ==> {
            &&& parent[i] < n
            &&& 0 <= rep[i] < n
            &&& parent[rep[i]] == rep[i]
            &&& rep[parent[i] as int] == rep[i]
            &&& (parent[i] == i ==> rep[i] == i)
            &&& (parent[i] != i ==> depth[parent[i] as int] < depth[i])
            &&& (parent[i] != i ==> depth[rep[i]] < depth[i])
        }
}

/// Union-find over the elements `0..n`.
///
/// Its view gives, for each element, the representative of its set: two
/// elements are in one set exactly when their representatives are equal.
pub struct UnionFind {
    parent: Vec<usize>,
    size: Vec<usize>,
    rep: Ghost<Seq<int>>,
    depth: Ghost<Seq<nat>>,
}

impl View for UnionFind {
    type V = Seq<int>;

    closed spec fn view(&self) -> Seq<int> {
        self.rep@
    }
}

impl UnionFind {
    /// The internal invariant: parents stay in range and lead to the recorded
    /// representative, depths fall along parent links, and the sizes of the
    /// roots add up to the number of elements.
    pub closed spec fn wf(&self) -> bool {
        let n = self.parent@.len();
        &&& self.size@.len() == n
        &&& links_ok(self.parent@, self.rep@, self.depth@)
        &&& total(root_sizes(self.parent@, self.size@)) == n
    }

    /// Whether `a` and `b` are in one set.
    pub open spec fn same_spec(&self, a: int, b: int) -> bool {
        self@[a] == self@[b]
    }

    /// `n` singleton sets.
    pub fn new(n: usize) -> (r: UnionFind)
        ensures
            r.wf(),
            r@ == Seq::new(n as nat, |i: int| i),
    {
        let mut parent: Vec<usize> = Vec::new();
        let mut size: Vec<usize> = Vec::new();
        let mut i: usize = 0;
        while i < n
            invariant
                i <= n,
                parent@.len() == i,
                size@.len() == i,
                forall|j: int| 0 <= j < i ==> parent@[j] == j && size@[j] == 1,
            decreases n - i,
        {
            parent.push(i);
            size.push(1);
            i = i + 1;
        }
        proof {
            lemma_total_ones(n as nat);
            assert(root_sizes(parent@, size@) =~= Seq::new(n as nat, |i: int| 1int));
        }
        UnionFind {
            parent,
            size,
            rep: Ghost(Seq::new(n as nat, |i: int| i)),
            depth: Ghost(Seq::new(n as nat, |i: int| 0nat)),
        }
    }

    /// Number of elements.
    pub fn len(&self) -> (r: usize)
        requires
            self.wf(),
        ensures
            r == self@.len(),
    {
        self.parent.len()
    }

    /// The representative of the set that holds `x`; shortens the path from
    /// `x` to it on the way.
    pub fn find(&mut self, x: usize) -> (r: usize)
        requires
            old(self).wf(),
            x < old(self)@.len(),
        ensures
            final(self).wf(),
            final(self)@ == old(self)@,
            r == old(self)@[x as int],
            r < old(self)@.len(),
    {
        let mut root = x;
        while self.parent[root] != root
            invariant
                self.wf(),
                root < self@.len(),
                self@[root as int] == self@[x as int],
            decreases self.depth@[root as int],
        {
            root = self.parent[root];
        }
        let mut c = x;
        while c != root
            invariant
                self.wf(),
                self@ == old(self)@,
                c < self@.len(),
                root < self@.len(),
                self@[c as int] == root,
                self@[x as int] == root,
                self.parent@[root as int] == root,
            decreases self.depth@[c as int],
        {
            let next = self.parent[c];
            proof {
                assert(self.parent@[c as int] != c);
            }
            let ghost before = self.parent@;
            assert(links_ok(before, self.rep@, self.depth@));
            self.parent.set(c, root);
            proof {
                assert(root_sizes(self.parent@, self.size@) =~= root_sizes(before, self.size@));
                assert forall|i: int| #![trigger self.parent@[i]] 0 <= i < self.parent@.len() implies {
                    &&& self.parent@[i] < self.parent@.len()
                    &&& self.parent@[self.rep@[i]] == self.rep@[i]
                    &&& self.rep@[self.parent@[i] as int] == self.rep@[i]
                    &&& (self.parent@[i] == i ==> self.rep@[i] == i)
                    &&& (self.parent@[i] != i ==> self.depth@[self.parent@[i] as int] < self.depth@[i])
                } by {
                    assert(before[i] < self.parent@.len());
                    assert(before[self.rep@[i]] < self.parent@.len());
                }
            }
            c = next;
        }
        root
    }

    /// Whether `a` and `b` are in one set.
    pub fn same(&mut self, a: usize, b: usize) -> (r: bool)
        requires
            old(self).wf(),
            a < old(self)@.len(),
            b < old(self)@.len(),
        ensures
            final(self).wf(),
            final(self)@ == old(self)@,
            r == old(self).same_spec(a as int, b as int),
    {
        let ra = self.find(a);
        let rb = self.find(b);
        ra == rb
    }

    /// Merges the sets that hold `a` and `b`: the root of the smaller set is
    /// put under the root of the larger. Returns whether they were apart.
    pub fn union(&mut self, a: usize, b: usize) -> (r: bool)
        requires
            old(self).wf(),
            a < old(self)@.len(),
            b < old(self)@.len(),
        ensures
            final(self).wf(),
            r == !old(self).same_spec(a as int, b as int),
            final(self)@ == relabel(old(self)@, old(self)@[a as int], old(self)@[b as int])
                || final(self)@ == relabel(old(self)@, old(self)@[b as int], old(self)@[a as int]),
            forall|x: int, y: int|
                #![trigger final(self)@[x], final(self)@[y]]
                0 <= x < old(self)@.len() && 0 <= y < old(self)@.len() ==> (final(self)@[x]
                    == final(self)@[y] <==> merged_same(old(self)@, a as int, b as int, x, y)),
    {
        let r = self.union_roots(a, b);
        proof {
            let s = old(self)@;
            assert forall|x: int, y: int|
                0 <= x < s.len() && 0 <= y < s.len() implies (#[trigger] self@[x] == #[trigger] self@[y]
                <==> merged_same(s, a as int, b as int, x, y)) by {
                if self@ == relabel(s, s[a as int], s[b as int]) {
                    lemma_relabel_same(s, s[a as int], s[b as int], x, y);
                } else {
                    lemma_relabel_same(s, s[b as int], s[a as int], x, y);
                }
            }
        }
        r
    }

    fn union_roots(&mut self, a: usize, b: usize) -> (r: bool)
        requires
            old(self).wf(),
            a < old(self)@.len(),
            b < old(self)@.len(),
        ensures
            final(self).wf(),
            r == !old(self).same_spec(a as int, b as int),
            final(self)@ == relabel(old(self)@, old(self)@[a as int], old(self)@[b as int])
                || final(self)@ == relabel(old(self)@, old(self)@[b as int], old(self)@[a as int]),
    {
        let ra = self.find(a);
        let rb = self.find(b);
        if ra == rb {
            assert(self@ =~= relabel(self@, ra as int, rb as int));
            return false;
        }
        let (child, root) = if self.size[ra] < self.size[rb] {
            (ra, rb)
        } else {
            (rb, ra)
        };
        let ghost old_parent = self.parent@;
        let ghost old_size = self.size@;
        let ghost old_rep = self.rep@;
        let ghost old_depth = self.depth@;
        let ghost n = self.parent@.len();
        let len = self.parent.len();
        proof {
            assert(links_ok(old_parent, old_rep, old_depth));
            assert(self.parent@[a as int] < n);
            assert(self.parent@[b as int] < n);
            assert(self.parent@[self.rep@[a as int]] == self.rep@[a as int]);
            assert(self.parent@[self.rep@[b as int]] == self.rep@[b as int]);
            assert(old_parent[child as int] == child);
            assert(old_parent[root as int] == root);
            let rs = root_sizes(old_parent, old_size);
            assert forall|i: int| 0 <= i < rs.len() implies rs[i] >= 0 by {}
            lemma_total_two(rs, child as int, root as int);
            assert(rs[child as int] == old_size[child as int]);
            assert(rs[root as int] == old_size[root as int]);
            assert(n == len);
        }
        let merged = self.size[child] + self.size[root];
        self.size.set(root, merged);
        self.parent.set(child, root);
        let ghost shift = old_depth[root as int] + 1;
        self.rep = Ghost(relabel(old_rep, child as int, root as int));
        self.depth = Ghost(
            Seq::new(n, |i: int| if old_rep[i] == child { old_depth[i] + shift } else { old_depth[i] }),
        );
        proof {
            let rs = root_sizes(old_parent, old_size);
            lemma_total_update(rs, root as int, merged as int);
            lemma_total_update(rs.update(root as int, merged as int), child as int, 0);
            assert(root_sizes(self.parent@, self.size@) =~= rs.update(root as int, merged as int).update(
                child as int,
                0,
            ));
            assert forall|i: int| #![trigger self.parent@[i]] 0 <= i < n implies {
                &&& self.parent@[i] < n
                &&& 0 <= self.rep@[i] < n
                &&& self.parent@[self.rep@[i]] == self.rep@[i]
                &&& self.rep@[self.parent@[i] as int] == self.rep@[i]
                &&& (self.parent@[i] == i ==> self.rep@[i] == i)
                &&& (self.parent@[i] != i ==> self.depth@[self.parent@[i] as int]
                    < self.depth@[i])
                &&& (self.parent@[i] != i ==> self.depth@[self.rep@[i]] < self.depth@[i])
            } by {
                assert(old_parent[i] < n);
                assert(old_parent[old_rep[i]] < n);
            }
        }
        true
    }
}

} // verus!
