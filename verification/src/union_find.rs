//! Union-find over the vertices `0..n`, with path compression.

use vstd::prelude::*;
use vstd::set_lib::set_int_range;

verus! {

/// Well-formedness of a parent forest: each parent is a vertex, and along
/// parent links the ghost rank strictly grows (so every walk reaches a root).
pub open spec fn forest_wf(parent: Seq<usize>, rank: Seq<nat>, bound: nat) -> bool {
    &&& rank.len() == parent.len()
    &&& forall|i: int| 0 <= i < parent.len() ==> (#[trigger] parent[i] as int) < parent.len()
    &&& forall|i: int| 0 <= i < parent.len() ==> #[trigger] rank[i] < bound
    &&& forall|i: int|
        0 <= i < parent.len() && #[trigger] parent[i] != i ==> rank[parent[i] as int] > rank[i]
}

/// The root reached from `i` by following parent links.
pub open spec fn root_in(parent: Seq<usize>, rank: Seq<nat>, bound: nat, i: int) -> int
    decreases bound - rank[i],
    when forest_wf(parent, rank, bound) && 0 <= i < parent.len()
{
    if parent[i] == i {
        i
    } else {
        root_in(parent, rank, bound, parent[i] as int)
    }
}

/// Facts about roots: a root is a vertex that is its own parent, reached from `i`
/// with a rank no smaller than `i`'s.
pub proof fn lemma_root(parent: Seq<usize>, rank: Seq<nat>, bound: nat, i: int)
    requires
        forest_wf(parent, rank, bound),
        0 <= i < parent.len(),
    ensures
        0 <= root_in(parent, rank, bound, i) < parent.len(),
        parent[root_in(parent, rank, bound, i)] == root_in(parent, rank, bound, i),
        root_in(parent, rank, bound, i) != i ==> rank[root_in(parent, rank, bound, i)] > rank[i],
        root_in(parent, rank, bound, root_in(parent, rank, bound, i)) == root_in(
            parent,
            rank,
            bound,
            i,
        ),
    decreases bound - rank[i],
{
    if parent[i] != i {
        lemma_root(parent, rank, bound, parent[i] as int);
    }
}

/// Pointing `x` straight at its root keeps the forest and all roots.
proof fn lemma_compress(parent: Seq<usize>, rank: Seq<nat>, bound: nat, x: int, y: int)
    requires
        forest_wf(parent, rank, bound),
        0 <= x < parent.len(),
        0 <= y < parent.len(),
    ensures
        forest_wf(
            parent.update(x, root_in(parent, rank, bound, x) as usize),
            rank,
            bound,
        ),
        root_in(parent.update(x, root_in(parent, rank, bound, x) as usize), rank, bound, y)
            == root_in(parent, rank, bound, y),
    decreases bound - rank[y],
{
    let r = root_in(parent, rank, bound, x);
    let p2 = parent.update(x, r as usize);
    lemma_root(parent, rank, bound, x);
    assert(forest_wf(p2, rank, bound)) by {
        assert forall|i: int| 0 <= i < p2.len() && #[trigger] p2[i] != i implies rank[p2[i] as int]
            > rank[i] by {
            if i == x {
                assert(r != x);
            }
        }
        assert forall|i: int| 0 <= i < p2.len() implies (#[trigger] p2[i] as int) < p2.len() by {
            if i == x {
            } else {
                assert((parent[i] as int) < parent.len());
            }
        }
    }
    lemma_root(parent, rank, bound, y);
    if y == x {
        if r != x {
            assert(p2[r] == r);
            assert(root_in(p2, rank, bound, r) == r);
        }
    } else if parent[y] != y {
        lemma_compress(parent, rank, bound, x, parent[y] as int);
    }
}

/// Linking root `ra` under root `rb`, with the rank of `rb` raised above `ra`'s.
pub open spec fn linked_rank(rank: Seq<nat>, ra: int, rb: int) -> Seq<nat> {
    rank.update(rb, if rank[rb] > rank[ra] { rank[rb] } else { rank[ra] + 1 })
}

proof fn lemma_link(parent: Seq<usize>, rank: Seq<nat>, bound: nat, ra: int, rb: int, y: int)
    requires
        forest_wf(parent, rank, bound),
        0 <= ra < parent.len(),
        0 <= rb < parent.len(),
        0 <= y < parent.len(),
        ra != rb,
        parent[ra] == ra,
        parent[rb] == rb,
    ensures
        forest_wf(parent.update(ra, rb as usize), linked_rank(rank, ra, rb), bound + 1),
        root_in(parent.update(ra, rb as usize), linked_rank(rank, ra, rb), bound + 1, y) == if root_in(
            parent,
            rank,
            bound,
            y,
        ) == ra {
            rb
        } else {
            root_in(parent, rank, bound, y)
        },
    decreases bound - rank[y],
{
    let p2 = parent.update(ra, rb as usize);
    let r2 = linked_rank(rank, ra, rb);
    assert(forest_wf(p2, r2, bound + 1)) by {
        assert forall|i: int| 0 <= i < p2.len() && #[trigger] p2[i] != i implies r2[p2[i] as int]
            > r2[i] by {
            if i == ra {
            } else {
                assert(parent[i] != i);
                assert(parent[i] != rb || r2[rb] >= rank[rb]);
            }
        }
        assert forall|i: int| 0 <= i < p2.len() implies (#[trigger] p2[i] as int) < p2.len() by {
            if i != ra {
                assert((parent[i] as int) < parent.len());
            }
        }
        assert forall|i: int| 0 <= i < p2.len() implies #[trigger] r2[i] < bound + 1 by {
            assert(rank[i] < bound);
            assert(rank[ra] < bound);
        }
    }
    if parent[y] == y {
        if y == ra {
            assert(p2[rb] == rb);
            assert(root_in(p2, r2, bound + 1, rb) == rb);
        }
    } else {
        lemma_link(parent, rank, bound, ra, rb, parent[y] as int);
    }
}

/// A union-find structure over the vertices `0..n`.
pub struct UnionFind {
    parent: Vec<usize>,
    rank: Ghost<Seq<nat>>,
    bound: Ghost<nat>,
}

impl UnionFind {
    /// The structure is a well-formed forest.
    pub closed spec fn wf(&self) -> bool {
        forest_wf(self.parent@, self.rank@, self.bound@)
    }

    /// How far `i` may be from its representative, as a bound.
    pub closed spec fn height(&self, i: int) -> int {
        self.bound@ - self.rank@[i]
    }

    /// The two structures have the same ghost ranks.
    pub closed spec fn same_ranks(&self, other: &UnionFind) -> bool {
        self.rank@ == other.rank@ && self.bound@ == other.bound@
    }

    /// Number of vertices.
    pub closed spec fn size(&self) -> nat {
        self.parent@.len()
    }

    /// The representative of the class of `i`.
    pub closed spec fn root(&self, i: int) -> int {
        root_in(self.parent@, self.rank@, self.bound@, i)
    }

    /// Facts about representatives.
    pub proof fn lemma_root_facts(&self, i: int)
        requires
            self.wf(),
            0 <= i < self.size(),
        ensures
            0 <= self.root(i) < self.size(),
            self.root(self.root(i)) == self.root(i),
    {
        lemma_root(self.parent@, self.rank@, self.bound@, i);
    }

    /// Each of the vertices `0..n` alone in its class.
    pub fn new(n: usize) -> (uf: UnionFind)
        ensures
            uf.wf(),
            uf.size() == n,
            forall|i: int| 0 <= i < n ==> #[trigger] uf.root(i) == i,
    {
        let mut parent: Vec<usize> = Vec::new();
        let mut i: usize = 0;
        while i < n
            invariant
                i <= n,
                parent@.len() == i,
                forall|j: int| 0 <= j < i ==> #[trigger] parent@[j] == j,
            decreases n - i,
        {
            parent.push(i);
            i += 1;
        }
        let uf = UnionFind {
            parent,
            rank: Ghost(Seq::new(n as nat, |j: int| 0nat)),
            bound: Ghost(1nat),
        };
        assert forall|j: int| 0 <= j < n implies #[trigger] uf.root(j) == j by {
            assert(uf.parent@[j] == j);
        }
        uf
    }

    /// The representative of `x`; compresses the path from `x` to it.
    pub fn find(&mut self, x: usize) -> (r: usize)
        requires
            old(self).wf(),
            x < old(self).size(),
        ensures
            final(self).wf(),
            final(self).size() == old(self).size(),
            final(self).same_ranks(old(self)),
            r == old(self).root(x as int),
            forall|y: int| 0 <= y < old(self).size() ==> #[trigger] final(self).root(y) == old(self).root(y),
        decreases old(self).height(x as int),
    {
        proof {
            lemma_root(self.parent@, self.rank@, self.bound@, x as int);
        }
        let p = self.parent[x];
        if p != x {
            let ghost before = *self;
            let r = self.find(p);
            let ghost mid = *self;
            proof {
                assert(mid.root(x as int) == before.root(x as int));
                assert(before.root(x as int) == before.root(p as int));
                lemma_root(mid.parent@, mid.rank@, mid.bound@, x as int);
            }
            self.parent.set(x, r);
            proof {
                assert forall|y: int| 0 <= y < old(self).size() implies #[trigger] self.root(y)
                    == old(self).root(y) by {
                    lemma_compress(mid.parent@, mid.rank@, mid.bound@, x as int, y);
                    assert(mid.root(y) == before.root(y));
                }
                lemma_compress(mid.parent@, mid.rank@, mid.bound@, x as int, x as int);
            }
            r
        } else {
            x
        }
    }

    /// Merges the classes of `a` and `b`: the representatives of the class of `a`
    /// become that of `b`.
    pub fn union(&mut self, a: usize, b: usize)
        requires
            old(self).wf(),
            a < old(self).size(),
            b < old(self).size(),
        ensures
            final(self).wf(),
            final(self).size() == old(self).size(),
            forall|y: int|
                0 <= y < old(self).size() ==> #[trigger] final(self).root(y) == if old(self).root(y)
                    == old(self).root(a as int) {
                    old(self).root(b as int)
                } else {
                    old(self).root(y)
                },
    {
        let ghost s0 = *self;
        let ra = self.find(a);
        let ghost s1 = *self;
        let rb = self.find(b);
        let ghost s2 = *self;
        proof {
            assert forall|y: int| 0 <= y < s0.size() implies #[trigger] s2.root(y) == s0.root(y) by {
                assert(s2.root(y) == s1.root(y));
            }
            assert(ra == s0.root(a as int));
            assert(rb == s0.root(b as int)) by {
                assert(s1.root(b as int) == s0.root(b as int));
            }
        }
        if ra != rb {
            proof {
                lemma_root(self.parent@, self.rank@, self.bound@, a as int);
                lemma_root(self.parent@, self.rank@, self.bound@, b as int);
                assert(self.root(a as int) == ra);
                assert(self.root(b as int) == rb);
                lemma_link(self.parent@, self.rank@, self.bound@, ra as int, rb as int, 0);
            }
            self.parent.set(ra, rb);
            self.rank = Ghost(linked_rank(s2.rank@, ra as int, rb as int));
            self.bound = Ghost(s2.bound@ + 1);
            proof {
                assert(self.parent@ == s2.parent@.update(ra as int, rb));
                assert forall|y: int| 0 <= y < s0.size() implies #[trigger] self.root(y) == if s0.root(y)
                    == s0.root(a as int) {
                    s0.root(b as int)
                } else {
                    s0.root(y)
                } by {
                    lemma_link(s2.parent@, s2.rank@, s2.bound@, ra as int, rb as int, y);
                    assert(s2.root(y) == s0.root(y));
                }
            }
        } else {
            proof {
                assert forall|y: int| 0 <= y < s0.size() implies #[trigger] self.root(y) == if s0.root(y)
                    == s0.root(a as int) {
                    s0.root(b as int)
                } else {
                    s0.root(y)
                } by {
                    assert(s2.root(y) == s0.root(y));
                }
            }
        }
    }
}

/// A vertex of the domain is a leader under `r` when no smaller vertex of the
/// domain has its representative.
pub open spec fn is_leader(r: spec_fn(int) -> int, dom: spec_fn(int) -> bool, v: int) -> bool {
    forall|u: int| 0 <= u < v && dom(u) ==> #[trigger] r(u) != r(v)
}

/// The vertices of the domain below `n` that are their own representative.
pub open spec fn fixed_points(r: spec_fn(int) -> int, dom: spec_fn(int) -> bool, n: nat) -> Set<int> {
    set_int_range(0, n as int).filter(|i: int| dom(i) && r(i) == i)
}

/// The vertices of the domain below `n` that lead their class.
pub open spec fn leaders(r: spec_fn(int) -> int, dom: spec_fn(int) -> bool, n: nat) -> Set<int> {
    set_int_range(0, n as int).filter(|v: int| dom(v) && is_leader(r, dom, v))
}

proof fn lemma_leader_below(r: spec_fn(int) -> int, dom: spec_fn(int) -> bool, v: int)
    requires
        0 <= v,
        dom(v),
    ensures
        exists|w: int| 0 <= w <= v && dom(w) && r(w) == r(v) && is_leader(r, dom, w),
    decreases v,
{
    if !is_leader(r, dom, v) {
        let u = choose|u: int| 0 <= u < v && dom(u) && #[trigger] r(u) == r(v);
        lemma_leader_below(r, dom, u);
        let w = choose|w: int| 0 <= w <= u && dom(w) && r(w) == r(u) && is_leader(r, dom, w);
        assert(0 <= w <= v && dom(w) && r(w) == r(v) && is_leader(r, dom, w));
    } else {
        assert(0 <= v <= v && dom(v) && r(v) == r(v) && is_leader(r, dom, v));
    }
}

/// For an idempotent representative map on a domain within `0..n`, there are as
/// many representatives as classes (each counted by its smallest member).
pub proof fn lemma_count_classes(r: spec_fn(int) -> int, dom: spec_fn(int) -> bool, n: nat)
    requires
        forall|i: int| 0 <= i < n && dom(i) ==> 0 <= #[trigger] r(i) < n,
        forall|i: int| 0 <= i < n && dom(i) ==> dom(#[trigger] r(i)),
        forall|i: int| 0 <= i < n && dom(i) ==> r(#[trigger] r(i)) == r(i),
    ensures
        fixed_points(r, dom, n).len() == leaders(r, dom, n).len(),
        fixed_points(r, dom, n).finite(),
{
    let l = leaders(r, dom, n);
    let f = fixed_points(r, dom, n);
    vstd::set_lib::lemma_int_range(0, n as int);
    assert(l.finite());
    assert(vstd::relations::injective_on(r, l)) by {
        assert forall|x: int, y: int| l.contains(x) && l.contains(y) && #[trigger] r(x) == #[trigger] r(y)
            implies x == y by {
            if x < y {
                assert(!is_leader(r, dom, y));
            } else if y < x {
                assert(!is_leader(r, dom, x));
            }
        }
    }
    assert(l.map(r) =~= f) by {
        assert forall|i: int| f.contains(i) implies l.map(r).contains(i) by {
            lemma_leader_below(r, dom, i);
            let w = choose|w: int| 0 <= w <= i && dom(w) && r(w) == r(i) && is_leader(r, dom, w);
            assert(l.contains(w));
        }
        assert forall|i: int| l.map(r).contains(i) implies f.contains(i) by {
            let w = choose|w: int| l.contains(w) && r(w) == i;
            assert(r(r(w)) == r(w));
        }
    }
    vstd::set_lib::lemma_map_size(l, f, r);
}

} // verus!
