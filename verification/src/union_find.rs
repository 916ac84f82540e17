//! A disjoint-set (union-find) structure over the vertices `0 .. n`, with
//! union by rank and path compression.
//!
//! The abstraction is the function [`UnionFind::root_of`], mapping every
//! vertex to the canonical representative of its set.  `find` returns it
//! without changing it for any vertex (compression moves pointers, never
//! representatives), `union` merges exactly the two sets of its arguments,
//! and the number of disjoint sets is tracked exactly.

use vstd::prelude::*;
use vstd::set_lib::lemma_int_range;
use vstd::set_lib::lemma_len_subset;
use vstd::set_lib::set_int_range;

verus! {

/// Walks parent pointers from `v` for at most `fuel` steps.  With a well
/// formed forest and enough fuel this reaches the fixpoint: the root.
pub closed spec fn walk(r: Seq<usize>, v: int, fuel: nat) -> int
    decreases fuel,
{
    if r[v] as int == v || fuel == 0 {
        v
    } else {
        walk(r, r[v] as int, (fuel - 1) as nat)
    }
}

/// The canonical representative of `v` in the parent forest `r`.
pub closed spec fn root_of_seq(r: Seq<usize>, v: int) -> int {
    walk(r, v, r.len())
}

/// The vertices that are their own parent.
pub open spec fn roots_of(r: Seq<usize>) -> Set<int> {
    Set::new(|v: int| 0 <= v < r.len() && r[v] as int == v)
}

/// A well formed parent forest: parents are in range, ranks strictly
/// increase along parent pointers, and every rank is below the vertex count.
pub open spec fn wf_forest(r: Seq<usize>, k: Seq<usize>) -> bool {
    &&& k.len() == r.len()
    &&& forall|v: int| 0 <= v < r.len() ==> (#[trigger] r[v]) < r.len()
    &&& forall|v: int|
        0 <= v < r.len() && (#[trigger] r[v]) as int != v ==> k[r[v] as int] > k[v]
    &&& forall|v: int| 0 <= v < r.len() ==> (#[trigger] k[v]) < r.len()
}

/// With enough fuel relative to the start vertex's rank, the walk reaches a
/// root, that root does not depend on the exact fuel, and its rank is no
/// smaller than the start's — strictly greater unless the start is a root.
proof fn lemma_walk_props(r: Seq<usize>, k: Seq<usize>, v: int, fuel: nat)
    requires
        wf_forest(r, k),
        0 <= v < r.len(),
        fuel + k[v] >= r.len(),
    ensures
        0 <= walk(r, v, fuel) < r.len(),
        r[walk(r, v, fuel)] as int == walk(r, v, fuel),
        k[walk(r, v, fuel)] >= k[v],
        r[v] as int != v ==> k[walk(r, v, fuel)] > k[v],
        walk(r, v, fuel) == root_of_seq(r, v),
    decreases r.len() - k[v],
{
    if r[v] as int != v {
        let parent = r[v] as int;
        lemma_walk_props(r, k, parent, (fuel - 1) as nat);
        lemma_walk_props(r, k, parent, (r.len() - 1) as nat);
    }
}

/// One step along a parent pointer does not change the representative.
proof fn lemma_walk_step(r: Seq<usize>, k: Seq<usize>, v: int)
    requires
        wf_forest(r, k),
        0 <= v < r.len(),
        r[v] as int != v,
    ensures
        root_of_seq(r, v) == root_of_seq(r, r[v] as int),
{
    lemma_walk_props(r, k, v, r.len());
    lemma_walk_props(r, k, r[v] as int, (r.len() - 1) as nat);
}

/// Path compression: pointing `v` straight at its representative keeps the
/// forest well formed, keeps every vertex's representative, and keeps the
/// set of roots.
proof fn lemma_compress(r: Seq<usize>, k: Seq<usize>, v: int, rt: int)
    requires
        wf_forest(r, k),
        0 <= v < r.len(),
        r[v] as int != v,
        rt == root_of_seq(r, v),
    ensures
        wf_forest(r.update(v, rt as usize), k),
        forall|a: int|
            0 <= a < r.len() ==> root_of_seq(r.update(v, rt as usize), a) == root_of_seq(r, a),
        roots_of(r.update(v, rt as usize)) == roots_of(r),
{
    let r2 = r.update(v, rt as usize);
    lemma_walk_props(r, k, v, r.len());
    assert(k[rt] > k[v]);
    assert(wf_forest(r2, k));
    assert forall|a: int| 0 <= a < r.len() implies root_of_seq(r2, a) == root_of_seq(r, a) by {
        lemma_compress_walk(r, k, v, rt, a, r2.len());
        lemma_walk_props(r2, k, a, r2.len());
    }
    assert(roots_of(r2) =~= roots_of(r));
}

/// The inductive core of [`lemma_compress`]: a walk in the compressed
/// forest lands on the original representative.
proof fn lemma_compress_walk(r: Seq<usize>, k: Seq<usize>, v: int, rt: int, a: int, fuel: nat)
    requires
        wf_forest(r, k),
        0 <= v < r.len(),
        r[v] as int != v,
        rt == root_of_seq(r, v),
        0 <= a < r.len(),
        fuel + k[a] >= r.len(),
    ensures
        walk(r.update(v, rt as usize), a, fuel) == root_of_seq(r, a),
    decreases fuel,
{
    let r2 = r.update(v, rt as usize);
    lemma_walk_props(r, k, v, r.len());
    if r2[a] as int == a {
        assert(r[a] as int == a);
        lemma_walk_props(r, k, a, r.len());
    } else if a == v {
        assert(r2[a] as int == rt);
        assert(r[rt] as int == rt);
        assert(walk(r2, rt, (fuel - 1) as nat) == rt);
    } else {
        let parent = r[a] as int;
        assert(r2[a] == r[a]);
        lemma_compress_walk(r, k, v, rt, parent, (fuel - 1) as nat);
        lemma_walk_step(r, k, a);
    }
}

/// Linking root `r2v` under root `r1v` (with possibly adjusted ranks `k2`
/// that keep the forest well formed) redirects exactly the vertices of
/// `r2v`'s set to `r1v`, and removes `r2v` from the roots.
proof fn lemma_link(r: Seq<usize>, k: Seq<usize>, k2: Seq<usize>, r1v: int, r2v: int)
    requires
        wf_forest(r, k),
        wf_forest(r.update(r2v, r1v as usize), k2),
        0 <= r1v < r.len(),
        0 <= r2v < r.len(),
        r1v != r2v,
        r[r1v] as int == r1v,
        r[r2v] as int == r2v,
    ensures
        forall|a: int|
            0 <= a < r.len() ==> root_of_seq(r.update(r2v, r1v as usize), a) == (
            if root_of_seq(r, a) == r2v {
                r1v
            } else {
                root_of_seq(r, a)
            }),
        roots_of(r.update(r2v, r1v as usize)) == roots_of(r).remove(r2v),
{
    let rl = r.update(r2v, r1v as usize);
    assert forall|a: int| 0 <= a < r.len() implies root_of_seq(rl, a) == (
    if root_of_seq(r, a) == r2v {
        r1v
    } else {
        root_of_seq(r, a)
    }) by {
        lemma_link_walk(r, k, k2, r1v, r2v, a, rl.len());
        lemma_walk_props(rl, k2, a, rl.len());
    }
    assert(roots_of(rl) =~= roots_of(r).remove(r2v));
}

/// The inductive core of [`lemma_link`].
proof fn lemma_link_walk(r: Seq<usize>, k: Seq<usize>, k2: Seq<usize>, r1v: int, r2v: int, a: int, fuel: nat)
    requires
        wf_forest(r, k),
        wf_forest(r.update(r2v, r1v as usize), k2),
        0 <= r1v < r.len(),
        0 <= r2v < r.len(),
        r1v != r2v,
        r[r1v] as int == r1v,
        r[r2v] as int == r2v,
        0 <= a < r.len(),
        fuel + k2[a] >= r.len(),
    ensures
        walk(r.update(r2v, r1v as usize), a, fuel) == (if root_of_seq(r, a) == r2v {
            r1v
        } else {
            root_of_seq(r, a)
        }),
    decreases fuel,
{
    let rl = r.update(r2v, r1v as usize);
    if rl[a] as int == a {
        assert(a != r2v);
        assert(r[a] as int == a);
        lemma_walk_props(r, k, a, r.len());
    } else if a == r2v {
        assert(rl[a] as int == r1v);
        assert(rl[r1v] as int == r1v);
        assert(k2[a] < r.len());
        assert(fuel >= 1);
        assert(walk(rl, r1v, (fuel - 1) as nat) == r1v);
        assert(walk(rl, a, fuel) == walk(rl, r1v, (fuel - 1) as nat));
        lemma_walk_props(r, k, a, r.len());
        assert(root_of_seq(r, r2v) == r2v);
    } else {
        let parent = r[a] as int;
        assert(rl[a] == r[a]);
        lemma_link_walk(r, k, k2, r1v, r2v, parent, (fuel - 1) as nat);
        lemma_walk_step(r, k, a);
    }
}

/// The set of roots is a finite subset of the vertex range.
proof fn lemma_roots_finite(r: Seq<usize>)
    ensures
        roots_of(r).finite(),
        roots_of(r).len() <= r.len(),
{
    lemma_int_range(0, r.len() as int);
    lemma_len_subset(roots_of(r), set_int_range(0, r.len() as int));
}

/// A disjoint-set structure over the vertices `0 .. n`, where `n` is fixed
/// at construction.  No error handling: every public operation requires its
/// vertices to be in range.
pub struct UnionFind {
    root: Vec<usize>,
    rank: Vec<usize>,
    nf_disjoint_sets: usize,
}

impl UnionFind {
    /// The number of vertices.
    pub closed spec fn n(self) -> nat {
        self.root@.len()
    }

    /// The internal invariant: a well formed rank forest whose count of
    /// disjoint sets matches the number of roots, every rank leaving room
    /// for the remaining sets.
    pub closed spec fn wf(self) -> bool {
        &&& wf_forest(self.root@, self.rank@)
        &&& self.nf_disjoint_sets == roots_of(self.root@).len()
        &&& forall|v: int|
            0 <= v < self.n() ==> (#[trigger] self.rank@[v]) + self.nf_disjoint_sets
                <= self.n()
        &&& (self.n() >= 1 ==> self.nf_disjoint_sets >= 1)
    }

    /// The canonical representative of `v`'s set.
    pub closed spec fn root_of(self, v: int) -> int {
        root_of_seq(self.root@, v)
    }

    /// Two vertices are connected iff they have the same representative.
    pub open spec fn connected(self, a: int, b: int) -> bool {
        self.root_of(a) == self.root_of(b)
    }

    /// The number of disjoint sets.
    pub closed spec fn num_sets(self) -> nat {
        self.nf_disjoint_sets as nat
    }

    /// `n` singleton sets: every vertex is its own representative.
    pub fn new(nf_vertices: usize) -> (uf: UnionFind)
        ensures
            uf.wf(),
            uf.n() == nf_vertices,
            forall|v: int| 0 <= v < nf_vertices ==> uf.root_of(v) == v,
            uf.num_sets() == nf_vertices,
    {
        let mut root: Vec<usize> = Vec::new();
        let mut i: usize = 0;
        while i < nf_vertices
            invariant
                i <= nf_vertices,
                root@.len() == i,
                forall|v: int| 0 <= v < i ==> root@[v] == v,
            decreases nf_vertices - i,
        {
            root.push(i);
            i = i + 1;
        }
        let mut rank: Vec<usize> = Vec::new();
        let mut j: usize = 0;
        while j < nf_vertices
            invariant
                j <= nf_vertices,
                rank@.len() == j,
                forall|v: int| 0 <= v < j ==> rank@[v] == 0,
            decreases nf_vertices - j,
        {
            rank.push(0);
            j = j + 1;
        }
        let uf = UnionFind { root, rank, nf_disjoint_sets: nf_vertices };
        proof {
            assert(roots_of(uf.root@) =~= set_int_range(0, nf_vertices as int));
            lemma_int_range(0, nf_vertices as int);
            assert forall|v: int| 0 <= v < nf_vertices implies uf.root_of(v) == v by {
                assert(uf.root@[v] as int == v);
            }
        }
        uf
    }

    /// Returns `vertex`'s representative, compressing the path walked: the
    /// vertices along it now point straight at the root.  No vertex changes
    /// its representative, no set changes, and the ranks stay as they were.
    pub fn find(&mut self, vertex: usize) -> (r: usize)
        requires
            old(self).wf(),
            vertex < old(self).n(),
        ensures
            final(self).wf(),
            final(self).n() == old(self).n(),
            final(self).num_sets() == old(self).num_sets(),
            final(self).rank_seq() == old(self).rank_seq(),
            r as int == old(self).root_of(vertex as int),
            r < old(self).n(),
            final(self).root_of(r as int) == r,
            forall|a: int| 0 <= a < old(self).n() ==> final(self).root_of(a) == old(self).root_of(a),
        decreases old(self).n() - old(self).rank_seq()[vertex as int],
    {
        proof {
            lemma_walk_props(self.root@, self.rank@, vertex as int, self.root@.len());
        }
        let curr_root = self.root[vertex];
        if curr_root != vertex {
            proof {
                lemma_walk_step(self.root@, self.rank@, vertex as int);
            }
            let rt = self.find(curr_root);
            let ghost mid = *self;
            proof {
                assert(mid.root_of(vertex as int) != vertex as int);
                if mid.root@[vertex as int] as int == vertex as int {
                    assert(walk(mid.root@, vertex as int, mid.root@.len()) == vertex as int);
                }
                lemma_compress(mid.root@, mid.rank@, vertex as int, rt as int);
            }
            self.root.set(vertex, rt);
            rt
        } else {
            vertex
        }
    }

    /// The rank column, exposed so that contracts can say `find` leaves it
    /// alone.
    pub closed spec fn rank_seq(self) -> Seq<usize> {
        self.rank@
    }

    /// Merges the sets of the two vertices.  Afterwards two vertices are
    /// connected iff they already were, or one is with `vertex_1`'s set and
    /// the other with `vertex_2`'s.  The number of disjoint sets drops by
    /// one exactly when the two sets were distinct.
    pub fn union(&mut self, vertex_1: usize, vertex_2: usize)
        requires
            old(self).wf(),
            vertex_1 < old(self).n(),
            vertex_2 < old(self).n(),
        ensures
            final(self).wf(),
            final(self).n() == old(self).n(),
            forall|a: int, b: int|
                0 <= a < old(self).n() && 0 <= b < old(self).n() ==> ((#[trigger] final(self).connected(a, b))
                    <==> (old(self).connected(a, b)
                        || (old(self).connected(a, vertex_1 as int) && old(self).connected(b, vertex_2 as int))
                        || (old(self).connected(a, vertex_2 as int) && old(self).connected(b, vertex_1 as int)))),
            old(self).connected(vertex_1 as int, vertex_2 as int) ==> final(self).num_sets()
                == old(self).num_sets(),
            !old(self).connected(vertex_1 as int, vertex_2 as int) ==> final(self).num_sets()
                + 1 == old(self).num_sets(),
    {
        let n = self.root.len();
        let root_1 = self.find(vertex_1);
        let root_2 = self.find(vertex_2);

        if root_1 != root_2 {
            let ghost mid = *self;
            proof {
                lemma_roots_finite(mid.root@);
                lemma_walk_props(mid.root@, mid.rank@, root_1 as int, mid.root@.len());
                lemma_walk_props(mid.root@, mid.rank@, root_2 as int, mid.root@.len());
                assert(mid.root_of(root_1 as int) == root_1 as int);
                assert(mid.root_of(root_2 as int) == root_2 as int);
                assert(mid.root@[root_1 as int] as int == root_1 as int);
                assert(mid.root@[root_2 as int] as int == root_2 as int);
                assert(roots_of(mid.root@).contains(root_1 as int));
                assert(roots_of(mid.root@).contains(root_2 as int));
                assert(roots_of(mid.root@).remove(root_1 as int).contains(root_2 as int));
                assert(roots_of(mid.root@).len() >= 2) by {
                    assert(roots_of(mid.root@).remove(root_1 as int).len() >= 1);
                }
            }
            let rank_1 = self.rank[root_1];
            let rank_2 = self.rank[root_2];
            if rank_1 == rank_2 {
                let new_rank = rank_1 + 1;
                self.root.set(root_2, root_1);
                self.rank.set(root_1, new_rank);
                proof {
                    self.lemma_after_link(mid, root_1 as int, root_2 as int, true, new_rank);
                }
            } else if rank_1 > rank_2 {
                self.root.set(root_2, root_1);
                proof {
                    self.lemma_after_link(mid, root_1 as int, root_2 as int, false, 0);
                }
            } else {
                self.root.set(root_1, root_2);
                proof {
                    self.lemma_after_link(mid, root_2 as int, root_1 as int, false, 0);
                }
            }
            self.nf_disjoint_sets = self.nf_disjoint_sets - 1;
        }
    }

    /// Packages the reasoning after a link: `self` is `mid` with root `loser`
    /// now pointing at root `winner` (and possibly `winner`'s rank bumped),
    /// but with the set count not yet decremented.
    proof fn lemma_after_link(self, mid: UnionFind, winner: int, loser: int, bumped: bool, new_rank: usize)
        requires
            mid.wf(),
            0 <= winner < mid.n(),
            0 <= loser < mid.n(),
            winner != loser,
            mid.root@[winner] as int == winner,
            mid.root@[loser] as int == loser,
            roots_of(mid.root@).len() >= 2,
            self.root@ == mid.root@.update(loser, winner as usize),
            self.nf_disjoint_sets == mid.nf_disjoint_sets,
            !bumped ==> self.rank@ == mid.rank@ && mid.rank@[winner] > mid.rank@[loser],
            bumped ==> self.rank@ == mid.rank@.update(winner, new_rank) && new_rank
                == mid.rank@[winner] + 1 && mid.rank@[winner] == mid.rank@[loser] && new_rank
                < mid.n(),
        ensures
            wf_forest(self.root@, self.rank@),
            roots_of(self.root@).len() + 1 == mid.nf_disjoint_sets,
            roots_of(self.root@).finite(),
            forall|v: int|
                0 <= v < self.n() ==> (#[trigger] self.rank@[v]) + mid.nf_disjoint_sets
                    <= self.n() + 1,
            forall|a: int|
                0 <= a < mid.n() ==> self.root_of(a) == (if mid.root_of(a) == loser {
                    winner
                } else {
                    mid.root_of(a)
                }),
    {
        let n = mid.root@.len() as int;
        assert forall|v: int|
            0 <= v < n && (#[trigger] self.root@[v]) as int != v implies self.rank@[self.root@[v] as int]
            > self.rank@[v] by {
            if v == loser {
                assert(self.root@[v] as int == winner);
                assert(self.rank@[loser] == mid.rank@[loser]);
                if bumped {
                    assert(self.rank@[winner] == mid.rank@[winner] + 1);
                } else {
                    assert(self.rank@[winner] > self.rank@[loser]);
                }
            } else {
                assert(self.root@[v] == mid.root@[v]);
                assert(mid.root@[v] as int != v);
                assert(mid.rank@[mid.root@[v] as int] > mid.rank@[v]);
                assert(self.rank@[v] == mid.rank@[v]);
                assert(self.rank@[mid.root@[v] as int] >= mid.rank@[mid.root@[v] as int]);
            }
        }
        assert(wf_forest(self.root@, self.rank@));
        lemma_link(mid.root@, mid.rank@, self.rank@, winner, loser);
        lemma_roots_finite(mid.root@);
        assert(roots_of(self.root@) == roots_of(mid.root@).remove(loser));
        assert(roots_of(mid.root@).contains(loser));
    }

    /// Whether the two vertices are currently in the same set.  Both paths
    /// walked are compressed, which changes no representative.
    pub fn is_connected(&mut self, vertex_1: usize, vertex_2: usize) -> (r: bool)
        requires
            old(self).wf(),
            vertex_1 < old(self).n(),
            vertex_2 < old(self).n(),
        ensures
            final(self).wf(),
            final(self).n() == old(self).n(),
            final(self).num_sets() == old(self).num_sets(),
            r == old(self).connected(vertex_1 as int, vertex_2 as int),
            forall|a: int| 0 <= a < old(self).n() ==> final(self).root_of(a) == old(self).root_of(a),
    {
        let root_1 = self.find(vertex_1);
        let root_2 = self.find(vertex_2);
        root_1 == root_2
    }

    /// How many disjoint sets the vertices currently form.
    pub fn get_number_of_disjoint_sets(&self) -> (r: usize)
        ensures
            r == self.num_sets(),
    {
        self.nf_disjoint_sets
    }
}

} // verus!
