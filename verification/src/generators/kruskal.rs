//! Kruskal's algorithm on the walls of a maze, with a union-find over its
//! cells.

use vstd::prelude::*;
use rand::rngs::StdRng;
use rand::seq::SliceRandom;
use crate::generators::{
    all_joined,
    are_neighbors,
    boundary_kept,
    distance,
    fill_cells,
    get_rng,
    joined,
    lemma_boundary_chain,
    lemma_filled_boundary,
    lemma_filled_gaps,
    lemma_gap,
    lemma_none_open,
    lemma_one_more_open,
    lemma_put_one_more,
    gap_open,
    one_more_open,
    open_walls,
    lemma_opened_between,
    lemma_joined_on,
    lemma_joined_persists,
    lemma_joined_self,
    lemma_joined_step,
    lemma_passable_back,
    on_edge,
    open_between,
    passable,
    wall_between,
    walls_only_opened,
};
use crate::maze::cell::GridCell;
use crate::maze::grid::lemma_row_major;
use crate::maze::{is_cell_coord, wall_coord, Maze};

verus! {

/// Whether every parent is an element and every element that is not its
/// own parent has a parent of higher rank.
pub open spec fn ranked(parent: Seq<u16>, rank: Seq<u16>) -> bool {
    &&& parent.len() == rank.len()
    &&& forall|x: int|
        0 <= x < parent.len() ==> (#[trigger] parent[x]) < parent.len() && (parent[x] != x
            ==> rank[parent[x] as int] > rank[x])
}

/// The representative of the set of `x`: the element reached from `x`
/// along the parents that is its own parent.
pub open spec fn find_root(parent: Seq<u16>, rank: Seq<u16>, x: int) -> int
    decreases 65536 - rank[x],
    when ranked(parent, rank) && 0 <= x < parent.len()
{
    if parent[x] == x {
        x
    } else {
        find_root(parent, rank, parent[x] as int)
    }
}

/// Sum over the representatives among the first `n` elements of their
/// rank plus one.
pub open spec fn potential(parent: Seq<u16>, rank: Seq<u16>, n: int) -> int
    decreases n,
{
    if n <= 0 {
        0
    } else {
        potential(parent, rank, n - 1) + if parent[n - 1] == n - 1 {
            rank[n - 1] + 1
        } else {
            0
        }
    }
}

/// The representative of an element is an element, is its own parent, and
/// has no lower rank; a higher one unless the element is it.
pub proof fn lemma_root(parent: Seq<u16>, rank: Seq<u16>, x: int)
    requires
        ranked(parent, rank),
        0 <= x < parent.len(),
    ensures
        0 <= find_root(parent, rank, x) < parent.len(),
        parent[find_root(parent, rank, x)] == find_root(parent, rank, x),
        rank[find_root(parent, rank, x)] >= rank[x],
        find_root(parent, rank, x) != x ==> rank[find_root(parent, rank, x)] > rank[x],
        parent[x] == x ==> find_root(parent, rank, x) == x,
        find_root(parent, rank, parent[x] as int) == find_root(parent, rank, x),
    decreases 65536 - rank[x],
{
    if parent[x] != x {
        lemma_root(parent, rank, parent[x] as int);
    }
}

/// Pointing an element at its representative changes no representative.
#[verifier::rlimit(50)]
proof fn lemma_compress(parent: Seq<u16>, rank: Seq<u16>, x: int, y: int)
    requires
        ranked(parent, rank),
        0 <= x < parent.len(),
        0 <= y < parent.len(),
    ensures
        ranked(parent.update(x, find_root(parent, rank, x) as u16), rank),
        find_root(parent.update(x, find_root(parent, rank, x) as u16), rank, y) == find_root(
            parent,
            rank,
            y,
        ),
    decreases 65536 - rank[y],
{
    lemma_root(parent, rank, x);
    let r = find_root(parent, rank, x);
    let after = parent.update(x, r as u16);
    assert(ranked(after, rank)) by {
        assert forall|z: int| 0 <= z < after.len() implies (#[trigger] after[z]) < after.len() && (
        after[z] != z ==> rank[after[z] as int] > rank[z]) by {
            if z != x {
                assert(after[z] == parent[z]);
            }
        }
    }
    lemma_root(parent, rank, y);
    if y == x {
        if r == x {
            assert(after =~= parent);
        } else {
            assert(after[r] == parent[r]);
            assert(after[x] == r);
            lemma_root(after, rank, r);
            lemma_root(after, rank, x);
        }
    } else if parent[y] != y {
        lemma_compress(parent, rank, x, parent[y] as int);
        assert(after[y] == parent[y]);
        lemma_root(after, rank, y);
    } else {
        assert(after[y] == y);
        lemma_root(after, rank, y);
    }
}

/// The potential depends only on which elements are representatives and
/// on their ranks.
proof fn lemma_potential_same(pa: Seq<u16>, ra: Seq<u16>, pb: Seq<u16>, rb: Seq<u16>, n: int)
    requires
        0 <= n <= pa.len(),
        pa.len() == pb.len() == ra.len() == rb.len(),
        forall|i: int|
            0 <= i < n ==> ((#[trigger] pa[i]) == i) == (pb[i] == i) && (pa[i] == i ==> ra[i]
                == rb[i]),
    ensures
        potential(pa, ra, n) == potential(pb, rb, n),
    decreases n,
{
    if n > 0 {
        lemma_potential_same(pa, ra, pb, rb, n - 1);
        assert((pa[n - 1] == n - 1) == (pb[n - 1] == n - 1));
    }
}

/// The potential is at least what one representative adds to it, or two.
proof fn lemma_potential_two(parent: Seq<u16>, rank: Seq<u16>, n: int, a: int, b: int)
    requires
        0 <= n <= parent.len(),
        parent.len() == rank.len(),
        0 <= a < n,
        0 <= b < n,
        parent[a] == a,
        parent[b] == b,
        a != b,
    ensures
        potential(parent, rank, n) >= rank[a] + 1 + rank[b] + 1,
    decreases n,
{
    lemma_potential_nonneg(parent, rank, n - 1);
    if a == n - 1 {
        lemma_potential_one(parent, rank, n - 1, b);
    } else if b == n - 1 {
        lemma_potential_one(parent, rank, n - 1, a);
    } else {
        lemma_potential_two(parent, rank, n - 1, a, b);
    }
}

/// The potential is at least what one representative adds to it.
proof fn lemma_potential_one(parent: Seq<u16>, rank: Seq<u16>, n: int, a: int)
    requires
        0 <= n <= parent.len(),
        parent.len() == rank.len(),
        0 <= a < n,
        parent[a] == a,
    ensures
        potential(parent, rank, n) >= rank[a] + 1,
    decreases n,
{
    lemma_potential_nonneg(parent, rank, n - 1);
    if a != n - 1 {
        lemma_potential_one(parent, rank, n - 1, a);
    }
}

/// The potential is never negative.
proof fn lemma_potential_nonneg(parent: Seq<u16>, rank: Seq<u16>, n: int)
    requires
        n <= parent.len(),
        parent.len() == rank.len(),
    ensures
        potential(parent, rank, n) >= 0,
    decreases n,
{
    if n > 0 {
        lemma_potential_nonneg(parent, rank, n - 1);
    }
}

/// Hanging representative `a` under representative `b`, whose rank grows
/// by `d`, lowers the potential by what `a` added and raises it by `d`.
proof fn lemma_potential_link(
    parent: Seq<u16>,
    rank: Seq<u16>,
    n: int,
    a: int,
    b: int,
    d: int,
)
    requires
        0 <= n <= parent.len(),
        parent.len() == rank.len(),
        0 <= a < parent.len(),
        0 <= b < parent.len(),
        parent[a] == a,
        parent[b] == b,
        a != b,
        0 <= rank[b] + d <= 65535,
    ensures
        potential(parent.update(a, b as u16), rank.update(b, (rank[b] + d) as u16), n) == potential(
            parent,
            rank,
            n,
        ) - (if a < n {
            rank[a] + 1
        } else {
            0
        }) + (if b < n {
            d
        } else {
            0
        }),
    decreases n,
{
    if n > 0 {
        lemma_potential_link(parent, rank, n - 1, a, b, d);
    }
}

/// After representative `a` is hung under representative `b`, of higher
/// rank by then, every element that `a` stood for is stood for by `b`,
/// and no other representative changes.
#[verifier::rlimit(50)]
proof fn lemma_link(parent: Seq<u16>, rank: Seq<u16>, a: int, b: int, d: int, z: int)
    requires
        ranked(parent, rank),
        0 <= a < parent.len(),
        0 <= b < parent.len(),
        parent[a] == a,
        parent[b] == b,
        a != b,
        0 <= d,
        rank[b] + d <= 65535,
        rank[b] + d > rank[a],
        0 <= z < parent.len(),
    ensures
        ranked(parent.update(a, b as u16), rank.update(b, (rank[b] + d) as u16)),
        find_root(parent.update(a, b as u16), rank.update(b, (rank[b] + d) as u16), z) == (
        if find_root(parent, rank, z) == a {
            b
        } else {
            find_root(parent, rank, z)
        }),
    decreases 65536 - rank[z],
{
    let pb = parent.update(a, b as u16);
    let rb = rank.update(b, (rank[b] + d) as u16);
    assert(ranked(pb, rb)) by {
        assert forall|x: int| 0 <= x < pb.len() implies (#[trigger] pb[x]) < pb.len() && (pb[x] != x
            ==> rb[pb[x] as int] > rb[x]) by {
            if x == a {
            } else {
                assert(pb[x] == parent[x]);
                if parent[x] != x {
                    assert(rank[parent[x] as int] > rank[x]);
                    assert(x != b);
                }
            }
        }
    }
    lemma_root(parent, rank, z);
    lemma_root(pb, rb, z);
    if z == a {
        lemma_root(pb, rb, b);
        assert(pb[b] == b);
    } else if parent[z] == z {
        assert(pb[z] == z);
    } else {
        assert(pb[z] == parent[z]);
        lemma_link(parent, rank, a, b, d, parent[z] as int);
    }
}

/// Disjoint sets of the numbers below a size, with union by rank and path
/// compression.
pub struct UnionFind {
    parent: Vec<u16>,
    rank: Vec<u16>,
}

impl UnionFind {
    /// Number of elements.
    pub closed spec fn spec_len(&self) -> nat {
        self.parent@.len()
    }

    /// Parents rank higher than their children, and the ranks of the
    /// representatives leave room to grow.
    pub closed spec fn wf(&self) -> bool {
        &&& ranked(self.parent@, self.rank@)
        &&& self.parent@.len() <= 65535
        &&& potential(self.parent@, self.rank@, self.parent@.len() as int) <= self.parent@.len()
    }

    /// The representative of the set of `x`.
    pub closed spec fn root_of(&self, x: int) -> int {
        find_root(self.parent@, self.rank@, x)
    }

    /// How many of the first `n` elements represent their set.
    pub closed spec fn roots_upto(&self, n: nat) -> nat
        decreases n,
    {
        if n == 0 {
            0
        } else {
            self.roots_upto((n - 1) as nat) + (if self.root_of(n - 1) == n - 1 {
                1nat
            } else {
                0nat
            })
        }
    }

    /// How many sets the elements are in.
    pub closed spec fn spec_sets(&self) -> nat {
        self.roots_upto(self.spec_len())
    }

    /// The representative of an element is an element and represents
    /// itself.
    pub proof fn lemma_representative(&self, x: int)
        requires
            self.wf(),
            0 <= x < self.spec_len(),
        ensures
            0 <= self.root_of(x) < self.spec_len(),
            self.root_of(self.root_of(x)) == self.root_of(x),
    {
        lemma_root(self.parent@, self.rank@, x);
        lemma_root(self.parent@, self.rank@, self.root_of(x));
    }

    /// Where the representatives are the same, there are as many sets.
    pub proof fn lemma_sets_kept(&self, other: &UnionFind)
        requires
            self.spec_len() == other.spec_len(),
            forall|z: int| 0 <= z < self.spec_len() ==> #[trigger] other.root_of(z) == self.root_of(z),
        ensures
            other.spec_sets() == self.spec_sets(),
    {
        self.lemma_roots_kept(other, self.spec_len());
    }

    proof fn lemma_roots_kept(&self, other: &UnionFind, n: nat)
        requires
            n <= self.spec_len(),
            forall|z: int| 0 <= z < self.spec_len() ==> #[trigger] other.root_of(z) == self.root_of(z),
        ensures
            other.roots_upto(n) == self.roots_upto(n),
        decreases n,
    {
        if n > 0 {
            self.lemma_roots_kept(other, (n - 1) as nat);
            assert(other.root_of(n - 1) == self.root_of(n - 1));
        }
    }

    /// Where every element represents itself, there are as many sets as
    /// elements.
    pub proof fn lemma_sets_apart(&self)
        requires
            forall|z: int| 0 <= z < self.spec_len() ==> #[trigger] self.root_of(z) == z,
        ensures
            self.spec_sets() == self.spec_len(),
    {
        self.lemma_roots_apart(self.spec_len());
    }

    proof fn lemma_roots_apart(&self, n: nat)
        requires
            n <= self.spec_len(),
            forall|z: int| 0 <= z < self.spec_len() ==> #[trigger] self.root_of(z) == z,
        ensures
            self.roots_upto(n) == n,
        decreases n,
    {
        if n > 0 {
            self.lemma_roots_apart((n - 1) as nat);
            assert(self.root_of(n - 1) == n - 1);
        }
    }

    /// Where one element represents all, there is one set.
    pub proof fn lemma_sets_one(&self, r: int)
        requires
            0 <= r < self.spec_len(),
            forall|z: int| 0 <= z < self.spec_len() ==> #[trigger] self.root_of(z) == r,
        ensures
            self.spec_sets() == 1,
    {
        self.lemma_roots_one(r, self.spec_len());
    }

    proof fn lemma_roots_one(&self, r: int, n: nat)
        requires
            n <= self.spec_len(),
            0 <= r < self.spec_len(),
            forall|z: int| 0 <= z < self.spec_len() ==> #[trigger] self.root_of(z) == r,
        ensures
            self.roots_upto(n) == (if r < n {
                1nat
            } else {
                0nat
            }),
        decreases n,
    {
        if n > 0 {
            self.lemma_roots_one(r, (n - 1) as nat);
            assert(self.root_of(n - 1) == r);
        }
    }

    /// Where the set of `x` was joined to that of `y`, there is one set
    /// fewer.
    pub proof fn lemma_sets_united(&self, united: &UnionFind, x: int, y: int)
        requires
            self.wf(),
            united.spec_len() == self.spec_len(),
            0 <= x < self.spec_len(),
            0 <= y < self.spec_len(),
            self.root_of(x) != self.root_of(y),
            exists|winner: int, loser: int|
                {
                    &&& #[trigger] self.joins(x, y, winner, loser)
                    &&& forall|z: int|
                        0 <= z < self.spec_len() ==> #[trigger] united.root_of(z) == (
                        if self.root_of(z) == loser {
                            winner
                        } else {
                            self.root_of(z)
                        })
                },
        ensures
            united.spec_sets() + 1 == self.spec_sets(),
    {
        let (winner, loser) = choose|winner: int, loser: int|
            {
                &&& #[trigger] self.joins(x, y, winner, loser)
                &&& forall|z: int|
                    0 <= z < self.spec_len() ==> #[trigger] united.root_of(z) == (if self.root_of(z)
                        == loser {
                        winner
                    } else {
                        self.root_of(z)
                    })
            };
        self.lemma_representative(x);
        self.lemma_representative(y);
        self.lemma_roots_united(united, winner, loser, self.spec_len());
    }

    proof fn lemma_roots_united(&self, united: &UnionFind, winner: int, loser: int, n: nat)
        requires
            n <= self.spec_len(),
            winner != loser,
            0 <= winner < self.spec_len(),
            0 <= loser < self.spec_len(),
            self.root_of(winner) == winner,
            self.root_of(loser) == loser,
            forall|z: int|
                0 <= z < self.spec_len() ==> #[trigger] united.root_of(z) == (if self.root_of(z)
                    == loser {
                    winner
                } else {
                    self.root_of(z)
                }),
        ensures
            united.roots_upto(n) + (if loser < n {
                1nat
            } else {
                0nat
            }) == self.roots_upto(n),
        decreases n,
    {
        if n > 0 {
            self.lemma_roots_united(united, winner, loser, (n - 1) as nat);
            let z = n - 1;
            assert(united.root_of(z) == (if self.root_of(z) == loser {
                winner
            } else {
                self.root_of(z)
            }));
        }
    }

    /// `size` sets of one element each.
    pub fn new(size: u16) -> (uf: Self)
        ensures
            uf.wf(),
            uf.spec_len() == size,
            forall|x: int| 0 <= x < size ==> #[trigger] uf.root_of(x) == x,
    {
        let mut parent: Vec<u16> = Vec::new();
        let mut rank: Vec<u16> = Vec::new();
        let mut i: u16 = 0;
        while i < size
            invariant
                i <= size,
                parent@.len() == i,
                rank@.len() == i,
                forall|x: int| 0 <= x < i ==> #[trigger] parent@[x] == x,
                forall|x: int| 0 <= x < i ==> #[trigger] rank@[x] == 0,
                potential(parent@, rank@, i as int) == i,
            decreases size - i,
        {
            let ghost pz = parent@;
            let ghost rz = rank@;
            parent.push(i);
            rank.push(0);
            proof {
                lemma_potential_same(pz, rz, parent@.take(i as int), rank@.take(i as int), i as int);
                assert(parent@.take(i as int) =~= pz);
                lemma_potential_same(
                    parent@.take(i as int).push(i),
                    rank@.take(i as int).push(0),
                    parent@,
                    rank@,
                    i as int,
                );
                assert(parent@.take(i as int).push(i) =~= parent@);
                lemma_potential_prefix(pz, rz, parent@, rank@, i as int);
            }
            i += 1;
        }
        let uf = UnionFind { parent, rank };
        proof {
            assert forall|x: int| 0 <= x < size implies #[trigger] uf.root_of(x) == x by {
                lemma_root(uf.parent@, uf.rank@, x);
            }
        }
        uf
    }

    /// The representative of the set of `x`. On the way, `x` and the
    /// elements between it and its representative are pointed at the
    /// representative; no set changes.
    pub fn find(&mut self, x: u16) -> (r: u16)
        requires
            old(self).wf(),
            x < old(self).spec_len(),
        ensures
            final(self).wf(),
            final(self).spec_len() == old(self).spec_len(),
            r == old(self).root_of(x as int),
            r < old(self).spec_len(),
            old(self).root_of(r as int) == r,
            forall|y: int|
                0 <= y < old(self).spec_len() ==> #[trigger] final(self).root_of(y) == old(self).root_of(y),
    {
        proof {
            lemma_root(self.parent@, self.rank@, x as int);
            lemma_root(self.parent@, self.rank@, self.root_of(x as int));
        }
        self.find_inner(x)
    }

    /// The representative of the set of `x`, with the path to it compressed.
    /// No set, no rank and no representative changes.
    #[verifier::rlimit(50)]
    fn find_inner(&mut self, x: u16) -> (r: u16)
        requires
            old(self).wf(),
            x < old(self).parent@.len(),
        ensures
            final(self).wf(),
            final(self).parent@.len() == old(self).parent@.len(),
            final(self).rank@ == old(self).rank@,
            r == find_root(old(self).parent@, old(self).rank@, x as int),
            forall|y: int|
                0 <= y < old(self).parent@.len() ==> #[trigger] find_root(
                    final(self).parent@,
                    final(self).rank@,
                    y,
                ) == find_root(old(self).parent@, old(self).rank@, y),
            forall|y: int|
                0 <= y < old(self).parent@.len() ==> ((#[trigger] final(self).parent@[y]) == y) == (
                old(self).parent@[y] == y),
        decreases 65536 - old(self).rank@[x as int],
    {
        proof {
            lemma_root(self.parent@, self.rank@, x as int);
        }
        if self.parent[x as usize] != x {
            let p = self.parent[x as usize];
            let r = self.find_inner(p);
            let ghost pa = self.parent@;
            let ghost ra = self.rank@;
            proof {
                lemma_root(pa, ra, x as int);
                assert(find_root(pa, ra, x as int) == r);
            }
            self.parent.set(x as usize, r);
            proof {
                assert forall|y: int| 0 <= y < pa.len() implies #[trigger] find_root(
                    self.parent@,
                    self.rank@,
                    y,
                ) == find_root(old(self).parent@, old(self).rank@, y) by {
                    lemma_compress(pa, ra, x as int, y);
                }
                lemma_compress(pa, ra, x as int, x as int);
                lemma_potential_same(pa, ra, self.parent@, self.rank@, pa.len() as int);
            }
            r
        } else {
            x
        }
    }

    /// Joins the sets of `x` and `y`. Returns whether they were two sets;
    /// if so, the representative of lower rank, or that of `y` where the
    /// ranks are equal, is from now on represented by the other.
    #[verifier::rlimit(50)]
    pub fn unite(&mut self, x: u16, y: u16) -> (joined: bool)
        requires
            old(self).wf(),
            x < old(self).spec_len(),
            y < old(self).spec_len(),
        ensures
            final(self).wf(),
            final(self).spec_len() == old(self).spec_len(),
            joined == (old(self).root_of(x as int) != old(self).root_of(y as int)),
            !joined ==> forall|z: int|
                0 <= z < old(self).spec_len() ==> #[trigger] final(self).root_of(z) == old(self).root_of(z),
            joined ==> exists|winner: int, loser: int|
                {
                    &&& #[trigger] old(self).joins(x as int, y as int, winner, loser)
                    &&& forall|z: int|
                        0 <= z < old(self).spec_len() ==> #[trigger] final(self).root_of(z) == (
                        if old(self).root_of(z) == loser {
                            winner
                        } else {
                            old(self).root_of(z)
                        })
                },
    {
        let ghost start = *self;
        let root_x = self.find_inner(x);
        let root_y = self.find_inner(y);
        proof {
            lemma_root(start.parent@, start.rank@, x as int);
            lemma_root(start.parent@, start.rank@, y as int);
            lemma_root(self.parent@, self.rank@, root_x as int);
            lemma_root(self.parent@, self.rank@, root_y as int);
            assert forall|z: int| 0 <= z < start.parent@.len() implies #[trigger] self.root_of(z)
                == start.root_of(z) by {}
        }
        if root_x == root_y {
            return false;
        }
        let ghost pa = self.parent@;
        let ghost ra = self.rank@;
        let rank_x = self.rank[root_x as usize];
        let rank_y = self.rank[root_y as usize];
        let ghost n = pa.len() as int;
        if rank_x > rank_y {
            self.parent.set(root_y as usize, root_x);
            proof {
                assert(self.rank@ =~= ra.update(root_x as int, (ra[root_x as int] + 0) as u16));
                assert forall|z: int| 0 <= z < n implies #[trigger] self.root_of(z) == (
                if start.root_of(z) == root_y {
                    root_x as int
                } else {
                    start.root_of(z)
                }) by {
                    lemma_link(pa, ra, root_y as int, root_x as int, 0, z);
                }
                lemma_link(pa, ra, root_y as int, root_x as int, 0, 0);
                lemma_potential_link(pa, ra, n, root_y as int, root_x as int, 0);
                assert(start.joins(x as int, y as int, root_x as int, root_y as int));
            }
        } else if rank_x < rank_y {
            self.parent.set(root_x as usize, root_y);
            proof {
                assert(self.rank@ =~= ra.update(root_y as int, (ra[root_y as int] + 0) as u16));
                assert forall|z: int| 0 <= z < n implies #[trigger] self.root_of(z) == (
                if start.root_of(z) == root_x {
                    root_y as int
                } else {
                    start.root_of(z)
                }) by {
                    lemma_link(pa, ra, root_x as int, root_y as int, 0, z);
                }
                lemma_link(pa, ra, root_x as int, root_y as int, 0, 0);
                lemma_potential_link(pa, ra, n, root_x as int, root_y as int, 0);
                assert(start.joins(x as int, y as int, root_y as int, root_x as int));
            }
        } else {
            proof {
                lemma_potential_two(pa, ra, n, root_x as int, root_y as int);
            }
            self.parent.set(root_y as usize, root_x);
            self.rank.set(root_x as usize, rank_x + 1);
            proof {
                assert(self.rank@ =~= ra.update(root_x as int, (ra[root_x as int] + 1) as u16));
                assert forall|z: int| 0 <= z < n implies #[trigger] self.root_of(z) == (
                if start.root_of(z) == root_y {
                    root_x as int
                } else {
                    start.root_of(z)
                }) by {
                    lemma_link(pa, ra, root_y as int, root_x as int, 1, z);
                }
                lemma_link(pa, ra, root_y as int, root_x as int, 1, 0);
                lemma_potential_link(pa, ra, n, root_y as int, root_x as int, 1);
                assert(start.joins(x as int, y as int, root_x as int, root_y as int));
            }
        }
        true
    }

    /// Whether joining the sets of `x` and `y` makes `winner` stand for
    /// what `loser` stood for: the two are the representatives of `x` and
    /// `y`, and the winner is the one of higher rank, or that of `x`
    /// where the ranks are equal.
    pub closed spec fn joins(&self, x: int, y: int, winner: int, loser: int) -> bool {
        let rx = self.root_of(x);
        let ry = self.root_of(y);
        if self.rank@[rx] >= self.rank@[ry] {
            winner == rx && loser == ry
        } else {
            winner == ry && loser == rx
        }
    }
}

/// The potential of the first `n` elements does not depend on what comes
/// after them.
proof fn lemma_potential_prefix(pa: Seq<u16>, ra: Seq<u16>, pb: Seq<u16>, rb: Seq<u16>, n: int)
    requires
        0 <= n <= pa.len(),
        n <= pb.len(),
        pa.len() == ra.len(),
        pb.len() == rb.len(),
        forall|i: int| 0 <= i < n ==> (#[trigger] pa[i]) == pb[i] && ra[i] == rb[i],
    ensures
        potential(pa, ra, n) == potential(pb, rb, n),
    decreases n,
{
    if n > 0 {
        lemma_potential_prefix(pa, ra, pb, rb, n - 1);
        assert(pa[n - 1] == pb[n - 1]);
    }
}

/// The wall between two neighbouring cells, named by the cells.
#[derive(Debug, Clone, Copy, PartialEq, Eq)]
pub struct Edge {
    pub cell1: (u8, u8),
    pub cell2: (u8, u8),
}

/// Whether the edge lies between two neighbouring cells of a maze of the
/// given size.
pub open spec fn is_edge_of(edge: Edge, width: u8, height: u8) -> bool {
    &&& edge.cell1.0 < width && edge.cell1.1 < height
    &&& edge.cell2.0 < width && edge.cell2.1 < height
    &&& are_neighbors(edge.cell1, edge.cell2)
}

/// The edges after the first `n` cells of a maze, row by row: for each
/// cell the edge to its right neighbour, then the edge to the neighbour
/// below it, as far as there are such neighbours.
pub open spec fn edges_upto(width: u8, height: u8, n: nat) -> Seq<Edge>
    decreases n,
{
    if n == 0 || width == 0 {
        Seq::empty()
    } else {
        let i = (n - 1) as int;
        let cell = ((i % (width as int)) as u8, (i / (width as int)) as u8);
        let right: Seq<Edge> = if cell.0 + 1 < width {
            seq![Edge { cell1: cell, cell2: ((cell.0 + 1) as u8, cell.1) }]
        } else {
            Seq::empty()
        };
        let down: Seq<Edge> = if cell.1 + 1 < height {
            seq![Edge { cell1: cell, cell2: (cell.0, (cell.1 + 1) as u8) }]
        } else {
            Seq::empty()
        };
        edges_upto(width, height, (n - 1) as nat) + right + down
    }
}

/// Every wall between two neighbouring cells of a maze of the given size,
/// once.
#[verifier::rlimit(50)]
pub fn all_edges(width: u8, height: u8) -> (edges: Vec<Edge>)
    ensures
        edges@ == edges_upto(width, height, (width * height) as nat),
        forall|i: int| 0 <= i < edges@.len() ==> is_edge_of(#[trigger] edges@[i], width, height),
{
    let mut edges: Vec<Edge> = Vec::new();
    let mut y: u8 = 0;
    while y < height
        invariant
            y <= height,
            edges@ == edges_upto(width, height, (y * width) as nat),
            forall|i: int|
                0 <= i < edges@.len() ==> is_edge_of(#[trigger] edges@[i], width, height),
        decreases height - y,
    {
        let mut x: u8 = 0;
        while x < width
            invariant
                y < height,
                x <= width,
                edges@ == edges_upto(width, height, (y * width + x) as nat),
                forall|i: int|
                    0 <= i < edges@.len() ==> is_edge_of(#[trigger] edges@[i], width, height),
            decreases width - x,
        {
            let ghost before = edges@;
            proof {
                lemma_row_major(width as int, x as int, y as int);
            }
            if x + 1 < width {
                edges.push(Edge { cell1: (x, y), cell2: (x + 1, y) });
            }
            if y + 1 < height {
                edges.push(Edge { cell1: (x, y), cell2: (x, y + 1) });
            }
            proof {
                assert(edges@ =~= edges_upto(width, height, (y * width + x + 1) as nat));
            }
            x += 1;
        }
        proof {
            assert((y + 1) * width == y * width + width) by (nonlinear_arith);
        }
        y += 1;
    }
    proof {
        assert(height * width == width * height) by (nonlinear_arith);
    }
    edges
}

/// Number of a cell in a maze `width` cells wide, row by row.
pub open spec fn cell_number(c: (u8, u8), width: u8) -> int {
    c.1 * width + c.0
}

/// Whether cells that the union-find holds in one set are joined in the
/// maze.
pub open spec fn sets_joined(maze: &Maze, sets: &UnionFind) -> bool {
    forall|a: (u8, u8), b: (u8, u8)|
        maze.spec_in_bounds(a) && maze.spec_in_bounds(b) && sets.root_of(
            cell_number(a, maze.spec_width()),
        ) == sets.root_of(cell_number(b, maze.spec_width())) ==> #[trigger] joined(maze, a, b)
}

/// Whether the union-find holds the two cells in one set.
pub open spec fn same_set(sets: &UnionFind, a: (u8, u8), b: (u8, u8), width: u8) -> bool {
    sets.root_of(cell_number(a, width)) == sets.root_of(cell_number(b, width))
}

/// The number of a cell of the maze is below the number of cells, and no
/// two cells share it.
proof fn lemma_cell_number(a: (u8, u8), b: (u8, u8), width: u8, height: u8)
    requires
        a.0 < width && a.1 < height,
        b.0 < width && b.1 < height,
    ensures
        0 <= cell_number(a, width) < width * height,
        cell_number(a, width) == cell_number(b, width) ==> a == b,
{
    let w = width as int;
    let (ax, ay, bx, by) = (a.0 as int, a.1 as int, b.0 as int, b.1 as int);
    assert(0 <= ay * w + ax < w * height) by (nonlinear_arith)
        requires
            0 <= ax < w,
            0 <= ay < height,
    ;
    if ay * w + ax == by * w + bx {
        assert(ay == by) by (nonlinear_arith)
            requires
                0 <= ax < w,
                0 <= bx < w,
                0 <= ay,
                0 <= by,
                ay * w + ax == by * w + bx,
        ;
    }
}

/// Opening the wall between two cells and joining their sets keeps the
/// cells of every set joined.
proof fn lemma_sets_joined_unite(
    before: &Maze,
    after: &Maze,
    sets: &UnionFind,
    united: &UnionFind,
    c1: (u8, u8),
    c2: (u8, u8),
)
    requires
        before.wf(),
        after.wf(),
        after.spec_width() == before.spec_width(),
        after.spec_height() == before.spec_height(),
        sets.wf(),
        sets.spec_len() == before.spec_width() * before.spec_height(),
        sets_joined(before, sets),
        walls_only_opened(before, after),
        passable(after, c1, c2),
        exists|winner: int, loser: int|
            {
                &&& #[trigger] sets.joins(
                    cell_number(c1, before.spec_width()),
                    cell_number(c2, before.spec_width()),
                    winner,
                    loser,
                )
                &&& forall|z: int|
                    0 <= z < sets.spec_len() ==> #[trigger] united.root_of(z) == (if sets.root_of(z)
                        == loser {
                        winner
                    } else {
                        sets.root_of(z)
                    })
            },
    ensures
        sets_joined(after, united),
{
    let w = before.spec_width();
    let (winner, loser) = choose|winner: int, loser: int|
        {
            &&& #[trigger] sets.joins(cell_number(c1, w), cell_number(c2, w), winner, loser)
            &&& forall|z: int|
                0 <= z < sets.spec_len() ==> #[trigger] united.root_of(z) == (if sets.root_of(z)
                    == loser {
                    winner
                } else {
                    sets.root_of(z)
                })
        };
    let r1 = sets.root_of(cell_number(c1, w));
    let r2 = sets.root_of(cell_number(c2, w));
    lemma_passable_back(after, c1, c2);
    assert forall|a: (u8, u8), b: (u8, u8)|
        after.spec_in_bounds(a) && after.spec_in_bounds(b) && united.root_of(cell_number(a, w))
            == united.root_of(cell_number(b, w)) implies #[trigger] joined(after, a, b) by {
        lemma_cell_number(a, b, w, before.spec_height());
        lemma_cell_number(b, a, w, before.spec_height());
        lemma_cell_number(c1, c2, w, before.spec_height());
        lemma_cell_number(c2, c1, w, before.spec_height());
        let ra = sets.root_of(cell_number(a, w));
        let rb = sets.root_of(cell_number(b, w));
        assert(united.root_of(cell_number(a, w)) == (if ra == loser {
            winner
        } else {
            ra
        }));
        assert(united.root_of(cell_number(b, w)) == (if rb == loser {
            winner
        } else {
            rb
        }));
        if ra == rb {
            assert(joined(before, a, b));
            lemma_joined_persists(before, after, a, b);
        } else if ra == r1 {
            assert(rb == r2);
            assert(joined(before, a, c1));
            assert(joined(before, c2, b));
            lemma_joined_persists(before, after, a, c1);
            lemma_joined_persists(before, after, c2, b);
            lemma_joined_step(after, a, c1, c2);
            lemma_joined_on(after, a, c2, b);
        } else {
            assert(ra == r2 && rb == r1);
            assert(joined(before, a, c2));
            assert(joined(before, c1, b));
            lemma_joined_persists(before, after, a, c2);
            lemma_joined_persists(before, after, c1, b);
            lemma_joined_step(after, a, c2, c1);
            lemma_joined_on(after, a, c1, b);
        }
    }
}

/// Where every two neighbouring cells are in one set, all cells are.
proof fn lemma_one_set(sets: &UnionFind, width: u8, height: u8, from: (u8, u8), to: (u8, u8))
    requires
        from.0 < width && from.1 < height,
        to.0 < width && to.1 < height,
        forall|a: (u8, u8), b: (u8, u8)|
            a.0 < width && a.1 < height && b.0 < width && b.1 < height && #[trigger] are_neighbors(
                a,
                b,
            ) ==> same_set(sets, a, b, width),
    ensures
        same_set(sets, from, to, width),
    decreases distance(from, to),
{
    if to != from {
        let nearer: (u8, u8) = if to.0 > from.0 {
            ((to.0 - 1) as u8, to.1)
        } else if to.0 < from.0 {
            ((to.0 + 1) as u8, to.1)
        } else if to.1 > from.1 {
            (to.0, (to.1 - 1) as u8)
        } else {
            (to.0, (to.1 + 1) as u8)
        };
        lemma_one_set(sets, width, height, from, nearer);
        assert(are_neighbors(nearer, to));
    }
}

/// Every number below the number of cells is the number of a cell.
proof fn lemma_number_is_cell(z: int, width: u8, height: u8)
    requires
        0 <= z < width * height,
    ensures
        z % (width as int) < width,
        z / (width as int) < height,
        0 <= z % (width as int),
        0 <= z / (width as int),
        cell_number(((z % (width as int)) as u8, (z / (width as int)) as u8), width) == z,
{
    let w = width as int;
    assert(w > 0) by (nonlinear_arith)
        requires
            0 <= z < w * height,
            w >= 0,
    ;
    vstd::arithmetic::div_mod::lemma_fundamental_div_mod(z, w);
    vstd::arithmetic::div_mod::lemma_mod_pos_bound(z, w);
    vstd::arithmetic::div_mod::lemma_div_pos_is_pos(z, w);
    let q = z / w;
    let r = z % w;
    assert(q < height) by (nonlinear_arith)
        requires
            z == w * q + r,
            0 <= r,
            z < w * height,
            w > 0,
    ;
    assert(q * w + r == z) by (nonlinear_arith)
        requires
            z == w * q + r,
    ;
}

/// Whether the union-find holds in one set every two neighbouring cells
/// that no wall stands between.
pub open spec fn gaps_in_sets(maze: &Maze, sets: &UnionFind) -> bool {
    forall|a: (u8, u8), b: (u8, u8)|
        maze.spec_in_bounds(a) && maze.spec_in_bounds(b) && #[trigger] are_neighbors(a, b)
            && passable(maze, a, b) ==> same_set(sets, a, b, maze.spec_width())
}

/// Sets that stand for the same cells hold the same open walls.
proof fn lemma_gaps_same(maze: &Maze, sets: &UnionFind, same: &UnionFind)
    requires
        maze.wf(),
        gaps_in_sets(maze, sets),
        forall|z: int|
            0 <= z < maze.spec_width() * maze.spec_height() ==> #[trigger] same.root_of(z)
                == sets.root_of(z),
    ensures
        gaps_in_sets(maze, same),
{
    assert forall|a: (u8, u8), b: (u8, u8)|
        maze.spec_in_bounds(a) && maze.spec_in_bounds(b) && #[trigger] are_neighbors(a, b)
            && passable(maze, a, b) implies same_set(same, a, b, maze.spec_width()) by {
        lemma_cell_number(a, b, maze.spec_width(), maze.spec_height());
        lemma_cell_number(b, a, maze.spec_width(), maze.spec_height());
        assert(same_set(sets, a, b, maze.spec_width()));
    }
}

/// Opening the wall between two cells and joining their sets keeps every
/// open wall inside a set.
proof fn lemma_gaps_unite(
    before: &Maze,
    after: &Maze,
    sets: &UnionFind,
    united: &UnionFind,
    c1: (u8, u8),
    c2: (u8, u8),
)
    requires
        before.wf(),
        after.wf(),
        before.spec_in_bounds(c1),
        before.spec_in_bounds(c2),
        are_neighbors(c1, c2),
        sets.wf(),
        sets.spec_len() == before.spec_width() * before.spec_height(),
        gaps_in_sets(before, sets),
        one_more_open(before, after, wall_between(c1, c2).0, wall_between(c1, c2).1),
        exists|winner: int, loser: int|
            {
                &&& #[trigger] sets.joins(
                    cell_number(c1, before.spec_width()),
                    cell_number(c2, before.spec_width()),
                    winner,
                    loser,
                )
                &&& forall|z: int|
                    0 <= z < sets.spec_len() ==> #[trigger] united.root_of(z) == (if sets.root_of(z)
                        == loser {
                        winner
                    } else {
                        sets.root_of(z)
                    })
            },
    ensures
        gaps_in_sets(after, united),
{
    let w = before.spec_width();
    let h = before.spec_height();
    let (winner, loser) = choose|winner: int, loser: int|
        {
            &&& #[trigger] sets.joins(cell_number(c1, w), cell_number(c2, w), winner, loser)
            &&& forall|z: int|
                0 <= z < sets.spec_len() ==> #[trigger] united.root_of(z) == (if sets.root_of(z)
                    == loser {
                    winner
                } else {
                    sets.root_of(z)
                })
        };
    lemma_cell_number(c1, c2, w, h);
    lemma_cell_number(c2, c1, w, h);
    assert forall|a: (u8, u8), b: (u8, u8)|
        after.spec_in_bounds(a) && after.spec_in_bounds(b) && #[trigger] are_neighbors(a, b)
            && passable(after, a, b) implies same_set(united, a, b, w) by {
        lemma_cell_number(a, b, w, h);
        lemma_cell_number(b, a, w, h);
        lemma_gap(before, a, b);
        let (at, o) = wall_between(a, b);
        assert(gap_open(after, at, o) == 1);
        if (at, o) == wall_between(c1, c2) {
            assert((a == c1 && b == c2) || (a == c2 && b == c1));
        } else {
            assert(gap_open(before, at, o) == 1);
            assert(passable(before, a, b));
            assert(same_set(sets, a, b, w));
        }
    }
}

/// The edges after the first `n` cells hold the edge between each of
/// these cells and its right neighbour, and its neighbour below.
proof fn lemma_edges_complete(width: u8, height: u8, n: nat, a: (u8, u8), b: (u8, u8))
    requires
        a.0 < width && a.1 < height,
        b.0 < width && b.1 < height,
        (b.0 == a.0 + 1 && b.1 == a.1) || (b.0 == a.0 && b.1 == a.1 + 1),
        cell_number(a, width) < n,
    ensures
        edges_upto(width, height, n).contains(Edge { cell1: a, cell2: b }),
    decreases n,
{
    let i = (n - 1) as int;
    let earlier = edges_upto(width, height, (n - 1) as nat);
    let cell = ((i % (width as int)) as u8, (i / (width as int)) as u8);
    let right: Seq<Edge> = if cell.0 + 1 < width {
        seq![Edge { cell1: cell, cell2: ((cell.0 + 1) as u8, cell.1) }]
    } else {
        Seq::empty()
    };
    let down: Seq<Edge> = if cell.1 + 1 < height {
        seq![Edge { cell1: cell, cell2: (cell.0, (cell.1 + 1) as u8) }]
    } else {
        Seq::empty()
    };
    let all = edges_upto(width, height, n);
    assert(all == earlier + right + down);
    let wanted = Edge { cell1: a, cell2: b };
    if cell_number(a, width) < n - 1 {
        lemma_edges_complete(width, height, (n - 1) as nat, a, b);
        let k = choose|k: int| 0 <= k < earlier.len() && earlier[k] == wanted;
        assert(all[k] == wanted);
    } else {
        lemma_row_major(width as int, a.0 as int, a.1 as int);
        assert(cell == a);
        if b.1 == a.1 {
            assert(right[0] == wanted);
            assert(all[earlier.len() as int] == wanted);
        } else {
            assert(down[0] == wanted);
            assert(all[(earlier.len() + right.len()) as int] == wanted);
        }
    }
}

/// Puts the edges in a random order.
///
/// Wraps `SliceRandom::shuffle`, which permutes the slice in place.
#[verifier::external_body]
fn shuffle_edges(edges: &mut Vec<Edge>, rng: &mut StdRng)
    ensures
        final(edges)@.to_multiset() == old(edges)@.to_multiset(),
{
    edges.shuffle(rng);
}

/// Generates a maze by Kruskal's algorithm: every wall inside the maze is
/// raised and every cell opened; then the walls between neighbouring cells
/// are gone through in random order, and a wall is opened where the cells
/// on its two sides are not connected yet. A maze without cells is left as
/// it is.
///
/// Whatever the order, the grid only emits valid updates, every cell of
/// the maze ends open and joined to every other by ways that no wall is in
/// the way of, one wall fewer is open than there are cells, and the
/// boundary of the grid stays as it was.
#[verifier::rlimit(50)]
pub fn randomized_kruskal(maze: &mut Maze, seed: Option<u64>)
    requires
        old(maze).wf(),
    ensures
        final(maze).extends(old(maze)),
        (old(maze).spec_width() == 0 && old(maze).spec_height() == 0) ==> *final(maze) == *old(maze),
        forall|c: (u8, u8)|
            final(maze).spec_in_bounds(c) ==> #[trigger] final(maze).spec_cell(c)
                == GridCell::empty(),
        old(maze).spec_width() > 0 && old(maze).spec_height() > 0 ==> all_joined(final(maze)),
        old(maze).spec_width() > 0 && old(maze).spec_height() > 0 ==> open_walls(final(maze)) + 1
            == old(maze).spec_width() * old(maze).spec_height(),
        boundary_kept(old(maze), final(maze)),
{
    if maze.is_empty() {
        proof {
            maze.lemma_extends_self();
        }
        return ;
    }
    let width = maze.width();
    let height = maze.height();
    maze.fill_walls();
    let ghost walled = *maze;
    fill_cells(maze, GridCell::empty());
    let ghost opened = *maze;
    proof {
        opened.lemma_extends_chain(&walled, old(maze));
        walled.lemma_wf();
        opened.lemma_wf();
        old(maze).lemma_wf();
        lemma_filled_boundary(old(maze), &walled, GridCell::wall());
        assert(boundary_kept(&walled, &opened)) by {
            assert forall|at: (u16, u16)|
                walled.spec_grid().contains(at) && on_edge(
                    &walled,
                    at,
                ) implies #[trigger] opened.spec_grid().spec_get(at)
                == walled.spec_grid().spec_get(at) by {
                assert(!is_cell_coord(at));
            }
        }
        lemma_boundary_chain(old(maze), &walled, &opened);
    }
    assert(width * height <= 65025) by (nonlinear_arith)
        requires
            width <= 255,
            height <= 255,
    ;
    let total_cells: u16 = (width as u16) * (height as u16);
    let mut uf = UnionFind::new(total_cells);
    let mut edges = all_edges(width, height);
    let mut rng = get_rng(seed);
    let ghost ordered = edges@;
    shuffle_edges(&mut edges, &mut rng);
    proof {
        edges@.to_multiset_ensures();
        ordered.to_multiset_ensures();
        assert forall|i: int| 0 <= i < edges@.len() implies is_edge_of(
            #[trigger] edges@[i],
            width,
            height,
        ) by {
            assert(edges@.contains(edges@[i]));
            assert(edges@.to_multiset().count(edges@[i]) > 0);
            assert(ordered.to_multiset().count(edges@[i]) > 0);
            assert(ordered.contains(edges@[i]));
            let j = choose|j: int| 0 <= j < ordered.len() && ordered[j] == edges@[i];
            assert(is_edge_of(ordered[j], width, height));
        }
        assert forall|a: (u8, u8), b: (u8, u8)|
            opened.spec_in_bounds(a) && opened.spec_in_bounds(b) && uf.root_of(
                cell_number(a, width),
            ) == uf.root_of(cell_number(b, width)) implies #[trigger] joined(&opened, a, b) by {
            lemma_cell_number(a, b, width, height);
            lemma_cell_number(b, a, width, height);
            lemma_joined_self(&opened, a);
        }
        lemma_filled_gaps(old(maze), &walled, GridCell::wall());
        assert forall|c: (u8, u8), o: crate::maze::cell::Orientation| #[trigger]
            gap_open(&opened, c, o) == 0 by {
            if opened.has_cell_after(c, o) {
                assert(walled.spec_grid().contains(wall_coord(c, o)));
                assert(!is_cell_coord(wall_coord(c, o)));
                assert(walled.spec_grid().spec_get(wall_coord(c, o)) == GridCell::wall());
            }
        }
        lemma_none_open(&opened);
        uf.lemma_sets_apart();
    }
    let mut i: usize = 0;
    while i < edges.len()
        invariant
            i <= edges@.len(),
            maze.extends(old(maze)),
            maze.spec_width() == width,
            maze.spec_height() == height,
            old(maze).wf(),
            boundary_kept(old(maze), maze),
            uf.wf(),
            uf.spec_len() == width * height,
            sets_joined(maze, &uf),
            gaps_in_sets(maze, &uf),
            open_walls(maze) + uf.spec_sets() == width * height,
            forall|k: int|
                0 <= k < i ==> same_set(&uf, (#[trigger] edges@[k]).cell1, edges@[k].cell2, width),
            forall|i: int|
                0 <= i < edges@.len() ==> is_edge_of(#[trigger] edges@[i], width, height),
            forall|c: (u8, u8)|
                maze.spec_in_bounds(c) ==> #[trigger] maze.spec_cell(c) == GridCell::empty(),
        decreases edges@.len() - i,
    {
        let edge = edges[i];
        let (x1, y1) = edge.cell1;
        let (x2, y2) = edge.cell2;
        assert(is_edge_of(edge, width, height));
        assert(y1 * width + x1 < width * height && y2 * width + x2 < width * height)
            by (nonlinear_arith)
            requires
                x1 < width,
                x2 < width,
                y1 < height,
                y2 < height,
        ;
        assert(y1 * width <= 65025 && y2 * width <= 65025) by (nonlinear_arith)
            requires
                y1 < 255,
                y2 < 255,
                width <= 255,
        ;
        let idx1: u16 = (y1 as u16) * (width as u16) + (x1 as u16);
        let idx2: u16 = (y2 as u16) * (width as u16) + (x2 as u16);
        let ghost entry_sets = uf;
        let root1 = uf.find(idx1);
        let ghost found1 = uf;
        let root2 = uf.find(idx2);
        let ghost found = uf;
        proof {
            assert forall|z: int| 0 <= z < width * height implies #[trigger] found.root_of(z)
                == entry_sets.root_of(z) by {
                assert(found1.root_of(z) == entry_sets.root_of(z));
            }
            lemma_sets_same(maze, &entry_sets, &found);
            lemma_gaps_same(maze, &entry_sets, &found);
            entry_sets.lemma_sets_kept(&found);
            assert forall|k: int| 0 <= k < i implies same_set(
                &found,
                (#[trigger] edges@[k]).cell1,
                edges@[k].cell2,
                width,
            ) by {
                assert(is_edge_of(edges@[k], width, height));
                lemma_cell_number(edges@[k].cell1, edges@[k].cell2, width, height);
                lemma_cell_number(edges@[k].cell2, edges@[k].cell1, width, height);
                assert(same_set(&entry_sets, edges@[k].cell1, edges@[k].cell2, width));
            }
        }
        if root1 != root2 {
            let united = uf.unite(idx1, idx2);
            let ghost mid = *maze;
            let removed = open_between(maze, edge.cell1, edge.cell2);
            proof {
                maze.lemma_extends_chain(&mid, old(maze));
                mid.lemma_wf();
                lemma_opened_between(&mid, maze, edge.cell1, edge.cell2, removed);
                lemma_boundary_chain(old(maze), &mid, maze);
                assert(cell_number(edge.cell1, width) == idx1 as int);
                assert(cell_number(edge.cell2, width) == idx2 as int);
                assert(found.root_of(idx1 as int) == entry_sets.root_of(idx1 as int));
                assert(found.root_of(idx2 as int) == root2);
                assert(united);
                assert(!same_set(&found, edge.cell1, edge.cell2, width));
                assert(!passable(&mid, edge.cell1, edge.cell2));
                assert(removed);
                lemma_put_one_more(&mid, maze, edge.cell1, edge.cell2);
                lemma_one_more_open(
                    &mid,
                    maze,
                    wall_between(edge.cell1, edge.cell2).0,
                    wall_between(edge.cell1, edge.cell2).1,
                );
                found.lemma_sets_united(&uf, idx1 as int, idx2 as int);
                lemma_gaps_unite(&mid, maze, &found, &uf, edge.cell1, edge.cell2);
                lemma_sets_joined_unite(&mid, maze, &found, &uf, edge.cell1, edge.cell2);
                assert forall|k: int| 0 <= k < i + 1 implies same_set(
                    &uf,
                    (#[trigger] edges@[k]).cell1,
                    edges@[k].cell2,
                    width,
                ) by {
                    assert(is_edge_of(edges@[k], width, height));
                    lemma_cell_number(edges@[k].cell1, edges@[k].cell2, width, height);
                    lemma_cell_number(edges@[k].cell2, edges@[k].cell1, width, height);
                    if k < i {
                        assert(same_set(&found, edges@[k].cell1, edges@[k].cell2, width));
                    }
                }
            }
        }
        i += 1;
    }
    proof {
        if width > 0 && height > 0 {
            assert forall|a: (u8, u8), b: (u8, u8)|
                a.0 < width && a.1 < height && b.0 < width && b.1 < height
                    && #[trigger] are_neighbors(a, b) implies same_set(&uf, a, b, width) by {
                let (lo, hi) = if b.0 < a.0 || b.1 < a.1 {
                    (b, a)
                } else {
                    (a, b)
                };
                lemma_cell_number(lo, hi, width, height);
                lemma_edges_complete(width, height, (width * height) as nat, lo, hi);
                let wanted = Edge { cell1: lo, cell2: hi };
                assert(ordered.contains(wanted));
                assert(ordered.to_multiset().count(wanted) > 0);
                assert(edges@.to_multiset().count(wanted) > 0);
                assert(edges@.contains(wanted));
                let k = choose|k: int| 0 <= k < edges@.len() && edges@[k] == wanted;
                assert(same_set(&uf, edges@[k].cell1, edges@[k].cell2, width));
            }
            let from = (0u8, 0u8);
            assert forall|c: (u8, u8)| maze.spec_in_bounds(c) implies #[trigger] joined(
                maze,
                from,
                c,
            ) by {
                lemma_one_set(&uf, width, height, from, c);
            }
            assert(maze.spec_in_bounds(from));
            let r = uf.root_of(0);
            assert(0 < width * height) by (nonlinear_arith)
                requires
                    width > 0,
                    height > 0,
            ;
            uf.lemma_representative(0);
            lemma_cell_number(from, from, width, height);
            assert forall|z: int| 0 <= z < uf.spec_len() implies #[trigger] uf.root_of(z) == r by {
                lemma_number_is_cell(z, width, height);
                let c = ((z % (width as int)) as u8, (z / (width as int)) as u8);
                lemma_one_set(&uf, width, height, from, c);
            }
            uf.lemma_sets_one(r);
        }
    }
}

/// Sets that stand for the same cells keep their cells joined.
proof fn lemma_sets_same(maze: &Maze, sets: &UnionFind, same: &UnionFind)
    requires
        maze.wf(),
        sets_joined(maze, sets),
        forall|z: int|
            0 <= z < maze.spec_width() * maze.spec_height() ==> #[trigger] same.root_of(z)
                == sets.root_of(z),
    ensures
        sets_joined(maze, same),
{
    assert forall|a: (u8, u8), b: (u8, u8)|
        maze.spec_in_bounds(a) && maze.spec_in_bounds(b) && same.root_of(
            cell_number(a, maze.spec_width()),
        ) == same.root_of(cell_number(b, maze.spec_width())) implies #[trigger] joined(
        maze,
        a,
        b,
    ) by {
        lemma_cell_number(a, b, maze.spec_width(), maze.spec_height());
        lemma_cell_number(b, a, maze.spec_width(), maze.spec_height());
    }
}

} // verus!
