use vstd::prelude::*;
use vstd::arithmetic::power2::{lemma2_to64, lemma_pow2_strictly_increases, lemma_pow2_unfold, pow2};

verus! {

/// Disjoint sets over `0..n`, with union by rank and path compression.
///
/// Its view gives, for each element, the root that represents its set. Ranks
/// strictly increase along parent links, and a root of rank `k` represents at
/// least `2^k` elements, so every walk towards a root is shorter than `log2 n`.
pub struct UnionFind {
    parent: Vec<usize>,
    rank: Vec<u8>,
    rep: Ghost<Seq<int>>,
}

/// `after` is `before` with the sets of `x` and `y` joined: two elements are
/// together afterwards exactly when they were before, or one was with `x` and
/// the other with `y`.
pub open spec fn joined(before: Seq<int>, after: Seq<int>, x: int, y: int) -> bool {
    &&& after.len() == before.len()
    &&& forall|a: int, b: int|
        0 <= a < before.len() && 0 <= b < before.len() ==> (#[trigger] after[a] == #[trigger] after[b]
            <==> (before[a] == before[b] || (before[a] == before[x] && before[b] == before[y]) || (
        before[a] == before[y] && before[b] == before[x])))
}

/// Number of elements below `k` whose representative is `r`.
pub open spec fn set_size(reps: Seq<int>, r: int, k: int) -> nat
    decreases k,
{
    if k <= 0 {
        0
    } else {
        set_size(reps, r, k - 1) + if reps[k - 1] == r { 1nat } else { 0nat }
    }
}

/// `reps` with the set of root `child` hung under root `root`.
pub open spec fn relinked(reps: Seq<int>, child: int, root: int) -> Seq<int> {
    Seq::new(reps.len(), |z: int| if reps[z] == child { root } else { reps[z] })
}

proof fn lemma_size_at_most(reps: Seq<int>, r: int, k: int)
    requires
        k >= 0,
    ensures
        set_size(reps, r, k) <= k,
    decreases k,
{
    if k > 0 {
        lemma_size_at_most(reps, r, k - 1);
    }
}

proof fn lemma_size_singletons(n: nat, r: int, k: int)
    requires
        0 <= r < k <= n,
    ensures
        set_size(Seq::new(n, |i: int| i), r, k) == 1,
    decreases k,
{
    let reps = Seq::new(n, |i: int| i);
    if k - 1 > r {
        lemma_size_singletons(n, r, k - 1);
    } else {
        lemma_size_none(reps, r, k - 1);
    }
}

proof fn lemma_size_none(reps: Seq<int>, r: int, k: int)
    requires
        0 <= k <= reps.len(),
        forall|i: int| 0 <= i < k ==> reps[i] != r,
    ensures
        set_size(reps, r, k) == 0,
    decreases k,
{
    if k > 0 {
        lemma_size_none(reps, r, k - 1);
    }
}

proof fn lemma_size_relinked(reps: Seq<int>, child: int, root: int, r: int, k: int)
    requires
        child != root,
        0 <= k <= reps.len(),
    ensures
        r == root ==> set_size(relinked(reps, child, root), r, k) == set_size(reps, root, k) + set_size(
            reps,
            child,
            k,
        ),
        r != root && r != child ==> set_size(relinked(reps, child, root), r, k) == set_size(reps, r, k),
    decreases k,
{
    if k > 0 {
        lemma_size_relinked(reps, child, root, r, k - 1);
    }
}

impl View for UnionFind {
    type V = Seq<int>;

    closed spec fn view(&self) -> Seq<int> {
        self.rep@
    }
}

impl UnionFind {
    /// The parent link of each element.
    pub closed spec fn parents(&self) -> Seq<usize> {
        self.parent@
    }

    /// The rank of each element.
    pub closed spec fn ranks(&self) -> Seq<u8> {
        self.rank@
    }

    pub closed spec fn inv(&self) -> bool {
        let n = self.parent@.len();
        &&& self.rank@.len() == n
        &&& self.rep@.len() == n
        &&& forall|z: int| 0 <= z < n ==> (#[trigger] self.parent@[z] as int) < n
        &&& forall|z: int| 0 <= z < n ==> 0 <= #[trigger] self.rep@[z] < n
        &&& forall|z: int| 0 <= z < n ==> self.parent@[#[trigger] self.rep@[z]] as int == self.rep@[z]
        &&& forall|z: int| 0 <= z < n ==> self.rep@[#[trigger] self.parent@[z] as int] == self.rep@[z]
        &&& forall|z: int| 0 <= z < n && #[trigger] self.parent@[z] as int == z ==> self.rep@[z] == z
        &&& forall|z: int|
            0 <= z < n && #[trigger] self.parent@[z] as int != z ==> self.rank@[z] < self.rank@[self.parent@[z] as int]
        &&& forall|z: int|
            0 <= z < n && #[trigger] self.rep@[z] != z ==> self.rank@[z] < self.rank@[self.rep@[z]]
        &&& forall|z: int|
            0 <= z < n && #[trigger] self.parent@[z] as int == z ==> pow2(self.rank@[z] as nat) <= set_size(
                self.rep@,
                z,
                n as int,
            )
    }

    /// The structure is consistent; each element's representative represents
    /// itself; ranks rise along parent links; and `2^rank` never exceeds the
    /// number of elements, so no walk to a root takes more than `log2 n` steps.
    pub open spec fn well_formed(&self) -> bool {
        &&& self.inv()
        &&& self.parents().len() == self@.len()
        &&& self.ranks().len() == self@.len()
        &&& forall|z: int| 0 <= z < self@.len() ==> 0 <= #[trigger] self@[z] < self@.len()
        &&& forall|z: int| 0 <= z < self@.len() ==> self@[#[trigger] self@[z]] == self@[z]
        &&& forall|z: int|
            0 <= z < self@.len() && #[trigger] self.parents()[z] as int != z ==> self.ranks()[z]
                < self.ranks()[self.parents()[z] as int]
        &&& forall|z: int| 0 <= z < self@.len() ==> pow2(#[trigger] self.ranks()[z] as nat) <= self@.len()
    }

    proof fn lemma_well_formed(&self)
        requires
            self.inv(),
        ensures
            self.well_formed(),
    {
        let n = self.parent@.len() as int;
        assert forall|z: int| 0 <= z < self@.len() implies self@[#[trigger] self@[z]] == self@[z] by {
            let r = self.rep@[z];
            assert(self.parent@[r] as int == r);
        }
        assert forall|z: int| 0 <= z < self@.len() implies pow2(#[trigger] self.ranks()[z] as nat) <= self@.len() by {
            let r = self.rep@[z];
            assert(self.parent@[r] as int == r);
            lemma_size_at_most(self.rep@, r, n);
            if r != z {
                lemma_pow2_strictly_increases(self.rank@[z] as nat, self.rank@[r] as nat);
            }
        }
    }

    /// `n` elements, each alone in its set, of rank 0.
    pub fn new(n: usize) -> (r: Self)
        ensures
            r.well_formed(),
            r@ == Seq::new(n as nat, |i: int| i),
            r.parents() == Seq::new(n as nat, |i: int| i as usize),
            r.ranks() == Seq::new(n as nat, |i: int| 0u8),
    {
        let mut parent: Vec<usize> = Vec::new();
        let mut rank: Vec<u8> = Vec::new();
        let mut i: usize = 0;
        while i < n
            invariant
                i <= n,
                parent@.len() == i,
                rank@.len() == i,
                forall|z: int| 0 <= z < i ==> #[trigger] parent@[z] as int == z,
                forall|z: int| 0 <= z < i ==> #[trigger] rank@[z] == 0,
            decreases n - i,
        {
            parent.push(i);
            rank.push(0);
            i = i + 1;
        }
        let r = UnionFind { parent, rank, rep: Ghost(Seq::new(n as nat, |i: int| i)) };
        proof {
            assert(r.parents() =~= Seq::new(n as nat, |i: int| i as usize));
            assert(r.ranks() =~= Seq::new(n as nat, |i: int| 0u8));
            assert forall|z: int| 0 <= z < n && #[trigger] r.parent@[z] as int == z implies pow2(r.rank@[z] as nat)
                <= set_size(r.rep@, z, n as int) by {
                lemma2_to64();
                lemma_size_singletons(n as nat, z, n as int);
            }
            r.lemma_well_formed();
        }
        r
    }

    /// Number of elements.
    pub fn len(&self) -> (r: usize)
        requires
            self.well_formed(),
        ensures
            r == self@.len(),
    {
        self.parent.len()
    }

    /// The representative of `x`'s set. Every link walked, `x`'s included, is
    /// pointed straight at it; sets and ranks stay as they were.
    pub fn find(&mut self, x: usize) -> (r: usize)
        requires
            old(self).well_formed(),
            x < old(self)@.len(),
        ensures
            final(self).well_formed(),
            final(self)@ == old(self)@,
            final(self).ranks() == old(self).ranks(),
            r == old(self)@[x as int],
            final(self).parents()[x as int] == r,
            final(self).parents()[r as int] == r,
    {
        let mut root = x;
        while self.parent[root] != root
            invariant
                self.inv(),
                root < self.parent@.len(),
                self.rep@[root as int] == self.rep@[x as int],
            decreases 256 - self.rank@[root as int],
        {
            root = self.parent[root];
        }
        let mut cur = x;
        while cur != root
            invariant
                self.inv(),
                self.rep@ == old(self).rep@,
                self.rank@ == old(self).rank@,
                self.parent@.len() == old(self).parent@.len(),
                cur < self.parent@.len(),
                root < self.parent@.len(),
                self.parent@[root as int] == root,
                self.rep@[root as int] == root,
                self.rep@[cur as int] == root,
                self.rep@[x as int] == root,
                x < self.parent@.len(),
                cur == x || self.parent@[x as int] == root,
            decreases 256 - self.rank@[cur as int],
        {
            let next = self.parent[cur];
            assert(next != cur);
            let ghost prev_parent = self.parent@;
            self.parent[cur] = root;
            assert(self.parent@[cur as int] as int == root);
            assert forall|z: int| 0 <= z < self.parent@.len() implies self.parent@[#[trigger] self.rep@[z]] as int
                == self.rep@[z] by {
                assert(old(self).rep@[z] != cur);
            }
            assert forall|z: int| 0 <= z < self.parent@.len() && #[trigger] self.parent@[z] as int == z implies pow2(
                self.rank@[z] as nat,
            ) <= set_size(self.rep@, z, self.parent@.len() as int) by {
                if z != cur {
                    assert(self.parent@[z] == prev_parent[z]);
                    assert(prev_parent[z] as int == z);
                }
            }
            cur = next;
        }
        proof {
            self.lemma_well_formed();
        }
        root
    }

    /// Hangs root `child` under root `root`, raising the rank of `root` by one
    /// when `bump`.
    fn link(&mut self, child: usize, root: usize, bump: bool)
        requires
            old(self).inv(),
            child < old(self).parent@.len(),
            root < old(self).parent@.len(),
            child != root,
            old(self).parent@[child as int] == child,
            old(self).parent@[root as int] == root,
            old(self).rank@[child as int] <= old(self).rank@[root as int],
            bump == (old(self).rank@[child as int] == old(self).rank@[root as int]),
        ensures
            final(self).inv(),
            final(self).parent@.len() == old(self).parent@.len(),
            final(self).rep@ == relinked(old(self).rep@, child as int, root as int),
            final(self).rank@ == if bump {
                old(self).rank@.update(root as int, (old(self).rank@[root as int] + 1) as u8)
            } else {
                old(self).rank@
            },
    {
        let ghost old_rep = self.rep@;
        let ghost old_rank = self.rank@;
        let len = self.parent.len();
        let ghost n = len as int;
        proof {
            assert(old_rep[child as int] == child);
            assert(old_rep[root as int] == root);
            lemma_size_relinked(old_rep, child as int, root as int, root as int, n);
            lemma_size_at_most(relinked(old_rep, child as int, root as int), root as int, n);
            if bump {
                let k = old_rank[root as int] as nat;
                assert(pow2(k) <= set_size(old_rep, root as int, n));
                assert(pow2(old_rank[child as int] as nat) <= set_size(old_rep, child as int, n));
                assert(n <= usize::MAX);
                lemma_pow2_unfold(k + 1);
                lemma2_to64();
                if k + 1 >= 64 {
                    if k + 1 > 64 {
                        lemma_pow2_strictly_increases(64, k + 1);
                    }
                }
                assert(k + 1 < 64);
            }
        }
        self.parent[child] = root;
        if bump {
            self.rank[root] = self.rank[root] + 1;
        }
        proof {
            self.rep@ = relinked(old_rep, child as int, root as int);
            assert forall|z: int| 0 <= z < n && #[trigger] self.parent@[z] as int != z implies self.rank@[z]
                < self.rank@[self.parent@[z] as int] by {
                if z != child {
                    assert(old(self).parent@[z] as int != z);
                }
            }
            assert forall|z: int| 0 <= z < n && #[trigger] self.rep@[z] != z implies self.rank@[z]
                < self.rank@[self.rep@[z]] by {
                if old_rep[z] == child && z != child {
                    assert(old_rank[z] < old_rank[child as int]);
                }
            }
            assert forall|z: int| 0 <= z < n implies self.rep@[#[trigger] self.parent@[z] as int] == self.rep@[z] by {
                if z != child {
                    assert(old_rep[old(self).parent@[z] as int] == old_rep[z]);
                }
            }
            assert forall|z: int| 0 <= z < n && #[trigger] self.parent@[z] as int == z implies self.rep@[z] == z by {
                if z != child {
                    assert(old(self).parent@[z] as int == z);
                }
            }
            assert forall|z: int| 0 <= z < n implies self.parent@[#[trigger] self.rep@[z]] as int == self.rep@[z] by {
                if old_rep[z] != child {
                    assert(old(self).parent@[old_rep[z]] as int == old_rep[z]);
                }
            }
            assert forall|z: int| 0 <= z < n && #[trigger] self.parent@[z] as int == z implies pow2(
                self.rank@[z] as nat,
            ) <= set_size(self.rep@, z, n) by {
                assert(z != child);
                assert(old(self).parent@[z] as int == z);
                lemma_size_relinked(old_rep, child as int, root as int, z, n);
                if z == root as int {
                    if bump {
                        lemma_pow2_unfold(old_rank[z] as nat + 1);
                    }
                }
            }
        }
    }

    /// Joins the sets of `x` and `y`. When they are already one set nothing
    /// but links changes. Otherwise the root of lower rank is hung under the
    /// other, `y`'s root under `x`'s on a tie, and only a tie raises a rank.
    pub fn union(&mut self, x: usize, y: usize)
        requires
            old(self).well_formed(),
            x < old(self)@.len(),
            y < old(self)@.len(),
        ensures
            final(self).well_formed(),
            joined(old(self)@, final(self)@, x as int, y as int),
            old(self)@[x as int] == old(self)@[y as int] ==> final(self)@ == old(self)@ && final(self).ranks()
                == old(self).ranks(),
            old(self)@[x as int] != old(self)@[y as int] ==> ({
                let px = old(self)@[x as int];
                let py = old(self)@[y as int];
                let rx = old(self).ranks()[px];
                let ry = old(self).ranks()[py];
                let root = if rx < ry { py } else { px };
                let child = if rx < ry { px } else { py };
                &&& final(self)@ == relinked(old(self)@, child, root)
                &&& final(self).ranks() == if rx == ry {
                    old(self).ranks().update(px, (rx + 1) as u8)
                } else {
                    old(self).ranks()
                }
            }),
    {
        let ghost before = self@;
        let px = self.find(x);
        let py = self.find(y);
        if px == py {
            return;
        }
        if self.rank[px] < self.rank[py] {
            self.link(px, py, false);
        } else if self.rank[px] > self.rank[py] {
            self.link(py, px, false);
        } else {
            self.link(py, px, true);
        }
        proof {
            self.lemma_well_formed();
        }
    }
}

} // verus!
