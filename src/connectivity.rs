use vstd::prelude::*;
use crate::adjacency::{adjacent, are_face_adjacent};
use crate::spatial_hash::{
    bucket_lists, cell, cells_of, in_cell, indexes, is_cell_list, lemma_cell_ordered, lists_cover, CellKey,
    SpatialHash,
};
use crate::buckets::holds;
use crate::types::{all_well_formed, hi, lo, Cuboid};
use crate::union_find::{joined, UnionFind};

verus! {

/// `p` walks from box to box of `s`, each step between adjacent boxes.
pub open spec fn is_chain(s: Seq<Cuboid>, p: Seq<int>) -> bool {
    &&& p.len() > 0
    &&& forall|t: int| 0 <= t < p.len() ==> 0 <= #[trigger] p[t] < s.len()
    &&& forall|t: int| 0 <= t < p.len() - 1 ==> adjacent(s[p[t]], #[trigger] s[p[t + 1]])
}

/// Boxes `a` and `b` of `s` are joined by a chain of face adjacencies.
pub open spec fn connected(s: Seq<Cuboid>, a: int, b: int) -> bool {
    exists|p: Seq<int>| is_chain(s, p) && p[0] == a && p.last() == b
}

pub proof fn lemma_connected_self(s: Seq<Cuboid>, a: int)
    requires
        0 <= a < s.len(),
    ensures
        connected(s, a, a),
{
    let p = seq![a];
    assert(p[0] == a);
    assert(p.last() == a);
    assert(is_chain(s, p));
}

/// A chain to `x`, a step from `x` to `y` and a chain from `y` make a chain.
pub proof fn lemma_connected_step(s: Seq<Cuboid>, a: int, x: int, y: int, b: int)
    requires
        connected(s, a, x),
        adjacent(s[x], s[y]),
        connected(s, y, b),
    ensures
        connected(s, a, b),
{
    let first = choose|p: Seq<int>| is_chain(s, p) && p[0] == a && p.last() == x;
    let second = choose|p: Seq<int>| is_chain(s, p) && p[0] == y && p.last() == b;
    let p = first + second;
    assert forall|t: int| 0 <= t < p.len() implies 0 <= #[trigger] p[t] < s.len() by {
        if t < first.len() {
            assert(p[t] == first[t]);
        } else {
            assert(p[t] == second[t - first.len()]);
        }
    }
    assert forall|t: int| 0 <= t < p.len() - 1 implies adjacent(s[p[t]], #[trigger] s[p[t + 1]]) by {
        if t < first.len() - 1 {
            assert(p[t] == first[t]);
            assert(p[t + 1] == first[t + 1]);
        } else if t == first.len() - 1 {
            assert(p[t] == x);
            assert(p[t + 1] == y);
        } else {
            assert(p[t] == second[t - first.len()]);
            assert(p[t + 1] == second[t - first.len() + 1]);
        }
    }
    assert(p[0] == a);
    assert(p.last() == b);
    assert(is_chain(s, p));
}

/// A cell that two adjacent boxes both reach.
pub open spec fn shared_cell(a: Cuboid, b: Cuboid) -> CellKey {
    (
        cell(if lo(a, 0) >= lo(b, 0) { lo(a, 0) } else { lo(b, 0) }) as i32,
        cell(if lo(a, 1) >= lo(b, 1) { lo(a, 1) } else { lo(b, 1) }) as i32,
        cell(if lo(a, 2) >= lo(b, 2) { lo(a, 2) } else { lo(b, 2) }) as i32,
    )
}

/// Adjacent boxes share a cell of the grid, so the spatial hash lists them
/// together.
pub proof fn lemma_adjacent_share_cell(a: Cuboid, b: Cuboid)
    requires
        a.well_formed(),
        b.well_formed(),
        adjacent(a, b),
    ensures
        in_cell(a, shared_cell(a, b)),
        in_cell(b, shared_cell(a, b)),
{
    lemma_axis_shared(a, b, 0);
    lemma_axis_shared(a, b, 1);
    lemma_axis_shared(a, b, 2);
}

proof fn lemma_axis_shared(a: Cuboid, b: Cuboid, axis: int)
    requires
        a.well_formed(),
        b.well_formed(),
        adjacent(a, b),
        0 <= axis < 3,
    ensures
        ({
            let m = if lo(a, axis) >= lo(b, axis) { lo(a, axis) } else { lo(b, axis) };
            &&& cell(lo(a, axis)) <= cell(m) <= cell(hi(a, axis))
            &&& cell(lo(b, axis)) <= cell(m) <= cell(hi(b, axis))
        }),
{
    let m = if lo(a, axis) >= lo(b, axis) { lo(a, axis) } else { lo(b, axis) };
    assert(m <= hi(a, axis) && m <= hi(b, axis));
    lemma_cell_ordered(lo(a, axis), m);
    lemma_cell_ordered(lo(b, axis), m);
    lemma_cell_ordered(m, hi(a, axis));
    lemma_cell_ordered(m, hi(b, axis));
}

/// Boxes of `s` that the sets of `reps` put together are connected.
pub open spec fn sets_connected(s: Seq<Cuboid>, reps: Seq<int>) -> bool {
    forall|a: int, b: int|
        0 <= a < s.len() && 0 <= b < s.len() && #[trigger] reps[a] == #[trigger] reps[b] ==> connected(s, a, b)
}

/// Adjacent boxes of `s` are in one set of `reps`.
pub open spec fn adjacent_together(s: Seq<Cuboid>, reps: Seq<int>) -> bool {
    forall|a: int, b: int|
        0 <= a < s.len() && 0 <= b < s.len() && adjacent(#[trigger] s[a], #[trigger] s[b]) ==> reps[a] == reps[b]
}

spec fn lists_in_range(lists: Seq<Vec<usize>>, n: int) -> bool {
    forall|u: int, p: int| 0 <= u < lists.len() && 0 <= p < lists[u]@.len() ==> #[trigger] lists[u]@[p] < n
}

proof fn lemma_lists_in_range(s: Seq<Cuboid>, cells: Map<CellKey, Seq<usize>>, lists: Seq<Vec<usize>>)
    requires
        indexes(cells, s),
        lists_cover(cells, lists),
    ensures
        lists_in_range(lists, s.len() as int),
{
    assert forall|u: int, p: int| 0 <= u < lists.len() && 0 <= p < lists[u]@.len() implies #[trigger] lists[u]@[p]
        < s.len() by {
        assert(is_cell_list(cells, lists[u]@));
        let k = choose|k: CellKey| cells.contains_key(k) && lists[u]@ == cells[k];
        assert(holds(cells, k, lists[u]@[p]));
    }
}

spec fn before_pos(u: int, p: int, q: int, t: int, i: int, j: int) -> bool {
    u < t || (u == t && (p < i || (p == i && q < j)))
}

/// Each adjacent pair of boxes listed together in one of the first `t` lists,
/// and in list `t` at positions `(p, q)` before `(i, j)`, is in one set.
spec fn pairs_done(s: Seq<Cuboid>, lists: Seq<Vec<usize>>, reps: Seq<int>, t: int, i: int, j: int) -> bool {
    forall|u: int, p: int, q: int|
        0 <= u < lists.len() && 0 <= p < q < lists[u]@.len() && #[trigger] before_pos(u, p, q, t, i, j) && adjacent(
            s[lists[u]@[p] as int],
            s[lists[u]@[q] as int],
        ) ==> reps[lists[u]@[p] as int] == reps[lists[u]@[q] as int]
}

proof fn lemma_pairs_done_shrink(
    s: Seq<Cuboid>,
    lists: Seq<Vec<usize>>,
    reps: Seq<int>,
    t: int,
    i: int,
    j: int,
    t2: int,
    i2: int,
    j2: int,
)
    requires
        pairs_done(s, lists, reps, t, i, j),
        forall|u: int, p: int, q: int|
            0 <= u < lists.len() && 0 <= p < q < lists[u]@.len() && #[trigger] before_pos(u, p, q, t2, i2, j2)
                ==> before_pos(u, p, q, t, i, j),
    ensures
        pairs_done(s, lists, reps, t2, i2, j2),
{
    assert forall|u: int, p: int, q: int|
        0 <= u < lists.len() && 0 <= p < q < lists[u]@.len() && #[trigger] before_pos(u, p, q, t2, i2, j2) && adjacent(
            s[lists[u]@[p] as int],
            s[lists[u]@[q] as int],
        ) implies reps[lists[u]@[p] as int] == reps[lists[u]@[q] as int] by {
        assert(before_pos(u, p, q, t, i, j));
    }
}

proof fn lemma_skip_pair(s: Seq<Cuboid>, lists: Seq<Vec<usize>>, reps: Seq<int>, t: int, i: int, j: int)
    requires
        pairs_done(s, lists, reps, t, i, j),
        0 <= t < lists.len(),
        0 <= i < j < lists[t]@.len(),
        !adjacent(s[lists[t]@[i] as int], s[lists[t]@[j] as int]),
    ensures
        pairs_done(s, lists, reps, t, i, j + 1),
{
    assert forall|u: int, p: int, q: int|
        0 <= u < lists.len() && 0 <= p < q < lists[u]@.len() && #[trigger] before_pos(u, p, q, t, i, j + 1) && adjacent(
            s[lists[u]@[p] as int],
            s[lists[u]@[q] as int],
        ) implies reps[lists[u]@[p] as int] == reps[lists[u]@[q] as int] by {
        if !(u == t && p == i && q == j) {
            assert(before_pos(u, p, q, t, i, j));
        }
    }
}

proof fn lemma_union_pair(
    s: Seq<Cuboid>,
    lists: Seq<Vec<usize>>,
    before: Seq<int>,
    after: Seq<int>,
    t: int,
    i: int,
    j: int,
)
    requires
        before.len() == s.len(),
        sets_connected(s, before),
        pairs_done(s, lists, before, t, i, j),
        0 <= t < lists.len(),
        0 <= i < j < lists[t]@.len(),
        lists_in_range(lists, s.len() as int),
        adjacent(s[lists[t]@[i] as int], s[lists[t]@[j] as int]),
        joined(before, after, lists[t]@[i] as int, lists[t]@[j] as int),
    ensures
        sets_connected(s, after),
        pairs_done(s, lists, after, t, i, j + 1),
{
    let a = lists[t]@[i] as int;
    let b = lists[t]@[j] as int;
    assert(a < s.len() && b < s.len());
    assert forall|x: int, y: int|
        0 <= x < s.len() && 0 <= y < s.len() && #[trigger] after[x] == #[trigger] after[y] implies connected(s, x, y) by {
        if before[x] == before[y] {
        } else if before[x] == before[a] && before[y] == before[b] {
            lemma_connected_step(s, x, a, b, y);
        } else {
            lemma_connected_step(s, x, b, a, y);
        }
    }
    assert forall|u: int, p: int, q: int|
        0 <= u < lists.len() && 0 <= p < q < lists[u]@.len() && #[trigger] before_pos(u, p, q, t, i, j + 1) && adjacent(
            s[lists[u]@[p] as int],
            s[lists[u]@[q] as int],
        ) implies after[lists[u]@[p] as int] == after[lists[u]@[q] as int] by {
        let x = lists[u]@[p] as int;
        let y = lists[u]@[q] as int;
        assert(x < s.len() && y < s.len());
        if u == t && p == i && q == j {
            assert(x == a && y == b);
            assert(before[a] == before[a] && before[b] == before[b]);
            assert(after[a] == after[b]);
        } else {
            assert(before_pos(u, p, q, t, i, j));
            assert(before[x] == before[y]);
            assert(after[x] == after[y]);
        }
    }
}

/// Once every listed pair is done, adjacent boxes are in one set.
proof fn lemma_all_pairs_done(
    s: Seq<Cuboid>,
    cells: Map<CellKey, Seq<usize>>,
    lists: Seq<Vec<usize>>,
    reps: Seq<int>,
)
    requires
        all_well_formed(s),
        s.len() <= usize::MAX,
        indexes(cells, s),
        lists_cover(cells, lists),
        pairs_done(s, lists, reps, lists.len() as int, 0, 0),
    ensures
        adjacent_together(s, reps),
{
    assert forall|a: int, b: int|
        0 <= a < s.len() && 0 <= b < s.len() && adjacent(#[trigger] s[a], #[trigger] s[b]) implies reps[a] == reps[b] by {
        if a != b {
            assert(s[a].well_formed());
            assert(s[b].well_formed());
            lemma_adjacent_share_cell(s[a], s[b]);
            let k = shared_cell(s[a], s[b]);
            assert((a as usize) as int == a);
            assert((b as usize) as int == b);
            assert(in_cell(s[a], k));
            assert(holds(cells, k, a as usize));
            assert(holds(cells, k, b as usize));
            assert(cells.contains_key(k));
            let u = choose|u: int| 0 <= u < lists.len() && lists[u]@ == cells[k];
            let l = lists[u]@;
            let p = choose|p: int| 0 <= p < l.len() && l[p] == a as usize;
            let q = choose|q: int| 0 <= q < l.len() && l[q] == b as usize;
            if p < q {
                assert(before_pos(u, p, q, lists.len() as int, 0, 0));
            } else {
                assert(adjacent(s[b], s[a]));
                assert(before_pos(u, q, p, lists.len() as int, 0, 0));
            }
        }
    }
}

/// Joins adjacent boxes that the spatial hash lists in one cell.
pub fn join_adjacent(cuboids: &[Cuboid], hash: &SpatialHash) -> (uf: UnionFind)
    requires
        all_well_formed(cuboids@),
        indexes(cells_of(*hash), cuboids@),
    ensures
        uf.well_formed(),
        uf@.len() == cuboids@.len(),
        sets_connected(cuboids@, uf@),
        adjacent_together(cuboids@, uf@),
{
    let n = cuboids.len();
    let mut uf = UnionFind::new(n);
    let ghost s = cuboids@;
    proof {
        assert forall|a: int, b: int|
            0 <= a < s.len() && 0 <= b < s.len() && #[trigger] uf@[a] == #[trigger] uf@[b] implies connected(s, a, b) by {
            lemma_connected_self(s, a);
        }
    }
    let lists = bucket_lists(hash);
    proof {
        lemma_lists_in_range(s, cells_of(*hash), lists@);
    }
    let mut t: usize = 0;
    while t < lists.len()
        invariant
            s == cuboids@,
            n == s.len(),
            indexes(cells_of(*hash), s),
            lists_cover(cells_of(*hash), lists@),
            lists_in_range(lists@, n as int),
            t <= lists.len(),
            uf.well_formed(),
            uf@.len() == n,
            sets_connected(s, uf@),
            pairs_done(s, lists@, uf@, t as int, 0, 0),
        decreases lists.len() - t,
    {
        let list = &lists[t];
        proof {
            assert(is_cell_list(cells_of(*hash), lists@[t as int]@));
            let k0 = choose|k: CellKey| cells_of(*hash).contains_key(k) && lists@[t as int]@ == cells_of(*hash)[k];
            assert forall|p: int| 0 <= p < list@.len() implies (#[trigger] list@[p]) < n by {
                assert(holds(cells_of(*hash), k0, list@[p]));
            }
        }
        let mut i: usize = 0;
        while i < list.len()
            invariant
                s == cuboids@,
                n == s.len(),
                t < lists.len(),
                lists_in_range(lists@, n as int),
                *list == lists@[t as int],
                forall|p: int| 0 <= p < list@.len() ==> (#[trigger] list@[p]) < n,
                i <= list.len(),
                uf.well_formed(),
                uf@.len() == n,
                sets_connected(s, uf@),
                pairs_done(s, lists@, uf@, t as int, i as int, 0),
            decreases list.len() - i,
        {
            let mut j: usize = i + 1;
            proof {
                lemma_pairs_done_shrink(s, lists@, uf@, t as int, i as int, 0, t as int, i as int, j as int);
            }
            while j < list.len()
                invariant
                    s == cuboids@,
                    n == s.len(),
                    t < lists.len(),
                    lists_in_range(lists@, n as int),
                    *list == lists@[t as int],
                    forall|p: int| 0 <= p < list@.len() ==> (#[trigger] list@[p]) < n,
                    i < list.len(),
                    i < j <= list.len(),
                    uf.well_formed(),
                    uf@.len() == n,
                    sets_connected(s, uf@),
                    pairs_done(s, lists@, uf@, t as int, i as int, j as int),
                decreases list.len() - j,
            {
                let a = list[i];
                let b = list[j];
                let ghost before = uf@;
                if are_face_adjacent(&cuboids[a], &cuboids[b]) {
                    uf.union(a, b);
                    proof {
                        lemma_union_pair(s, lists@, before, uf@, t as int, i as int, j as int);
                    }
                } else {
                    proof {
                        lemma_skip_pair(s, lists@, uf@, t as int, i as int, j as int);
                    }
                }
                j = j + 1;
            }
            proof {
                lemma_pairs_done_shrink(s, lists@, uf@, t as int, i as int, j as int, t as int, i + 1, 0);
            }
            i = i + 1;
        }
        proof {
            lemma_pairs_done_shrink(s, lists@, uf@, t as int, i as int, 0, t + 1, 0, 0);
        }
        t = t + 1;
    }
    proof {
        assert(s.len() <= usize::MAX);
        lemma_all_pairs_done(s, cells_of(*hash), lists@, uf@);
    }
    uf
}

} // verus!
