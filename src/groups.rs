use vstd::prelude::*;
use rustc_hash::FxHashMap;
use crate::adjacency::adjacent;
use crate::buckets::{appended, holds, lemma_appended, lists_ordered};
use crate::connectivity::{adjacent_together, connected, is_chain, join_adjacent, sets_connected};
use crate::spatial_hash::{build_spatial_hash, cells_of, indexes, SpatialHash};
use crate::types::{all_well_formed, BoundingRecord, Cuboid, Tag};
use crate::union_find::UnionFind;

verus! {

/// Set representatives mapped to the members of each set.
pub type GroupMap = FxHashMap<usize, Vec<usize>>;

/// What each key of a group map holds.
pub uninterp spec fn members_of(m: GroupMap) -> Map<usize, Seq<usize>>;

/// Relies on `FxHashMap::default` (std `HashMap::default`): a new map is empty.
#[verifier::external_body]
fn empty_group_map() -> (r: GroupMap)
    ensures
        members_of(r).dom() == Set::<usize>::empty(),
{
    GroupMap::default()
}

/// Relies on `HashMap::entry(k).or_default().push(i)`: appends `i` to the list
/// kept under `k`, starting from an empty list when `k` is new.
#[verifier::external_body]
fn push_member(m: &mut GroupMap, k: usize, i: usize)
    ensures
        appended(members_of(*old(m)), members_of(*final(m)), k, i),
{
    m.entry(k).or_default().push(i);
}

/// `r` holds the lists of `members` once each: `ks` gives the key of each.
pub open spec fn lists_by_key(members: Map<usize, Seq<usize>>, r: Seq<Vec<usize>>, ks: Seq<usize>) -> bool {
    &&& ks.len() == r.len()
    &&& ks.no_duplicates()
    &&& forall|j: int| 0 <= j < ks.len() ==> members.contains_key(#[trigger] ks[j]) && r[j]@ == members[ks[j]]
    &&& forall|k: usize| #[trigger] members.contains_key(k) ==> ks.contains(k)
}

/// Relies on `HashMap::into_values`: every stored list is handed out once, in
/// an order left open.
#[verifier::external_body]
fn into_member_lists(m: GroupMap) -> (r: Vec<Vec<usize>>)
    ensures
        exists|ks: Seq<usize>| lists_by_key(members_of(m), r@, ks),
{
    m.into_values().collect()
}

/// `gs` partitions the boxes of `s` that have a neighbour into their connected
/// components: each group has two or more members, no box is in two groups or
/// twice in one, members of a group are connected, and adjacent boxes share a
/// group.
pub open spec fn is_grouping(s: Seq<Cuboid>, gs: Seq<Seq<usize>>) -> bool {
    &&& forall|g: int| 0 <= g < gs.len() ==> (#[trigger] gs[g]).len() >= 2
    &&& forall|g: int, p: int| 0 <= g < gs.len() && 0 <= p < gs[g].len() ==> #[trigger] gs[g][p] < s.len()
    &&& forall|g: int, p: int, q: int|
        0 <= g < gs.len() && 0 <= p < gs[g].len() && 0 <= q < gs[g].len() ==> connected(
            s,
            #[trigger] gs[g][p] as int,
            #[trigger] gs[g][q] as int,
        )
    &&& forall|g1: int, g2: int, p: int, q: int|
        0 <= g1 < gs.len() && 0 <= g2 < gs.len() && 0 <= p < gs[g1].len() && 0 <= q < gs[g2].len()
            && #[trigger] gs[g1][p] == #[trigger] gs[g2][q] ==> g1 == g2 && p == q
    &&& forall|a: int, b: int|
        0 <= a < s.len() && 0 <= b < s.len() && a != b && adjacent(#[trigger] s[a], #[trigger] s[b])
            ==> exists|g: int| 0 <= g < gs.len() && gs[g].contains(a as usize) && gs[g].contains(b as usize)
}

/// The index lists of a vector of groups.
pub open spec fn index_lists(r: Seq<Vec<usize>>) -> Seq<Seq<usize>> {
    r.map_values(|v: Vec<usize>| v@)
}

spec fn members_ok(m: Map<usize, Seq<usize>>, reps: Seq<int>, i: int) -> bool {
    &&& forall|k: usize, j: usize| #[trigger] holds(m, k, j) <==> (j < i && reps[j as int] == k)
    &&& lists_ordered(m)
}

/// The sets of `uf` that have two or more members, each listed in increasing
/// order.
fn collect_groups(uf: &mut UnionFind) -> (r: Vec<Vec<usize>>)
    requires
        old(uf).well_formed(),
    ensures
        final(uf).well_formed(),
        final(uf)@ == old(uf)@,
        ({
            let reps = old(uf)@;
            let gs = index_lists(r@);
            &&& forall|g: int| 0 <= g < gs.len() ==> (#[trigger] gs[g]).len() >= 2
            &&& forall|g: int, p: int, q: int|
                0 <= g < gs.len() && 0 <= p < q < gs[g].len() ==> #[trigger] gs[g][p] < #[trigger] gs[g][q]
            &&& forall|g: int, p: int|
                0 <= g < gs.len() && 0 <= p < gs[g].len() ==> #[trigger] gs[g][p] < reps.len()
            &&& forall|g: int, p: int, q: int|
                0 <= g < gs.len() && 0 <= p < gs[g].len() && 0 <= q < gs[g].len() ==> reps[#[trigger] gs[g][p] as int]
                    == reps[#[trigger] gs[g][q] as int]
            &&& forall|g1: int, g2: int, p: int, q: int|
                0 <= g1 < gs.len() && 0 <= g2 < gs.len() && 0 <= p < gs[g1].len() && 0 <= q < gs[g2].len()
                    && reps[#[trigger] gs[g1][p] as int] == reps[#[trigger] gs[g2][q] as int] ==> g1 == g2
            &&& forall|a: int, b: int|
                0 <= a < reps.len() && 0 <= b < reps.len() && a != b && #[trigger] reps[a] == #[trigger] reps[b]
                    ==> exists|g: int| 0 <= g < gs.len() && gs[g].contains(a as usize) && gs[g].contains(b as usize)
        }),
{
    let n = uf.len();
    let ghost reps = uf@;
    let mut map = empty_group_map();
    let mut i: usize = 0;
    while i < n
        invariant
            uf.well_formed(),
            uf@ == reps,
            n == reps.len(),
            i <= n,
            members_ok(members_of(map), reps, i as int),
        decreases n - i,
    {
        let root = uf.find(i);
        let ghost before = members_of(map);
        push_member(&mut map, root, i);
        proof {
            lemma_appended(before, members_of(map), root, i);
            assert forall|k: usize, j: usize|
                #[trigger] holds(members_of(map), k, j) <==> (j < i + 1 && reps[j as int] == k) by {
                assert(holds(before, k, j) <==> (j < i && reps[j as int] == k));
            }
        }
        i = i + 1;
    }
    let ghost members = members_of(map);
    let mut lists = into_member_lists(map);
    let ghost ks = choose|ks: Seq<usize>| lists_by_key(members, lists@, ks);
    let ghost all = lists@;
    let mut out: Vec<Vec<usize>> = Vec::new();
    let ghost mut gk: Seq<usize> = Seq::empty();
    while lists.len() > 0
        invariant
            lists_by_key(members, all, ks),
            members_ok(members, reps, n as int),
            lists@.len() <= all.len(),
            forall|j: int| 0 <= j < lists@.len() ==> lists@[j] == all[j],
            out@.len() == gk.len(),
            gk.no_duplicates(),
            forall|g: int|
                0 <= g < gk.len() ==> members.contains_key(#[trigger] gk[g]) && out@[g]@ == members[gk[g]]
                    && members[gk[g]].len() >= 2,
            forall|g: int, j: int| 0 <= g < gk.len() && 0 <= j < lists@.len() ==> #[trigger] gk[g] != #[trigger] ks[j],
            forall|j: int|
                lists@.len() <= j < all.len() && members[#[trigger] ks[j]].len() >= 2 ==> gk.contains(ks[j]),
        decreases lists@.len(),
    {
        let ghost last = lists@.len() - 1;
        let v = lists.pop().unwrap();
        proof {
            assert(v == all[last]);
            assert(members.contains_key(ks[last]));
        }
        if v.len() >= 2 {
            out.push(v);
            proof {
                let old_gk = gk;
                gk = gk.push(ks[last]);
                assert forall|g: int| 0 <= g < gk.len() implies members.contains_key(#[trigger] gk[g])
                    && out@[g]@ == members[gk[g]] && members[gk[g]].len() >= 2 by {
                    if g < old_gk.len() {
                        assert(gk[g] == old_gk[g]);
                    }
                }
                assert forall|g1: int, g2: int| 0 <= g1 < gk.len() && 0 <= g2 < gk.len() && g1 != g2 implies gk[g1]
                    != gk[g2] by {
                    if g1 < old_gk.len() && g2 < old_gk.len() {
                        assert(old_gk[g1] != old_gk[g2]);
                    } else if g1 < old_gk.len() {
                        assert(old_gk[g1] != ks[last]);
                    } else if g2 < old_gk.len() {
                        assert(old_gk[g2] != ks[last]);
                    }
                }
                assert forall|g: int, j: int| 0 <= g < gk.len() && 0 <= j < lists@.len() implies #[trigger] gk[g]
                    != #[trigger] ks[j] by {
                    if g < old_gk.len() {
                        assert(gk[g] == old_gk[g]);
                    } else {
                        assert(ks[last] != ks[j]);
                    }
                }
                assert forall|j: int| lists@.len() <= j < all.len() && members[#[trigger] ks[j]].len() >= 2 implies gk.contains(
                    ks[j],
                ) by {
                    if j == last {
                        assert(gk[old_gk.len() as int] == ks[j]);
                    } else {
                        assert(old_gk.contains(ks[j]));
                        let g = choose|g: int| 0 <= g < old_gk.len() && old_gk[g] == ks[j];
                        assert(gk[g] == ks[j]);
                    }
                }
            }
        }
    }
    proof {
        let gs = index_lists(out@);
        assert forall|g: int| 0 <= g < gs.len() implies #[trigger] gs[g] == members[gk[g]] && gs[g].len() >= 2 && members.contains_key(gk[g]) by {
            assert(members.contains_key(gk[g]) && out@[g]@ == members[gk[g]] && members[gk[g]].len() >= 2);
            assert(gs[g] == out@[g]@);
            assert(gs[g] == members[gk[g]]);
        }
        assert forall|g: int, p: int, q: int|
            0 <= g < gs.len() && 0 <= p < q < gs[g].len() implies #[trigger] gs[g][p] < #[trigger] gs[g][q] by {
            assert(gs[g] == members[gk[g]]);
        }
        assert forall|g: int, p: int| 0 <= g < gs.len() && 0 <= p < gs[g].len() implies #[trigger] gs[g][p] < reps.len()
            && reps[gs[g][p] as int] == gk[g] by {
            assert(gs[g] == members[gk[g]]);
            assert(holds(members, gk[g], gs[g][p]));
        }
        assert forall|g: int, p: int, q: int|
            0 <= g < gs.len() && 0 <= p < gs[g].len() && 0 <= q < gs[g].len() implies reps[#[trigger] gs[g][p] as int]
                == reps[#[trigger] gs[g][q] as int] by {
            assert(reps[gs[g][p] as int] == gk[g]);
            assert(reps[gs[g][q] as int] == gk[g]);
        }
        assert forall|g1: int, g2: int, p: int, q: int|
            0 <= g1 < gs.len() && 0 <= g2 < gs.len() && 0 <= p < gs[g1].len() && 0 <= q < gs[g2].len()
                && reps[#[trigger] gs[g1][p] as int] == reps[#[trigger] gs[g2][q] as int] implies g1 == g2 by {
            assert(reps[gs[g1][p] as int] == gk[g1]);
            assert(reps[gs[g2][q] as int] == gk[g2]);
        }
        assert forall|a: int, b: int|
            0 <= a < reps.len() && 0 <= b < reps.len() && a != b && #[trigger] reps[a] == #[trigger] reps[b]
                implies exists|g: int| 0 <= g < gs.len() && gs[g].contains(a as usize) && gs[g].contains(b as usize) by {
            let k = reps[a] as usize;
            assert(0 <= reps[a] < reps.len());
            assert((a as usize) as int == a && (b as usize) as int == b);
            assert(holds(members, k, a as usize));
            assert(holds(members, k, b as usize));
            let pa = choose|t: int| 0 <= t < members[k].len() && members[k][t] == a as usize;
            let pb = choose|t: int| 0 <= t < members[k].len() && members[k][t] == b as usize;
            assert(pa != pb);
            assert(members[k].len() >= 2);
            assert(ks.contains(k));
            let j = choose|j: int| 0 <= j < ks.len() && ks[j] == k;
            assert(gk.contains(ks[j]));
            let g = choose|g: int| 0 <= g < gk.len() && gk[g] == ks[j];
            assert(gs[g] == members[k]);
            assert(gs[g][pa] == a as usize);
            assert(gs[g][pb] == b as usize);
        }
    }
    out
}

/// The connected components of two or more boxes of `cuboids`, found by
/// joining adjacent boxes that `hash` lists in one cell.
pub fn connected_groups(cuboids: &[Cuboid], hash: &SpatialHash) -> (r: Vec<Vec<usize>>)
    requires
        all_well_formed(cuboids@),
        indexes(cells_of(*hash), cuboids@),
    ensures
        is_grouping(cuboids@, index_lists(r@)),
{
    let mut uf = join_adjacent(cuboids, hash);
    let ghost reps = uf@;
    let r = collect_groups(&mut uf);
    proof {
        let s = cuboids@;
        let gs = index_lists(r@);
        assert forall|g: int, p: int, q: int|
            0 <= g < gs.len() && 0 <= p < gs[g].len() && 0 <= q < gs[g].len() implies connected(
                s,
                #[trigger] gs[g][p] as int,
                #[trigger] gs[g][q] as int,
            ) by {
            assert(reps[gs[g][p] as int] == reps[gs[g][q] as int]);
        }
        assert forall|g1: int, g2: int, p: int, q: int|
            0 <= g1 < gs.len() && 0 <= g2 < gs.len() && 0 <= p < gs[g1].len() && 0 <= q < gs[g2].len()
                && #[trigger] gs[g1][p] == #[trigger] gs[g2][q] implies g1 == g2 && p == q by {
            assert(reps[gs[g1][p] as int] == reps[gs[g2][q] as int]);
            assert(g1 == g2);
            if p < q {
                assert(gs[g1][p] < gs[g1][q]);
            } else if q < p {
                assert(gs[g1][q] < gs[g1][p]);
            }
        }
        assert forall|a: int, b: int|
            0 <= a < s.len() && 0 <= b < s.len() && a != b && adjacent(#[trigger] s[a], #[trigger] s[b])
                implies exists|g: int| 0 <= g < gs.len() && gs[g].contains(a as usize) && gs[g].contains(b as usize) by {
            assert(reps[a] == reps[b]);
        }
    }
    r
}

/// The record of one member of group `g`: the box's own centre and extent,
/// tagged with the group.
pub open spec fn member_record(c: Cuboid, g: int) -> BoundingRecord {
    BoundingRecord {
        tag: Tag::Group(g as usize),
        double_cx: (c.x1 + c.x2) as u32,
        double_cy: (c.y1 + c.y2) as u32,
        double_cz: (c.z1 + c.z2) as u32,
        width: (c.x2 - c.x1) as u16,
        height: (c.y2 - c.y1) as u16,
        depth: (c.z2 - c.z1) as u16,
    }
}

/// `r` holds, group by group, the member records of the index groups `gs`.
pub open spec fn records_of(r: Seq<Vec<BoundingRecord>>, gs: Seq<Seq<usize>>, s: Seq<Cuboid>) -> bool {
    &&& r.len() == gs.len()
    &&& forall|g: int| 0 <= g < r.len() ==> (#[trigger] r[g])@.len() == gs[g].len()
    &&& forall|g: int, p: int|
        0 <= g < r.len() && 0 <= p < gs[g].len() ==> #[trigger] r[g]@[p] == member_record(s[gs[g][p] as int], g)
}

/// The record of box `c` as a member of group `g`.
pub fn member_box(c: &Cuboid, g: usize) -> (r: BoundingRecord)
    requires
        c.well_formed(),
    ensures
        r == member_record(*c, g as int),
{
    BoundingRecord {
        tag: Tag::Group(g),
        double_cx: c.x1 as u32 + c.x2 as u32,
        double_cy: c.y1 as u32 + c.y2 as u32,
        double_cz: c.z1 as u32 + c.z2 as u32,
        width: c.x2 - c.x1,
        height: c.y2 - c.y1,
        depth: c.z2 - c.z1,
    }
}

/// Turns index groups into records, group `g` tagged with `g`.
pub fn materialize(groups: &Vec<Vec<usize>>, cuboids: &[Cuboid]) -> (r: Vec<Vec<BoundingRecord>>)
    requires
        all_well_formed(cuboids@),
        forall|g: int, p: int|
            0 <= g < groups@.len() && 0 <= p < groups@[g]@.len() ==> #[trigger] groups@[g]@[p] < cuboids@.len(),
    ensures
        records_of(r@, index_lists(groups@), cuboids@),
{
    let ghost gs = index_lists(groups@);
    let mut r: Vec<Vec<BoundingRecord>> = Vec::new();
    let mut g: usize = 0;
    while g < groups.len()
        invariant
            gs == index_lists(groups@),
            all_well_formed(cuboids@),
            forall|g: int, p: int|
                0 <= g < groups@.len() && 0 <= p < groups@[g]@.len() ==> #[trigger] groups@[g]@[p] < cuboids@.len(),
            g <= groups.len(),
            r@.len() == g,
            forall|h: int| 0 <= h < g ==> (#[trigger] r@[h])@.len() == gs[h].len(),
            forall|h: int, p: int|
                0 <= h < g && 0 <= p < gs[h].len() ==> #[trigger] r@[h]@[p] == member_record(
                    cuboids@[gs[h][p] as int],
                    h,
                ),
        decreases groups.len() - g,
    {
        let members = &groups[g];
        assert(gs[g as int] == members@);
        let mut recs: Vec<BoundingRecord> = Vec::new();
        let mut p: usize = 0;
        while p < members.len()
            invariant
                all_well_formed(cuboids@),
                g < groups@.len(),
                *members == groups@[g as int],
                forall|g: int, p: int|
                    0 <= g < groups@.len() && 0 <= p < groups@[g]@.len() ==> #[trigger] groups@[g]@[p] < cuboids@.len(),
                p <= members.len(),
                recs@.len() == p,
                forall|q: int| 0 <= q < p ==> recs@[q] == member_record(cuboids@[members@[q] as int], g as int),
            decreases members.len() - p,
        {
            let idx = members[p];
            assert(groups@[g as int]@[p as int] < cuboids@.len());
            recs.push(member_box(&cuboids[idx], g));
            p = p + 1;
        }
        r.push(recs);
        g = g + 1;
    }
    r
}

/// Groups the boxes of `cuboids` by face adjacency, with the candidate pairs
/// taken from `hash`: one record per member, each group tagged with its
/// position. Every group has two or more members.
pub fn build_all_groups(cuboids: &[Cuboid], hash: &SpatialHash) -> (r: Vec<Vec<BoundingRecord>>)
    requires
        all_well_formed(cuboids@),
        indexes(cells_of(*hash), cuboids@),
    ensures
        exists|gs: Seq<Seq<usize>>| is_grouping(cuboids@, gs) && records_of(r@, gs, cuboids@),
        forall|g: int| 0 <= g < r@.len() ==> (#[trigger] r@[g])@.len() >= 2,
{
    let groups = connected_groups(cuboids, hash);
    let ghost gs = index_lists(groups@);
    proof {
        assert forall|g: int, p: int|
            0 <= g < groups@.len() && 0 <= p < groups@[g]@.len() implies #[trigger] groups@[g]@[p] < cuboids@.len() by {
            assert(gs[g] == groups@[g]@);
            assert(gs[g][p] < cuboids@.len());
        }
    }
    let r = materialize(&groups, cuboids);
    proof {
        assert forall|g: int| 0 <= g < r@.len() implies (#[trigger] r@[g])@.len() >= 2 by {
            assert(gs[g].len() >= 2);
        }
    }
    r
}

/// Groups the boxes of `cuboids` by face adjacency: builds the spatial hash,
/// then the groups, one record per member.
pub fn group_boxes(cuboids: &[Cuboid]) -> (r: Vec<Vec<BoundingRecord>>)
    requires
        all_well_formed(cuboids@),
    ensures
        exists|gs: Seq<Seq<usize>>| is_grouping(cuboids@, gs) && records_of(r@, gs, cuboids@),
        forall|g: int| 0 <= g < r@.len() ==> (#[trigger] r@[g])@.len() >= 2,
{
    let hash = build_spatial_hash(cuboids);
    build_all_groups(cuboids, &hash)
}

/// Along a chain that leaves `a`, some step goes from `a` to another box.
proof fn lemma_first_move(s: Seq<Cuboid>, p: Seq<int>, a: int) -> (t: int)
    requires
        is_chain(s, p),
        p[0] == a,
        p.last() != a,
    ensures
        0 <= t < p.len() - 1,
        p[t] == a,
        p[t + 1] != a,
        adjacent(s[a], s[p[t + 1]]),
    decreases p.len(),
{
    if p[1] != a {
        assert(adjacent(s[p[0int]], s[p[0int + 1]]));
        0
    } else {
        let q = p.drop_first();
        assert forall|u: int| 0 <= u < q.len() - 1 implies adjacent(s[q[u]], #[trigger] s[q[u + 1]]) by {
            assert(q[u] == p[u + 1]);
            assert(q[u + 1] == p[u + 1 + 1]);
            assert(adjacent(s[p[u + 1]], s[p[u + 1 + 1]]));
        }
        assert forall|u: int| 0 <= u < q.len() implies 0 <= #[trigger] q[u] < s.len() by {
            assert(q[u] == p[u + 1]);
        }
        let t = lemma_first_move(s, q, a);
        assert(q[t] == p[t + 1]);
        assert(q[t + 1] == p[t + 2]);
        t + 1
    }
}

/// A chain that starts in group `g` stays in it.
proof fn lemma_chain_in_group(s: Seq<Cuboid>, gs: Seq<Seq<usize>>, p: Seq<int>, g: int, t: int)
    requires
        is_grouping(s, gs),
        s.len() <= usize::MAX,
        is_chain(s, p),
        0 <= g < gs.len(),
        gs[g].contains(p[0] as usize),
        0 <= t < p.len(),
    ensures
        gs[g].contains(p[t] as usize),
    decreases t,
{
    if t > 0 {
        lemma_chain_in_group(s, gs, p, g, t - 1);
        let x = p[t - 1];
        let y = p[t];
        assert(adjacent(s[p[t - 1]], s[p[t - 1 + 1]]));
        if x != y {
            assert(0 <= x < s.len() && 0 <= y < s.len());
            assert(adjacent(s[x], s[y]));
            let h = choose|h: int| 0 <= h < gs.len() && gs[h].contains(x as usize) && gs[h].contains(y as usize);
            let i1 = choose|i: int| 0 <= i < gs[g].len() && gs[g][i] == x as usize;
            let i2 = choose|i: int| 0 <= i < gs[h].len() && gs[h][i] == x as usize;
            assert(gs[g][i1] == gs[h][i2]);
        }
    }
}

/// `u` and `v` hold the same boxes.
pub open spec fn same_members(u: Seq<usize>, v: Seq<usize>) -> bool {
    forall|x: usize| #[trigger] u.contains(x) <==> v.contains(x)
}

/// Two groupings of the same boxes have the same groups: each group of one
/// holds exactly the boxes of some group of the other. How boxes are grouped
/// depends on the boxes alone, not on how the groups are numbered or listed.
pub proof fn lemma_groupings_agree(s: Seq<Cuboid>, gs1: Seq<Seq<usize>>, gs2: Seq<Seq<usize>>, g1: int)
    requires
        is_grouping(s, gs1),
        is_grouping(s, gs2),
        s.len() <= usize::MAX,
        0 <= g1 < gs1.len(),
    ensures
        exists|g2: int| 0 <= g2 < gs2.len() && same_members(gs1[g1], #[trigger] gs2[g2]),
{
    assert(gs1[g1].len() >= 2);
    let a = gs1[g1][0] as int;
    let b = gs1[g1][1] as int;
    assert(gs1[g1][0] < s.len());
    assert(gs1[g1][1] < s.len());
    assert(a != b);
    assert(connected(s, #[trigger] gs1[g1][0] as int, #[trigger] gs1[g1][1] as int));
    let p = choose|p: Seq<int>| is_chain(s, p) && p[0] == a && p.last() == b;
    let t = lemma_first_move(s, p, a);
    let c = p[t + 1];
    assert(0 <= c < s.len());
    assert(adjacent(s[a], s[c]));
    let g2 = choose|g: int| 0 <= g < gs2.len() && gs2[g].contains(a as usize) && gs2[g].contains(c as usize);
    assert forall|x: usize| #[trigger] gs1[g1].contains(x) <==> gs2[g2].contains(x) by {
        if gs1[g1].contains(x) {
            let i = choose|i: int| 0 <= i < gs1[g1].len() && gs1[g1][i] == x;
            assert(connected(s, #[trigger] gs1[g1][0] as int, #[trigger] gs1[g1][i] as int));
            let q = choose|q: Seq<int>| is_chain(s, q) && q[0] == a && q.last() == x as int;
            assert(q[0] as usize == a as usize);
            lemma_chain_in_group(s, gs2, q, g2, q.len() - 1);
            assert(q[q.len() - 1] as usize == x);
        }
        if gs2[g2].contains(x) {
            let i = choose|i: int| 0 <= i < gs2[g2].len() && gs2[g2][i] == x;
            let j = choose|j: int| 0 <= j < gs2[g2].len() && gs2[g2][j] == a as usize;
            assert(gs2[g2][i] < s.len());
            assert(connected(s, #[trigger] gs2[g2][j] as int, #[trigger] gs2[g2][i] as int));
            let q = choose|q: Seq<int>| is_chain(s, q) && q[0] == a && q.last() == x as int;
            assert(gs1[g1][0] == a as usize);
            assert(gs1[g1].contains(q[0] as usize));
            lemma_chain_in_group(s, gs1, q, g1, q.len() - 1);
            assert(q[q.len() - 1] as usize == x);
        }
    }
    assert(same_members(gs1[g1], gs2[g2]));
}

/// `t` is `s` reordered: position `i` of `t` holds box `perm[i]` of `s`, and
/// `inv` sends each position of `s` back to its position in `t`.
pub open spec fn is_reordering(s: Seq<Cuboid>, t: Seq<Cuboid>, perm: Seq<int>, inv: Seq<int>) -> bool {
    &&& t.len() == s.len()
    &&& perm.len() == s.len()
    &&& inv.len() == s.len()
    &&& forall|i: int| 0 <= i < t.len() ==> 0 <= #[trigger] perm[i] < s.len() && t[i] == s[perm[i]] && inv[perm[i]] == i
    &&& forall|j: int| 0 <= j < s.len() ==> 0 <= #[trigger] inv[j] < t.len() && perm[inv[j]] == j
}

/// Group `g` of `gs` with each box renumbered through `inv`.
pub open spec fn renumbered(gs: Seq<Seq<usize>>, inv: Seq<int>) -> Seq<Seq<usize>> {
    gs.map_values(|v: Seq<usize>| v.map_values(|x: usize| inv[x as int] as usize))
}

proof fn lemma_chain_renumbered(s: Seq<Cuboid>, t: Seq<Cuboid>, perm: Seq<int>, inv: Seq<int>, p: Seq<int>)
    requires
        is_reordering(s, t, perm, inv),
        is_chain(s, p),
    ensures
        is_chain(t, p.map_values(|x: int| inv[x])),
{
    let q = p.map_values(|x: int| inv[x]);
    assert forall|u: int| 0 <= u < q.len() implies 0 <= #[trigger] q[u] < t.len() by {
        assert(0 <= p[u] < s.len());
    }
    assert forall|u: int| 0 <= u < q.len() - 1 implies adjacent(t[q[u]], #[trigger] t[q[u + 1]]) by {
        assert(0 <= p[u] < s.len());
        assert(0 <= p[u + 1] < s.len());
        assert(t[q[u]] == s[p[u]]);
        assert(t[q[u + 1]] == s[p[u + 1]]);
    }
}

/// Renumbering a grouping along a reordering of the boxes gives a grouping of
/// the reordered boxes.
pub proof fn lemma_grouping_renumbered(s: Seq<Cuboid>, t: Seq<Cuboid>, perm: Seq<int>, inv: Seq<int>, gs: Seq<Seq<usize>>)
    requires
        is_reordering(s, t, perm, inv),
        is_grouping(s, gs),
        s.len() <= usize::MAX,
    ensures
        is_grouping(t, renumbered(gs, inv)),
{
    let hs = renumbered(gs, inv);
    assert forall|g: int| 0 <= g < hs.len() implies #[trigger] hs[g] == gs[g].map_values(
        |x: usize| inv[x as int] as usize,
    ) && hs[g].len() == gs[g].len() && hs[g].len() >= 2 by {}
    assert forall|g: int, p: int| 0 <= g < hs.len() && 0 <= p < hs[g].len() implies #[trigger] hs[g][p] < t.len()
        && hs[g][p] as int == inv[gs[g][p] as int] by {
        assert(hs[g] == gs[g].map_values(|x: usize| inv[x as int] as usize));
        assert(gs[g][p] < s.len());
    }
    assert forall|g: int, p: int, q: int|
        0 <= g < hs.len() && 0 <= p < hs[g].len() && 0 <= q < hs[g].len() implies connected(
            t,
            #[trigger] hs[g][p] as int,
            #[trigger] hs[g][q] as int,
        ) by {
        assert(connected(s, #[trigger] gs[g][p] as int, #[trigger] gs[g][q] as int));
        let c = choose|c: Seq<int>| is_chain(s, c) && c[0] == gs[g][p] as int && c.last() == gs[g][q] as int;
        lemma_chain_renumbered(s, t, perm, inv, c);
        let d = c.map_values(|x: int| inv[x]);
        assert(d[0] == hs[g][p] as int);
        assert(d.last() == hs[g][q] as int);
    }
    assert forall|g1: int, g2: int, p: int, q: int|
        0 <= g1 < hs.len() && 0 <= g2 < hs.len() && 0 <= p < hs[g1].len() && 0 <= q < hs[g2].len()
            && #[trigger] hs[g1][p] == #[trigger] hs[g2][q] implies g1 == g2 && p == q by {
        assert(perm[inv[gs[g1][p] as int]] == gs[g1][p] as int);
        assert(perm[inv[gs[g2][q] as int]] == gs[g2][q] as int);
        assert(gs[g1][p] == gs[g2][q]);
    }
    assert forall|a: int, b: int|
        0 <= a < t.len() && 0 <= b < t.len() && a != b && adjacent(#[trigger] t[a], #[trigger] t[b])
            implies exists|g: int| 0 <= g < hs.len() && hs[g].contains(a as usize) && hs[g].contains(b as usize) by {
        let pa = perm[a];
        let pb = perm[b];
        assert(pa != pb);
        assert(adjacent(s[pa], s[pb]));
        let g = choose|g: int| 0 <= g < gs.len() && gs[g].contains(pa as usize) && gs[g].contains(pb as usize);
        let i = choose|i: int| 0 <= i < gs[g].len() && gs[g][i] == pa as usize;
        let j = choose|j: int| 0 <= j < gs[g].len() && gs[g][j] == pb as usize;
        assert(hs[g][i] as int == inv[pa]);
        assert(hs[g][j] as int == inv[pb]);
        assert(hs[g][i] == a as usize);
        assert(hs[g][j] == b as usize);
    }
}

/// Grouping does not depend on the order of the input: for any grouping `gs`
/// of the boxes `s` and any grouping `hs` of a reordering `t` of them, each
/// group of `gs` holds the same boxes as some group of `hs`.
pub proof fn lemma_order_independent(
    s: Seq<Cuboid>,
    t: Seq<Cuboid>,
    perm: Seq<int>,
    inv: Seq<int>,
    gs: Seq<Seq<usize>>,
    hs: Seq<Seq<usize>>,
    g: int,
)
    requires
        is_reordering(s, t, perm, inv),
        is_grouping(s, gs),
        is_grouping(t, hs),
        s.len() <= usize::MAX,
        0 <= g < gs.len(),
    ensures
        exists|h: int| 0 <= h < hs.len() && same_members(renumbered(gs, inv)[g], #[trigger] hs[h]),
{
    lemma_grouping_renumbered(s, t, perm, inv, gs);
    lemma_groupings_agree(t, renumbered(gs, inv), hs, g);
}

} // verus!
