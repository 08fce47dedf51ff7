use vstd::prelude::*;
use rustc_hash::FxHashMap;
use crate::buckets::{appended, holds, lemma_appended, lists_ordered};
use crate::types::{all_well_formed, hi, lo, Cuboid};

verus! {

#[verifier::external_type_specification]
#[verifier::external_body]
pub struct ExFxBuildHasher(rustc_hash::FxBuildHasher);

/// Edge length of a grid cell.
pub const CELL_SIZE: u16 = 800;

/// Coordinates of a grid cell.
pub type CellKey = (i32, i32, i32);

/// Grid cell coordinates mapped to the indices of the boxes that reach them.
pub type SpatialHash = FxHashMap<CellKey, Vec<usize>>;

/// What each cell of a spatial hash holds.
pub uninterp spec fn cells_of(h: SpatialHash) -> Map<CellKey, Seq<usize>>;

/// Relies on `FxHashMap::default` (std `HashMap::default`): a new map is empty.
#[verifier::external_body]
fn empty_hash() -> (r: SpatialHash)
    ensures
        cells_of(r).dom() == Set::<CellKey>::empty(),
{
    SpatialHash::default()
}

/// Relies on `HashMap::entry(k).or_default().push(i)`: appends `i` to the list
/// kept under `k`, starting from an empty list when `k` is new.
#[verifier::external_body]
fn push_index(h: &mut SpatialHash, k: CellKey, i: usize)
    ensures
        appended(cells_of(*old(h)), cells_of(*final(h)), k, i),
{
    h.entry(k).or_default().push(i);
}

/// `v` is the list kept under some cell of `cells`.
pub open spec fn is_cell_list(cells: Map<CellKey, Seq<usize>>, v: Seq<usize>) -> bool {
    exists|k: CellKey| cells.contains_key(k) && v == cells[k]
}

/// `lists` holds the lists of `cells` and nothing else.
pub open spec fn lists_cover(cells: Map<CellKey, Seq<usize>>, lists: Seq<Vec<usize>>) -> bool {
    &&& forall|u: int| 0 <= u < lists.len() ==> is_cell_list(cells, #[trigger] lists[u]@)
    &&& forall|k: CellKey| #[trigger] cells.contains_key(k) ==> exists|u: int| 0 <= u < lists.len() && lists[u]@ == cells[k]
}

/// Relies on `HashMap::values`: every stored list is handed out, in an order
/// left open.
#[verifier::external_body]
pub(crate) fn bucket_lists(h: &SpatialHash) -> (r: Vec<Vec<usize>>)
    ensures
        lists_cover(cells_of(*h), r@),
{
    h.values().cloned().collect()
}

/// Cell coordinate of a coordinate value.
pub open spec fn cell(v: int) -> int {
    v / (CELL_SIZE as int)
}

/// Box `c` reaches cell `k`: on each axis the cell lies between the cell of the
/// lower bound and the cell of the upper bound. A box whose upper bound lies on
/// a cell boundary reaches the next cell too, so that a box that begins there
/// shares that cell with it.
pub open spec fn in_cell(c: Cuboid, k: CellKey) -> bool {
    &&& cell(lo(c, 0)) <= k.0 <= cell(hi(c, 0))
    &&& cell(lo(c, 1)) <= k.1 <= cell(hi(c, 1))
    &&& cell(lo(c, 2)) <= k.2 <= cell(hi(c, 2))
}

/// `cells` lists under each cell exactly the boxes of `s` that reach it.
pub open spec fn indexes(cells: Map<CellKey, Seq<usize>>, s: Seq<Cuboid>) -> bool {
    forall|k: CellKey, j: usize|
        #[trigger] holds(cells, k, j) <==> (j < s.len() && in_cell(
            s[j as int],
            k,
        ))
}

/// Some box of `s` reaches cell `k`.
pub open spec fn reached(s: Seq<Cuboid>, k: CellKey) -> bool {
    exists|j: int| 0 <= j < s.len() && in_cell(s[j], k)
}

/// `cells` is the spatial hash of `s`: its keys are exactly the cells that
/// some box reaches, and under each it lists, in increasing order and once
/// each, the boxes that reach it.
pub open spec fn is_spatial_index(cells: Map<CellKey, Seq<usize>>, s: Seq<Cuboid>) -> bool {
    &&& indexes(cells, s)
    &&& lists_ordered(cells)
    &&& forall|k: CellKey| #[trigger] cells.contains_key(k) <==> reached(s, k)
}

spec fn lex_lt(k: CellKey, x: int, y: int, z: int) -> bool {
    k.0 < x || (k.0 == x && k.1 < y) || (k.0 == x && k.1 == y && k.2 < z)
}

/// Box `j` has been listed under cell `k` once boxes before `i` are done, and
/// box `i` up to, not including, cell `(x, y, z)`.
spec fn done(s: Seq<Cuboid>, i: int, x: int, y: int, z: int, k: CellKey, j: usize) -> bool {
    (j < i && in_cell(s[j as int], k)) || (j == i && in_cell(s[i], k) && lex_lt(k, x, y, z))
}

spec fn filled(cells: Map<CellKey, Seq<usize>>, s: Seq<Cuboid>, i: int, x: int, y: int, z: int) -> bool {
    forall|k: CellKey, j: usize|
        #[trigger] holds(cells, k, j) <==> done(s, i, x, y, z, k, j)
}

proof fn lemma_same_done(
    cells: Map<CellKey, Seq<usize>>,
    s: Seq<Cuboid>,
    i: int,
    x: int,
    y: int,
    z: int,
    i2: int,
    x2: int,
    y2: int,
    z2: int,
)
    requires
        filled(cells, s, i, x, y, z),
        forall|k: CellKey, j: usize| #[trigger] done(s, i, x, y, z, k, j) == done(s, i2, x2, y2, z2, k, j),
    ensures
        filled(cells, s, i2, x2, y2, z2),
{
    assert forall|k: CellKey, j: usize|
        #[trigger] holds(cells, k, j) <==> done(s, i2, x2, y2, z2, k, j) by {
        assert(done(s, i, x, y, z, k, j) == done(s, i2, x2, y2, z2, k, j));

    }
}

/// Cells follow the order of coordinates and stay within the grid.
pub(crate) proof fn lemma_cell_ordered(a: int, b: int)
    requires
        0 <= a <= b <= u16::MAX,
    ensures
        0 <= cell(a) <= cell(b) <= 81,
{
    assert(0 <= a / 800 <= b / 800) by (nonlinear_arith)
        requires
            0 <= a <= b,
    ;
    assert(b / 800 <= 81) by (nonlinear_arith)
        requires
            0 <= b <= 65535,
    ;
}

/// The spatial hash of `cuboids`: each box is listed under every cell it
/// reaches.
pub fn build_spatial_hash(cuboids: &[Cuboid]) -> (r: SpatialHash)
    requires
        all_well_formed(cuboids@),
    ensures
        is_spatial_index(cells_of(r), cuboids@),
{
    let mut hash = empty_hash();
    let mut i: usize = 0;
    while i < cuboids.len()
        invariant
            i <= cuboids.len(),
            all_well_formed(cuboids@),
            filled(cells_of(hash), cuboids@, i as int, 0, 0, 0),
            lists_ordered(cells_of(hash)),
        decreases cuboids.len() - i,
    {
        let c = &cuboids[i];
        let min_cx = (c.x1 / CELL_SIZE) as i32;
        let min_cy = (c.y1 / CELL_SIZE) as i32;
        let min_cz = (c.z1 / CELL_SIZE) as i32;
        let max_cx = (c.x2 / CELL_SIZE) as i32;
        let max_cy = (c.y2 / CELL_SIZE) as i32;
        let max_cz = (c.z2 / CELL_SIZE) as i32;
        proof {
            assert(cuboids@[i as int].well_formed());
            lemma_cell_ordered(lo(*c, 0), hi(*c, 0));
            lemma_cell_ordered(lo(*c, 1), hi(*c, 1));
            lemma_cell_ordered(lo(*c, 2), hi(*c, 2));
            assert forall|k: CellKey, j: usize| #[trigger] done(cuboids@, i as int, 0, 0, 0, k, j) == done(
                cuboids@,
                i as int,
                min_cx as int,
                min_cy as int,
                min_cz as int,
                k,
                j,
            ) by {}
            lemma_same_done(cells_of(hash), cuboids@, i as int, 0, 0, 0, i as int, min_cx as int, min_cy as int, min_cz as int);
        }
        let mut cx: i32 = min_cx;
        while cx <= max_cx
            invariant
                i < cuboids.len(),
                *c == cuboids@[i as int],
                min_cx == cell(lo(*c, 0)),
                min_cy == cell(lo(*c, 1)),
                min_cz == cell(lo(*c, 2)),
                max_cx == cell(hi(*c, 0)),
                max_cy == cell(hi(*c, 1)),
                max_cz == cell(hi(*c, 2)),
                0 <= min_cx <= cx <= max_cx + 1 <= 82,
                0 <= min_cy <= max_cy <= 81,
                0 <= min_cz <= max_cz <= 81,
                filled(cells_of(hash), cuboids@, i as int, cx as int, min_cy as int, min_cz as int),
                lists_ordered(cells_of(hash)),
            decreases max_cx + 1 - cx,
        {
            let mut cy: i32 = min_cy;
            while cy <= max_cy
                invariant
                    i < cuboids.len(),
                    *c == cuboids@[i as int],
                    min_cx == cell(lo(*c, 0)),
                    min_cy == cell(lo(*c, 1)),
                    min_cz == cell(lo(*c, 2)),
                    max_cx == cell(hi(*c, 0)),
                    max_cy == cell(hi(*c, 1)),
                    max_cz == cell(hi(*c, 2)),
                    0 <= min_cx <= cx <= max_cx <= 81,
                    0 <= min_cy <= cy <= max_cy + 1 <= 82,
                    0 <= min_cz <= max_cz <= 81,
                    filled(cells_of(hash), cuboids@, i as int, cx as int, cy as int, min_cz as int),
                    lists_ordered(cells_of(hash)),
                decreases max_cy + 1 - cy,
            {
                let mut cz: i32 = min_cz;
                while cz <= max_cz
                    invariant
                        i < cuboids.len(),
                        *c == cuboids@[i as int],
                        min_cx == cell(lo(*c, 0)),
                        min_cy == cell(lo(*c, 1)),
                        min_cz == cell(lo(*c, 2)),
                        max_cx == cell(hi(*c, 0)),
                        max_cy == cell(hi(*c, 1)),
                        max_cz == cell(hi(*c, 2)),
                        0 <= min_cx <= cx <= max_cx <= 81,
                        0 <= min_cy <= cy <= max_cy <= 81,
                        0 <= min_cz <= cz <= max_cz + 1 <= 82,
                        filled(cells_of(hash), cuboids@, i as int, cx as int, cy as int, cz as int),
                        lists_ordered(cells_of(hash)),
                    decreases max_cz + 1 - cz,
                {
                    let ghost before = cells_of(hash);
                    assert(filled(before, cuboids@, i as int, cx as int, cy as int, cz as int));
                    push_index(&mut hash, (cx, cy, cz), i);
                    proof {
                        let key = (cx, cy, cz);
                        assert forall|j: usize| holds(before, key, j) implies j < i by {
                            assert(done(cuboids@, i as int, cx as int, cy as int, cz as int, key, j));
                        }
                        lemma_appended(before, cells_of(hash), key, i);
                        assert forall|k: CellKey, j: usize|
                            #[trigger] holds(cells_of(hash), k, j)
                            <==> done(cuboids@, i as int, cx as int, cy as int, cz + 1, k, j) by {
                            assert(done(cuboids@, i as int, cx as int, cy as int, cz as int, k, j) <==> holds(before, k, j));
                            assert(holds(cells_of(hash), k, j) <==> (holds(before, k, j) || (k == key && j == i)));
                        }
                    }
                    cz = cz + 1;
                }
                proof {
                    assert forall|k: CellKey, j: usize| #[trigger] done(cuboids@, i as int, cx as int, cy as int, cz as int, k, j) == done(
                        cuboids@,
                        i as int,
                        cx as int,
                        cy + 1,
                        min_cz as int,
                        k,
                        j,
                    ) by {}
                    lemma_same_done(cells_of(hash), cuboids@, i as int, cx as int, cy as int, cz as int, i as int, cx as int, cy + 1, min_cz as int);
                }
                cy = cy + 1;
            }
            proof {
                assert forall|k: CellKey, j: usize| #[trigger] done(cuboids@, i as int, cx as int, cy as int, min_cz as int, k, j) == done(
                    cuboids@,
                    i as int,
                    cx + 1,
                    min_cy as int,
                    min_cz as int,
                    k,
                    j,
                ) by {}
                lemma_same_done(cells_of(hash), cuboids@, i as int, cx as int, cy as int, min_cz as int, i as int, cx + 1, min_cy as int, min_cz as int);
            }
            cx = cx + 1;
        }
        proof {
            assert forall|k: CellKey, j: usize| #[trigger] done(cuboids@, i as int, cx as int, min_cy as int, min_cz as int, k, j) == done(
                cuboids@,
                i + 1,
                0,
                0,
                0,
                k,
                j,
            ) by {}
            lemma_same_done(cells_of(hash), cuboids@, i as int, cx as int, min_cy as int, min_cz as int, i + 1, 0, 0, 0);
        }
        i = i + 1;
    }
    assert forall|k: CellKey, j: usize|
        #[trigger] holds(cells_of(hash), k, j) <==> (j < cuboids@.len() && in_cell(
            cuboids@[j as int],
            k,
        )) by {
        assert(done(cuboids@, i as int, 0, 0, 0, k, j) == (j < cuboids@.len() && in_cell(cuboids@[j as int], k)));
    }
    let len = cuboids.len();
    assert forall|k: CellKey| #[trigger] cells_of(hash).contains_key(k) <==> reached(cuboids@, k) by {
        if cells_of(hash).contains_key(k) {
            let j = cells_of(hash)[k][0];
            assert(holds(cells_of(hash), k, j));
            assert(in_cell(cuboids@[j as int], k));
        }
        if reached(cuboids@, k) {
            let j = choose|j: int| 0 <= j < cuboids@.len() && in_cell(cuboids@[j], k);
            assert(j < len);
            assert((j as usize) as int == j);
            assert(holds(cells_of(hash), k, j as usize));
        }
    }
    hash
}

} // verus!
