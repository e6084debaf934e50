//! The zones of the baked signed-distance layer: only zones some object
//! reaches are kept, each with the objects that reach it. An object reaches
//! the cells of its range that lie at or below the last zone on every axis;
//! nothing bounds the range from below.

use vstd::prelude::*;
use crate::object_zones::ZoneCellRange;

verus! {

/// A zone that holds objects: its cell, and where its objects sit in the
/// object array (`first_object..final_object`).
#[derive(Clone, Copy, PartialEq, Eq, Structural, Debug)]
pub struct ActiveZone {
    pub x: i32,
    pub y: i32,
    pub z: i32,
    pub first_object: i32,
    pub final_object: i32,
}

/// The zones that hold objects, and the objects laid out by zone.
pub struct ActiveZoneLayout {
    pub zone_objects: Vec<i32>,
    pub zones: Vec<ActiveZone>,
    pub num_zones: usize,
}

/// Object range `r` reaches cell `(x, y, z)`, with `last` the last zone
/// on each axis.
pub open spec fn reaches(r: ZoneCellRange, last: int, x: int, y: int, z: int) -> bool {
    &&& r.min_x <= x < r.max_x && x <= last
    &&& r.min_y <= y < r.max_y && y <= last
    &&& r.min_z <= z < r.max_z && z <= last
}

/// The objects (by position) that reach cell `(x, y, z)`, in order.
pub open spec fn reaching_objects(
    objects: Seq<ZoneCellRange>,
    last: int,
    x: int,
    y: int,
    z: int,
) -> Seq<i32>
    decreases objects.len(),
{
    if objects.len() == 0 {
        Seq::empty()
    } else {
        let rest = reaching_objects(objects.drop_last(), last, x, y, z);
        if reaches(objects.last(), last, x, y, z) {
            rest.push((objects.len() - 1) as i32)
        } else {
            rest
        }
    }
}

/// Object `i` is listed for cell `(x, y, z)` exactly when it reaches that
/// cell, and objects are listed in increasing order.
pub proof fn lemma_reaching_objects_are_exactly_those_that_reach(
    objects: Seq<ZoneCellRange>,
    last: int,
    x: int,
    y: int,
    z: int,
)
    requires
        objects.len() <= i32::MAX,
    ensures
        forall|i: int|
            0 <= i < objects.len() ==> (reaching_objects(objects, last, x, y, z).contains(i as i32)
                <==> reaches(#[trigger] objects[i], last, x, y, z)),
        forall|a: int, b: int|
            0 <= a < b < reaching_objects(objects, last, x, y, z).len() ==> reaching_objects(
                objects,
                last,
                x,
                y,
                z,
            )[a] < reaching_objects(objects, last, x, y, z)[b],
        forall|a: int|
            0 <= a < reaching_objects(objects, last, x, y, z).len() ==> 0 <= #[trigger] reaching_objects(
                objects,
                last,
                x,
                y,
                z,
            )[a] < objects.len(),
    decreases objects.len(),
{
    if objects.len() > 0 {
        let rest = objects.drop_last();
        lemma_reaching_objects_are_exactly_those_that_reach(rest, last, x, y, z);
        let n = objects.len() - 1;
        let prev = reaching_objects(rest, last, x, y, z);
        assert forall|i: int| 0 <= i < objects.len() implies (reaching_objects(objects, last, x, y, z).contains(
            i as i32,
        ) <==> reaches(#[trigger] objects[i], last, x, y, z)) by {
            if i < n {
                assert(objects[i] == rest[i]);
                if reaches(objects.last(), last, x, y, z) {
                    assert(prev.push(n as i32).contains(i as i32) ==> prev.contains(i as i32)) by {
                        if prev.push(n as i32).contains(i as i32) {
                            let pushed = prev.push(n as i32);
                            let j = choose|j: int| 0 <= j < pushed.len() && #[trigger] pushed[j] == i as i32;
                            if j == prev.len() {
                                assert(false);
                            }
                        }
                    }
                    assert(prev.contains(i as i32) ==> prev.push(n as i32).contains(i as i32)) by {
                        if prev.contains(i as i32) {
                            let j = choose|j: int| 0 <= j < prev.len() && prev[j] == i as i32;
                            assert(prev.push(n as i32)[j] == i as i32);
                        }
                    }
                }
            } else {
                if reaches(objects.last(), last, x, y, z) {
                    assert(prev.push(n as i32)[prev.len() as int] == n as i32);
                } else {
                    if prev.contains(n as i32) {
                        let j = choose|j: int| 0 <= j < prev.len() && prev[j] == n as i32;
                        assert(false);
                    }
                }
            }
        }
    }
}

/// The objects of zone `zone`.
pub open spec fn zone_members(objects: Seq<ZoneCellRange>, last: int, zone: ActiveZone) -> Seq<i32> {
    reaching_objects(objects, last, zone.x as int, zone.y as int, zone.z as int)
}

/// The objects of the first `k` listed zones, laid end to end.
pub open spec fn listed_objects(
    objects: Seq<ZoneCellRange>,
    last: int,
    zones: Seq<ActiveZone>,
    k: int,
) -> Seq<i32>
    decreases k,
{
    if k <= 0 {
        Seq::empty()
    } else {
        listed_objects(objects, last, zones, k - 1) + zone_members(objects, last, zones[k - 1])
    }
}

/// Two zones sit in the same cell.
pub open spec fn same_cell(a: ActiveZone, b: ActiveZone) -> bool {
    a.x == b.x && a.y == b.y && a.z == b.z
}

/// Cell `(x, y, z)` was already given object `k` during the walk of its
/// range that has got to `(cx, cy, cz)`.
pub open spec fn walked(
    r: ZoneCellRange,
    last: int,
    cx: int,
    cy: int,
    cz: int,
    x: int,
    y: int,
    z: int,
) -> bool {
    reaches(r, last, x, y, z) && (x < cx || (x == cx && (y < cy || (y == cy && z < cz))))
}

pub open spec fn cell_members(objects: Seq<ZoneCellRange>, last: int, c: (i32, i32, i32)) -> Seq<i32> {
    reaching_objects(objects, last, c.0 as int, c.1 as int, c.2 as int)
}

/// The cells found so far and their object lists, while object `k` is
/// being added and its walk has got to `(cx, cy, cz)`.
pub open spec fn cells_match(
    objects: Seq<ZoneCellRange>,
    last: int,
    k: int,
    cx: int,
    cy: int,
    cz: int,
    cells: Seq<(i32, i32, i32)>,
    lists: Seq<Vec<i32>>,
) -> bool {
    let done = objects.take(k);
    let r = objects[k];
    &&& cells.len() == lists.len()
    &&& forall|i: int, j: int| 0 <= i < cells.len() && 0 <= j < cells.len() && i != j ==> cells[i] != cells[j]
    &&& forall|i: int|
        0 <= i < cells.len() ==> #[trigger] lists[i]@ == cell_members(done, last, cells[i]) + if walked(
            r,
            last,
            cx,
            cy,
            cz,
            cells[i].0 as int,
            cells[i].1 as int,
            cells[i].2 as int,
        ) {
            seq![k as i32]
        } else {
            Seq::<i32>::empty()
        }
    &&& forall|i: int| 0 <= i < cells.len() ==> #[trigger] lists[i]@.len() > 0
    &&& forall|x: i32, y: i32, z: i32|
        (#[trigger] reaching_objects(done, last, x as int, y as int, z as int).len() > 0 || walked(
            r,
            last,
            cx,
            cy,
            cz,
            x as int,
            y as int,
            z as int,
        )) ==> exists|i: int| 0 <= i < cells.len() && cells[i] == (x, y, z)
}

fn find_cell(cells: &Vec<(i32, i32, i32)>, x: i32, y: i32, z: i32) -> (r: Option<usize>)
    ensures
        r matches Some(i) ==> i < cells.len() && cells@[i as int] == (x, y, z),
        r is None ==> forall|i: int| 0 <= i < cells.len() ==> cells@[i] != (x, y, z),
{
    let mut i: usize = 0;
    while i < cells.len()
        invariant
            i <= cells.len(),
            forall|j: int| 0 <= j < i ==> cells@[j] != (x, y, z),
        decreases cells.len() - i,
    {
        let c = cells[i];
        if c.0 == x && c.1 == y && c.2 == z {
            return Some(i);
        }
        i = i + 1;
    }
    None
}

/// Adds object `k` to cell `(x, y, z)`, the next cell of its walk.
fn add_to_cell(
    cells: &mut Vec<(i32, i32, i32)>,
    lists: &mut Vec<Vec<i32>>,
    objects: &Vec<ZoneCellRange>,
    last: i32,
    k: usize,
    x: i32,
    y: i32,
    z: i32,
)
    requires
        k < objects.len(),
        reaches(objects@[k as int], last as int, x as int, y as int, z as int),
        cells_match(objects@, last as int, k as int, x as int, y as int, z as int, old(cells)@, old(lists)@),
    ensures
        cells_match(objects@, last as int, k as int, x as int, y as int, z + 1, final(cells)@, final(lists)@),
{
    let ghost done = objects@.take(k as int);
    let ghost r = objects@[k as int];
    let ghost before_cells = cells@;
    let ghost before_lists = lists@;
    let obj = #[verifier::truncate] (k as i32);
    match find_cell(cells, x, y, z) {
        Some(i) => {
            lists[i].push(obj);
            proof {
                assert forall|j: int| 0 <= j < cells.len() implies #[trigger] lists@[j]@ == cell_members(
                    done,
                    last as int,
                    cells@[j],
                ) + if walked(r, last as int, x as int, y as int, z + 1, cells@[j].0 as int, cells@[j].1 as int, cells@[j].2 as int) {
                    seq![k as i32]
                } else {
                    Seq::<i32>::empty()
                } by {
                    if j != i {
                        assert(lists@[j] == before_lists[j]);
                    }
                }
                assert forall|j: int| 0 <= j < cells.len() implies #[trigger] lists@[j]@.len() > 0 by {
                    if j != i {
                        assert(lists@[j] == before_lists[j]);
                    }
                }
            }
        },
        None => {
            proof {
                if reaching_objects(done, last as int, x as int, y as int, z as int).len() > 0 {
                    assert(exists|j: int| 0 <= j < cells.len() && cells@[j] == (x, y, z));
                }
            }
            let mut list: Vec<i32> = Vec::new();
            list.push(obj);
            cells.push((x, y, z));
            lists.push(list);
            proof {
                let n = before_cells.len();
                assert forall|j: int| 0 <= j < cells.len() implies #[trigger] lists@[j]@ == cell_members(
                    done,
                    last as int,
                    cells@[j],
                ) + if walked(r, last as int, x as int, y as int, z + 1, cells@[j].0 as int, cells@[j].1 as int, cells@[j].2 as int) {
                    seq![k as i32]
                } else {
                    Seq::<i32>::empty()
                } by {
                    if j == n {
                        assert(lists@[j]@ =~= seq![k as i32]);
                        assert(cell_members(done, last as int, cells@[j]) =~= Seq::<i32>::empty());
                    } else {
                        assert(lists@[j] == before_lists[j]);
                        assert(cells@[j] == before_cells[j]);
                    }
                }
                assert forall|j: int| 0 <= j < cells.len() implies #[trigger] lists@[j]@.len() > 0 by {
                    if j < n {
                        assert(lists@[j] == before_lists[j]);
                    }
                }
                assert forall|a: int, b: int|
                    0 <= a < cells.len() && 0 <= b < cells.len() && a != b implies cells@[a] != cells@[b] by {
                    if a < n && b < n {
                        assert(cells@[a] == before_cells[a]);
                        assert(cells@[b] == before_cells[b]);
                    }
                }
                assert forall|xx: i32, yy: i32, zz: i32|
                    (#[trigger] reaching_objects(done, last as int, xx as int, yy as int, zz as int).len() > 0 || walked(
                        r,
                        last as int,
                        x as int,
                        y as int,
                        z + 1,
                        xx as int,
                        yy as int,
                        zz as int,
                    )) implies exists|j: int| 0 <= j < cells.len() && cells@[j] == (xx, yy, zz) by {
                    if xx == x && yy == y && zz == z {
                        assert(cells@[n as int] == (xx, yy, zz));
                    } else {
                        let j = choose|j: int| 0 <= j < before_cells.len() && before_cells[j] == (xx, yy, zz);
                        assert(cells@[j] == (xx, yy, zz));
                    }
                }
            }
        },
    }
}

/// Adds object `k` to every cell it reaches, lowest x first, then y, then z.
fn add_object(
    cells: &mut Vec<(i32, i32, i32)>,
    lists: &mut Vec<Vec<i32>>,
    objects: &Vec<ZoneCellRange>,
    last: i32,
    k: usize,
)
    requires
        k < objects.len(),
        cells_match(
            objects@,
            last as int,
            k as int,
            objects@[k as int].min_x as int,
            objects@[k as int].min_y as int,
            objects@[k as int].min_z as int,
            old(cells)@,
            old(lists)@,
        ),
    ensures
        cells_match_all(objects@, last as int, k as int, final(cells)@, final(lists)@),
{
    let ghost o = objects@;
    let r = objects[k];
    let x_top: i64 = if (r.max_x as i64) < (last as i64) + 1 { r.max_x as i64 } else { last as i64 + 1 };
    let y_top: i64 = if (r.max_y as i64) < (last as i64) + 1 { r.max_y as i64 } else { last as i64 + 1 };
    let z_top: i64 = if (r.max_z as i64) < (last as i64) + 1 { r.max_z as i64 } else { last as i64 + 1 };
    let mut x: i64 = r.min_x as i64;
    while x < x_top
        invariant
            o == objects@,
            k < o.len(),
            r == o[k as int],
            x_top as int == if (r.max_x as int) < (last as int) + 1 { r.max_x as int } else { last as int + 1 },
            y_top as int == if (r.max_y as int) < (last as int) + 1 { r.max_y as int } else { last as int + 1 },
            z_top as int == if (r.max_z as int) < (last as int) + 1 { r.max_z as int } else { last as int + 1 },
            r.min_x <= x,
            x <= x_top || x == r.min_x,
            cells_match(o, last as int, k as int, x as int, r.min_y as int, r.min_z as int, cells@, lists@),
        decreases x_top - x,
    {
        let mut y: i64 = r.min_y as i64;
        while y < y_top
            invariant
                o == objects@,
                k < o.len(),
                r == o[k as int],
                y_top as int == if (r.max_y as int) < (last as int) + 1 { r.max_y as int } else { last as int + 1 },
                z_top as int == if (r.max_z as int) < (last as int) + 1 { r.max_z as int } else { last as int + 1 },
                r.min_x <= x < x_top,
                x_top <= r.max_x,
                x_top <= last + 1,
                r.min_y <= y,
                y <= y_top || y == r.min_y,
                cells_match(o, last as int, k as int, x as int, y as int, r.min_z as int, cells@, lists@),
            decreases y_top - y,
        {
            let mut z: i64 = r.min_z as i64;
            while z < z_top
                invariant
                    o == objects@,
                    k < o.len(),
                    r == o[k as int],
                    z_top as int == if (r.max_z as int) < (last as int) + 1 { r.max_z as int } else { last as int + 1 },
                    r.min_x <= x < x_top,
                    x_top <= r.max_x,
                    x_top <= last + 1,
                    r.min_y <= y < y_top,
                    y_top <= r.max_y,
                    y_top <= last + 1,
                    r.min_z <= z,
                    z <= z_top || z == r.min_z,
                    cells_match(o, last as int, k as int, x as int, y as int, z as int, cells@, lists@),
                decreases z_top - z,
            {
                add_to_cell(cells, lists, objects, last, k, x as i32, y as i32, z as i32);
                z = z + 1;
            }
            proof {
                lemma_walk_next_row(o, last as int, k as int, x as int, y as int, z as int, z_top as int, cells@, lists@);
            }
            y = y + 1;
        }
        proof {
            lemma_walk_next_plane(o, last as int, k as int, x as int, y as int, y_top as int, cells@, lists@);
        }
        x = x + 1;
    }
    proof {
        lemma_walk_done(o, last as int, k as int, x as int, x_top as int, cells@, lists@);
    }
}

/// Object `k`'s walk is complete: every cell it reaches has it.
pub open spec fn cells_match_all(
    objects: Seq<ZoneCellRange>,
    last: int,
    k: int,
    cells: Seq<(i32, i32, i32)>,
    lists: Seq<Vec<i32>>,
) -> bool {
    let done = objects.take(k + 1);
    &&& cells.len() == lists.len()
    &&& forall|i: int, j: int| 0 <= i < cells.len() && 0 <= j < cells.len() && i != j ==> cells[i] != cells[j]
    &&& forall|i: int| 0 <= i < cells.len() ==> #[trigger] lists[i]@ == cell_members(done, last, cells[i])
    &&& forall|i: int| 0 <= i < cells.len() ==> #[trigger] lists[i]@.len() > 0
    &&& forall|x: i32, y: i32, z: i32|
        #[trigger] reaching_objects(done, last, x as int, y as int, z as int).len() > 0
            ==> exists|i: int| 0 <= i < cells.len() && cells[i] == (x, y, z)
}

proof fn lemma_walk_next_row(
    o: Seq<ZoneCellRange>,
    last: int,
    k: int,
    x: int,
    y: int,
    z: int,
    z_top: int,
    cells: Seq<(i32, i32, i32)>,
    lists: Seq<Vec<i32>>,
)
    requires
        0 <= k < o.len(),
        z_top == if o[k].max_z < last + 1 { o[k].max_z as int } else { last + 1 },
        o[k].min_z <= z,
        z >= z_top,
        cells_match(o, last, k, x, y, z, cells, lists),
    ensures
        cells_match(o, last, k, x, y + 1, o[k].min_z as int, cells, lists),
{
    let r = o[k];
    assert forall|a: int, b: int, c: int|
        walked(r, last, x, y, z, a, b, c) == walked(r, last, x, y + 1, r.min_z as int, a, b, c) by {}
}

proof fn lemma_walk_next_plane(
    o: Seq<ZoneCellRange>,
    last: int,
    k: int,
    x: int,
    y: int,
    y_top: int,
    cells: Seq<(i32, i32, i32)>,
    lists: Seq<Vec<i32>>,
)
    requires
        0 <= k < o.len(),
        y_top == if o[k].max_y < last + 1 { o[k].max_y as int } else { last + 1 },
        o[k].min_y <= y,
        y >= y_top,
        cells_match(o, last, k, x, y, o[k].min_z as int, cells, lists),
    ensures
        cells_match(o, last, k, x + 1, o[k].min_y as int, o[k].min_z as int, cells, lists),
{
    let r = o[k];
    assert forall|a: int, b: int, c: int|
        walked(r, last, x, y, r.min_z as int, a, b, c) == walked(r, last, x + 1, r.min_y as int, r.min_z as int, a, b, c) by {}
}

proof fn lemma_walk_done(
    o: Seq<ZoneCellRange>,
    last: int,
    k: int,
    x: int,
    x_top: int,
    cells: Seq<(i32, i32, i32)>,
    lists: Seq<Vec<i32>>,
)
    requires
        0 <= k < o.len(),
        x_top == if o[k].max_x < last + 1 { o[k].max_x as int } else { last + 1 },
        o[k].min_x <= x,
        x >= x_top,
        cells_match(o, last, k, x, o[k].min_y as int, o[k].min_z as int, cells, lists),
    ensures
        cells_match_all(o, last, k, cells, lists),
{
    let r = o[k];
    let done = o.take(k);
    let next = o.take(k + 1);
    assert(next.drop_last() =~= done);
    assert(next.last() == r);
    assert forall|a: int, b: int, c: int|
        walked(r, last, x, r.min_y as int, r.min_z as int, a, b, c) == reaches(r, last, a, b, c) by {}
    assert forall|i: int| 0 <= i < cells.len() implies #[trigger] lists[i]@ == cell_members(next, last, cells[i]) by {
        assert(lists[i]@ == cell_members(done, last, cells[i]) + if walked(r, last, x, r.min_y as int, r.min_z as int, cells[i].0 as int, cells[i].1 as int, cells[i].2 as int) {
            seq![k as i32]
        } else {
            Seq::<i32>::empty()
        });
        if !reaches(r, last, cells[i].0 as int, cells[i].1 as int, cells[i].2 as int) {
            assert(cell_members(done, last, cells[i]) + Seq::<i32>::empty() =~= cell_members(done, last, cells[i]));
        }
    }
    assert forall|xx: i32, yy: i32, zz: i32|
        #[trigger] reaching_objects(next, last, xx as int, yy as int, zz as int).len() > 0
        implies exists|i: int| 0 <= i < cells.len() && cells[i] == (xx, yy, zz) by {
        assert(reaching_objects(done, last, xx as int, yy as int, zz as int).len() > 0 || walked(r, last, x, r.min_y as int, r.min_z as int, xx as int, yy as int, zz as int));
    }
}


proof fn lemma_walk_start(
    o: Seq<ZoneCellRange>,
    last: int,
    k: int,
    cells: Seq<(i32, i32, i32)>,
    lists: Seq<Vec<i32>>,
)
    requires
        0 <= k < o.len(),
        cells_match_all(o, last, k - 1, cells, lists),
    ensures
        cells_match(o, last, k, o[k].min_x as int, o[k].min_y as int, o[k].min_z as int, cells, lists),
{
    let r = o[k];
    let done = o.take(k);
    assert forall|i: int| 0 <= i < cells.len() implies #[trigger] lists[i]@ == cell_members(done, last, cells[i])
        + if walked(r, last, r.min_x as int, r.min_y as int, r.min_z as int, cells[i].0 as int, cells[i].1 as int, cells[i].2 as int) {
        seq![k as i32]
    } else {
        Seq::<i32>::empty()
    } by {
        assert(cell_members(done, last, cells[i]) + Seq::<i32>::empty() =~= cell_members(done, last, cells[i]));
    }
    assert forall|x: i32, y: i32, z: i32|
        (#[trigger] reaching_objects(done, last, x as int, y as int, z as int).len() > 0 || walked(
            r,
            last,
            r.min_x as int,
            r.min_y as int,
            r.min_z as int,
            x as int,
            y as int,
            z as int,
        )) implies exists|i: int| 0 <= i < cells.len() && cells[i] == (x, y, z) by {
        assert(reaching_objects(o.take(k - 1 + 1), last, x as int, y as int, z as int).len() > 0);
    }
}

/// Zones `zs1` and `zs2` agree on the cells of their first `k` zones, so
/// they list the same objects.
proof fn lemma_listed_same_cells(
    o: Seq<ZoneCellRange>,
    last: int,
    zs1: Seq<ActiveZone>,
    zs2: Seq<ActiveZone>,
    k: int,
)
    requires
        0 <= k <= zs1.len(),
        k <= zs2.len(),
        forall|j: int| 0 <= j < k ==> same_cell(#[trigger] zs1[j], zs2[j]),
    ensures
        listed_objects(o, last, zs1, k) == listed_objects(o, last, zs2, k),
    decreases k,
{
    if k > 0 {
        lemma_listed_same_cells(o, last, zs1, zs2, k - 1);
        assert(same_cell(zs1[k - 1], zs2[k - 1]));
    }
}

/// The zones that some object reaches, each listing, in order, the objects
/// that reach it: object `i` reaches every cell of `objects[i]` that is at
/// most `zones_per_dimension` on each axis. A zone's objects sit at
/// `first_object..final_object` in `zone_objects`, zone after zone; each
/// cell is listed once. An empty object array holds a single `0`, and with
/// no zones at all a single empty zone is given, while `num_zones` stays
/// `0`. Positions are stored as `i32`, wrapping as a cast does.
pub fn active_object_zones(objects: &Vec<ZoneCellRange>, zones_per_dimension: i32) -> (layout:
    ActiveZoneLayout)
    ensures
        ({
            let o = objects@;
            let last = zones_per_dimension as int;
            let n = layout.num_zones as int;
            let zs = layout.zones@;
            let listed = listed_objects(o, last, zs, n);
            &&& n > 0 ==> zs.len() == n
            &&& n == 0 ==> zs == seq![ActiveZone { x: 0, y: 0, z: 0, first_object: 0, final_object: 0 }]
            &&& forall|i: int, j: int| 0 <= i < n && 0 <= j < n && i != j ==> !same_cell(zs[i], zs[j])
            &&& forall|i: int| 0 <= i < n ==> #[trigger] zone_members(o, last, zs[i]).len() > 0
            &&& forall|x: i32, y: i32, z: i32|
                #[trigger] reaching_objects(o, last, x as int, y as int, z as int).len() > 0
                    ==> exists|i: int| 0 <= i < n && zs[i].x == x && zs[i].y == y && zs[i].z == z
            &&& forall|i: int|
                0 <= i < n ==> #[trigger] zs[i].first_object == listed_objects(o, last, zs, i).len() as i32
                    && zs[i].final_object == listed_objects(o, last, zs, i + 1).len() as i32
            &&& layout.zone_objects@ == if n == 0 { seq![0i32] } else { listed }
        }),
{
    let ghost o = objects@;
    let ghost last = zones_per_dimension as int;
    let mut cells: Vec<(i32, i32, i32)> = Vec::new();
    let mut lists: Vec<Vec<i32>> = Vec::new();
    let mut k: usize = 0;
    while k < objects.len()
        invariant
            o == objects@,
            last == zones_per_dimension as int,
            k <= o.len(),
            cells_match_all(o, last, k - 1, cells@, lists@),
        decreases o.len() - k,
    {
        proof {
            lemma_walk_start(o, last, k as int, cells@, lists@);
        }
        add_object(&mut cells, &mut lists, objects, zones_per_dimension, k);
        k = k + 1;
    }
    assert(o.take(k - 1 + 1) =~= o);
    let mut zone_objects: Vec<i32> = Vec::new();
    let mut zones: Vec<ActiveZone> = Vec::new();
    let mut i: usize = 0;
    while i < cells.len()
        invariant
            cells_match_all(o, last, o.len() - 1, cells@, lists@),
            o.take(o.len() - 1 + 1) == o,
            i <= cells.len(),
            zones.len() == i,
            forall|j: int| 0 <= j < i ==> (#[trigger] zones@[j]).x == cells@[j].0 && zones@[j].y == cells@[j].1
                && zones@[j].z == cells@[j].2,
            forall|j: int| 0 <= j < i ==> #[trigger] zones@[j].first_object == listed_objects(o, last, zones@, j).len() as i32
                && zones@[j].final_object == listed_objects(o, last, zones@, j + 1).len() as i32,
            zone_objects@ == listed_objects(o, last, zones@, i as int),
        decreases cells.len() - i,
    {
        let c = cells[i];
        let first = #[verifier::truncate] (zone_objects.len() as i32);
        let ghost before = zone_objects@;
        let mut m: usize = 0;
        while m < lists[i].len()
            invariant
                i < lists.len(),
                m <= lists@[i as int].len(),
                zone_objects@ == before + lists@[i as int]@.take(m as int),
            decreases lists@[i as int].len() - m,
        {
            zone_objects.push(lists[i][m]);
            assert(lists@[i as int]@.take(m + 1) =~= lists@[i as int]@.take(m as int).push(lists@[i as int]@[m as int]));
            m = m + 1;
        }
        assert(lists@[i as int]@.take(m as int) =~= lists@[i as int]@);
        let last_object = #[verifier::truncate] (zone_objects.len() as i32);
        let zone = ActiveZone { x: c.0, y: c.1, z: c.2, first_object: first, final_object: last_object };
        let ghost old_zones = zones@;
        zones.push(zone);
        proof {
            assert forall|j: int| 0 <= j <= i implies same_cell(#[trigger] zones@[j], old_zones.push(zone)[j]) by {}
            assert forall|j: int| 0 <= j < i implies same_cell(#[trigger] zones@[j], old_zones[j]) by {}
            assert forall|j: int| 0 <= j <= i + 1 implies listed_objects(o, last, zones@, j) == listed_objects(o, last, old_zones.push(zone), j) by {
                lemma_listed_same_cells(o, last, zones@, old_zones.push(zone), j);
            }
            assert forall|j: int| 0 <= j <= i implies listed_objects(o, last, zones@, j) == listed_objects(o, last, old_zones, j) by {
                lemma_listed_same_cells(o, last, zones@, old_zones, j);
            }
            assert(zone_members(o, last, zone) == lists@[i as int]@);
            assert(listed_objects(o, last, zones@, i + 1) == listed_objects(o, last, zones@, i as int) + zone_members(o, last, zones@[i as int]));
            assert(listed_objects(o, last, zones@, i as int) == listed_objects(o, last, old_zones, i as int));
            assert(zone_objects@ == listed_objects(o, last, zones@, i + 1));
            assert(zones@[i as int].first_object == listed_objects(o, last, zones@, i as int).len() as i32);
            assert(zones@[i as int].final_object == listed_objects(o, last, zones@, i + 1).len() as i32);
            assert forall|j: int| 0 <= j < i implies #[trigger] zones@[j].first_object == listed_objects(o, last, zones@, j).len() as i32
                && zones@[j].final_object == listed_objects(o, last, zones@, j + 1).len() as i32 by {
                assert(zones@[j] == old_zones[j]);
                assert(listed_objects(o, last, zones@, j) == listed_objects(o, last, old_zones, j));
                assert(listed_objects(o, last, zones@, j + 1) == listed_objects(o, last, old_zones, j + 1));
            }
        }
        i = i + 1;
    }
    let num_zones = zones.len();
    proof {
        assert forall|a: int, b: int| 0 <= a < num_zones && 0 <= b < num_zones && a != b implies !same_cell(zones@[a], zones@[b]) by {
            assert(cells@[a] != cells@[b]);
        }
        assert forall|a: int| 0 <= a < num_zones implies #[trigger] zone_members(o, last, zones@[a]).len() > 0 by {
            assert(lists@[a]@ == cell_members(o, last, cells@[a]));
        }
        assert forall|x: i32, y: i32, z: i32|
            #[trigger] reaching_objects(o, last, x as int, y as int, z as int).len() > 0
            implies exists|a: int| 0 <= a < num_zones && zones@[a].x == x && zones@[a].y == y && zones@[a].z == z by {
            let a = choose|a: int| 0 <= a < cells.len() && cells@[a] == (x, y, z);
            assert(zones@[a].x == x && zones@[a].y == y && zones@[a].z == z);
        }
    }
    if zone_objects.len() == 0 {
        zone_objects.push(0);
    }
    if num_zones == 0 {
        zones.push(ActiveZone { x: 0, y: 0, z: 0, first_object: 0, final_object: 0 });
    }
    ActiveZoneLayout { zone_objects, zones, num_zones }
}

proof fn lemma_listed_extends(
    objects: Seq<ZoneCellRange>,
    last: int,
    zones: Seq<ActiveZone>,
    a: int,
    k: int,
)
    requires
        0 <= a <= k,
    ensures
        listed_objects(objects, last, zones, a).len() <= listed_objects(objects, last, zones, k).len(),
        forall|j: int|
            0 <= j < listed_objects(objects, last, zones, a).len() ==> #[trigger] listed_objects(
                objects,
                last,
                zones,
                k,
            )[j] == listed_objects(objects, last, zones, a)[j],
    decreases k,
{
    if a < k {
        lemma_listed_extends(objects, last, zones, a, k - 1);
    }
}

/// The run of zone `a` in the object array, given the array is short
/// enough for `i32` positions: it is exactly the zone's member list.
proof fn lemma_zone_run(
    objects: Seq<ZoneCellRange>,
    last: int,
    num_zones: int,
    zones: Seq<ActiveZone>,
    zone_objects: Seq<i32>,
    a: int,
)
    requires
        0 <= a < num_zones,
        zones[a].first_object == listed_objects(objects, last, zones, a).len() as i32,
        zones[a].final_object == listed_objects(objects, last, zones, a + 1).len() as i32,
        zone_objects == listed_objects(objects, last, zones, num_zones),
        zone_objects.len() <= i32::MAX,
    ensures
        zones[a].first_object == listed_objects(objects, last, zones, a).len(),
        zones[a].final_object == zones[a].first_object + zone_members(objects, last, zones[a]).len(),
        zones[a].final_object <= zone_objects.len(),
        forall|w: int|
            0 <= w < zone_members(objects, last, zones[a]).len() ==> zone_objects[zones[a].first_object
                + w] == #[trigger] zone_members(objects, last, zones[a])[w],
{
    let pa = listed_objects(objects, last, zones, a);
    let pa1 = listed_objects(objects, last, zones, a + 1);
    let m = zone_members(objects, last, zones[a]);
    lemma_listed_extends(objects, last, zones, a + 1, num_zones);
    assert(pa1 == pa + m);
    assert forall|w: int| 0 <= w < m.len() implies zone_objects[zones[a].first_object + w]
        == #[trigger] m[w] by {
        assert(pa1[pa.len() + w] == m[w]);
    }
}

/// Every object reaches, in the layout `active_object_zones` gives, each
/// cell of its range that lies at most `last` on every axis: some listed
/// zone has that cell, and the object's index sits in that zone's run of
/// the object array.
pub proof fn lemma_active_zones_hold_every_reached_cell(
    objects: Seq<ZoneCellRange>,
    last: int,
    num_zones: int,
    zones: Seq<ActiveZone>,
    zone_objects: Seq<i32>,
    i: int,
    x: i32,
    y: i32,
    z: i32,
)
    requires
        forall|x: i32, y: i32, z: i32|
            #[trigger] reaching_objects(objects, last, x as int, y as int, z as int).len() > 0
                ==> exists|a: int|
                0 <= a < num_zones && zones[a].x == x && zones[a].y == y && zones[a].z == z,
        forall|a: int|
            0 <= a < num_zones ==> #[trigger] zones[a].first_object == listed_objects(
                objects,
                last,
                zones,
                a,
            ).len() as i32 && zones[a].final_object == listed_objects(objects, last, zones, a + 1).len()
                as i32,
        zone_objects == if num_zones == 0 {
            seq![0i32]
        } else {
            listed_objects(objects, last, zones, num_zones)
        },
        zone_objects.len() <= i32::MAX,
        0 <= i < objects.len() <= i32::MAX,
        objects[i].min_x <= x < objects[i].max_x && x <= last,
        objects[i].min_y <= y < objects[i].max_y && y <= last,
        objects[i].min_z <= z < objects[i].max_z && z <= last,
    ensures
        exists|a: int|
            0 <= a < num_zones && zones[a].x == x && zones[a].y == y && zones[a].z == z && exists|t: int|
                zones[a].first_object <= t < zones[a].final_object && #[trigger] zone_objects[t] == i as i32,
{
    lemma_reaching_objects_are_exactly_those_that_reach(objects, last, x as int, y as int, z as int);
    let ro = reaching_objects(objects, last, x as int, y as int, z as int);
    assert(reaches(objects[i], last, x as int, y as int, z as int));
    assert(ro.contains(i as i32));
    let a = choose|a: int| 0 <= a < num_zones && zones[a].x == x && zones[a].y == y && zones[a].z == z;
    assert(zones[a].first_object == listed_objects(objects, last, zones, a).len() as i32);
    lemma_zone_run(objects, last, num_zones, zones, zone_objects, a);
    assert(zone_members(objects, last, zones[a]) == ro);
    let w = choose|w: int| 0 <= w < ro.len() && ro[w] == i as i32;
    let t = zones[a].first_object + w;
    assert(zone_objects[t] == ro[w]);
    assert(zones[a].first_object <= t < zones[a].final_object);
}

/// Every object in a zone's run of the object array reaches that zone's
/// cell: its range covers the cell on every axis, and the cell is at most
/// `last` on each.
pub proof fn lemma_active_zone_runs_hold_only_reaching_objects(
    objects: Seq<ZoneCellRange>,
    last: int,
    num_zones: int,
    zones: Seq<ActiveZone>,
    zone_objects: Seq<i32>,
    a: int,
    t: int,
)
    requires
        0 <= a < num_zones,
        zones[a].first_object == listed_objects(objects, last, zones, a).len() as i32,
        zones[a].final_object == listed_objects(objects, last, zones, a + 1).len() as i32,
        zone_objects == listed_objects(objects, last, zones, num_zones),
        zone_objects.len() <= i32::MAX,
        objects.len() <= i32::MAX,
        zones[a].first_object <= t < zones[a].final_object,
    ensures
        0 <= zone_objects[t] < objects.len(),
        objects[zone_objects[t] as int].min_x <= zones[a].x < objects[zone_objects[t] as int].max_x,
        objects[zone_objects[t] as int].min_y <= zones[a].y < objects[zone_objects[t] as int].max_y,
        objects[zone_objects[t] as int].min_z <= zones[a].z < objects[zone_objects[t] as int].max_z,
        zones[a].x <= last && zones[a].y <= last && zones[a].z <= last,
{
    lemma_zone_run(objects, last, num_zones, zones, zone_objects, a);
    let m = zone_members(objects, last, zones[a]);
    lemma_reaching_objects_are_exactly_those_that_reach(
        objects,
        last,
        zones[a].x as int,
        zones[a].y as int,
        zones[a].z as int,
    );
    let w = t - zones[a].first_object;
    assert(zone_objects[t] == m[w]);
    let i = m[w] as int;
    assert(0 <= i < objects.len());
    assert(m.contains(i as i32));
    assert(reaches(objects[i], last, zones[a].x as int, zones[a].y as int, zones[a].z as int));
}

} // verus!
