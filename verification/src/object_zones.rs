//! Spatial zones of signed-distance objects. The world is cut into
//! `n * n * n` cubic zones; every zone lists the objects whose bounds reach
//! into it, and all those lists are laid end to end in one array.

use vstd::prelude::*;
use vstd::arithmetic::div_mod::{lemma_fundamental_div_mod, lemma_fundamental_div_mod_converse};

verus! {

/// The zone cells an object's bounds reach on each axis: `min..max`, with
/// `max` excluded. Cells are counted from the low corner of the zoned world.
#[derive(Clone, Copy, PartialEq, Eq, Structural, Debug)]
pub struct ZoneCellRange {
    pub min_x: i32,
    pub max_x: i32,
    pub min_y: i32,
    pub max_y: i32,
    pub min_z: i32,
    pub max_z: i32,
}

/// The run of the object array that belongs to one zone:
/// `first_object..final_object`.
#[derive(Clone, Copy, PartialEq, Eq, Structural, Debug)]
pub struct ZoneSpan {
    pub first_object: i32,
    pub final_object: i32,
}

/// Objects laid out by zone.
pub struct ObjectZoneLayout {
    /// The objects of every zone, zone after zone.
    pub zone_objects: Vec<i32>,
    /// One span per zone, zones ordered by x, then y, then z.
    pub zones: Vec<ZoneSpan>,
    /// How many zones there are.
    pub num_zones: usize,
}

pub open spec fn cell_x(n: int, c: int) -> int {
    c / (n * n)
}

pub open spec fn cell_y(n: int, c: int) -> int {
    (c / n) % n
}

pub open spec fn cell_z(n: int, c: int) -> int {
    c % n
}

pub open spec fn covers(r: ZoneCellRange, x: int, y: int, z: int) -> bool {
    &&& r.min_x <= x < r.max_x
    &&& r.min_y <= y < r.max_y
    &&& r.min_z <= z < r.max_z
}

pub open spec fn covers_cell(r: ZoneCellRange, n: int, c: int) -> bool {
    covers(r, cell_x(n, c), cell_y(n, c), cell_z(n, c))
}

/// The objects (by position) whose bounds reach zone `c`, in order.
pub open spec fn cell_objects(objects: Seq<ZoneCellRange>, n: int, c: int) -> Seq<i32>
    decreases objects.len(),
{
    if objects.len() == 0 {
        Seq::empty()
    } else {
        let rest = cell_objects(objects.drop_last(), n, c);
        if covers_cell(objects.last(), n, c) {
            rest.push((objects.len() - 1) as i32)
        } else {
            rest
        }
    }
}

/// The object lists of zones `0..c`, laid end to end.
pub open spec fn zone_object_prefix(objects: Seq<ZoneCellRange>, n: int, c: nat) -> Seq<i32>
    decreases c,
{
    if c == 0 {
        Seq::empty()
    } else {
        zone_object_prefix(objects, n, (c - 1) as nat) + cell_objects(objects, n, c - 1)
    }
}

/// Number of zones for `n` zones per dimension.
pub open spec fn zone_count(n: int) -> nat {
    if n > 0 {
        (n * n * n) as nat
    } else {
        0
    }
}

/// The span of zone `c`: where its objects sit in the object array, or
/// `0..0` for a zone no object reaches.
pub open spec fn zone_span(objects: Seq<ZoneCellRange>, n: int, c: int) -> ZoneSpan {
    if cell_objects(objects, n, c).len() == 0 {
        ZoneSpan { first_object: 0, final_object: 0 }
    } else {
        ZoneSpan {
            first_object: zone_object_prefix(objects, n, c as nat).len() as i32,
            final_object: zone_object_prefix(objects, n, (c + 1) as nat).len() as i32,
        }
    }
}

/// The object array: every zone's objects in zone order, or a single `0`
/// when no zone holds an object.
pub open spec fn zone_object_array(objects: Seq<ZoneCellRange>, n: int) -> Seq<i32> {
    let all = zone_object_prefix(objects, n, zone_count(n));
    if all.len() == 0 {
        seq![0i32]
    } else {
        all
    }
}

proof fn lemma_cell_coords(n: int, x: int, y: int, z: int)
    requires
        0 <= x < n,
        0 <= y < n,
        0 <= z < n,
    ensures
        0 <= (x * n + y) * n + z < n * n * n,
        cell_x(n, (x * n + y) * n + z) == x,
        cell_y(n, (x * n + y) * n + z) == y,
        cell_z(n, (x * n + y) * n + z) == z,
{
    let c = (x * n + y) * n + z;
    assert(0 <= y * n + z < n * n) by (nonlinear_arith)
        requires
            0 <= y < n,
            0 <= z < n,
    ;
    assert(c == x * (n * n) + (y * n + z)) by (nonlinear_arith)
        requires
            c == (x * n + y) * n + z,
    ;
    assert(0 <= x * (n * n)) by (nonlinear_arith)
        requires
            0 <= x,
    ;
    assert(c < n * n * n) by (nonlinear_arith)
        requires
            c == x * (n * n) + (y * n + z),
            y * n + z < n * n,
            x < n,
            0 <= x,
    ;
    lemma_fundamental_div_mod_converse(c, n * n, x, y * n + z);
    lemma_fundamental_div_mod_converse(c, n, x * n + y, z);
    assert(0 <= x * n) by (nonlinear_arith)
        requires
            0 <= x,
            0 < n,
    ;
    lemma_fundamental_div_mod_converse(x * n + y, n, x, y);
}

proof fn lemma_cell_range(n: int, c: int)
    requires
        0 < n,
        0 <= c < n * n * n,
    ensures
        0 <= cell_x(n, c) < n,
        0 <= cell_y(n, c) < n,
        0 <= cell_z(n, c) < n,
        c == (cell_x(n, c) * n + cell_y(n, c)) * n + cell_z(n, c),
{
    let nn = n * n;
    assert(nn > 0) by (nonlinear_arith)
        requires
            n > 0,
            nn == n * n,
    ;
    lemma_fundamental_div_mod(c, nn);
    vstd::arithmetic::div_mod::lemma_mod_pos_bound(c, nn);
    vstd::arithmetic::div_mod::lemma_div_pos_is_pos(c, nn);
    let x = c / nn;
    assert(x < n) by (nonlinear_arith)
        requires
            c == nn * x + c % nn,
            c % nn >= 0,
            c < nn * n,
            nn > 0,
    ;
    lemma_fundamental_div_mod(c, n);
    vstd::arithmetic::div_mod::lemma_mod_pos_bound(c, n);
    vstd::arithmetic::div_mod::lemma_div_pos_is_pos(c, n);
    let q = c / n;
    lemma_fundamental_div_mod(q, n);
    vstd::arithmetic::div_mod::lemma_mod_pos_bound(q, n);
    vstd::arithmetic::div_mod::lemma_div_pos_is_pos(q, n);
    // q / n == x
    assert(c == (q / n * n + q % n) * n + c % n) by (nonlinear_arith)
        requires
            c == n * q + c % n,
            q == n * (q / n) + q % n,
    ;
    assert(c == (q / n) * nn + ((q % n) * n + c % n)) by (nonlinear_arith)
        requires
            c == (q / n * n + q % n) * n + c % n,
            nn == n * n,
    ;
    assert(0 <= (q % n) * n + c % n < nn) by (nonlinear_arith)
        requires
            0 <= q % n < n,
            0 <= c % n < n,
            nn == n * n,
    ;
    lemma_fundamental_div_mod_converse(c, nn, q / n, (q % n) * n + c % n);
}

/// Zone `c` has been given object `obj` when `pick(c)` holds, and is as it
/// was otherwise.
pub open spec fn pushed_where(
    before: Seq<Vec<i32>>,
    after: Seq<Vec<i32>>,
    obj: i32,
    pick: spec_fn(int) -> bool,
) -> bool {
    &&& after.len() == before.len()
    &&& forall|c: int|
        0 <= c < before.len() ==> #[trigger] after[c]@ == if pick(c) {
            before[c]@.push(obj)
        } else {
            before[c]@
        }
}

/// Adds object `obj` to every zone its range reaches.
fn add_object_to_zones(buckets: &mut Vec<Vec<i32>>, n: usize, obj: i32, r: ZoneCellRange)
    requires
        0 < n <= i32::MAX,
        n * n * n <= usize::MAX,
        old(buckets).len() == n * n * n,
    ensures
        pushed_where(old(buckets)@, final(buckets)@, obj, |c: int| covers_cell(r, n as int, c)),
{
    let ghost ni = n as int;
    let ghost start = buckets@;
    let ni32 = n as i32;
    let x_lo: i32 = if r.min_x < 0 { 0 } else { r.min_x };
    let x_hi: i32 = if r.max_x < ni32 { r.max_x } else { ni32 };
    let y_lo: i32 = if r.min_y < 0 { 0 } else { r.min_y };
    let y_hi: i32 = if r.max_y < ni32 { r.max_y } else { ni32 };
    let z_lo: i32 = if r.min_z < 0 { 0 } else { r.min_z };
    let z_hi: i32 = if r.max_z < ni32 { r.max_z } else { ni32 };
    let mut x = x_lo;
    while x < x_hi
        invariant
            ni == n as int,
            start.len() == ni * ni * ni,
            0 < n <= i32::MAX,
            n * n * n <= usize::MAX,
            ni32 == n as i32,
            x_lo <= x,
            0 <= x_lo,
            x_lo == if r.min_x < 0 { 0 } else { r.min_x },
            x_hi == if r.max_x < ni32 { r.max_x } else { ni32 },
            y_lo == if r.min_y < 0 { 0 } else { r.min_y },
            y_hi == if r.max_y < ni32 { r.max_y } else { ni32 },
            z_lo == if r.min_z < 0 { 0 } else { r.min_z },
            z_hi == if r.max_z < ni32 { r.max_z } else { ni32 },
            x <= x_hi || x == x_lo,
            pushed_where(
                start,
                buckets@,
                obj,
                |c: int| covers_cell(r, ni, c) && cell_x(ni, c) < x,
            ),
        decreases x_hi - x,
    {
        let mut y = y_lo;
        while y < y_hi
            invariant
                ni == n as int,
                start.len() == ni * ni * ni,
                0 < n <= i32::MAX,
                n * n * n <= usize::MAX,
                ni32 == n as i32,
                x_lo <= x < x_hi,
                0 <= x_lo,
                x_hi <= ni32,
                y_lo <= y,
                y <= y_hi || y == y_lo,
                y_lo == if r.min_y < 0 { 0 } else { r.min_y },
                y_hi == if r.max_y < ni32 { r.max_y } else { ni32 },
                z_lo == if r.min_z < 0 { 0 } else { r.min_z },
                z_hi == if r.max_z < ni32 { r.max_z } else { ni32 },
                r.min_x <= x < r.max_x,
                pushed_where(
                    start,
                    buckets@,
                    obj,
                    |c: int|
                        covers_cell(r, ni, c) && (cell_x(ni, c) < x || (cell_x(ni, c) == x
                            && cell_y(ni, c) < y)),
                ),
            decreases y_hi - y,
        {
            let mut z = z_lo;
            while z < z_hi
                invariant
                    ni == n as int,
                    start.len() == ni * ni * ni,
                    0 < n <= i32::MAX,
                    n * n * n <= usize::MAX,
                    ni32 == n as i32,
                    0 <= x < ni32,
                    0 <= y < ni32,
                    r.min_x <= x < r.max_x,
                    r.min_y <= y < r.max_y,
                    z_lo <= z,
                    z <= z_hi || z == z_lo,
                    z_lo == if r.min_z < 0 { 0 } else { r.min_z },
                    z_hi == if r.max_z < ni32 { r.max_z } else { ni32 },
                    pushed_where(
                        start,
                        buckets@,
                        obj,
                        |c: int|
                            covers_cell(r, ni, c) && (cell_x(ni, c) < x || (cell_x(ni, c) == x && (
                            cell_y(ni, c) < y || (cell_y(ni, c) == y && cell_z(ni, c) < z)))),
                    ),
                decreases z_hi - z,
            {
                let ghost before = buckets@;
                proof {
                    lemma_cell_coords(ni, x as int, y as int, z as int);
                    assert(((x as int) * ni + y) * ni + z <= usize::MAX);
                    assert((x as int) * ni + y <= usize::MAX) by (nonlinear_arith)
                        requires
                            ((x as int) * ni + y) * ni + z <= usize::MAX,
                            0 <= x,
                            0 <= y,
                            0 <= z,
                            ni > 0,
                    ;
                    assert((x as int) * ni <= usize::MAX) by (nonlinear_arith)
                        requires
                            (x as int) * ni + y <= usize::MAX,
                            0 <= y,
                    ;
                    assert(((x as int) * ni + y) * ni <= usize::MAX) by (nonlinear_arith)
                        requires
                            ((x as int) * ni + y) * ni + z <= usize::MAX,
                            0 <= z,
                    ;
                }
                let c: usize = (x as usize * n + y as usize) * n + z as usize;
                assert(c as int == ((x as int) * ni + y) * ni + z);
                buckets[c].push(obj);
                proof {
                    assert forall|cc: int| 0 <= cc < start.len() implies #[trigger] buckets@[cc]@
                        == if covers_cell(r, ni, cc) && (cell_x(ni, cc) < x || (cell_x(ni, cc) == x
                        && (cell_y(ni, cc) < y || (cell_y(ni, cc) == y && cell_z(ni, cc) < z + 1)))) {
                        start[cc]@.push(obj)
                    } else {
                        start[cc]@
                    } by {
                        if cc != c as int {
                            lemma_cell_range(ni, cc);
                            if cell_x(ni, cc) == x && cell_y(ni, cc) == y && cell_z(ni, cc) == z {
                                assert(cc == c as int);
                            }
                            assert(before[cc] == buckets@[cc]);
                        }
                    }
                }
                z = z + 1;
            }
            proof {
                assert forall|cc: int| 0 <= cc < start.len() implies #[trigger] buckets@[cc]@
                    == if covers_cell(r, ni, cc) && (cell_x(ni, cc) < x || (cell_x(ni, cc) == x
                    && cell_y(ni, cc) < y + 1)) {
                    start[cc]@.push(obj)
                } else {
                    start[cc]@
                } by {
                    lemma_cell_range(ni, cc);
                }
            }
            y = y + 1;
        }
        proof {
            assert forall|cc: int| 0 <= cc < start.len() implies #[trigger] buckets@[cc]@
                == if covers_cell(r, ni, cc) && cell_x(ni, cc) < x + 1 {
                start[cc]@.push(obj)
            } else {
                start[cc]@
            } by {
                lemma_cell_range(ni, cc);
            }
        }
        x = x + 1;
    }
    proof {
        assert forall|cc: int| 0 <= cc < start.len() implies #[trigger] buckets@[cc]@
            == if covers_cell(r, ni, cc) {
            start[cc]@.push(obj)
        } else {
            start[cc]@
        } by {
            lemma_cell_range(ni, cc);
        }
    }
}

/// Lays the objects out by zone. `objects[i]` gives the zone cells object
/// `i` reaches; with `zones_per_dimension` zones along each axis, zone
/// `(x, y, z)` is zone number `(x * n + y) * n + z`. Every zone lists, in
/// order, the objects that reach it; the lists are laid end to end, and each
/// zone records its run (`0..0` when empty). An empty object array holds a
/// single `0`, and with no zones at all a single empty zone is given, while
/// `num_zones` stays `0`.
pub fn process_object_zones(objects: &Vec<ZoneCellRange>, zones_per_dimension: i32) -> (layout:
    ObjectZoneLayout)
    requires
        zone_count(zones_per_dimension as int) <= usize::MAX,
    ensures
        layout.num_zones == zone_count(zones_per_dimension as int),
        zone_count(zones_per_dimension as int) > 0 ==> layout.zones.len() == zone_count(
            zones_per_dimension as int,
        ),
        forall|c: int|
            0 <= c < zone_count(zones_per_dimension as int) ==> #[trigger] layout.zones@[c]
                == zone_span(objects@, zones_per_dimension as int, c),
        zone_count(zones_per_dimension as int) == 0 ==> layout.zones@ == seq![
            ZoneSpan { first_object: 0, final_object: 0 },
        ],
        layout.zone_objects@ == zone_object_array(objects@, zones_per_dimension as int),
{
    let ghost ni = zones_per_dimension as int;
    let mut zone_objects: Vec<i32> = Vec::new();
    let mut zones: Vec<ZoneSpan> = Vec::new();
    if zones_per_dimension > 0 {
        let n = zones_per_dimension as usize;
        proof {
            assert(n * n <= n * n * n) by (nonlinear_arith)
                requires
                    n > 0,
            ;
        }
        let total: usize = n * n * n;
        let mut buckets: Vec<Vec<i32>> = Vec::new();
        let mut k: usize = 0;
        while k < total
            invariant
                k <= total,
                buckets.len() == k,
                forall|c: int| 0 <= c < k ==> #[trigger] buckets@[c]@ == Seq::<i32>::empty(),
            decreases total - k,
        {
            buckets.push(Vec::new());
            k = k + 1;
        }
        let mut obj: usize = 0;
        while obj < objects.len()
            invariant
                ni == n as int,
                0 < n <= i32::MAX,
                total == n * n * n,
                obj <= objects.len(),
                buckets.len() == total,
                forall|c: int|
                    0 <= c < total ==> #[trigger] buckets@[c]@ == cell_objects(
                        objects@.take(obj as int),
                        ni,
                        c,
                    ),
            decreases objects.len() - obj,
        {
            let ghost before = buckets@;
            add_object_to_zones(&mut buckets, n, obj as i32, objects[obj]);
            proof {
                assert forall|c: int| 0 <= c < total implies #[trigger] buckets@[c]@ == cell_objects(
                    objects@.take(obj + 1),
                    ni,
                    c,
                ) by {
                    let t = objects@.take(obj + 1);
                    assert(t.drop_last() =~= objects@.take(obj as int));
                    assert(t.last() == objects@[obj as int]);
                    assert(before[c]@ == cell_objects(objects@.take(obj as int), ni, c));
                }
            }
            obj = obj + 1;
        }
        proof {
            assert(objects@.take(obj as int) =~= objects@);
        }
        let mut c: usize = 0;
        while c < total
            invariant
                ni == n as int,
                0 < n <= i32::MAX,
                total == n * n * n,
                total == zone_count(ni),
                c <= total,
                buckets.len() == total,
                forall|cc: int|
                    c <= cc < total ==> #[trigger] buckets@[cc]@ == cell_objects(objects@, ni, cc),
                zone_objects@ == zone_object_prefix(objects@, ni, c as nat),
                zones.len() == c,
                forall|cc: int| 0 <= cc < c ==> #[trigger] zones@[cc] == zone_span(objects@, ni, cc),
            decreases total - c,
        {
            let span = if buckets[c].len() > 0 {
                let a = zone_objects.len() as i32;
                zone_objects.append(&mut buckets[c]);
                let b = zone_objects.len() as i32;
                ZoneSpan { first_object: a, final_object: b }
            } else {
                ZoneSpan { first_object: 0, final_object: 0 }
            };
            proof {
                assert(zone_object_prefix(objects@, ni, (c + 1) as nat) == zone_object_prefix(
                    objects@,
                    ni,
                    c as nat,
                ) + cell_objects(objects@, ni, c as int));
                if cell_objects(objects@, ni, c as int).len() == 0 {
                    assert(zone_object_prefix(objects@, ni, (c + 1) as nat) =~= zone_object_prefix(
                        objects@,
                        ni,
                        c as nat,
                    ));
                }
            }
            zones.push(span);
            c = c + 1;
        }
    }
    let num_zones = zones.len();
    proof {
        if zones_per_dimension <= 0 {
            assert(zone_object_prefix(objects@, ni, 0) =~= Seq::<i32>::empty());
        }
    }
    if zone_objects.len() == 0 {
        zone_objects.push(0);
    }
    if num_zones == 0 {
        zones.push(ZoneSpan { first_object: 0, final_object: 0 });
    }
    ObjectZoneLayout { zone_objects, zones, num_zones }
}

proof fn lemma_cell_objects_members(objects: Seq<ZoneCellRange>, n: int, c: int)
    requires
        objects.len() <= i32::MAX,
    ensures
        forall|i: int|
            0 <= i < objects.len() ==> (cell_objects(objects, n, c).contains(i as i32) <==> covers_cell(
                #[trigger] objects[i],
                n,
                c,
            )),
        forall|a: int|
            0 <= a < cell_objects(objects, n, c).len() ==> 0 <= #[trigger] cell_objects(objects, n, c)[a]
                < objects.len(),
    decreases objects.len(),
{
    if objects.len() > 0 {
        let rest = objects.drop_last();
        lemma_cell_objects_members(rest, n, c);
        let m = objects.len() - 1;
        let prev = cell_objects(rest, n, c);
        let pushed = prev.push(m as i32);
        assert forall|i: int| 0 <= i < objects.len() implies (cell_objects(objects, n, c).contains(
            i as i32,
        ) <==> covers_cell(#[trigger] objects[i], n, c)) by {
            if i < m {
                assert(objects[i] == rest[i]);
                if covers_cell(objects.last(), n, c) {
                    if pushed.contains(i as i32) {
                        let j = choose|j: int| 0 <= j < pushed.len() && #[trigger] pushed[j] == i as i32;
                        if j == prev.len() {
                            assert(false);
                        }
                        assert(prev[j] == i as i32);
                    }
                    if prev.contains(i as i32) {
                        let j = choose|j: int| 0 <= j < prev.len() && prev[j] == i as i32;
                        assert(pushed[j] == i as i32);
                    }
                }
            } else {
                if covers_cell(objects.last(), n, c) {
                    assert(pushed[prev.len() as int] == m as i32);
                } else {
                    if prev.contains(m as i32) {
                        let j = choose|j: int| 0 <= j < prev.len() && prev[j] == m as i32;
                        assert(false);
                    }
                }
            }
        }
    }
}

proof fn lemma_prefix_extends(objects: Seq<ZoneCellRange>, n: int, c: nat, d: nat)
    requires
        c <= d,
    ensures
        zone_object_prefix(objects, n, c).len() <= zone_object_prefix(objects, n, d).len(),
        forall|j: int|
            0 <= j < zone_object_prefix(objects, n, c).len() ==> #[trigger] zone_object_prefix(
                objects,
                n,
                d,
            )[j] == zone_object_prefix(objects, n, c)[j],
    decreases d,
{
    if c < d {
        lemma_prefix_extends(objects, n, c, (d - 1) as nat);
    }
}

/// Object `i` sits in the run of zone `c` exactly when its cell range
/// covers that zone's cell: `x = c / (n * n)`, `y = (c / n) % n`,
/// `z = c % n`, each within `min..max` on its axis. `zones` and
/// `zone_objects` are what `process_object_zones` gives.
pub proof fn lemma_zone_run_holds_exactly_the_covering_objects(
    objects: Seq<ZoneCellRange>,
    n: int,
    zones: Seq<ZoneSpan>,
    zone_objects: Seq<i32>,
    c: int,
    i: int,
)
    requires
        n > 0,
        0 <= c < n * n * n,
        c < zones.len(),
        zones[c] == zone_span(objects, n, c),
        zone_objects == zone_object_array(objects, n),
        0 <= i < objects.len() <= i32::MAX,
        zone_objects.len() <= i32::MAX,
    ensures
        (exists|t: int|
            zones[c].first_object <= t < zones[c].final_object && #[trigger] zone_objects[t] == i as i32)
            <==> (objects[i].min_x <= c / (n * n) < objects[i].max_x && objects[i].min_y <= (c / n) % n
            < objects[i].max_y && objects[i].min_z <= c % n < objects[i].max_z),
{
    let co = cell_objects(objects, n, c);
    let pc = zone_object_prefix(objects, n, c as nat);
    let pc1 = zone_object_prefix(objects, n, (c + 1) as nat);
    let total = zone_count(n);
    assert(total == n * n * n);
    let all = zone_object_prefix(objects, n, total);
    lemma_cell_objects_members(objects, n, c);
    lemma_prefix_extends(objects, n, (c + 1) as nat, total);
    assert(pc1 == pc + co);
    if co.len() == 0 {
        assert(!co.contains(i as i32));
        assert(zones[c].first_object == 0 && zones[c].final_object == 0);
    } else {
        assert(zone_objects == all);
        assert(zones[c].first_object == pc.len());
        assert(zones[c].final_object == pc1.len());
        if exists|t: int| zones[c].first_object <= t < zones[c].final_object && #[trigger] zone_objects[t] == i as i32 {
            let t = choose|t: int| zones[c].first_object <= t < zones[c].final_object && #[trigger] zone_objects[t] == i as i32;
            assert(all[t] == pc1[t]);
            assert(pc1[t] == co[t - pc.len()]);
            assert(co.contains(i as i32));
        }
        if covers_cell(objects[i], n, c) {
            assert(co.contains(i as i32));
            let w = choose|w: int| 0 <= w < co.len() && co[w] == i as i32;
            let t = pc.len() + w;
            assert(pc1[t] == co[w]);
            assert(all[t] == pc1[t]);
            assert(zone_objects[t] == i as i32);
        }
    }
}

} // verus!
