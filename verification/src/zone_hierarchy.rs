//! The zone hierarchy: which zones a zone lies in, and which zones a change
//! to a brush makes dirty. Entities are given by their id bits.

use vstd::prelude::*;
use std::collections::HashMap;

verus! {

broadcast use vstd::std_specs::hash::group_hash_axioms;

/// A zone entity and the entity its `Parent` component names, if it has one.
#[derive(Clone, Copy, PartialEq, Eq, Structural, Debug)]
pub struct ZoneLink {
    pub entity: u64,
    pub parent: Option<u64>,
}

/// `e` is one of the zones.
pub open spec fn is_zone(zones: Seq<ZoneLink>, e: u64) -> bool {
    exists|i: int| 0 <= i < zones.len() && zones[i].entity == e
}

/// Where zone `e` stands in the list.
pub open spec fn zone_index(zones: Seq<ZoneLink>, e: u64) -> int {
    choose|i: int| 0 <= i < zones.len() && zones[i].entity == e
}

/// The parent entity of `e` when `e` is a zone with a parent.
pub open spec fn raw_parent(zones: Seq<ZoneLink>, e: u64) -> Option<u64> {
    if is_zone(zones, e) {
        zones[zone_index(zones, e)].parent
    } else {
        None
    }
}

/// The parent of `e` when that parent is a zone too.
pub open spec fn parent_zone(zones: Seq<ZoneLink>, e: u64) -> Option<u64> {
    match raw_parent(zones, e) {
        Some(p) => if is_zone(zones, p) {
            Some(p)
        } else {
            None
        },
        None => None,
    }
}

/// Following parents from `e` ends within `fuel` steps.
pub open spec fn parents_end_within(zones: Seq<ZoneLink>, e: u64, fuel: nat) -> bool
    decreases fuel,
{
    match raw_parent(zones, e) {
        None => true,
        Some(p) => fuel > 0 && parents_end_within(zones, p, (fuel - 1) as nat),
    }
}

/// No two zones are one entity, and no parent chain runs in a circle.
pub open spec fn well_formed_zones(zones: Seq<ZoneLink>) -> bool {
    &&& forall|i: int, j: int|
        0 <= i < zones.len() && 0 <= j < zones.len() && i != j ==> zones[i].entity
            != zones[j].entity
    &&& forall|i: int|
        0 <= i < zones.len() ==> parents_end_within(zones, #[trigger] zones[i].entity, zones.len())
}

/// The zones above `e`, nearest first, found within `fuel` steps.
pub open spec fn ancestors_within(zones: Seq<ZoneLink>, e: u64, fuel: nat) -> Seq<u64>
    decreases fuel,
{
    if fuel == 0 {
        Seq::empty()
    } else {
        match parent_zone(zones, e) {
            None => Seq::empty(),
            Some(p) => seq![p] + ancestors_within(zones, p, (fuel - 1) as nat),
        }
    }
}

/// The zones above `e`, nearest first.
pub open spec fn zone_ancestors(zones: Seq<ZoneLink>, e: u64) -> Seq<u64> {
    ancestors_within(zones, e, zones.len())
}

/// The outermost zone above (or at) `e`.
pub open spec fn top_zone(zones: Seq<ZoneLink>, e: u64) -> u64 {
    let anc = zone_ancestors(zones, e);
    if anc.len() == 0 {
        e
    } else {
        anc.last()
    }
}

/// The hierarchy recorded for zone `e`: the outermost zone, then every zone
/// above `e` from the outermost down to its parent. (The outermost zone is
/// therefore listed twice for every zone below it.)
pub open spec fn zone_hierarchy(zones: Seq<ZoneLink>, e: u64) -> Seq<u64> {
    seq![top_zone(zones, e)] + zone_ancestors(zones, e).reverse()
}

proof fn lemma_zone_index(zones: Seq<ZoneLink>, i: int)
    requires
        well_formed_zones(zones),
        0 <= i < zones.len(),
    ensures
        is_zone(zones, zones[i].entity),
        zone_index(zones, zones[i].entity) == i,
        raw_parent(zones, zones[i].entity) == zones[i].parent,
{
    let e = zones[i].entity;
    assert(is_zone(zones, e));
    let k = zone_index(zones, e);
    assert(zones[k].entity == e);
}

proof fn lemma_ancestors_fuel(zones: Seq<ZoneLink>, e: u64, f: nat, g: nat)
    requires
        parents_end_within(zones, e, f),
        f <= g,
    ensures
        ancestors_within(zones, e, f) == ancestors_within(zones, e, g),
    decreases f,
{
    if f > 0 {
        if let Some(p) = parent_zone(zones, e) {
            lemma_ancestors_fuel(zones, p, (f - 1) as nat, (g - 1) as nat);
        }
    } else {
        assert(raw_parent(zones, e) is None);
    }
}

/// Above a zone with a zone parent stand the parent and what stands above it.
proof fn lemma_ancestors_step(zones: Seq<ZoneLink>, e: u64, p: u64)
    requires
        well_formed_zones(zones),
        is_zone(zones, e),
        parent_zone(zones, e) == Some(p),
    ensures
        zone_ancestors(zones, e) == seq![p] + zone_ancestors(zones, p),
{
    let n = zones.len();
    let i = zone_index(zones, e);
    assert(parents_end_within(zones, zones[i].entity, n));
    assert(n > 0);
    let j = zone_index(zones, p);
    assert(parents_end_within(zones, zones[j].entity, n));
    assert(parents_end_within(zones, p, (n - 1) as nat));
    lemma_ancestors_fuel(zones, p, (n - 1) as nat, n);
}

/// A zone's hierarchy is its parent's hierarchy followed by the parent.
pub proof fn lemma_hierarchy_extends_parent(zones: Seq<ZoneLink>, e: u64, p: u64)
    requires
        well_formed_zones(zones),
        is_zone(zones, e),
        parent_zone(zones, e) == Some(p),
    ensures
        zone_hierarchy(zones, e) == zone_hierarchy(zones, p).push(p),
{
    lemma_ancestors_step(zones, e, p);
    let a = zone_ancestors(zones, p);
    assert((seq![p] + a).reverse() =~= a.reverse().push(p));
    assert((seq![p] + a).last() == if a.len() == 0 { p } else { a.last() });
    assert(seq![top_zone(zones, e)] + a.reverse().push(p) =~= (seq![top_zone(zones, p)]
        + a.reverse()).push(p));
}

/// A zone with no zone above it is its own hierarchy.
pub proof fn lemma_hierarchy_of_outermost(zones: Seq<ZoneLink>, e: u64)
    requires
        parent_zone(zones, e) is None,
    ensures
        zone_hierarchy(zones, e) == seq![e],
{
    assert(zone_ancestors(zones, e) =~= Seq::<u64>::empty());
    assert(seq![e] + Seq::<u64>::empty().reverse() =~= seq![e]);
}

/// Along the path `[e] + ancestors`, each step goes to the parent zone, and
/// what stands above each step is the rest of the path.
proof fn lemma_ancestor_path(zones: Seq<ZoneLink>, e: u64, m: nat)
    requires
        well_formed_zones(zones),
        is_zone(zones, e),
        m < zone_ancestors(zones, e).len(),
    ensures
        ({
            let chain = zone_ancestors(zones, e);
            let path = seq![e] + chain;
            &&& is_zone(zones, path[m as int])
            &&& is_zone(zones, path[(m + 1) as int])
            &&& parent_zone(zones, path[m as int]) == Some(path[(m + 1) as int])
            &&& zone_ancestors(zones, path[(m + 1) as int]) == chain.skip((m + 1) as int)
        }),
    decreases m,
{
    let chain = zone_ancestors(zones, e);
    let path = seq![e] + chain;
    if m == 0 {
        if let Some(p) = parent_zone(zones, e) {
            lemma_ancestors_step(zones, e, p);
            assert(chain.skip(1) =~= zone_ancestors(zones, p));
        } else {
            assert(chain.len() == 0);
        }
    } else {
        lemma_ancestor_path(zones, e, (m - 1) as nat);
        let x = path[m as int];
        assert(zone_ancestors(zones, x) == chain.skip(m as int));
        if let Some(q) = parent_zone(zones, x) {
            lemma_ancestors_step(zones, x, q);
            assert(chain.skip(m as int)[0] == chain[m as int]);
            assert(chain.skip((m + 1) as int) =~= chain.skip(m as int).skip(1));
        } else {
            assert(zone_ancestors(zones, x).len() == 0);
        }
    }
}

/// Entity id to place in the zone list.
fn index_zones(zones: &Vec<ZoneLink>) -> (index: HashMap<u64, usize>)
    requires
        well_formed_zones(zones@),
    ensures
        forall|e: u64| #[trigger] index@.contains_key(e) <==> is_zone(zones@, e),
        forall|e: u64|
            #[trigger] index@.contains_key(e) ==> index@[e] < zones.len() && index@[e]
                == zone_index(zones@, e),
{
    let mut index: HashMap<u64, usize> = HashMap::new();
    let mut i: usize = 0;
    while i < zones.len()
        invariant
            i <= zones.len(),
            well_formed_zones(zones@),
            forall|e: u64|
                #[trigger] index@.contains_key(e) <==> exists|j: int|
                    0 <= j < i && zones@[j].entity == e,
            forall|e: u64|
                #[trigger] index@.contains_key(e) ==> index@[e] < i && zones@[index@[e] as int].entity
                    == e,
        decreases zones.len() - i,
    {
        index.insert(zones[i].entity, i);
        i = i + 1;
    }
    proof {
        assert forall|e: u64| #[trigger] index@.contains_key(e) implies index@[e] == zone_index(
            zones@,
            e,
        ) by {
            lemma_zone_index(zones@, index@[e] as int);
        }
    }
    index
}

fn copy_ids(v: &Vec<u64>) -> (r: Vec<u64>)
    ensures
        r@ == v@,
{
    let r = v.clone();
    assert(r@ =~= v@);
    r
}

/// For every zone, the zone hierarchy it is given: the outermost zone above
/// it, then the zones above it from the outermost down to its parent.
/// Zones already placed are remembered, so each chain of parents is walked
/// only up to the first zone whose hierarchy is known.
pub fn zone_hierarchies(zones: &Vec<ZoneLink>) -> (r: Vec<Vec<u64>>)
    requires
        well_formed_zones(zones@),
    ensures
        r.len() == zones.len(),
        forall|i: int| 0 <= i < zones.len() ==> #[trigger] r[i]@ == zone_hierarchy(zones@, zones@[i].entity),
{
    let ghost zs = zones@;
    let index = index_zones(zones);
    let mut memo: HashMap<u64, Vec<u64>> = HashMap::new();
    let mut i: usize = 0;
    while i < zones.len()
        invariant
            zs == zones@,
            i <= zones.len(),
            well_formed_zones(zs),
            forall|e: u64| #[trigger] index@.contains_key(e) <==> is_zone(zs, e),
            forall|e: u64|
                #[trigger] index@.contains_key(e) ==> index@[e] < zones.len() && index@[e]
                    == zone_index(zs, e),
            forall|e: u64|
                #[trigger] memo@.contains_key(e) ==> is_zone(zs, e) && memo@[e]@ == zone_hierarchy(
                    zs,
                    e,
                ),
            forall|j: int| 0 <= j < i ==> #[trigger] memo@.contains_key(zs[j].entity),
        decreases zones.len() - i,
    {
        let entity = zones[i].entity;
        proof {
            lemma_zone_index(zs, i as int);
        }
        if !memo.contains_key(&entity) {
            let ghost chain = zone_ancestors(zs, entity);
            let ghost path = seq![entity] + chain;
            let mut descendents: Vec<u64> = Vec::new();
            descendents.push(entity);
            let mut parent = zones[i].parent;
            let mut last = entity;
            let mut ancestors: Vec<u64> = Vec::new();
            let ghost mut k: nat = 0;
            loop
                invariant_except_break
                    ancestors@ == Seq::<u64>::empty(),
                invariant
                    zs == zones@,
                    well_formed_zones(zs),
                    is_zone(zs, entity),
                    forall|e: u64| #[trigger] index@.contains_key(e) <==> is_zone(zs, e),
                    forall|e: u64|
                        #[trigger] index@.contains_key(e) ==> index@[e] < zones.len() && index@[e]
                            == zone_index(zs, e),
                    forall|e: u64|
                        #[trigger] memo@.contains_key(e) ==> is_zone(zs, e) && memo@[e]@
                            == zone_hierarchy(zs, e),
                    chain == zone_ancestors(zs, entity),
                    path == seq![entity] + chain,
                    k <= chain.len(),
                    last == path[k as int],
                    is_zone(zs, last),
                    parent == raw_parent(zs, last),
                    descendents@ == path.take((k + 1) as int).reverse(),
                ensures
                    k <= chain.len(),
                    last == path[k as int],
                    is_zone(zs, last),
                    descendents@ == path.take((k + 1) as int).reverse(),
                    ancestors@ == zone_hierarchy(zs, last),
                decreases chain.len() - k,
            {
                proof {
                    if k > 0 {
                        lemma_ancestor_path(zs, entity, (k - 1) as nat);
                    }
                    if k < chain.len() {
                        lemma_ancestor_path(zs, entity, k);
                    }
                    assert(zone_ancestors(zs, last) == chain.skip(k as int));
                }
                match parent {
                    None => {
                        proof {
                            assert(parent_zone(zs, last) is None);
                            lemma_hierarchy_of_outermost(zs, last);
                        }
                        ancestors.push(last);
                        assert(ancestors@ =~= seq![last]);
                        break;
                    },
                    Some(p) => {
                        match memo.get(&p) {
                            Some(h) => {
                                proof {
                                    assert(parent_zone(zs, last) == Some(p));
                                    lemma_hierarchy_extends_parent(zs, last, p);
                                }
                                ancestors = copy_ids(h);
                                ancestors.push(p);
                                break;
                            },
                            None => {
                                match index.get(&p) {
                                    Some(j) => {
                                        proof {
                                            assert(parent_zone(zs, last) == Some(p));
                                            assert(k < chain.len());
                                            assert(p == path[(k + 1) as int]);
                                            lemma_zone_index(zs, *j as int);
                                        }
                                        last = p;
                                        descendents.insert(0, p);
                                        parent = zones[*j].parent;
                                        proof {
                                            k = k + 1;
                                            assert(descendents@ =~= path.take((k + 1) as int).reverse());
                                        }
                                    },
                                    None => {
                                        proof {
                                            assert(parent_zone(zs, last) is None);
                                            lemma_hierarchy_of_outermost(zs, last);
                                        }
                                        ancestors.push(last);
                                        assert(ancestors@ =~= seq![last]);
                                        break;
                                    },
                                }
                            },
                        }
                    },
                }
            }
            let mut j: usize = 0;
            while j < descendents.len()
                invariant
                    zs == zones@,
                    well_formed_zones(zs),
                    is_zone(zs, entity),
                    chain == zone_ancestors(zs, entity),
                    path == seq![entity] + chain,
                    k <= chain.len(),
                    descendents@ == path.take((k + 1) as int).reverse(),
                    j <= descendents.len(),
                    j < descendents.len() ==> ancestors@ == zone_hierarchy(zs, descendents@[j as int]),
                    forall|e: u64|
                        #[trigger] memo@.contains_key(e) ==> is_zone(zs, e) && memo@[e]@
                            == zone_hierarchy(zs, e),
                    forall|jj: int| 0 <= jj < i ==> #[trigger] memo@.contains_key(zs[jj].entity),
                    j == descendents.len() ==> memo@.contains_key(entity),
                decreases descendents.len() - j,
            {
                let desc = descendents[j];
                proof {
                    let m = (k - j) as nat;
                    assert(desc == path[m as int]);
                    if m < chain.len() {
                        lemma_ancestor_path(zs, entity, m);
                    }
                    if m > 0 {
                        lemma_ancestor_path(zs, entity, (m - 1) as nat);
                    }
                }
                memo.insert(desc, copy_ids(&ancestors));
                ancestors.push(desc);
                proof {
                    let m = (k - j) as nat;
                    if j + 1 < descendents.len() {
                        lemma_ancestor_path(zs, entity, (m - 1) as nat);
                        assert(descendents@[j + 1] == path[(m - 1) as int]);
                        lemma_hierarchy_extends_parent(zs, path[(m - 1) as int], path[m as int]);
                    } else {
                        assert(desc == entity);
                    }
                }
                j = j + 1;
            }
        }
        i = i + 1;
    }
    let mut r: Vec<Vec<u64>> = Vec::new();
    let mut i: usize = 0;
    while i < zones.len()
        invariant
            zs == zones@,
            i <= zones.len(),
            r.len() == i,
            forall|e: u64|
                #[trigger] memo@.contains_key(e) ==> memo@[e]@ == zone_hierarchy(zs, e),
            forall|j: int| 0 <= j < zones.len() ==> #[trigger] memo@.contains_key(zs[j].entity),
            forall|j: int| 0 <= j < i ==> #[trigger] r[j]@ == zone_hierarchy(zs, zs[j].entity),
        decreases zones.len() - i,
    {
        match memo.get(&zones[i].entity) {
            Some(h) => {
                r.push(copy_ids(h));
            },
            None => {
                proof {
                    assert(memo@.contains_key(zs[i as int].entity));
                }
                r.push(Vec::new());
            },
        }
        i = i + 1;
    }
    r
}

/// `start`, then each parent up the chain for as long as the entity
/// reached is a zone with a parent, within `fuel` steps.
pub open spec fn dirty_chain(zones: Seq<ZoneLink>, start: u64, fuel: nat) -> Seq<u64>
    decreases fuel,
{
    if fuel == 0 {
        seq![start]
    } else {
        match raw_parent(zones, start) {
            None => seq![start],
            Some(p) => seq![start] + dirty_chain(zones, p, (fuel - 1) as nat),
        }
    }
}

/// The entities a change to a brush of zone `start` marks dirty.
pub open spec fn dirty_zones(zones: Seq<ZoneLink>, start: u64) -> Seq<u64> {
    dirty_chain(zones, start, zones.len())
}

/// The entities marked dirty by changes to brushes of the given zones, in
/// the order they are marked.
pub open spec fn dirty_for_brushes(zones: Seq<ZoneLink>, brush_zones: Seq<u64>) -> Seq<u64>
    decreases brush_zones.len(),
{
    if brush_zones.len() == 0 {
        Seq::empty()
    } else {
        dirty_for_brushes(zones, brush_zones.drop_last()) + dirty_zones(zones, brush_zones.last())
    }
}

/// Marks dirty, for each changed brush (given by its zone), the brush's
/// zone and every parent up the chain while the entity reached is a zone
/// with a parent. Gives the marked entities in marking order.
pub fn mark_dirty_zones(zones: &Vec<ZoneLink>, brush_zones: &Vec<u64>) -> (r: Vec<u64>)
    requires
        well_formed_zones(zones@),
    ensures
        r@ == dirty_for_brushes(zones@, brush_zones@),
{
    let ghost zs = zones@;
    let index = index_zones(zones);
    let mut out: Vec<u64> = Vec::new();
    let mut b: usize = 0;
    while b < brush_zones.len()
        invariant
            zs == zones@,
            well_formed_zones(zs),
            b <= brush_zones.len(),
            forall|e: u64| #[trigger] index@.contains_key(e) <==> is_zone(zs, e),
            forall|e: u64|
                #[trigger] index@.contains_key(e) ==> index@[e] < zones.len() && index@[e]
                    == zone_index(zs, e),
            out@ == dirty_for_brushes(zs, brush_zones@.take(b as int)),
        decreases brush_zones.len() - b,
    {
        let start = brush_zones[b];
        let ghost goal = dirty_for_brushes(zs, brush_zones@.take(b + 1));
        proof {
            assert(brush_zones@.take(b + 1).drop_last() =~= brush_zones@.take(b as int));
            if is_zone(zs, start) {
                let i = zone_index(zs, start);
                assert(parents_end_within(zs, zs[i].entity, zs.len()));
            }
        }
        let mut child = start;
        let ghost mut f: nat = zs.len();
        loop
            invariant_except_break
                parents_end_within(zs, child, f),
                out@ + dirty_chain(zs, child, f) == goal,
            invariant
                zs == zones@,
                well_formed_zones(zs),
                forall|e: u64| #[trigger] index@.contains_key(e) <==> is_zone(zs, e),
                forall|e: u64|
                    #[trigger] index@.contains_key(e) ==> index@[e] < zones.len() && index@[e]
                        == zone_index(zs, e),
            ensures
                out@ == goal,
            decreases f,
        {
            let ghost before = out@;
            out.push(child);
            let next = match index.get(&child) {
                Some(j) => zones[*j].parent,
                None => None,
            };
            match next {
                Some(p) => {
                    proof {
                        assert(raw_parent(zs, child) == Some(p));
                        assert(dirty_chain(zs, child, f) == seq![child] + dirty_chain(
                            zs,
                            p,
                            (f - 1) as nat,
                        ));
                        assert(out@ =~= before + seq![child]);
                        assert(out@ + dirty_chain(zs, p, (f - 1) as nat) =~= before + dirty_chain(
                            zs,
                            child,
                            f,
                        ));
                        f = (f - 1) as nat;
                    }
                    child = p;
                },
                None => {
                    proof {
                        assert(raw_parent(zs, child) is None);
                        assert(dirty_chain(zs, child, f) == seq![child]);
                        assert(out@ =~= before + seq![child]);
                        assert(before + dirty_chain(zs, child, f) == goal);
                    }
                    break;
                },
            }
        }
        b = b + 1;
    }
    proof {
        assert(brush_zones@.take(b as int) =~= brush_zones@);
    }
    out
}

proof fn lemma_dirty_chain_follows_parents(zones: Seq<ZoneLink>, e: u64, fuel: nat)
    requires
        parents_end_within(zones, e, fuel),
    ensures
        dirty_chain(zones, e, fuel).len() > 0,
        dirty_chain(zones, e, fuel)[0] == e,
        forall|j: int|
            0 <= j < dirty_chain(zones, e, fuel).len() - 1 ==> raw_parent(
                zones,
                #[trigger] dirty_chain(zones, e, fuel)[j],
            ) == Some(dirty_chain(zones, e, fuel)[j + 1]),
        raw_parent(zones, dirty_chain(zones, e, fuel).last()) is None,
    decreases fuel,
{
    if let Some(p) = raw_parent(zones, e) {
        lemma_dirty_chain_follows_parents(zones, p, (fuel - 1) as nat);
        let rest = dirty_chain(zones, p, (fuel - 1) as nat);
        let d = dirty_chain(zones, e, fuel);
        assert(d == seq![e] + rest);
        assert forall|j: int| 0 <= j < d.len() - 1 implies raw_parent(zones, #[trigger] d[j]) == Some(
            d[j + 1],
        ) by {
            if j > 0 {
                assert(d[j] == rest[j - 1]);
                assert(d[j + 1] == rest[j]);
            }
        }
    }
}

/// A changed brush of zone `start` marks `start`, then each entity's parent
/// in turn, and stops exactly at an entity that is not a zone with a
/// parent: every marked entity after the first is the parent of the one
/// before it, and the last has none.
pub proof fn lemma_dirty_zones_follow_parents_to_the_end(zones: Seq<ZoneLink>, start: u64)
    requires
        well_formed_zones(zones),
    ensures
        dirty_zones(zones, start).len() > 0,
        dirty_zones(zones, start)[0] == start,
        forall|j: int|
            0 <= j < dirty_zones(zones, start).len() - 1 ==> raw_parent(
                zones,
                #[trigger] dirty_zones(zones, start)[j],
            ) == Some(dirty_zones(zones, start)[j + 1]),
        raw_parent(zones, dirty_zones(zones, start).last()) is None,
{
    if is_zone(zones, start) {
        let k = zone_index(zones, start);
        assert(zones[k].entity == start);
        assert(parents_end_within(zones, zones[k].entity, zones.len()));
    }
    lemma_dirty_chain_follows_parents(zones, start, zones.len());
}

/// What changed brushes mark dirty: every brush's zone, and with every
/// marked zone that has a parent, that parent as well.
pub proof fn lemma_dirty_marks_reach_every_parent(zones: Seq<ZoneLink>, brush_zones: Seq<u64>)
    requires
        well_formed_zones(zones),
    ensures
        forall|b: int| 0 <= b < brush_zones.len() ==> dirty_for_brushes(zones, brush_zones).contains(
            #[trigger] brush_zones[b],
        ),
        forall|t: int|
            0 <= t < dirty_for_brushes(zones, brush_zones).len() && raw_parent(
                zones,
                #[trigger] dirty_for_brushes(zones, brush_zones)[t],
            ) is Some ==> dirty_for_brushes(zones, brush_zones).contains(
                raw_parent(zones, dirty_for_brushes(zones, brush_zones)[t]).unwrap(),
            ),
    decreases brush_zones.len(),
{
    if brush_zones.len() > 0 {
        let rest = brush_zones.drop_last();
        lemma_dirty_marks_reach_every_parent(zones, rest);
        let before = dirty_for_brushes(zones, rest);
        let last = dirty_zones(zones, brush_zones.last());
        lemma_dirty_zones_follow_parents_to_the_end(zones, brush_zones.last());
        let all = dirty_for_brushes(zones, brush_zones);
        assert(all == before + last);
        assert forall|b: int| 0 <= b < brush_zones.len() implies all.contains(#[trigger] brush_zones[b]) by {
            if b < rest.len() {
                assert(rest[b] == brush_zones[b]);
                let w = choose|w: int| 0 <= w < before.len() && before[w] == rest[b];
                assert(all[w] == before[w]);
            } else {
                assert(all[before.len() as int] == last[0]);
            }
        }
        assert forall|t: int|
            0 <= t < all.len() && raw_parent(zones, #[trigger] all[t]) is Some implies all.contains(
                raw_parent(zones, all[t]).unwrap(),
            ) by {
            let p = raw_parent(zones, all[t]).unwrap();
            if t < before.len() {
                assert(all[t] == before[t]);
                let w = choose|w: int| 0 <= w < before.len() && before[w] == p;
                assert(all[w] == before[w]);
            } else {
                let u = t - before.len();
                assert(all[t] == last[u]);
                if u == last.len() - 1 {
                    assert(false);
                }
                assert(all[t + 1] == last[u + 1]);
            }
        }
    }
}

} // verus!
