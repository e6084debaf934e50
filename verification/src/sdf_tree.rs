//! Signed-distance objects as node trees, and their flattening into the
//! node array the GPU walks. Node parameters (sizes, blends, transforms)
//! are carried beside the tree: an entry names the node it comes from.

use vstd::prelude::*;

verus! {

/// How two child distances combine.
#[derive(Clone, Copy, PartialEq, Eq, Structural, Debug)]
pub enum SDFOperation {
    Union,
    Subtraction,
    Intersection,
}

/// The kind of a primitive shape.
#[derive(Clone, Copy, PartialEq, Eq, Structural, Debug)]
pub enum SDFShapeKind {
    Sphere,
    Box,
}

/// The structure of one node: what it is and which nodes it refers to.
#[derive(Clone, Copy, PartialEq, Eq, Structural, Debug)]
pub enum SDFNodeKind {
    Empty,
    Primitive(SDFShapeKind),
    Operation(SDFOperation, usize, usize),
    Transform(usize),
}

pub const UNION_OP: i32 = 1;
pub const INTERSECTION_OP: i32 = 2;
pub const SUBTRACTION_OP: i32 = 3;
pub const TRANSFORM_WARP: i32 = 4;
pub const SPHERE_PRIM: i32 = 5;
pub const BOX_PRIM: i32 = 6;

/// The stages that update signed-distance objects each frame, in order:
/// mark changed objects dirty, recompute their bounds, rebuild GPU data.
#[derive(Clone, Copy, PartialEq, Eq, Structural, Debug, Hash)]
pub enum SDFStages {
    MarkDirty,
    GenerateBounds,
    GenerateGpu,
}

/// How many signed-distance objects are drawn this frame.
#[derive(Clone, Copy, PartialEq, Eq, Structural, Debug)]
pub struct SDFObjectCount {
    pub num_objects: i32,
}

impl SDFObjectCount {
    /// The count of `objects` objects (counted in an `i32`, which the
    /// count must fit).
    pub fn of_objects(objects: usize) -> (r: SDFObjectCount)
        requires
            objects <= i32::MAX,
        ensures
            r.num_objects == objects,
    {
        SDFObjectCount { num_objects: objects as i32 }
    }
}

impl Default for SDFObjectCount {
    fn default() -> (r: Self)
        ensures
            r.num_objects == 0,
    {
        SDFObjectCount { num_objects: 0 }
    }
}

/// One entry of the flattened tree: its node type, the offsets from this
/// entry to its children, and the node its parameters come from.
#[derive(Clone, Copy, PartialEq, Eq, Structural, Debug)]
pub struct GpuNodeLayout {
    pub node_type: i32,
    pub child_a: i32,
    pub child_b: i32,
    pub source: usize,
}

pub open spec fn operation_code(op: SDFOperation) -> i32 {
    match op {
        SDFOperation::Union => UNION_OP,
        SDFOperation::Subtraction => SUBTRACTION_OP,
        SDFOperation::Intersection => INTERSECTION_OP,
    }
}

pub open spec fn shape_code(shape: SDFShapeKind) -> i32 {
    match shape {
        SDFShapeKind::Sphere => SPHERE_PRIM,
        SDFShapeKind::Box => BOX_PRIM,
    }
}

/// Walking down from `node` reaches the end of every path within `fuel`
/// nodes (references past the node list end a path).
pub open spec fn ends_within(nodes: Seq<SDFNodeKind>, node: int, fuel: nat) -> bool
    decreases fuel,
{
    if node < 0 || node >= nodes.len() {
        true
    } else if fuel == 0 {
        false
    } else {
        match nodes[node] {
            SDFNodeKind::Operation(_, a, b) => ends_within(nodes, a as int, (fuel - 1) as nat)
                && ends_within(nodes, b as int, (fuel - 1) as nat),
            SDFNodeKind::Transform(c) => ends_within(nodes, c as int, (fuel - 1) as nat),
            _ => true,
        }
    }
}

/// Where the entry of `node` lands when written at position `at`: `at`
/// itself, or `-1` for a node that is not in the list.
pub open spec fn entry_id(nodes: Seq<SDFNodeKind>, node: int, at: int) -> int {
    if 0 <= node < nodes.len() {
        at
    } else {
        -1
    }
}

/// The entries written for `node` when the flattened tree already holds
/// `base` entries: the node first, then the entries of its first child,
/// then those of its second child.
pub open spec fn node_layout(nodes: Seq<SDFNodeKind>, node: int, base: int, fuel: nat) -> Seq<
    GpuNodeLayout,
>
    decreases fuel,
{
    if node < 0 || node >= nodes.len() || fuel == 0 {
        Seq::empty()
    } else {
        match nodes[node] {
            SDFNodeKind::Empty => seq![
                GpuNodeLayout { node_type: 0, child_a: 0, child_b: 0, source: node as usize },
            ],
            SDFNodeKind::Primitive(shape) => seq![
                GpuNodeLayout {
                    node_type: shape_code(shape),
                    child_a: 0,
                    child_b: 0,
                    source: node as usize,
                },
            ],
            SDFNodeKind::Operation(op, a, b) => {
                let la = node_layout(nodes, a as int, base + 1, (fuel - 1) as nat);
                let lb = node_layout(nodes, b as int, base + 1 + la.len(), (fuel - 1) as nat);
                seq![
                    GpuNodeLayout {
                        node_type: operation_code(op),
                        child_a: (entry_id(nodes, a as int, base + 1) - base) as i32,
                        child_b: (entry_id(nodes, b as int, base + 1 + la.len()) - base) as i32,
                        source: node as usize,
                    },
                ] + la + lb
            },
            SDFNodeKind::Transform(c) => {
                let lc = node_layout(nodes, c as int, base + 1, (fuel - 1) as nat);
                seq![
                    GpuNodeLayout {
                        node_type: TRANSFORM_WARP,
                        child_a: (entry_id(nodes, c as int, base + 1) - base) as i32,
                        child_b: 0,
                        source: node as usize,
                    },
                ] + lc
            },
        }
    }
}

/// The flattened tree of an object rooted at `root`.
pub open spec fn object_tree(nodes: Seq<SDFNodeKind>, root: int) -> Seq<GpuNodeLayout> {
    node_layout(nodes, root, 0, nodes.len())
}

/// Writes the entries of `node` (and of all below it) onto `tree`, node
/// first, and gives the position of its entry, or `-1` when `node` is not
/// in the list.
fn generate_gpu_node(
    tree: &mut Vec<GpuNodeLayout>,
    node: usize,
    nodes: &Vec<SDFNodeKind>,
    Ghost(fuel): Ghost<nat>,
) -> (id: i32)
    requires
        ends_within(nodes@, node as int, fuel),
        old(tree).len() + node_layout(nodes@, node as int, old(tree).len() as int, fuel).len()
            <= i32::MAX,
    ensures
        final(tree)@ == old(tree)@ + node_layout(nodes@, node as int, old(tree).len() as int, fuel),
        id == entry_id(nodes@, node as int, old(tree).len() as int),
    decreases fuel,
{
    if node < nodes.len() {
        let ghost start = tree@;
        let new_id = tree.len();
        tree.push(GpuNodeLayout { node_type: 0, child_a: 0, child_b: 0, source: node });
        let entry = match nodes[node] {
            SDFNodeKind::Empty => GpuNodeLayout {
                node_type: 0,
                child_a: 0,
                child_b: 0,
                source: node,
            },
            SDFNodeKind::Primitive(shape) => GpuNodeLayout {
                node_type: match shape {
                    SDFShapeKind::Sphere => SPHERE_PRIM,
                    SDFShapeKind::Box => BOX_PRIM,
                },
                child_a: 0,
                child_b: 0,
                source: node,
            },
            SDFNodeKind::Operation(op, a, b) => {
                let node_type = match op {
                    SDFOperation::Union => UNION_OP,
                    SDFOperation::Subtraction => SUBTRACTION_OP,
                    SDFOperation::Intersection => INTERSECTION_OP,
                };
                let ghost la = node_layout(nodes@, a as int, new_id + 1, (fuel - 1) as nat);
                let child_a_id = generate_gpu_node(tree, a, nodes, Ghost((fuel - 1) as nat));
                let child_b_id = generate_gpu_node(tree, b, nodes, Ghost((fuel - 1) as nat));
                GpuNodeLayout {
                    node_type,
                    child_a: child_a_id - (new_id as i32),
                    child_b: child_b_id - (new_id as i32),
                    source: node,
                }
            },
            SDFNodeKind::Transform(c) => {
                let child_id = generate_gpu_node(tree, c, nodes, Ghost((fuel - 1) as nat));
                GpuNodeLayout {
                    node_type: TRANSFORM_WARP,
                    child_a: child_id - (new_id as i32),
                    child_b: 0,
                    source: node,
                }
            },
        };
        tree.set(new_id, entry);
        proof {
            assert(tree@ =~= start + node_layout(nodes@, node as int, start.len() as int, fuel));
        }
        new_id as i32
    } else {
        -1
    }
}

/// Flattens an object's node tree from its root: every node reached is
/// written once per path to it, node before children, with each child
/// given as the offset from its parent's entry (`-1 - parent` for a child
/// that is not in the list).
pub fn prepare_node_tree(nodes: &Vec<SDFNodeKind>, root: usize) -> (tree: Vec<GpuNodeLayout>)
    requires
        ends_within(nodes@, root as int, nodes.len() as nat),
        object_tree(nodes@, root as int).len() <= i32::MAX,
    ensures
        tree@ == object_tree(nodes@, root as int),
{
    let mut tree: Vec<GpuNodeLayout> = Vec::new();
    let _root_id = generate_gpu_node(&mut tree, root, nodes, Ghost(nodes.len() as nat));
    proof {
        assert(tree@ =~= object_tree(nodes@, root as int));
    }
    tree
}

/// Entry `p` of `t` matches the node it comes from: the node type fits the
/// node, and each child offset leads to an entry of that child.
pub open spec fn entry_consistent(nodes: Seq<SDFNodeKind>, t: Seq<GpuNodeLayout>, p: int) -> bool {
    let e = t[p];
    &&& 0 <= e.source < nodes.len()
    &&& match nodes[e.source as int] {
        SDFNodeKind::Empty => e.node_type == 0,
        SDFNodeKind::Primitive(shape) => e.node_type == shape_code(shape),
        SDFNodeKind::Operation(op, a, b) => {
            &&& e.node_type == operation_code(op)
            &&& a < nodes.len() ==> 0 <= p + e.child_a < t.len() && t[p + e.child_a].source == a
            &&& b < nodes.len() ==> 0 <= p + e.child_b < t.len() && t[p + e.child_b].source == b
        },
        SDFNodeKind::Transform(c) => {
            &&& e.node_type == TRANSFORM_WARP
            &&& c < nodes.len() ==> 0 <= p + e.child_a < t.len() && t[p + e.child_a].source == c
        },
    }
}

proof fn lemma_layout_consistent(nodes: Seq<SDFNodeKind>, node: int, base: int, fuel: nat)
    requires
        nodes.len() <= usize::MAX,
        ends_within(nodes, node, fuel),
        node_layout(nodes, node, base, fuel).len() <= i32::MAX,
    ensures
        0 <= node < nodes.len() ==> node_layout(nodes, node, base, fuel).len() > 0 && node_layout(
            nodes,
            node,
            base,
            fuel,
        )[0].source == node,
        forall|p: int|
            0 <= p < node_layout(nodes, node, base, fuel).len() ==> #[trigger] entry_consistent(
                nodes,
                node_layout(nodes, node, base, fuel),
                p,
            ),
    decreases fuel,
{
    let l = node_layout(nodes, node, base, fuel);
    if 0 <= node < nodes.len() && fuel > 0 {
        match nodes[node] {
            SDFNodeKind::Operation(op, a, b) => {
                let la = node_layout(nodes, a as int, base + 1, (fuel - 1) as nat);
                let lb = node_layout(nodes, b as int, base + 1 + la.len(), (fuel - 1) as nat);
                lemma_layout_consistent(nodes, a as int, base + 1, (fuel - 1) as nat);
                lemma_layout_consistent(nodes, b as int, base + 1 + la.len(), (fuel - 1) as nat);
                assert(l == seq![l[0]] + la + lb);
                assert forall|p: int| 0 <= p < l.len() implies #[trigger] entry_consistent(
                    nodes,
                    l,
                    p,
                ) by {
                    if p == 0 {
                        let e = l[0];
                        assert(e.source == node);
                        assert(e.node_type == operation_code(op));
                        if a < nodes.len() {
                            assert(e.child_a == 1);
                            assert(l[1] == la[0]);
                        }
                        if b < nodes.len() {
                            assert(1 + la.len() <= l.len());
                            assert(e.child_b == 1 + la.len());
                            assert(l[1 + la.len() as int] == lb[0]);
                        }
                    } else if p < 1 + la.len() {
                        assert(entry_consistent(nodes, la, p - 1));
                        assert(l[p] == la[p - 1]);
                        let e = l[p];
                        match nodes[e.source as int] {
                            SDFNodeKind::Operation(_, a2, b2) => {
                                if a2 < nodes.len() {
                                    assert(l[p + e.child_a] == la[p - 1 + e.child_a]);
                                }
                                if b2 < nodes.len() {
                                    assert(l[p + e.child_b] == la[p - 1 + e.child_b]);
                                }
                            },
                            SDFNodeKind::Transform(c2) => {
                                if c2 < nodes.len() {
                                    assert(l[p + e.child_a] == la[p - 1 + e.child_a]);
                                }
                            },
                            _ => {},
                        }
                    } else {
                        let q = p - 1 - la.len();
                        assert(entry_consistent(nodes, lb, q));
                        assert(l[p] == lb[q]);
                        let e = l[p];
                        match nodes[e.source as int] {
                            SDFNodeKind::Operation(_, a2, b2) => {
                                if a2 < nodes.len() {
                                    assert(l[p + e.child_a] == lb[q + e.child_a]);
                                }
                                if b2 < nodes.len() {
                                    assert(l[p + e.child_b] == lb[q + e.child_b]);
                                }
                            },
                            SDFNodeKind::Transform(c2) => {
                                if c2 < nodes.len() {
                                    assert(l[p + e.child_a] == lb[q + e.child_a]);
                                }
                            },
                            _ => {},
                        }
                    }
                }
            },
            SDFNodeKind::Transform(c) => {
                let lc = node_layout(nodes, c as int, base + 1, (fuel - 1) as nat);
                lemma_layout_consistent(nodes, c as int, base + 1, (fuel - 1) as nat);
                assert(l == seq![l[0]] + lc);
                assert forall|p: int| 0 <= p < l.len() implies #[trigger] entry_consistent(
                    nodes,
                    l,
                    p,
                ) by {
                    if p == 0 {
                        let e = l[0];
                        assert(e.source == node);
                        if c < nodes.len() {
                            assert(e.child_a == 1);
                            assert(l[1] == lc[0]);
                        }
                    } else {
                        assert(entry_consistent(nodes, lc, p - 1));
                        assert(l[p] == lc[p - 1]);
                        let e = l[p];
                        match nodes[e.source as int] {
                            SDFNodeKind::Operation(_, a2, b2) => {
                                if a2 < nodes.len() {
                                    assert(l[p + e.child_a] == lc[p - 1 + e.child_a]);
                                }
                                if b2 < nodes.len() {
                                    assert(l[p + e.child_b] == lc[p - 1 + e.child_b]);
                                }
                            },
                            SDFNodeKind::Transform(c2) => {
                                if c2 < nodes.len() {
                                    assert(l[p + e.child_a] == lc[p - 1 + e.child_a]);
                                }
                            },
                            _ => {},
                        }
                    }
                }
            },
            _ => {},
        }
    }
}

/// The flattened tree starts with the root's entry, and every entry fits
/// its node: its type is the node's type and each child offset leads to an
/// entry of that child.
pub proof fn lemma_object_tree_links_children(nodes: Seq<SDFNodeKind>, root: int)
    requires
        nodes.len() <= usize::MAX,
        0 <= root < nodes.len(),
        ends_within(nodes, root, nodes.len() as nat),
        object_tree(nodes, root).len() <= i32::MAX,
    ensures
        object_tree(nodes, root).len() > 0,
        object_tree(nodes, root)[0].source == root,
        forall|p: int|
            0 <= p < object_tree(nodes, root).len() ==> #[trigger] entry_consistent(
                nodes,
                object_tree(nodes, root),
                p,
            ),
{
    lemma_layout_consistent(nodes, root, 0, nodes.len() as nat);
}

/// Nodes that the objects before object `i` bring into the brush array
/// (`None`: the object's tree is not ready and brings none).
pub open spec fn nodes_before(node_counts: Seq<Option<usize>>, i: int) -> int
    decreases i,
{
    if i <= 0 {
        0
    } else {
        nodes_before(node_counts, i - 1) + match node_counts[i - 1] {
            Some(k) => k as int,
            None => 0,
        }
    }
}

/// The header of object `i`: a transform entry whose child offset leads to
/// the object's first node, which sits after all headers and after the
/// nodes of the objects before it; no header (an empty entry) for an
/// object without nodes.
pub open spec fn brush_header(node_counts: Seq<Option<usize>>, i: int) -> Option<i32> {
    match node_counts[i] {
        Some(k) => if k > 0 {
            Some((node_counts.len() + nodes_before(node_counts, i) - i) as i32)
        } else {
            None
        },
        None => None,
    }
}

/// The brush array holds one header per object, then every object's nodes
/// in object order. Gives, for each object, the child offset of its header
/// (`None` for an object whose header stays an empty entry).
pub fn brush_headers(node_counts: &Vec<Option<usize>>) -> (r: Vec<Option<i32>>)
    requires
        node_counts.len() + nodes_before(node_counts@, node_counts.len() as int) <= usize::MAX,
    ensures
        r.len() == node_counts.len(),
        forall|i: int| 0 <= i < node_counts.len() ==> #[trigger] r[i] == brush_header(node_counts@, i),
        forall|i: int|
            0 <= i < node_counts.len() && node_counts.len() + nodes_before(node_counts@, i) <= i32::MAX
                ==> match #[trigger] node_counts@[i] {
                Some(k) => if k > 0 {
                    (r[i] matches Some(h) && i + h == node_counts.len() + nodes_before(node_counts@, i))
                } else {
                    r[i] is None
                },
                None => r[i] is None,
            },
{
    let object_count = node_counts.len();
    let mut index_so_far: usize = object_count;
    let mut r: Vec<Option<i32>> = Vec::new();
    let mut i: usize = 0;
    while i < node_counts.len()
        invariant
            object_count == node_counts.len(),
            i <= node_counts.len(),
            r.len() == i,
            index_so_far == object_count + nodes_before(node_counts@, i as int),
            object_count + nodes_before(node_counts@, object_count as int) <= usize::MAX,
            forall|j: int| 0 <= j < i ==> #[trigger] r[j] == brush_header(node_counts@, j),
        decreases node_counts.len() - i,
    {
        proof {
            lemma_nodes_before_monotone(node_counts@, (i + 1) as int, object_count as int);
            lemma_nodes_before_monotone(node_counts@, i as int, (i + 1) as int);
        }
        match node_counts[i] {
            Some(num_nodes) => {
                if num_nodes > 0 {
                    let child = #[verifier::truncate] ((index_so_far - i) as i32);
                    r.push(Some(child));
                    index_so_far = index_so_far + num_nodes;
                } else {
                    r.push(None);
                }
            },
            None => {
                r.push(None);
            },
        }
        i = i + 1;
    }
    proof {
        assert forall|j: int|
            0 <= j < node_counts.len() && node_counts.len() + nodes_before(node_counts@, j) <= i32::MAX
                implies match #[trigger] node_counts@[j] {
            Some(k) => if k > 0 {
                (r[j] matches Some(h) && j + h == node_counts.len() + nodes_before(node_counts@, j))
            } else {
                r[j] is None
            },
            None => r[j] is None,
        } by {
            lemma_nodes_before_monotone(node_counts@, 0, j);
            assert(r[j] == brush_header(node_counts@, j));
        }
    }
    r
}

proof fn lemma_nodes_before_monotone(node_counts: Seq<Option<usize>>, i: int, j: int)
    requires
        0 <= i <= j <= node_counts.len(),
    ensures
        0 <= nodes_before(node_counts, i) <= nodes_before(node_counts, j),
    decreases j,
{
    if j > 0 {
        if i < j {
            lemma_nodes_before_monotone(node_counts, i, j - 1);
        } else {
            lemma_nodes_before_monotone(node_counts, i - 1, j - 1);
        }
    }
}

/// The nodes before object `i` are the node counts of objects `0..i`
/// added up, a missing tree counting as none.
pub proof fn lemma_nodes_before_adds_up_counts(node_counts: Seq<Option<usize>>, i: int)
    requires
        0 <= i < node_counts.len(),
    ensures
        nodes_before(node_counts, 0) == 0,
        nodes_before(node_counts, i + 1) == nodes_before(node_counts, i) + match node_counts[i] {
            Some(k) => k as int,
            None => 0int,
        },
{
}

/// An object with nodes gets a header whose child offset, added to the
/// header's own position `i`, lands on the object's first node: right
/// after the `len` headers and the nodes of every object before it. An
/// object with no tree, or an empty one, gets none. Two objects' node runs
/// never overlap: a later object's first node comes after all of an
/// earlier one's.
pub proof fn lemma_brush_header_leads_to_first_node(node_counts: Seq<Option<usize>>, i: int, j: int)
    requires
        0 <= i < j < node_counts.len(),
        node_counts.len() + nodes_before(node_counts, node_counts.len() as int) <= i32::MAX,
    ensures
        (brush_header(node_counts, i) is None) <==> (node_counts[i] is None || node_counts[i]
            == Some(0usize)),
        node_counts[i] matches Some(k) && k > 0 ==> (brush_header(node_counts, i) matches Some(h)
            && i + h == node_counts.len() + nodes_before(node_counts, i)),
        (node_counts[i] matches Some(k) && k > 0 && brush_header(node_counts, j) is Some) ==> i
            + brush_header(node_counts, i).unwrap() + node_counts[i].unwrap() <= j + brush_header(
            node_counts,
            j,
        ).unwrap(),
{
    lemma_nodes_before_monotone(node_counts, i, node_counts.len() as int);
    lemma_nodes_before_monotone(node_counts, j, node_counts.len() as int);
    lemma_nodes_before_monotone(node_counts, i + 1, j);
}

} // verus!
