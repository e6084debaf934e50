use vtt::sdf_tree::{
    brush_headers, prepare_node_tree, SDFNodeKind, SDFOperation, SDFShapeKind, BOX_PRIM,
    SPHERE_PRIM, TRANSFORM_WARP, UNION_OP,
};

#[test]
fn generate_object_tree() {
    let nodes = vec![
        SDFNodeKind::Operation(SDFOperation::Union, 1, 3),
        SDFNodeKind::Transform(2),
        SDFNodeKind::Primitive(SDFShapeKind::Sphere),
        SDFNodeKind::Primitive(SDFShapeKind::Box),
    ];
    let tree = prepare_node_tree(&nodes, 0);
    assert_eq!(tree.len(), 4);
    let root = tree[0];
    assert_eq!(root.node_type, UNION_OP);
    assert_eq!(root.source, 0);
    let left = tree[root.child_a as usize];
    assert_eq!(left.node_type, TRANSFORM_WARP);
    assert_eq!(left.source, 1);
    let right = tree[root.child_b as usize];
    assert_eq!(right.node_type, BOX_PRIM);
    assert_eq!(right.source, 3);
    let sphere = tree[(root.child_a + left.child_a) as usize];
    assert_eq!(sphere.node_type, SPHERE_PRIM);
    assert_eq!(sphere.source, 2);
    assert_eq!((root.child_a, root.child_b, left.child_a), (1, 3, 1));
}

#[test]
fn shared_node_is_written_once_per_path() {
    let nodes = vec![
        SDFNodeKind::Operation(SDFOperation::Intersection, 1, 1),
        SDFNodeKind::Primitive(SDFShapeKind::Sphere),
    ];
    let tree = prepare_node_tree(&nodes, 0);
    assert_eq!(tree.len(), 3);
    assert_eq!((tree[0].node_type, tree[0].child_a, tree[0].child_b), (2, 1, 2));
}

#[test]
fn missing_child_gets_offset_minus_one_minus_parent() {
    let nodes = vec![
        SDFNodeKind::Empty,
        SDFNodeKind::Operation(SDFOperation::Subtraction, 9, 0),
    ];
    let tree = prepare_node_tree(&nodes, 1);
    assert_eq!(tree.len(), 2);
    assert_eq!((tree[0].node_type, tree[0].child_a, tree[0].child_b), (3, -1, 1));
    assert_eq!((tree[1].node_type, tree[1].source), (0, 0));
    assert!(prepare_node_tree(&nodes, 5).is_empty());
}

#[test]
fn brush_headers_point_past_headers_to_each_objects_nodes() {
    let headers = brush_headers(&vec![Some(3), None, Some(0), Some(2)]);
    assert_eq!(headers, vec![Some(4), None, None, Some(4)]);
}
