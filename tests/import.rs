use meshview::indices::{flatten_indices, IndexStream};
use meshview::joints::{widen_joints, JointStream};
use meshview::scene::{Node, SceneGraph};

fn node(children: Vec<usize>, mesh: Option<usize>) -> Node {
    Node { children, mesh, skin: None }
}

#[test]
fn index_widths_give_identical_triangles() {
    let a = flatten_indices(&Some(IndexStream::U8(vec![0, 1, 2, 0, 2, 3])));
    let b = flatten_indices(&Some(IndexStream::U16(vec![0, 1, 2, 0, 2, 3])));
    let c = flatten_indices(&Some(IndexStream::U32(vec![0, 1, 2, 0, 2, 3])));
    assert_eq!(a, vec![(0, 1, 2), (0, 2, 3)]);
    assert_eq!(a, b);
    assert_eq!(b, c);
}

#[test]
fn wide_indices_keep_their_values() {
    let b = flatten_indices(&Some(IndexStream::U16(vec![65535, 300, 7])));
    assert_eq!(b, vec![(65535, 300, 7)]);
    let c = flatten_indices(&Some(IndexStream::U32(vec![70000, 1, 4294967295])));
    assert_eq!(c, vec![(70000, 1, 4294967295)]);
}

#[test]
fn missing_index_stream_gives_flat_list() {
    assert!(flatten_indices(&None).is_empty());
    assert!(flatten_indices(&Some(IndexStream::U32(vec![]))).is_empty());
}

#[test]
fn trailing_partial_triangle_is_dropped() {
    let r = flatten_indices(&Some(IndexStream::U8(vec![5, 6, 7, 8, 9])));
    assert_eq!(r, vec![(5, 6, 7)]);
}

#[test]
fn joints_widen_to_sixteen_bits() {
    let a = widen_joints(&JointStream::U8(vec![[1, 2, 3, 255], [0, 0, 0, 0]]));
    assert_eq!(a, vec![[1u16, 2, 3, 255], [0, 0, 0, 0]]);
    let b = widen_joints(&JointStream::U16(vec![[1000, 2, 3, 65535]]));
    assert_eq!(b, vec![[1000u16, 2, 3, 65535]]);
    assert!(widen_joints(&JointStream::U8(vec![])).is_empty());
}

#[test]
fn roots_are_nodes_without_parent() {
    let g = SceneGraph {
        nodes: vec![
            node(vec![2], None),
            node(vec![], None),
            node(vec![3], None),
            node(vec![], Some(0)),
        ],
    };
    assert_eq!(g.root_nodes(), vec![0, 1]);
    let empty = SceneGraph { nodes: vec![] };
    assert!(empty.root_nodes().is_empty());
}

#[test]
fn child_mesh_path_is_root_first() {
    // root 0 (translation) holds child 1 (scale), which carries mesh 0
    let g = SceneGraph { nodes: vec![node(vec![1], None), node(vec![], Some(0))] };
    let roots = g.root_nodes();
    assert_eq!(roots, vec![0]);
    let inst = g.mesh_instances(&roots, 64);
    assert_eq!(inst.len(), 1);
    assert_eq!(inst[0].mesh, 0);
    assert_eq!(inst[0].path, vec![0, 1]);
}

#[test]
fn unit_quad_asset() {
    let g = SceneGraph { nodes: vec![node(vec![], Some(0))] };
    let inst = g.mesh_instances(&g.root_nodes(), 64);
    assert_eq!(inst.len(), 1);
    assert_eq!(inst[0].path, vec![0]);
    let tris = flatten_indices(&Some(IndexStream::U16(vec![0, 1, 2, 0, 2, 3])));
    assert_eq!(tris, vec![(0, 1, 2), (0, 2, 3)]);
}

#[test]
fn shared_mesh_yields_one_instance_per_node() {
    let g = SceneGraph {
        nodes: vec![
            node(vec![1, 2], Some(5)),
            Node { children: vec![], mesh: Some(7), skin: Some(1) },
            node(vec![3], None),
            node(vec![], Some(7)),
        ],
    };
    let inst = g.mesh_instances(&vec![0], 64);
    let got: Vec<(usize, Option<usize>, Vec<usize>)> =
        inst.iter().map(|m| (m.mesh, m.skin, m.path.clone())).collect();
    assert_eq!(
        got,
        vec![
            (5, None, vec![0]),
            (7, Some(1), vec![0, 1]),
            (7, None, vec![0, 2, 3]),
        ]
    );
}

#[test]
fn depth_cap_stops_cycles() {
    let g = SceneGraph { nodes: vec![node(vec![0], Some(3))] };
    assert!(g.root_nodes().is_empty());
    let inst = g.mesh_instances(&vec![0], 3);
    assert_eq!(inst.len(), 3);
    assert_eq!(inst[2].path, vec![0, 0, 0]);
    assert!(g.mesh_instances(&vec![0], 0).is_empty());
}

#[test]
fn unknown_root_index_is_skipped() {
    let g = SceneGraph { nodes: vec![node(vec![9], Some(1))] };
    let inst = g.mesh_instances(&vec![4, 0], 8);
    assert_eq!(inst.len(), 1);
    assert_eq!(inst[0].path, vec![0]);
}
