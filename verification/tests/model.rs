use b3d2glb::b3d::{
    collect_anims, collect_joints, collect_mesh, prepare_model, Animation, Bone, Key, Mesh, Node, Sequence, Tris,
    Vertex, B3D,
};

fn b(x: f32) -> u32 {
    x.to_bits()
}

fn empty_mesh() -> Mesh {
    Mesh { vertices: vec![], triangles: vec![] }
}

fn node(name: &str, children: Vec<Node>, bones: Vec<Bone>, mesh: Mesh) -> Node {
    Node {
        name: name.to_string(),
        position: [b(1.0), b(2.0), b(3.0)],
        scale: [b(1.0); 3],
        rotation: [b(1.0), 0, 0, 0],
        mesh,
        bones,
        key_flags: 0,
        keys: vec![],
        children,
        animation: Animation { frames: 0, fps: 0 },
        sequences: vec![],
    }
}

fn vertex(i: f32) -> Vertex {
    Vertex { position: [b(i), b(i + 1.0), b(i + 2.0)], normal: [0, b(1.0), 0], tex_coords: [b(0.5), b(i)] }
}

fn sample_model() -> B3D {
    let mesh = Mesh {
        vertices: vec![vertex(0.0), vertex(1.0), vertex(2.0), vertex(3.0)],
        triangles: vec![
            Tris { brush_id: 0, indices: vec![[0, 1, 2], [1, 2, 3]] },
            Tris { brush_id: 1, indices: vec![[3, 2, 1]] },
        ],
    };
    let leaf = node("leaf", vec![], vec![Bone { vertex_id: 3, weight: b(1.0) }], empty_mesh());
    let arm = node(
        "arm",
        vec![leaf],
        vec![Bone { vertex_id: 1, weight: b(0.5) }, Bone { vertex_id: 2, weight: b(1.0) }],
        empty_mesh(),
    );
    let other = node("other", vec![], vec![Bone { vertex_id: 2, weight: b(0.25) }, Bone { vertex_id: 9, weight: b(1.0) }], empty_mesh());
    let root = node("root", vec![arm, other], vec![], mesh);
    B3D { textures: vec![], brushes: vec![], node: root }
}

#[test]
fn mesh_flips_winding() {
    let m = collect_mesh(&sample_model());
    assert_eq!(m.positions.len(), 4);
    assert_eq!(m.normals.len(), 4);
    assert_eq!(m.uvs[2], [b(0.5), b(2.0)]);
    assert_eq!(m.tri_groups.len(), 2);
    assert_eq!(m.tri_groups[0].brush_id, 0);
    assert_eq!(m.tri_groups[0].indices, vec![0, 2, 1, 1, 3, 2]);
    assert_eq!(m.tri_groups[1].indices, vec![3, 1, 2]);
    assert!(m.skin.iter().all(|s| s.is_none()));
}

#[test]
fn joints_in_preorder_with_parents() {
    let model = sample_model();
    let mut joints = Vec::new();
    let mut vj = vec![None; 4];
    collect_joints(&model.node, None, &mut joints, &mut vj, 4);
    let names: Vec<&str> = joints.iter().map(|j| j.name.as_str()).collect();
    assert_eq!(names, vec!["root", "arm", "leaf", "other"]);
    let parents: Vec<Option<usize>> = joints.iter().map(|j| j.parent).collect();
    assert_eq!(parents, vec![None, Some(0), Some(1), Some(0)]);
    // vertex 2 is named by "arm" and then by "other": the later one wins;
    // vertex 9 is out of range and ignored.
    assert_eq!(vj, vec![None, Some((1, b(0.5))), Some((3, b(0.25))), Some((2, b(1.0)))]);
}

#[test]
fn joints_append_after_existing() {
    let model = sample_model();
    let mut joints = Vec::new();
    let mut vj = vec![None; 4];
    collect_joints(&model.node.children[0], Some(7), &mut joints, &mut vj, 2);
    assert_eq!(joints.len(), 2);
    assert_eq!(joints[0].parent, Some(7));
    assert_eq!(joints[1].parent, Some(0));
    // only vertices below vcount are bound
    assert_eq!(vj, vec![None, Some((0, b(0.5))), None, None]);
}

#[test]
fn prepare_model_binds_skin() {
    let parts = prepare_model(&sample_model()).expect("has vertices");
    assert_eq!(parts.joints.len(), 4);
    let skin: Vec<Option<(u32, u32)>> = parts.mesh.skin.iter().map(|s| s.map(|w| (w.joint_idx, w.weight))).collect();
    assert_eq!(skin, vec![None, Some((1, b(0.5))), Some((3, b(0.25))), Some((2, b(1.0)))]);
    assert!(parts.clips.is_empty());
}

#[test]
fn prepare_model_skips_empty_mesh() {
    let model = B3D { textures: vec![], brushes: vec![], node: node("n", vec![], vec![], empty_mesh()) };
    assert!(prepare_model(&model).is_none());
}

#[test]
fn anims_from_sequences() {
    let mut n = node("n", vec![], vec![], empty_mesh());
    n.animation = Animation { frames: 100, fps: b(24.0) };
    n.sequences = vec![
        Sequence { name: "walk".into(), first_frame: 0, last_frame: 10 },
        Sequence { name: "run".into(), first_frame: 11, last_frame: 20 },
    ];
    let clips = collect_anims(&n);
    assert_eq!(clips.len(), 2);
    assert_eq!(clips[1].name, "run");
    assert_eq!((clips[1].first_frame, clips[1].last_frame), (11, 20));
    assert_eq!(clips[0].fps, b(24.0));
}

#[test]
fn anims_default_clip() {
    let mut n = node("n", vec![], vec![], empty_mesh());
    n.animation = Animation { frames: 31, fps: 0 };
    let clips = collect_anims(&n);
    assert_eq!(clips.len(), 1);
    assert_eq!(clips[0].name, "default");
    assert_eq!((clips[0].first_frame, clips[0].last_frame), (0, 30));
    n.animation.frames = 1;
    assert!(collect_anims(&n).is_empty());
}

#[test]
fn keys_are_kept_in_joints() {
    let mut n = node("n", vec![], vec![], empty_mesh());
    n.key_flags = 5;
    n.keys = vec![Key { frame: 3, position: [1, 2, 3], scale: [4, 5, 6], rotation: [7, 8, 9, 10] }];
    let mut joints = Vec::new();
    let mut vj = Vec::new();
    collect_joints(&n, None, &mut joints, &mut vj, 0);
    assert_eq!(joints[0].key_flags, 5);
    assert_eq!(joints[0].keys.len(), 1);
    assert_eq!(joints[0].keys[0].frame, 3);
    assert_eq!(joints[0].position, [b(1.0), b(2.0), b(3.0)]);
}
