use b3d2glb::b3d::{AnimClip, BoneWeight, JointInfo, Key, MeshData, TriGroup};
use b3d2glb::materials::{build_brush_map, build_materials, default_options, sorted_brush_ids, LoadedImage};
use b3d2glb::writer::{build_gltf, build_node_hierarchy, column_major, has_skin, make_bv, AccessorType, TargetPath, ARRAY_BUFFER, ELEMENT_ARRAY_BUFFER};

fn b(x: f32) -> u32 {
    x.to_bits()
}

fn joint(name: &str, parent: Option<usize>, keys: Vec<Key>, flags: u32) -> JointInfo {
    JointInfo {
        name: name.into(),
        position: [b(1.0), b(2.0), b(3.0)],
        scale: [b(1.0); 3],
        rotation: [b(1.0), b(0.1), b(0.2), b(0.3)],
        parent,
        key_flags: flags,
        keys,
    }
}

fn key(frame: u32) -> Key {
    Key { frame, position: [b(frame as f32), 0, b(1.0)], scale: [b(1.0); 3], rotation: [b(1.0), 0, 0, b(0.5)] }
}

fn mesh(skinned: bool) -> MeshData {
    MeshData {
        positions: vec![[b(0.0), b(0.0), b(1.0)], [b(1.0), b(0.0), b(0.0)], [b(0.0), b(1.0), b(0.0)]],
        normals: vec![[0, 0, b(1.0)]; 3],
        uvs: vec![[0, 0]; 3],
        tri_groups: vec![TriGroup { brush_id: 0, indices: vec![0, 2, 1] }],
        skin: if skinned {
            vec![Some(BoneWeight { joint_idx: 1, weight: b(1.0) }), None, None]
        } else {
            vec![None; 3]
        },
    }
}

#[test]
fn buffer_view_stride() {
    let v = make_bv(8, 12, 0, ARRAY_BUFFER);
    assert_eq!(v.byte_stride, None);
    assert_eq!(make_bv(8, 12, 4, ARRAY_BUFFER).byte_stride, Some(4));
}

#[test]
fn nodes_from_joints() {
    let js = vec![joint("a", None, vec![], 0), joint("b", Some(0), vec![], 0), joint("c", Some(0), vec![], 0)];
    let (nodes, scene) = build_node_hierarchy(&js, true);
    assert_eq!(scene, vec![0]);
    assert_eq!(nodes[0].children, vec![1, 2]);
    assert_eq!(nodes[0].mesh, Some(0));
    assert_eq!(nodes[0].skin, Some(0));
    assert_eq!(nodes[1].mesh, None);
    let t = nodes[1].trs.unwrap();
    assert_eq!(t.translation, [b(1.0), b(2.0), b(-3.0)]);
    assert_eq!(t.rotation, [b(0.1), b(0.2), b(-0.3), b(1.0)]);
    let (root, scene) = build_node_hierarchy(&vec![], false);
    assert_eq!(root.len(), 1);
    assert_eq!(root[0].name, "root");
    assert!(root[0].trs.is_none());
    assert_eq!(scene, vec![0]);
}

#[test]
fn document_of_unskinned_mesh() {
    let m = mesh(false);
    let ids = vec![0];
    let (mats, images) = build_materials(&ids, &[], &[], &vec![], &None, &default_options());
    assert!(!has_skin(&m, &vec![]));
    let bounds = ([1, 2, 3], [4, 5, 6]);
    let (doc, bin) = build_gltf(&m, &vec![], &vec![], &build_brush_map(&ids), 0, mats, &images, &vec![], bounds, &vec![]);
    // 3 * 12 + 3 * 12 + 3 * 8 + 3 * 4 = 108 bytes
    assert_eq!(bin.len(), 108);
    assert_eq!(doc.buffer_length, 108);
    assert_eq!(doc.buffer_views.len(), 4);
    assert_eq!(doc.buffer_views[3], make_bv(96, 12, 0, ELEMENT_ARRAY_BUFFER));
    assert_eq!(doc.accessors.len(), 4);
    assert_eq!(doc.accessors[0].bounds, Some(bounds));
    assert_eq!(doc.accessors[3].kind, AccessorType::Scalar);
    assert_eq!(doc.accessors[3].byte_offset, Some(0));
    assert_eq!(doc.primitives.len(), 1);
    assert_eq!(doc.primitives[0].indices, 3);
    assert_eq!(doc.primitives[0].skin_attributes, None);
    assert!(doc.skin.is_none());
    // first position has z = 1.0, written negated
    assert_eq!(&bin[8..12], &(-1.0f32).to_le_bytes());
    // indices in order
    assert_eq!(&bin[96..100], &0u32.to_le_bytes());
    assert_eq!(&bin[100..104], &2u32.to_le_bytes());
}

#[test]
fn document_with_skin_animation_and_image() {
    let m = mesh(true);
    let js = vec![joint("root", None, vec![], 0), joint("bone", Some(0), vec![key(0), key(5), key(20)], 7)];
    let clips = vec![AnimClip { name: "walk".into(), fps: 0, first_frame: 0, last_frame: 10 }];
    let ids = vec![0];
    let loaded = vec![Some(LoadedImage { png: vec![1, 2, 3, 4, 5], has_alpha: false })];
    let brushes = vec![b3d2glb::b3d::Brush { name: "x".into(), color: [0; 4], texture_id: vec![0] }];
    let textures = vec![b3d2glb::b3d::Texture { file: "t.png".into(), flags: 0, blend: 0 }];
    let (mats, images) = build_materials(&ids, &brushes, &textures, &loaded, &None, &default_options());
    assert!(has_skin(&m, &js));
    let ibms = vec![[0u32; 16], [7u32; 16]];
    let times = vec![vec![vec![], vec![b(0.0), b(5.0), b(20.0)]]];
    let (doc, bin) = build_gltf(&m, &js, &clips, &build_brush_map(&ids), brushes.len(), mats, &images, &ibms, ([0; 3], [0; 3]), &times);
    // geometry with skin: 36 + 36 + 24 + 24 + 48 + 12 = 180, then 128 bytes of matrices
    let skin = doc.skin.as_ref().unwrap();
    assert_eq!(skin.joints, vec![0, 1]);
    assert_eq!(skin.inverse_bind_matrices, 6);
    assert_eq!(doc.buffer_views[6], make_bv(180, 128, 0, ARRAY_BUFFER));
    assert_eq!(doc.primitives[0].skin_attributes, Some((3, 4)));
    assert_eq!(doc.primitives[0].indices, 5);
    // one animation: the bone's two keys within frames 0..=10, three channels
    assert_eq!(doc.animations.len(), 1);
    let a = &doc.animations[0];
    assert_eq!(a.name, "walk");
    assert_eq!(a.channels.len(), 3);
    assert_eq!(a.samplers.len(), 3);
    assert_eq!(a.channels[0].node, 1);
    assert_eq!(a.channels[0].path, TargetPath::Translation);
    assert_eq!(a.channels[2].path, TargetPath::Rotation);
    let times_acc = &doc.accessors[a.samplers[0].input];
    assert_eq!(times_acc.count, 2);
    let tv = &doc.buffer_views[times_acc.buffer_view];
    assert_eq!(&bin[tv.byte_offset..tv.byte_offset + 4], &0.0f32.to_le_bytes());
    assert_eq!(&bin[tv.byte_offset + 4..tv.byte_offset + 8], &5.0f32.to_le_bytes());
    // the image is embedded last, aligned
    assert_eq!(doc.images.len(), 1);
    let iv = &doc.buffer_views[doc.images[0]];
    assert_eq!(iv.byte_length, 5);
    assert_eq!(iv.byte_offset % 4, 0);
    assert_eq!(&bin[iv.byte_offset..iv.byte_offset + 5], &[1, 2, 3, 4, 5]);
    assert_eq!(bin.len() % 4, 0);
    assert_eq!(doc.buffer_length, bin.len());
    for acc in &doc.accessors {
        assert!(acc.buffer_view < doc.buffer_views.len());
    }
    for v in &doc.buffer_views {
        assert_eq!(v.byte_offset % 4, 0);
        assert!(v.byte_offset + v.byte_length <= bin.len());
    }
}

#[test]
fn groups_without_brush_get_fallback_material() {
    let mut m = mesh(false);
    m.tri_groups = vec![
        TriGroup { brush_id: 0, indices: vec![0, 1, 2] },
        TriGroup { brush_id: u32::MAX, indices: vec![0, 2, 1] },
        TriGroup { brush_id: 7, indices: vec![1, 2, 0] },
    ];
    let ids = sorted_brush_ids(&m.tri_groups);
    assert_eq!(ids, vec![0, 7, u32::MAX]);
    let brushes = vec![b3d2glb::b3d::Brush { name: "x".into(), color: [b(1.0); 4], texture_id: vec![] }];
    let (mats, images) = build_materials(&ids, &brushes, &[], &vec![], &None, &default_options());
    assert_eq!(mats.len(), 1);
    let (doc, _bin) = build_gltf(&m, &vec![], &vec![], &build_brush_map(&ids), brushes.len(), mats, &images, &vec![], ([0; 3], [0; 3]), &vec![]);
    assert_eq!(doc.primitives.len(), 3);
    assert_eq!(doc.primitives[0].material, 0);
    assert_eq!(doc.primitives[1].material, 0);
    assert_eq!(doc.primitives[2].material, 0);
    for p in &doc.primitives {
        assert!(p.material < doc.materials.len());
    }
}

#[test]
fn matrices_laid_out_by_column() {
    let m = [[1, 2, 3, 4], [5, 6, 7, 8], [9, 10, 11, 12], [13, 14, 15, 16]];
    assert_eq!(column_major(m), [1, 5, 9, 13, 2, 6, 10, 14, 3, 7, 11, 15, 4, 8, 12, 16]);
}
