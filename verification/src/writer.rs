//! The glTF document: buffer views, accessors, nodes, skin, animations and
//! images laid out over one binary buffer.
use vstd::prelude::*;
use vstd::string::StringExecFns;
use crate::b3d::{AnimClip, BoneWeight, Brush, JointInfo, Key, MeshData, Texture, TriGroup};
use crate::buffers::{lemma_quat_bytes_layout, lemma_vec3_bytes_layout, lemma_vec3_neg_z_bytes_layout, lemma_skin_bytes_layout, lemma_u32s_bytes_layout, lemma_mats_len, lemma_quat_len, lemma_vec3_plain_len, mats_bytes, push_mats, push_quats, push_vec3, quat_bytes, vec3_bytes, lemma_joints_len, lemma_u32s_len, lemma_vec2_len, lemma_vec3_len, lemma_weights_len, all_indices, joints_bytes, push_indices, push_joints, push_normals, push_positions, push_u32s, push_uvs, push_weights, u32s_bytes, vec2_bytes, vec3_neg_z_bytes, weights_bytes};
use crate::glb::{le_u16, le_u32, padded, pad_to_4_in_place, push_bytes};
use crate::materials::{brush_map_of, images_spec, lemma_material_prefix, lemma_materials_sound, material_count, materials_spec, slot_ok, strictly_increasing, texture_requests_spec, LoadedImage, Material, MaterialOptions};
use std::collections::HashMap;
use crate::math::{neg_bits, negate};

verus! {

/// `bufferView.target` for vertex data.
pub const ARRAY_BUFFER: u32 = 34962;
/// `bufferView.target` for index data.
pub const ELEMENT_ARRAY_BUFFER: u32 = 34963;
/// `accessor.componentType` for `f32`.
pub const FLOAT: u32 = 5126;
/// `accessor.componentType` for `u16`.
pub const UNSIGNED_SHORT: u32 = 5123;
/// `accessor.componentType` for `u32`.
pub const UNSIGNED_INT: u32 = 5125;

/// `accessor.type`
#[derive(Clone, Copy, Debug, PartialEq, Eq)]
pub enum AccessorType {
    Scalar,
    Vec2,
    Vec3,
    Vec4,
    Mat4,
}

/// A view into the (single) binary buffer.
#[derive(Clone, Copy, Debug, PartialEq, Eq)]
pub struct BufferView {
    pub byte_offset: usize,
    pub byte_length: usize,
    pub byte_stride: Option<usize>,
    pub target: Option<u32>,
}

/// A typed view of a buffer view.
#[derive(Clone, Copy, Debug, PartialEq, Eq)]
pub struct Accessor {
    pub buffer_view: usize,
    pub byte_offset: Option<usize>,
    pub component_type: u32,
    pub count: usize,
    pub kind: AccessorType,
    /// Per-component minimum and maximum (bit patterns), for positions.
    pub bounds: Option<([u32; 3], [u32; 3])>,
}

/// `animation.channel.target.path`
#[derive(Clone, Copy, Debug, PartialEq, Eq)]
pub enum TargetPath {
    Translation,
    Scale,
    Rotation,
}

/// An animation channel: which sampler drives which property of which node.
#[derive(Clone, Copy, Debug, PartialEq, Eq)]
pub struct Channel {
    pub sampler: usize,
    pub node: usize,
    pub path: TargetPath,
}

/// A linear animation sampler: key times and key values.
#[derive(Clone, Copy, Debug, PartialEq, Eq)]
pub struct Sampler {
    pub input: usize,
    pub output: usize,
}

/// A named animation.
#[derive(Debug)]
pub struct GltfAnimation {
    pub name: String,
    pub channels: Vec<Channel>,
    pub samplers: Vec<Sampler>,
}

/// A node's local transform; `rotation` is `[x, y, z, w]`.
#[derive(Clone, Copy, Debug, PartialEq, Eq)]
pub struct Trs {
    pub translation: [u32; 3],
    pub rotation: [u32; 4],
    pub scale: [u32; 3],
}

/// A scene node.
#[derive(Debug)]
pub struct GltfNode {
    pub name: String,
    pub trs: Option<Trs>,
    pub mesh: Option<usize>,
    pub skin: Option<usize>,
    pub children: Vec<usize>,
}

/// A mesh primitive (attributes `POSITION` 0, `NORMAL` 1, `TEXCOORD_0` 2, and
/// `JOINTS_0`/`WEIGHTS_0` when skinned).
#[derive(Clone, Copy, Debug, PartialEq, Eq)]
pub struct Primitive {
    pub indices: usize,
    pub material: usize,
    pub skin_attributes: Option<(usize, usize)>,
}

/// The skin (its skeleton root is node 0).
#[derive(Debug)]
pub struct Skin {
    pub inverse_bind_matrices: usize,
    pub joints: Vec<usize>,
}

/// The glTF document that goes with the binary buffer.
#[derive(Debug)]
pub struct Document {
    pub scene_nodes: Vec<usize>,
    pub nodes: Vec<GltfNode>,
    pub primitives: Vec<Primitive>,
    pub accessors: Vec<Accessor>,
    pub buffer_views: Vec<BufferView>,
    pub buffer_length: usize,
    pub materials: Vec<Material>,
    pub skin: Option<Skin>,
    pub animations: Vec<GltfAnimation>,
    /// Buffer view of each embedded PNG image (texture `i` shows image `i`).
    pub images: Vec<usize>,
}

/// A buffer view over the single buffer; a zero stride means none.
pub open spec fn bv(offset: int, length: int, stride: int, target: u32) -> BufferView {
    BufferView {
        byte_offset: offset as usize,
        byte_length: length as usize,
        byte_stride: if stride > 0 { Some(stride as usize) } else { None },
        target: Some(target),
    }
}

/// Make a buffer view; a zero stride means none.
pub fn make_bv(offset: usize, length: usize, stride: usize, target: u32) -> (r: BufferView)
    ensures
        r == bv(offset as int, length as int, stride as int, target),
{
    BufferView {
        byte_offset: offset,
        byte_length: length,
        byte_stride: if stride > 0 { Some(stride) } else { None },
        target: Some(target),
    }
}

pub open spec fn acc(buffer_view: int, component_type: u32, count: int, kind: AccessorType) -> Accessor {
    Accessor { buffer_view: buffer_view as usize, byte_offset: None, component_type, count: count as usize, kind, bounds: None }
}

// ---------------------------------------------------------------------------
// Nodes
// ---------------------------------------------------------------------------

/// Indices of the joints whose parent is `p`, in increasing order.
pub open spec fn children_of(js: Seq<JointInfo>, p: Option<usize>) -> Seq<usize>
    decreases js.len(),
{
    if js.len() == 0 {
        Seq::empty()
    } else {
        children_of(js.drop_last(), p) + if js.last().parent == p {
            seq![(js.len() - 1) as usize]
        } else {
            Seq::empty()
        }
    }
}

/// The transform of a joint in right-handed coordinates, rotation as
/// `[x, y, z, w]`.
pub open spec fn joint_trs(j: JointInfo) -> Trs {
    Trs {
        translation: [j.position[0], j.position[1], neg_bits(j.position[2])],
        rotation: [j.rotation[1], j.rotation[2], neg_bits(j.rotation[3]), j.rotation[0]],
        scale: j.scale,
    }
}

/// The nodes: one per joint (the first holds the mesh, and the skin when
/// skinned), or a single `"root"` node holding the mesh when there are no
/// joints; and the scene's root nodes.
pub open spec fn nodes_match(js: Seq<JointInfo>, has_skin: bool, nodes: Seq<GltfNode>, scene: Seq<usize>) -> bool {
    if js.len() == 0 {
        &&& nodes.len() == 1
        &&& nodes[0].name@ == "root"@
        &&& nodes[0].trs is None
        &&& nodes[0].mesh == Some(0usize)
        &&& nodes[0].skin is None
        &&& nodes[0].children@.len() == 0
        &&& scene == seq![0usize]
    } else {
        &&& nodes.len() == js.len()
        &&& forall|i: int| 0 <= i < js.len() ==> {
            &&& (#[trigger] nodes[i]).name@ == js[i].name@
            &&& nodes[i].trs == Some(joint_trs(js[i]))
            &&& nodes[i].mesh == if i == 0 { Some(0usize) } else { None }
            &&& nodes[i].skin == if i == 0 && has_skin { Some(0usize) } else { None }
            &&& nodes[i].children@ == children_of(js, Some(i as usize))
        }
        &&& scene == children_of(js, None)
    }
}

/// Each joint's node carries the joint's bind pose in right-handed
/// coordinates: the translation with the sign of Z flipped, the rotation
/// `[w, x, y, z]` as `[x, y, -z, w]`, and the scale unchanged, bit for bit.
pub proof fn lemma_node_transforms(js: Seq<JointInfo>, has_skin: bool, nodes: Seq<GltfNode>, scene: Seq<usize>)
    requires
        nodes_match(js, has_skin, nodes, scene),
    ensures
        forall|i: int| #![trigger js[i]] 0 <= i < js.len() ==> nodes[i].trs == Some(
            (Trs {
                translation: [js[i].position[0], js[i].position[1], js[i].position[2] ^ 0x8000_0000u32],
                rotation: [js[i].rotation[1], js[i].rotation[2], js[i].rotation[3] ^ 0x8000_0000u32, js[i].rotation[0]],
                scale: js[i].scale,
            }),
        ),
{
    assert forall|i: int| #![trigger js[i]] 0 <= i < js.len() implies nodes[i].trs == Some(
        (Trs {
            translation: [js[i].position[0], js[i].position[1], js[i].position[2] ^ 0x8000_0000u32],
            rotation: [js[i].rotation[1], js[i].rotation[2], js[i].rotation[3] ^ 0x8000_0000u32, js[i].rotation[0]],
            scale: js[i].scale,
        }),
    ) by {
        assert(nodes[i].trs == Some(joint_trs(js[i])));
    }
}

fn children_indices(js: &Vec<JointInfo>, p: Option<usize>) -> (r: Vec<usize>)
    ensures
        r@ == children_of(js@, p),
{
    let mut r: Vec<usize> = Vec::new();
    let mut c: usize = 0;
    while c < js.len()
        invariant
            c <= js@.len(),
            r@ == children_of(js@.take(c as int), p),
        decreases js@.len() - c,
    {
        assert(js@.take(c as int + 1).drop_last() =~= js@.take(c as int));
        if js[c].parent == p {
            r.push(c);
        }
        c = c + 1;
        assert(r@ =~= children_of(js@.take(c as int), p));
    }
    assert(js@.take(c as int) =~= js@);
    r
}

/// Build the scene nodes from the joints.
pub fn build_node_hierarchy(joints: &Vec<JointInfo>, has_skin: bool) -> (r: (Vec<GltfNode>, Vec<usize>))
    ensures
        nodes_match(joints@, has_skin, r.0@, r.1@),
{
    if joints.len() == 0 {
        let mut nodes: Vec<GltfNode> = Vec::new();
        nodes.push(GltfNode { name: String::from_str("root"), trs: None, mesh: Some(0), skin: None, children: Vec::new() });
        let mut scene: Vec<usize> = Vec::new();
        scene.push(0);
        assert(scene@ =~= seq![0usize]);
        return (nodes, scene);
    }
    let mut nodes: Vec<GltfNode> = Vec::new();
    let mut i: usize = 0;
    while i < joints.len()
        invariant
            i <= joints@.len(),
            nodes@.len() == i,
            forall|k: int| 0 <= k < i ==> {
                &&& (#[trigger] nodes@[k]).name@ == joints@[k].name@
                &&& nodes@[k].trs == Some(joint_trs(joints@[k]))
                &&& nodes@[k].mesh == if k == 0 { Some(0usize) } else { None }
                &&& nodes@[k].skin == if k == 0 && has_skin { Some(0usize) } else { None }
                &&& nodes@[k].children@ == children_of(joints@, Some(k as usize))
            },
        decreases joints@.len() - i,
    {
        let j = &joints[i];
        let trs = Trs {
            translation: [j.position[0], j.position[1], negate(j.position[2])],
            rotation: [j.rotation[1], j.rotation[2], negate(j.rotation[3]), j.rotation[0]],
            scale: j.scale,
        };
        let children = children_indices(joints, Some(i));
        nodes.push(GltfNode {
            name: j.name.clone(),
            trs: Some(trs),
            mesh: if i == 0 { Some(0) } else { None },
            skin: if i == 0 && has_skin { Some(0) } else { None },
            children,
        });
        i = i + 1;
    }
    let scene = children_indices(joints, None);
    (nodes, scene)
}

// ---------------------------------------------------------------------------
// Geometry: vertex attributes and indices
// ---------------------------------------------------------------------------

/// Skinning data is written when there are joints and some vertex has a bone.
pub open spec fn has_skin_spec(mesh: MeshData, joints: Seq<JointInfo>) -> bool {
    joints.len() > 0 && exists|i: int| 0 <= i < mesh.skin@.len() && (#[trigger] mesh.skin@[i]) is Some
}

/// Vertex attributes then indices, before alignment.
pub open spec fn geometry_bytes(mesh: MeshData, skin: bool) -> Seq<u8> {
    vec3_neg_z_bytes(mesh.positions@) + vec3_neg_z_bytes(mesh.normals@) + vec2_bytes(mesh.uvs@)
        + (if skin { joints_bytes(mesh.skin@) + weights_bytes(mesh.skin@) } else { Seq::empty() })
        + u32s_bytes(all_indices(mesh.tri_groups@))
}

/// Offset of the normals.
pub open spec fn off_normals(mesh: MeshData) -> int {
    12 * mesh.positions@.len() as int
}

/// Offset of the texture coordinates.
pub open spec fn off_uvs(mesh: MeshData) -> int {
    off_normals(mesh) + 12 * mesh.normals@.len()
}

/// Offset of the joint indices.
pub open spec fn off_joints(mesh: MeshData) -> int {
    off_uvs(mesh) + 8 * mesh.uvs@.len()
}

/// Offset of the joint weights.
pub open spec fn off_weights(mesh: MeshData) -> int {
    off_joints(mesh) + 8 * mesh.skin@.len()
}

/// Offset of the triangle indices.
pub open spec fn off_indices(mesh: MeshData, skin: bool) -> int {
    if skin { off_weights(mesh) + 16 * mesh.skin@.len() } else { off_joints(mesh) }
}

/// The buffer views of the geometry: positions, normals and texture
/// coordinates (sized by the vertex count), joints and weights when skinned,
/// and the indices.
pub open spec fn geometry_views(mesh: MeshData, skin: bool) -> Seq<BufferView> {
    let vc = mesh.positions@.len() as int;
    seq![
        bv(0, 12 * vc, 12, ARRAY_BUFFER),
        bv(off_normals(mesh), 12 * vc, 12, ARRAY_BUFFER),
        bv(off_uvs(mesh), 8 * vc, 8, ARRAY_BUFFER),
    ] + (if skin {
        seq![bv(off_joints(mesh), 8 * vc, 0, ARRAY_BUFFER), bv(off_weights(mesh), 16 * vc, 0, ARRAY_BUFFER)]
    } else {
        Seq::empty()
    }) + seq![bv(off_indices(mesh, skin), 4 * all_indices(mesh.tri_groups@).len() as int, 0, ELEMENT_ARRAY_BUFFER)]
}

/// Index of the buffer view (and of the first accessor) of the indices.
pub open spec fn index_slot(skin: bool) -> int {
    if skin { 5 } else { 3 }
}

/// The accessors of the geometry: positions (with their bounds), normals,
/// texture coordinates, joints and weights when skinned, then one index
/// accessor per triangle group at its offset in the index view.
pub open spec fn geometry_accessors(mesh: MeshData, skin: bool, bounds: ([u32; 3], [u32; 3])) -> Seq<Accessor> {
    let vc = mesh.positions@.len() as int;
    let groups = mesh.tri_groups@;
    seq![
        Accessor { buffer_view: 0, byte_offset: None, component_type: FLOAT, count: vc as usize, kind: AccessorType::Vec3, bounds: Some(bounds) },
        acc(1, FLOAT, vc, AccessorType::Vec3),
        acc(2, FLOAT, vc, AccessorType::Vec2),
    ] + (if skin {
        seq![acc(3, UNSIGNED_SHORT, vc, AccessorType::Vec4), acc(4, FLOAT, vc, AccessorType::Vec4)]
    } else {
        Seq::empty()
    }) + Seq::new(groups.len(), |g: int| Accessor {
        buffer_view: index_slot(skin) as usize,
        byte_offset: Some((4 * all_indices(groups.take(g)).len()) as usize),
        component_type: UNSIGNED_INT,
        count: groups[g].indices@.len() as usize,
        kind: AccessorType::Scalar,
        bounds: None,
    })
}

proof fn lemma_all_indices_take(groups: Seq<TriGroup>, g: int)
    requires
        0 <= g < groups.len(),
    ensures
        all_indices(groups.take(g + 1)) == all_indices(groups.take(g)) + groups[g].indices@,
{
    assert(groups.take(g + 1).drop_last() =~= groups.take(g));
}

proof fn lemma_all_indices_mono(groups: Seq<TriGroup>, g: int, h: int)
    requires
        0 <= g <= h <= groups.len(),
    ensures
        all_indices(groups.take(g)).len() <= all_indices(groups.take(h)).len(),
    decreases h - g,
{
    if g < h {
        lemma_all_indices_mono(groups, g, h - 1);
        lemma_all_indices_take(groups, h - 1);
    }
}

/// The indices of the first `h` groups are a prefix of all indices.
proof fn lemma_all_indices_prefix(groups: Seq<TriGroup>, h: int)
    requires
        0 <= h <= groups.len(),
    ensures
        all_indices(groups.take(h)).len() <= all_indices(groups).len(),
        forall|j: int| 0 <= j < all_indices(groups.take(h)).len() ==> #[trigger] all_indices(groups.take(h))[j] == all_indices(groups)[j],
    decreases groups.len() - h,
{
    if h == groups.len() {
        assert(groups.take(h) =~= groups);
    } else {
        lemma_all_indices_prefix(groups, h + 1);
        lemma_all_indices_take(groups, h);
        assert forall|j: int| 0 <= j < all_indices(groups.take(h)).len() implies #[trigger] all_indices(groups.take(h))[j] == all_indices(groups)[j] by {
            assert(all_indices(groups.take(h + 1))[j] == all_indices(groups.take(h))[j]);
        }
    }
}

/// Accessor `k` reads the `u32` values `vals` from `bytes`: it is a
/// `u32` accessor over one of the views, with one element per value, and
/// value `i` is stored little-endian at the view's offset plus the
/// accessor's byte offset plus `4i`.
pub open spec fn reads_u32s(bytes: Seq<u8>, bvs: Seq<BufferView>, accs: Seq<Accessor>, k: int, vals: Seq<u32>) -> bool {
    &&& 0 <= k < accs.len()
    &&& (accs[k].buffer_view as int) < bvs.len()
    &&& accs[k].component_type == UNSIGNED_INT
    &&& accs[k].count == vals.len()
    &&& accs[k].byte_offset is Some
    &&& ({
        let start = bvs[accs[k].buffer_view as int].byte_offset + accs[k].byte_offset.unwrap();
        &&& start + 4 * vals.len() <= bytes.len()
        &&& forall|i: int| 0 <= i < vals.len() ==> bytes.subrange(start + 4 * i, start + 4 * i + 4) == le_u32(#[trigger] vals[i])
    })
}

/// Each triangle group's index accessor reads exactly that group's
/// indices from the geometry data.
pub proof fn lemma_index_accessors(mesh: MeshData, skin: bool, bounds: ([u32; 3], [u32; 3]))
    requires
        geometry_bytes(mesh, skin).len() <= usize::MAX,
    ensures
        forall|g: int| #![trigger mesh.tri_groups@[g]] 0 <= g < mesh.tri_groups@.len() ==> reads_u32s(
            geometry_bytes(mesh, skin),
            geometry_views(mesh, skin),
            geometry_accessors(mesh, skin, bounds),
            index_slot(skin) + g,
            mesh.tri_groups@[g].indices@,
        ),
{
    let groups = mesh.tri_groups@;
    let all = all_indices(groups);
    let gb = geometry_bytes(mesh, skin);
    let gv = geometry_views(mesh, skin);
    let ga = geometry_accessors(mesh, skin, bounds);
    let head = vec3_neg_z_bytes(mesh.positions@) + vec3_neg_z_bytes(mesh.normals@) + vec2_bytes(mesh.uvs@)
        + (if skin { joints_bytes(mesh.skin@) + weights_bytes(mesh.skin@) } else { Seq::empty() });
    lemma_vec3_len(mesh.positions@);
    lemma_vec3_len(mesh.normals@);
    lemma_vec2_len(mesh.uvs@);
    lemma_joints_len(mesh.skin@);
    lemma_weights_len(mesh.skin@);
    lemma_u32s_bytes_layout(all);
    assert(gb == head + u32s_bytes(all));
    assert(off_indices(mesh, skin) == head.len());
    assert forall|g: int| #![trigger mesh.tri_groups@[g]] 0 <= g < groups.len() implies reads_u32s(gb, gv, ga, index_slot(skin) + g, groups[g].indices@) by {
        let a = ga[index_slot(skin) + g];
        let l = all_indices(groups.take(g)).len() as int;
        lemma_all_indices_take(groups, g);
        lemma_all_indices_prefix(groups, g + 1);
        assert(a.byte_offset == Some((4 * l) as usize));
        assert(gv[index_slot(skin)].byte_offset == off_indices(mesh, skin) as usize);
        assert forall|i: int| 0 <= i < groups[g].indices@.len() implies gb.subrange(
            head.len() + 4 * l + 4 * i,
            head.len() + 4 * l + 4 * i + 4,
        ) == le_u32(#[trigger] groups[g].indices@[i]) by {
            assert(all_indices(groups.take(g + 1))[l + i] == groups[g].indices@[i]);
            assert(all[l + i] == groups[g].indices@[i]);
            assert(gb.subrange(head.len() + 4 * (l + i), head.len() + 4 * (l + i) + 4)
                =~= u32s_bytes(all).subrange(4 * (l + i), 4 * (l + i) + 4));
        }
    }
}

/// Write the geometry; returns the aligned buffer, its views and accessors.
pub fn emit_geometry(mesh: &MeshData, skin: bool, bounds: ([u32; 3], [u32; 3])) -> (r: (Vec<u8>, Vec<BufferView>, Vec<Accessor>))
    requires
        16 * mesh.positions@.len() <= usize::MAX,
    ensures
        r.0@ == padded(geometry_bytes(*mesh, skin), 0),
        r.1@ == geometry_views(*mesh, skin),
        r.2@ == geometry_accessors(*mesh, skin, bounds),
{
    proof {
        lemma_vec3_len(mesh.positions@);
        lemma_vec3_len(mesh.normals@);
        lemma_vec2_len(mesh.uvs@);
        lemma_joints_len(mesh.skin@);
        lemma_weights_len(mesh.skin@);
        lemma_u32s_len(all_indices(mesh.tri_groups@));
    }
    let mut bin: Vec<u8> = Vec::new();
    let vc = mesh.positions.len();
    let pos_off = push_positions(&mut bin, mesh.positions.as_slice());
    let norm_off = push_normals(&mut bin, mesh.normals.as_slice());
    let uv_off = push_uvs(&mut bin, mesh.uvs.as_slice());
    let mut joints_off: usize = 0;
    let mut weights_off: usize = 0;
    if skin {
        joints_off = push_joints(&mut bin, mesh.skin.as_slice());
        weights_off = push_weights(&mut bin, mesh.skin.as_slice());
    }
    let idx_off = push_indices(&mut bin, mesh.tri_groups.as_slice());
    let idx_len = bin.len() - idx_off;
    assert(bin@ =~= geometry_bytes(*mesh, skin));
    pad_to_4_in_place(&mut bin);

    let mut bvs: Vec<BufferView> = Vec::new();
    bvs.push(make_bv(pos_off, 12 * vc, 12, ARRAY_BUFFER));
    bvs.push(make_bv(norm_off, 12 * vc, 12, ARRAY_BUFFER));
    bvs.push(make_bv(uv_off, 8 * vc, 8, ARRAY_BUFFER));
    if skin {
        bvs.push(make_bv(joints_off, 8 * vc, 0, ARRAY_BUFFER));
        bvs.push(make_bv(weights_off, 16 * vc, 0, ARRAY_BUFFER));
    }
    let idx_bv = bvs.len();
    bvs.push(make_bv(idx_off, idx_len, 0, ELEMENT_ARRAY_BUFFER));
    assert(bvs@ =~= geometry_views(*mesh, skin));

    let mut accs: Vec<Accessor> = Vec::new();
    accs.push(Accessor { buffer_view: 0, byte_offset: None, component_type: FLOAT, count: vc, kind: AccessorType::Vec3, bounds: Some(bounds) });
    accs.push(Accessor { buffer_view: 1, byte_offset: None, component_type: FLOAT, count: vc, kind: AccessorType::Vec3, bounds: None });
    accs.push(Accessor { buffer_view: 2, byte_offset: None, component_type: FLOAT, count: vc, kind: AccessorType::Vec2, bounds: None });
    if skin {
        accs.push(Accessor { buffer_view: 3, byte_offset: None, component_type: UNSIGNED_SHORT, count: vc, kind: AccessorType::Vec4, bounds: None });
        accs.push(Accessor { buffer_view: 4, byte_offset: None, component_type: FLOAT, count: vc, kind: AccessorType::Vec4, bounds: None });
    }
    let ghost head = accs@;
    let ghost vci = vc as int;
    assert(head =~= seq![
        Accessor { buffer_view: 0, byte_offset: None, component_type: FLOAT, count: vci as usize, kind: AccessorType::Vec3, bounds: Some(bounds) },
        acc(1, FLOAT, vci, AccessorType::Vec3),
        acc(2, FLOAT, vci, AccessorType::Vec2),
    ] + (if skin {
        seq![acc(3, UNSIGNED_SHORT, vci, AccessorType::Vec4), acc(4, FLOAT, vci, AccessorType::Vec4)]
    } else {
        Seq::empty()
    }));
    let groups = &mesh.tri_groups;
    let mut byte_start: usize = 0;
    let mut g: usize = 0;
    while g < groups.len()
        invariant
            g <= groups@.len(),
            idx_bv == index_slot(skin),
            idx_len == 4 * all_indices(groups@).len(),
            byte_start == 4 * all_indices(groups@.take(g as int)).len(),
            accs@.len() == head.len() + g,
            forall|k: int| 0 <= k < head.len() ==> accs@[k] == head[k],
            forall|k: int| 0 <= k < g ==> #[trigger] accs@[head.len() + k] == (Accessor {
                buffer_view: index_slot(skin) as usize,
                byte_offset: Some((4 * all_indices(groups@.take(k)).len()) as usize),
                component_type: UNSIGNED_INT,
                count: groups@[k].indices@.len() as usize,
                kind: AccessorType::Scalar,
                bounds: None,
            }),
        decreases groups@.len() - g,
    {
        proof {
            lemma_all_indices_take(groups@, g as int);
            lemma_all_indices_mono(groups@, g as int + 1, groups@.len() as int);
            assert(groups@.take(groups@.len() as int) =~= groups@);
        }
        let n = groups[g].indices.len();
        accs.push(Accessor { buffer_view: idx_bv, byte_offset: Some(byte_start), component_type: UNSIGNED_INT, count: n, kind: AccessorType::Scalar, bounds: None });
        byte_start = byte_start + 4 * n;
        g = g + 1;
    }
    proof {
        let tail = Seq::new(groups@.len(), |k: int| Accessor {
            buffer_view: index_slot(skin) as usize,
            byte_offset: Some((4 * all_indices(groups@.take(k)).len()) as usize),
            component_type: UNSIGNED_INT,
            count: groups@[k].indices@.len() as usize,
            kind: AccessorType::Scalar,
            bounds: None,
        });
        assert forall|k: int| 0 <= k < accs@.len() implies accs@[k] == (head + tail)[k] by {
            if k >= head.len() {
                let kk = k - head.len();
                assert(accs@[head.len() + kk] == tail[kk]);
            }
        }
        assert(accs@ =~= head + tail);
    }
    assert(accs@ =~= geometry_accessors(*mesh, skin, bounds));
    (bin, bvs, accs)
}

/// Material `m` is the one of brush id `b`: its rank in the brush map when
/// `b` names one of the `n_brushes` brushes, and the fallback material 0
/// otherwise (the "no brush" id `0xFFFFFFFF`, or a missing brush).
pub open spec fn material_of(brush_map: Map<u32, usize>, n_brushes: int, b: u32, m: usize) -> bool {
    if slot_ok(b, n_brushes) && brush_map.contains_key(b) {
        m == brush_map[b]
    } else {
        m == 0
    }
}

/// The primitives: one per triangle group, with its index accessor, the
/// material of its brush, and the skin attributes when skinned.
pub open spec fn primitives_match(mesh: MeshData, skin: bool, brush_map: Map<u32, usize>, n_brushes: int, prims: Seq<Primitive>) -> bool {
    let groups = mesh.tri_groups@;
    &&& prims.len() == groups.len()
    &&& forall|g: int| 0 <= g < groups.len() ==> {
        &&& (#[trigger] prims[g]).indices == (index_slot(skin) + g) as usize
        &&& material_of(brush_map, n_brushes, groups[g].brush_id, prims[g].material)
        &&& prims[g].skin_attributes == if skin { Some((3usize, 4usize)) } else { None }
    }
}

/// Build the mesh primitives.
pub fn build_primitives(mesh: &MeshData, skin: bool, brush_map: &HashMap<u32, usize>, n_brushes: usize) -> (r: Vec<Primitive>)
    requires
        mesh.tri_groups@.len() + 5 <= usize::MAX,
    ensures
        primitives_match(*mesh, skin, brush_map@, n_brushes as int, r@),
{
    let groups = &mesh.tri_groups;
    let base: usize = if skin { 5 } else { 3 };
    let mut prims: Vec<Primitive> = Vec::new();
    let mut g: usize = 0;
    while g < groups.len()
        invariant
            g <= groups@.len(),
            base == index_slot(skin),
            groups@.len() + 5 <= usize::MAX,
            prims@.len() == g,
            forall|k: int| 0 <= k < g ==> {
                &&& (#[trigger] prims@[k]).indices == (index_slot(skin) + k) as usize
                &&& material_of(brush_map@, n_brushes as int, groups@[k].brush_id, prims@[k].material)
                &&& prims@[k].skin_attributes == if skin { Some((3usize, 4usize)) } else { None }
            },
        decreases groups@.len() - g,
    {
        let b = groups[g].brush_id;
        let mat = if b != u32::MAX && (b as usize) < n_brushes {
            match brush_map.get(&b) {
                Some(m) => *m,
                None => 0,
            }
        } else {
            0
        };
        prims.push(Primitive {
            indices: base + g,
            material: mat,
            skin_attributes: if skin { Some((3, 4)) } else { None },
        });
        g = g + 1;
    }
    prims
}

// ---------------------------------------------------------------------------
// Skin
// ---------------------------------------------------------------------------

/// `0, 1, ..., n - 1`
pub open spec fn range_seq(n: nat) -> Seq<usize> {
    Seq::new(n, |i: int| i as usize)
}

/// A 4x4 matrix given row by row (`m[row][col]`), laid out column by column
/// as glTF stores matrices: entry `4 * col + row` is `m[row][col]`.
pub fn column_major(m: [[u32; 4]; 4]) -> (r: [u32; 16])
    ensures
        forall|c: int, w: int| 0 <= c < 4 && 0 <= w < 4 ==> #[trigger] r[4 * c + w] == m[w][c],
{
    let r = [
        m[0][0], m[1][0], m[2][0], m[3][0],
        m[0][1], m[1][1], m[2][1], m[3][1],
        m[0][2], m[1][2], m[2][2], m[3][2],
        m[0][3], m[1][3], m[2][3], m[3][3],
    ];
    assert forall|c: int, w: int| 0 <= c < 4 && 0 <= w < 4 implies #[trigger] r[4 * c + w] == m[w][c] by {
        assert(c == 0 || c == 1 || c == 2 || c == 3);
        assert(w == 0 || w == 1 || w == 2 || w == 3);
    }
    r
}

/// Append the inverse bind matrices (one per joint, in the order given,
/// each 16 values laid out column by column by `column_major`), their
/// buffer view and accessor; returns the skin over all joints.
pub fn emit_skin(bin: &mut Vec<u8>, bvs: &mut Vec<BufferView>, accs: &mut Vec<Accessor>, ibms: &Vec<[u32; 16]>) -> (r: Skin)
    ensures
        final(bin)@ == padded(old(bin)@ + mats_bytes(ibms@), 0),
        final(bvs)@ == old(bvs)@.push(bv(old(bin)@.len() as int, 64 * ibms@.len() as int, 0, ARRAY_BUFFER)),
        final(accs)@ == old(accs)@.push(acc(old(bvs)@.len() as int, FLOAT, ibms@.len() as int, AccessorType::Mat4)),
        r.inverse_bind_matrices == old(accs)@.len(),
        r.joints@ == range_seq(ibms@.len()),
{
    proof {
        lemma_mats_len(ibms@);
    }
    let off = bin.len();
    push_mats(bin, ibms);
    let len = bin.len() - off;
    pad_to_4_in_place(bin);
    let bv_idx = bvs.len();
    bvs.push(make_bv(off, len, 0, ARRAY_BUFFER));
    let acc_idx = accs.len();
    accs.push(Accessor { buffer_view: bv_idx, byte_offset: None, component_type: FLOAT, count: ibms.len(), kind: AccessorType::Mat4, bounds: None });
    let mut joints: Vec<usize> = Vec::new();
    let mut i: usize = 0;
    while i < ibms.len()
        invariant
            i <= ibms@.len(),
            joints@ == range_seq(i as nat),
        decreases ibms@.len() - i,
    {
        joints.push(i);
        i = i + 1;
        assert(joints@ =~= range_seq(i as nat));
    }
    Skin { inverse_bind_matrices: acc_idx, joints }
}

// ---------------------------------------------------------------------------
// Animations
// ---------------------------------------------------------------------------

/// The keys of a joint within a clip's frame range, in order, each with its
/// time value (`times` runs parallel to `keys`).
pub open spec fn clip_keys(keys: Seq<Key>, times: Seq<u32>, first: u32, last: u32) -> Seq<(Key, u32)>
    decreases keys.len(),
{
    if keys.len() == 0 {
        Seq::empty()
    } else {
        let k = keys.len() - 1;
        clip_keys(keys.drop_last(), times.drop_last(), first, last) + if first <= keys[k].frame <= last {
            seq![(keys[k], times[k])]
        } else {
            Seq::empty()
        }
    }
}

/// Buffer, buffer views, accessors, and the samplers and channels of the
/// clip being built.
pub type AnimState = (Seq<u8>, Seq<BufferView>, Seq<Accessor>, Seq<Sampler>, Seq<Channel>);

/// One value channel of a track: its data, buffer view (`elem` bytes per key),
/// accessor, sampler (keyed by the times accessor `times_acc`) and channel.
pub open spec fn value_step(
    st: AnimState,
    times_acc: int,
    bytes: Seq<u8>,
    elem: int,
    kc: int,
    kind: AccessorType,
    node: int,
    path: TargetPath,
) -> AnimState {
    (
        st.0 + bytes,
        st.1.push(bv(st.0.len() as int, elem * kc, elem, ARRAY_BUFFER)),
        st.2.push(acc(st.1.len() as int, FLOAT, kc, kind)),
        st.3.push(Sampler { input: times_acc as usize, output: st.2.len() as usize }),
        st.4.push(Channel { sampler: st.3.len() as usize, node: node as usize, path }),
    )
}

/// The key times of a track: their data, buffer view and accessor.
pub open spec fn times_step(st: AnimState, ps: Seq<(Key, u32)>) -> AnimState {
    let kc = ps.len() as int;
    (
        st.0 + u32s_bytes(ps.map_values(|p: (Key, u32)| p.1)),
        st.1.push(bv(st.0.len() as int, 4 * kc, 0, ARRAY_BUFFER)),
        st.2.push(acc(st.1.len() as int, FLOAT, kc, AccessorType::Scalar)),
        st.3,
        st.4,
    )
}

/// Whether the key flags name value channel `c` of a track (0: translations,
/// 1: scales, 2: rotations).
pub open spec fn channel_on(flags: u32, c: int) -> bool {
    if c == 0 {
        flags & 1 != 0
    } else if c == 1 {
        flags & 2 != 0
    } else {
        flags & 4 != 0
    }
}

/// The data of value channel `c`: translations with z negated, scales, or
/// rotations.
pub open spec fn channel_bytes(ps: Seq<(Key, u32)>, c: int) -> Seq<u8> {
    if c == 0 {
        vec3_neg_z_bytes(ps.map_values(|p: (Key, u32)| p.0.position))
    } else if c == 1 {
        vec3_bytes(ps.map_values(|p: (Key, u32)| p.0.scale))
    } else {
        quat_bytes(ps.map_values(|p: (Key, u32)| p.0.rotation))
    }
}

/// Bytes per key of value channel `c`.
pub open spec fn channel_elem(c: int) -> int {
    if c == 2 { 16 } else { 12 }
}

/// Accessor type of value channel `c`.
pub open spec fn channel_kind(c: int) -> AccessorType {
    if c == 2 { AccessorType::Vec4 } else { AccessorType::Vec3 }
}

/// Target of value channel `c`.
pub open spec fn channel_path(c: int) -> TargetPath {
    if c == 0 {
        TargetPath::Translation
    } else if c == 1 {
        TargetPath::Scale
    } else {
        TargetPath::Rotation
    }
}

/// A track of joint `node` after its key times and its first `c` value
/// channels (those that the key flags name).
pub open spec fn track_stage(st: AnimState, node: int, ps: Seq<(Key, u32)>, flags: u32, c: nat) -> AnimState
    decreases c,
{
    if c == 0 {
        times_step(st, ps)
    } else {
        let s = track_stage(st, node, ps, flags, (c - 1) as nat);
        let k = c - 1;
        if channel_on(flags, k) {
            value_step(s, st.2.len() as int, channel_bytes(ps, k), channel_elem(k), ps.len() as int, channel_kind(k), node, channel_path(k))
        } else {
            s
        }
    }
}

/// The track of joint `node` in a clip: nothing when no key falls in the
/// clip; otherwise the key times, then the translations, scales and
/// rotations that the joint's key flags name.
pub open spec fn track_step(st: AnimState, node: int, ps: Seq<(Key, u32)>, flags: u32) -> AnimState {
    if ps.len() == 0 {
        st
    } else {
        track_stage(st, node, ps, flags, 3)
    }
}

/// The tracks of the joints of a clip, joint after joint (`times[j]` runs
/// parallel to the keys of joint `j`).
pub open spec fn clip_tracks(st: AnimState, joints: Seq<JointInfo>, times: Seq<Vec<u32>>, clip: AnimClip) -> AnimState
    decreases joints.len(),
{
    if joints.len() == 0 {
        st
    } else {
        let j = joints.len() - 1;
        track_step(
            clip_tracks(st, joints.drop_last(), times.drop_last(), clip),
            j,
            clip_keys(joints[j].keys@, times[j]@, clip.first_frame, clip.last_frame),
            joints[j].key_flags,
        )
    }
}

/// An animation as plain values: name, channels, samplers.
pub type AnimValue = (Seq<char>, Seq<Channel>, Seq<Sampler>);

/// Buffer, buffer views, accessors and the animations built so far.
pub type AnimsState = (Seq<u8>, Seq<BufferView>, Seq<Accessor>, Seq<AnimValue>);

/// The animations of the clips, clip after clip: each clip's tracks, the
/// buffer padded after each clip, and an animation for each clip that has at
/// least one channel. `times[c][j]` holds the time of each key of joint `j`
/// in clip `c`.
pub open spec fn anims_fold(st: AnimsState, clips: Seq<AnimClip>, joints: Seq<JointInfo>, times: Seq<Vec<Vec<u32>>>) -> AnimsState
    decreases clips.len(),
{
    if clips.len() == 0 {
        st
    } else {
        let c = clips.len() - 1;
        let prev = anims_fold(st, clips.drop_last(), joints, times.drop_last());
        let t = clip_tracks((prev.0, prev.1, prev.2, Seq::empty(), Seq::empty()), joints, times[c]@, clips[c]);
        (
            padded(t.0, 0),
            t.1,
            t.2,
            if t.4.len() > 0 { prev.3.push((clips[c].name@, t.4, t.3)) } else { prev.3 },
        )
    }
}

/// The animation as plain values.
pub open spec fn anim_value(a: GltfAnimation) -> AnimValue {
    (a.name@, a.channels@, a.samplers@)
}

/// `times` gives one time per key of each joint for each clip.
pub open spec fn times_fit(times: Seq<Vec<Vec<u32>>>, nclips: int, joints: Seq<JointInfo>) -> bool {
    &&& times.len() == nclips
    &&& forall|c: int| 0 <= c < nclips ==> {
        &&& (#[trigger] times[c])@.len() == joints.len()
        &&& forall|j: int| 0 <= j < joints.len() ==> (#[trigger] times[c]@[j])@.len() == joints[j].keys@.len()
    }
}

proof fn lemma_clip_keys_take(keys: Seq<Key>, times: Seq<u32>, first: u32, last: u32, i: int)
    requires
        0 <= i < keys.len(),
        keys.len() == times.len(),
    ensures
        clip_keys(keys.take(i + 1), times.take(i + 1), first, last) == clip_keys(keys.take(i), times.take(i), first, last)
            + if first <= keys[i].frame <= last { seq![(keys[i], times[i])] } else { Seq::<(Key, u32)>::empty() },
{
    assert(keys.take(i + 1).drop_last() =~= keys.take(i));
    assert(times.take(i + 1).drop_last() =~= times.take(i));
}

/// The keys of a track within the clip, with their times.
fn select_keys(keys: &Vec<Key>, times: &Vec<u32>, first: u32, last: u32) -> (r: (Vec<u32>, Vec<[u32; 3]>, Vec<[u32; 3]>, Vec<[u32; 4]>))
    requires
        keys@.len() == times@.len(),
    ensures
        ({
            let ps = clip_keys(keys@, times@, first, last);
            &&& r.0@ == ps.map_values(|p: (Key, u32)| p.1)
            &&& r.1@ == ps.map_values(|p: (Key, u32)| p.0.position)
            &&& r.2@ == ps.map_values(|p: (Key, u32)| p.0.scale)
            &&& r.3@ == ps.map_values(|p: (Key, u32)| p.0.rotation)
        }),
{
    let mut ts: Vec<u32> = Vec::new();
    let mut pos: Vec<[u32; 3]> = Vec::new();
    let mut scl: Vec<[u32; 3]> = Vec::new();
    let mut rot: Vec<[u32; 4]> = Vec::new();
    let mut i: usize = 0;
    while i < keys.len()
        invariant
            i <= keys@.len(),
            keys@.len() == times@.len(),
            ts@ == clip_keys(keys@.take(i as int), times@.take(i as int), first, last).map_values(|p: (Key, u32)| p.1),
            pos@ == clip_keys(keys@.take(i as int), times@.take(i as int), first, last).map_values(|p: (Key, u32)| p.0.position),
            scl@ == clip_keys(keys@.take(i as int), times@.take(i as int), first, last).map_values(|p: (Key, u32)| p.0.scale),
            rot@ == clip_keys(keys@.take(i as int), times@.take(i as int), first, last).map_values(|p: (Key, u32)| p.0.rotation),
        decreases keys@.len() - i,
    {
        proof {
            lemma_clip_keys_take(keys@, times@, first, last, i as int);
        }
        let k = keys[i];
        if k.frame >= first && k.frame <= last {
            ts.push(times[i]);
            pos.push(k.position);
            scl.push(k.scale);
            rot.push(k.rotation);
        }
        i = i + 1;
        let ghost ps = clip_keys(keys@.take(i as int), times@.take(i as int), first, last);
        assert(ts@ =~= ps.map_values(|p: (Key, u32)| p.1));
        assert(pos@ =~= ps.map_values(|p: (Key, u32)| p.0.position));
        assert(scl@ =~= ps.map_values(|p: (Key, u32)| p.0.scale));
        assert(rot@ =~= ps.map_values(|p: (Key, u32)| p.0.rotation));
    }
    assert(keys@.take(i as int) =~= keys@);
    assert(times@.take(i as int) =~= times@);
    (ts, pos, scl, rot)
}

/// Write one track of a clip.
fn emit_track(
    bin: &mut Vec<u8>,
    bvs: &mut Vec<BufferView>,
    accs: &mut Vec<Accessor>,
    samplers: &mut Vec<Sampler>,
    channels: &mut Vec<Channel>,
    node: usize,
    joint: &JointInfo,
    times: &Vec<u32>,
    clip: &AnimClip,
)
    requires
        joint.keys@.len() == times@.len(),
    ensures
        (final(bin)@, final(bvs)@, final(accs)@, final(samplers)@, final(channels)@) == track_step(
            (old(bin)@, old(bvs)@, old(accs)@, old(samplers)@, old(channels)@),
            node as int,
            clip_keys(joint.keys@, times@, clip.first_frame, clip.last_frame),
            joint.key_flags,
        ),
{
    let ghost ps = clip_keys(joint.keys@, times@, clip.first_frame, clip.last_frame);
    let ghost st0 = (bin@, bvs@, accs@, samplers@, channels@);
    let (ts, pos, scl, rot) = select_keys(&joint.keys, times, clip.first_frame, clip.last_frame);
    let kc = ts.len();
    if kc == 0 {
        return;
    }
    proof {
        lemma_u32s_len(ts@);
        lemma_vec3_len(pos@);
        lemma_vec3_plain_len(scl@);
        lemma_quat_len(rot@);
    }
    let flags = joint.key_flags;
    let times_off = bin.len();
    push_u32s(bin, ts.as_slice());
    let times_bv = bvs.len();
    bvs.push(make_bv(times_off, bin.len() - times_off, 0, ARRAY_BUFFER));
    let times_acc = accs.len();
    accs.push(Accessor { buffer_view: times_bv, byte_offset: None, component_type: FLOAT, count: kc, kind: AccessorType::Scalar, bounds: None });
    assert((bin@, bvs@, accs@, samplers@, channels@) == track_stage(st0, node as int, ps, flags, 0));

    if flags & 1 != 0 {
        let off = bin.len();
        push_positions(bin, pos.as_slice());
        let bv_idx = bvs.len();
        bvs.push(make_bv(off, bin.len() - off, 12, ARRAY_BUFFER));
        let val_acc = accs.len();
        accs.push(Accessor { buffer_view: bv_idx, byte_offset: None, component_type: FLOAT, count: kc, kind: AccessorType::Vec3, bounds: None });
        let si = samplers.len();
        samplers.push(Sampler { input: times_acc, output: val_acc });
        channels.push(Channel { sampler: si, node, path: TargetPath::Translation });
    }
    assert((bin@, bvs@, accs@, samplers@, channels@) == track_stage(st0, node as int, ps, flags, 1));
    if flags & 2 != 0 {
        let off = bin.len();
        push_vec3(bin, &scl);
        let bv_idx = bvs.len();
        bvs.push(make_bv(off, bin.len() - off, 12, ARRAY_BUFFER));
        let val_acc = accs.len();
        accs.push(Accessor { buffer_view: bv_idx, byte_offset: None, component_type: FLOAT, count: kc, kind: AccessorType::Vec3, bounds: None });
        let si = samplers.len();
        samplers.push(Sampler { input: times_acc, output: val_acc });
        channels.push(Channel { sampler: si, node, path: TargetPath::Scale });
    }
    assert((bin@, bvs@, accs@, samplers@, channels@) == track_stage(st0, node as int, ps, flags, 2));
    if flags & 4 != 0 {
        let off = bin.len();
        push_quats(bin, &rot);
        let bv_idx = bvs.len();
        bvs.push(make_bv(off, bin.len() - off, 16, ARRAY_BUFFER));
        let val_acc = accs.len();
        accs.push(Accessor { buffer_view: bv_idx, byte_offset: None, component_type: FLOAT, count: kc, kind: AccessorType::Vec4, bounds: None });
        let si = samplers.len();
        samplers.push(Sampler { input: times_acc, output: val_acc });
        channels.push(Channel { sampler: si, node, path: TargetPath::Rotation });
    }
    assert((bin@, bvs@, accs@, samplers@, channels@) == track_stage(st0, node as int, ps, flags, 3));
}

proof fn lemma_clip_tracks_take(st: AnimState, joints: Seq<JointInfo>, times: Seq<Vec<u32>>, clip: AnimClip, j: int)
    requires
        0 <= j < joints.len(),
        joints.len() == times.len(),
    ensures
        clip_tracks(st, joints.take(j + 1), times.take(j + 1), clip) == track_step(
            clip_tracks(st, joints.take(j), times.take(j), clip),
            j,
            clip_keys(joints[j].keys@, times[j]@, clip.first_frame, clip.last_frame),
            joints[j].key_flags,
        ),
{
    assert(joints.take(j + 1).drop_last() =~= joints.take(j));
    assert(times.take(j + 1).drop_last() =~= times.take(j));
}

proof fn lemma_anims_fold_take(st: AnimsState, clips: Seq<AnimClip>, joints: Seq<JointInfo>, times: Seq<Vec<Vec<u32>>>, c: int)
    requires
        0 <= c < clips.len(),
        clips.len() == times.len(),
    ensures
        ({
            let prev = anims_fold(st, clips.take(c), joints, times.take(c));
            let t = clip_tracks((prev.0, prev.1, prev.2, Seq::empty(), Seq::empty()), joints, times[c]@, clips[c]);
            anims_fold(st, clips.take(c + 1), joints, times.take(c + 1)) == (
                padded(t.0, 0),
                t.1,
                t.2,
                if t.4.len() > 0 { prev.3.push((clips[c].name@, t.4, t.3)) } else { prev.3 },
            )
        }),
{
    assert(clips.take(c + 1).drop_last() =~= clips.take(c));
    assert(times.take(c + 1).drop_last() =~= times.take(c));
}

/// Write the tracks of one clip and pad the buffer; returns the clip's
/// animation when it has at least one channel.
fn emit_clip(
    bin: &mut Vec<u8>,
    bvs: &mut Vec<BufferView>,
    accs: &mut Vec<Accessor>,
    clip: &AnimClip,
    joints: &Vec<JointInfo>,
    clip_times: &Vec<Vec<u32>>,
) -> (r: Option<GltfAnimation>)
    requires
        clip_times@.len() == joints@.len(),
        forall|k: int| 0 <= k < joints@.len() ==> (#[trigger] clip_times@[k])@.len() == joints@[k].keys@.len(),
    ensures
        ({
            let t = clip_tracks((old(bin)@, old(bvs)@, old(accs)@, Seq::empty(), Seq::empty()), joints@, clip_times@, *clip);
            &&& final(bin)@ == padded(t.0, 0)
            &&& final(bvs)@ == t.1
            &&& final(accs)@ == t.2
            &&& if t.4.len() > 0 { r matches Some(a) && anim_value(a) == (clip.name@, t.4, t.3) } else { r is None }
        }),
{
    let ghost start: AnimState = (bin@, bvs@, accs@, Seq::empty(), Seq::empty());
    let mut samplers: Vec<Sampler> = Vec::new();
    let mut channels: Vec<Channel> = Vec::new();
    let mut j: usize = 0;
    while j < joints.len()
        invariant
            j <= joints@.len(),
            clip_times@.len() == joints@.len(),
            forall|k: int| 0 <= k < joints@.len() ==> (#[trigger] clip_times@[k])@.len() == joints@[k].keys@.len(),
            (bin@, bvs@, accs@, samplers@, channels@) == clip_tracks(start, joints@.take(j as int), clip_times@.take(j as int), *clip),
        decreases joints@.len() - j,
    {
        proof {
            lemma_clip_tracks_take(start, joints@, clip_times@, *clip, j as int);
        }
        emit_track(bin, bvs, accs, &mut samplers, &mut channels, j, &joints[j], &clip_times[j], clip);
        j = j + 1;
    }
    proof {
        assert(joints@.take(j as int) =~= joints@);
        assert(clip_times@.take(j as int) =~= clip_times@);
    }
    pad_to_4_in_place(bin);
    if channels.len() > 0 {
        Some(GltfAnimation { name: clip.name.clone(), channels, samplers })
    } else {
        None
    }
}

/// Write the animations of all clips.
pub fn emit_animations(
    bin: &mut Vec<u8>,
    bvs: &mut Vec<BufferView>,
    accs: &mut Vec<Accessor>,
    clips: &Vec<AnimClip>,
    joints: &Vec<JointInfo>,
    times: &Vec<Vec<Vec<u32>>>,
) -> (r: Vec<GltfAnimation>)
    requires
        times_fit(times@, clips@.len() as int, joints@),
    ensures
        ({
            let f = anims_fold((old(bin)@, old(bvs)@, old(accs)@, Seq::empty()), clips@, joints@, times@);
            &&& final(bin)@ == f.0
            &&& final(bvs)@ == f.1
            &&& final(accs)@ == f.2
            &&& r@.map_values(|a: GltfAnimation| anim_value(a)) == f.3
        }),
{
    let ghost st0: AnimsState = (old(bin)@, old(bvs)@, old(accs)@, Seq::empty());
    let mut anims: Vec<GltfAnimation> = Vec::new();
    let mut c: usize = 0;
    while c < clips.len()
        invariant
            c <= clips@.len(),
            times_fit(times@, clips@.len() as int, joints@),
            st0 == (old(bin)@, old(bvs)@, old(accs)@, Seq::<AnimValue>::empty()),
            ({
                let f = anims_fold(st0, clips@.take(c as int), joints@, times@.take(c as int));
                &&& bin@ == f.0
                &&& bvs@ == f.1
                &&& accs@ == f.2
                &&& anims@.map_values(|a: GltfAnimation| anim_value(a)) == f.3
            }),
        decreases clips@.len() - c,
    {
        proof {
            lemma_anims_fold_take(st0, clips@, joints@, times@, c as int);
        }
        let clip_anim = emit_clip(bin, bvs, accs, &clips[c], joints, &times[c]);
        match clip_anim {
            Some(a) => {
                let ghost before = anims@;
                anims.push(a);
                assert(anims@.map_values(|x: GltfAnimation| anim_value(x)) =~= before.map_values(|x: GltfAnimation| anim_value(x)).push(anim_value(anims@.last())));
            },
            None => {},
        }
        c = c + 1;
    }
    proof {
        assert(clips@.take(c as int) =~= clips@);
        assert(times@.take(c as int) =~= times@);
    }
    anims
}

// ---------------------------------------------------------------------------
// Images
// ---------------------------------------------------------------------------

/// Buffer and buffer views after the embedded images: the buffer aligned,
/// then each image's data padded to 4 bytes, each with a buffer view of its
/// exact length (no stride, no target).
pub open spec fn images_fold(bin: Seq<u8>, bvs: Seq<BufferView>, images: Seq<Seq<u8>>) -> (Seq<u8>, Seq<BufferView>)
    decreases images.len(),
{
    if images.len() == 0 {
        (padded(bin, 0), bvs)
    } else {
        let prev = images_fold(bin, bvs, images.drop_last());
        let data = images.last();
        (
            padded(prev.0 + data, 0),
            prev.1.push(BufferView { byte_offset: prev.0.len() as usize, byte_length: data.len() as usize, byte_stride: None, target: None }),
        )
    }
}

/// Embed the images; returns the buffer view of each.
pub fn emit_images(bin: &mut Vec<u8>, bvs: &mut Vec<BufferView>, images: &Vec<Vec<u8>>) -> (r: Vec<usize>)
    ensures
        (final(bin)@, final(bvs)@) == images_fold(old(bin)@, old(bvs)@, images@.map_values(|d: Vec<u8>| d@)),
        r@ == Seq::new(images@.len(), |i: int| (old(bvs)@.len() + i) as usize),
{
    pad_to_4_in_place(bin);
    let ghost imgs = images@.map_values(|d: Vec<u8>| d@);
    let mut r: Vec<usize> = Vec::new();
    let mut i: usize = 0;
    while i < images.len()
        invariant
            i <= images@.len(),
            imgs == images@.map_values(|d: Vec<u8>| d@),
            (bin@, bvs@) == images_fold(old(bin)@, old(bvs)@, imgs.take(i as int)),
            bvs@.len() == old(bvs)@.len() + i,
            r@ == Seq::new(i as nat, |k: int| (old(bvs)@.len() + k) as usize),
        decreases images@.len() - i,
    {
        proof {
            assert(imgs.take(i as int + 1).drop_last() =~= imgs.take(i as int));
        }
        let data = &images[i];
        let off = bin.len();
        let bv_idx = bvs.len();
        bvs.push(BufferView { byte_offset: off, byte_length: data.len(), byte_stride: None, target: None });
        push_bytes(bin, data.as_slice());
        pad_to_4_in_place(bin);
        r.push(bv_idx);
        i = i + 1;
        assert(r@ =~= Seq::new(i as nat, |k: int| (old(bvs)@.len() + k) as usize));
    }
    assert(imgs.take(i as int) =~= imgs);
    r
}

// ---------------------------------------------------------------------------
// The whole document
// ---------------------------------------------------------------------------

/// Buffer, buffer views and accessors after the geometry and, when skinned,
/// the inverse bind matrices.
pub open spec fn geometry_and_skin(mesh: MeshData, skin: bool, bounds: ([u32; 3], [u32; 3]), ibms: Seq<[u32; 16]>) -> (Seq<u8>, Seq<BufferView>, Seq<Accessor>) {
    let b1 = padded(geometry_bytes(mesh, skin), 0);
    let v1 = geometry_views(mesh, skin);
    let a1 = geometry_accessors(mesh, skin, bounds);
    if skin {
        (
            padded(b1 + mats_bytes(ibms), 0),
            v1.push(bv(b1.len() as int, 64 * ibms.len() as int, 0, ARRAY_BUFFER)),
            a1.push(acc(v1.len() as int, FLOAT, ibms.len() as int, AccessorType::Mat4)),
        )
    } else {
        (b1, v1, a1)
    }
}

/// `doc` and `bin` are the glTF document and binary buffer of the mesh, the
/// joints (with their inverse bind matrices `ibms`), the clips (with the key
/// times `times`), the materials and their images; `brush_map` maps brush
/// ids to material ranks,
/// `n_brushes` the number of brushes and `bounds` the bounds of the
/// converted positions.
pub open spec fn gltf_matches(
    mesh: MeshData,
    joints: Seq<JointInfo>,
    clips: Seq<AnimClip>,
    brush_map: Map<u32, usize>,
    n_brushes: int,
    materials: Seq<Material>,
    images: Seq<Seq<u8>>,
    ibms: Seq<[u32; 16]>,
    bounds: ([u32; 3], [u32; 3]),
    times: Seq<Vec<Vec<u32>>>,
    doc: Document,
    bin: Seq<u8>,
) -> bool {
    let skin = has_skin_spec(mesh, joints);
    let g = geometry_and_skin(mesh, skin, bounds, ibms);
    let f = anims_fold((g.0, g.1, g.2, Seq::empty()), clips, joints, times);
    let im = images_fold(f.0, f.1, images);
    &&& bin == im.0
    &&& doc.buffer_length == bin.len()
    &&& doc.buffer_views@ == im.1
    &&& doc.accessors@ == f.2
    &&& nodes_match(joints, skin, doc.nodes@, doc.scene_nodes@)
    &&& primitives_match(mesh, skin, brush_map, n_brushes, doc.primitives@)
    &&& match doc.skin {
        Some(s) => skin && s.inverse_bind_matrices == geometry_accessors(mesh, skin, bounds).len() && s.joints@ == range_seq(joints.len()),
        None => !skin,
    }
    &&& doc.materials@ == materials
    &&& doc.animations@.map_values(|a: GltfAnimation| anim_value(a)) == f.3
    &&& doc.images@ == Seq::new(images.len(), |i: int| (f.1.len() + i) as usize)
}

/// Whether some vertex is bound to a bone and there are joints.
pub fn has_skin(mesh: &MeshData, joints: &Vec<JointInfo>) -> (r: bool)
    ensures
        r == has_skin_spec(*mesh, joints@),
{
    if joints.len() == 0 {
        return false;
    }
    let mut i: usize = 0;
    while i < mesh.skin.len()
        invariant
            i <= mesh.skin@.len(),
            joints@.len() > 0,
            forall|k: int| 0 <= k < i ==> mesh.skin@[k] is None,
        decreases mesh.skin@.len() - i,
    {
        if mesh.skin[i].is_some() {
            assert(mesh.skin@[i as int] is Some);
            return true;
        }
        i = i + 1;
    }
    false
}

/// Build the glTF document and its binary buffer.
///
/// The floating-point data that the conversion computes is given: `ibms`
/// holds each joint's inverse bind matrix (column by column), `bounds` the
/// minimum and maximum of the converted positions, and `times[c][j][k]` the
/// time of key `k` of joint `j` in clip `c` (used for the keys in the clip).
pub fn build_gltf(
    mesh: &MeshData,
    joints: &Vec<JointInfo>,
    clips: &Vec<AnimClip>,
    brush_map: &HashMap<u32, usize>,
    n_brushes: usize,
    materials: Vec<Material>,
    images: &Vec<Vec<u8>>,
    ibms: &Vec<[u32; 16]>,
    bounds: ([u32; 3], [u32; 3]),
    times: &Vec<Vec<Vec<u32>>>,
) -> (r: (Document, Vec<u8>))
    requires
        16 * mesh.positions@.len() <= usize::MAX,
        mesh.tri_groups@.len() + 5 <= usize::MAX,
        ibms@.len() == joints@.len(),
        times_fit(times@, clips@.len() as int, joints@),
    ensures
        gltf_matches(*mesh, joints@, clips@, brush_map@, n_brushes as int, materials@, images@.map_values(|d: Vec<u8>| d@), ibms@, bounds, times@, r.0, r.1@),
{
    let skin = has_skin(mesh, joints);
    let (mut bin, mut bvs, mut accs) = emit_geometry(mesh, skin, bounds);
    let ghost geo_accs = accs@.len();
    let (nodes, scene_nodes) = build_node_hierarchy(joints, skin);
    let gltf_skin = if skin {
        Some(emit_skin(&mut bin, &mut bvs, &mut accs, ibms))
    } else {
        None
    };
    let primitives = build_primitives(mesh, skin, brush_map, n_brushes);
    let animations = emit_animations(&mut bin, &mut bvs, &mut accs, clips, joints, times);
    let ghost anim_bvs = bvs@.len();
    let image_bvs = emit_images(&mut bin, &mut bvs, images);
    let doc = Document {
        scene_nodes,
        nodes,
        primitives,
        accessors: accs,
        buffer_views: bvs,
        buffer_length: bin.len(),
        materials,
        skin: gltf_skin,
        animations,
        images: image_bvs,
    };
    (doc, bin)
}

// ---------------------------------------------------------------------------
// Laws of the document
// ---------------------------------------------------------------------------

/// Every accessor names an existing buffer view.
pub open spec fn accessors_ok(accs: Seq<Accessor>, n_views: int) -> bool {
    forall|k: int| 0 <= k < accs.len() ==> (#[trigger] accs[k]).buffer_view < n_views
}

/// Every sampler names existing accessors, and every channel an existing
/// sampler and node.
pub open spec fn anim_refs_ok(samplers: Seq<Sampler>, channels: Seq<Channel>, n_accs: int, n_nodes: int) -> bool {
    &&& forall|k: int| 0 <= k < samplers.len() ==> (#[trigger] samplers[k]).input < n_accs && samplers[k].output < n_accs
    &&& forall|k: int| 0 <= k < channels.len() ==> (#[trigger] channels[k]).sampler < samplers.len() && channels[k].node < n_nodes
}

pub open spec fn anim_state_ok(st: AnimState, n_nodes: int) -> bool {
    &&& st.3.len() == st.4.len()
    &&& accessors_ok(st.2, st.1.len() as int)
    &&& anim_refs_ok(st.3, st.4, st.2.len() as int, n_nodes)
}

proof fn lemma_value_step_ok(st: AnimState, times_acc: int, bytes: Seq<u8>, elem: int, kc: int, kind: AccessorType, node: int, path: TargetPath, n_nodes: int)
    requires
        anim_state_ok(st, n_nodes),
        0 <= times_acc < st.2.len(),
        0 <= node < n_nodes,
        st.1.len() < usize::MAX,
        st.2.len() < usize::MAX,
        st.3.len() < usize::MAX,
    ensures
        anim_state_ok(value_step(st, times_acc, bytes, elem, kc, kind, node, path), n_nodes),
        value_step(st, times_acc, bytes, elem, kc, kind, node, path).1.len() == st.1.len() + 1,
        value_step(st, times_acc, bytes, elem, kc, kind, node, path).2.len() == st.2.len() + 1,
        value_step(st, times_acc, bytes, elem, kc, kind, node, path).3.len() == st.3.len() + 1,
{
    let r = value_step(st, times_acc, bytes, elem, kc, kind, node, path);
    assert forall|k: int| 0 <= k < r.2.len() implies (#[trigger] r.2[k]).buffer_view < r.1.len() by {
        if k < st.2.len() {
            assert(r.2[k] == st.2[k]);
        }
    }
    assert forall|k: int| 0 <= k < r.3.len() implies (#[trigger] r.3[k]).input < r.2.len() && r.3[k].output < r.2.len() by {
        if k < st.3.len() {
            assert(r.3[k] == st.3[k]);
        }
    }
    assert forall|k: int| 0 <= k < r.4.len() implies (#[trigger] r.4[k]).sampler < r.3.len() && r.4[k].node < n_nodes by {
        if k < st.4.len() {
            assert(r.4[k] == st.4[k]);
        }
    }
}

/// Sizes of a state never shrink along the layout.
pub open spec fn grows(a: AnimState, b: AnimState) -> bool {
    &&& a.0.len() <= b.0.len()
    &&& a.1.len() <= b.1.len()
    &&& a.2.len() <= b.2.len()
    &&& a.3.len() <= b.3.len()
    &&& a.4.len() <= b.4.len()
}

/// The sizes after a state are within `usize`.
pub open spec fn fits(a: AnimState) -> bool {
    &&& a.1.len() <= usize::MAX
    &&& a.2.len() <= usize::MAX
    &&& a.3.len() <= usize::MAX
}

/// The stages of a non-empty track only add to the state: the key times
/// add an accessor, and each value channel adds one sampler with its channel.
proof fn lemma_track_stage(st: AnimState, node: int, ps: Seq<(Key, u32)>, flags: u32, c: nat)
    requires
        ps.len() > 0,
    ensures
        grows(st, track_stage(st, node, ps, flags, c)),
        st.2.len() < track_stage(st, node, ps, flags, c).2.len(),
        track_stage(st, node, ps, flags, c).3.len() - st.3.len() == track_stage(st, node, ps, flags, c).4.len() - st.4.len(),
        c > 0 ==> grows(track_stage(st, node, ps, flags, (c - 1) as nat), track_stage(st, node, ps, flags, c)),
    decreases c,
{
    if c > 0 {
        lemma_track_stage(st, node, ps, flags, (c - 1) as nat);
    }
}

proof fn lemma_track_stage_ok(st: AnimState, node: int, ps: Seq<(Key, u32)>, flags: u32, c: nat, n_nodes: int)
    requires
        ps.len() > 0,
        anim_state_ok(st, n_nodes),
        0 <= node < n_nodes,
        fits(track_stage(st, node, ps, flags, c)),
    ensures
        anim_state_ok(track_stage(st, node, ps, flags, c), n_nodes),
    decreases c,
{
    lemma_track_stage(st, node, ps, flags, c);
    if c == 0 {
        let s0 = times_step(st, ps);
        assert forall|k: int| 0 <= k < s0.2.len() implies (#[trigger] s0.2[k]).buffer_view < s0.1.len() by {
            if k < st.2.len() {
                assert(s0.2[k] == st.2[k]);
            }
        }
    } else {
        let k = c - 1;
        let s = track_stage(st, node, ps, flags, k as nat);
        lemma_track_stage(st, node, ps, flags, k as nat);
        lemma_track_stage_ok(st, node, ps, flags, k as nat, n_nodes);
        if channel_on(flags, k) {
            lemma_value_step_ok(s, st.2.len() as int, channel_bytes(ps, k), channel_elem(k), ps.len() as int, channel_kind(k), node, channel_path(k), n_nodes);
        }
    }
}

proof fn lemma_track_step_ok(st: AnimState, node: int, ps: Seq<(Key, u32)>, flags: u32, n_nodes: int)
    requires
        anim_state_ok(st, n_nodes),
        0 <= node < n_nodes,
        fits(track_step(st, node, ps, flags)),
    ensures
        anim_state_ok(track_step(st, node, ps, flags), n_nodes),
{
    if ps.len() > 0 {
        lemma_track_stage_ok(st, node, ps, flags, 3, n_nodes);
    }
}

proof fn lemma_track_step_grows(st: AnimState, node: int, ps: Seq<(Key, u32)>, flags: u32)
    ensures
        grows(st, track_step(st, node, ps, flags)),
        track_step(st, node, ps, flags).3.len() - st.3.len() == track_step(st, node, ps, flags).4.len() - st.4.len(),
{
    if ps.len() > 0 {
        lemma_track_stage(st, node, ps, flags, 3);
    }
}

proof fn lemma_clip_tracks_grows(st: AnimState, joints: Seq<JointInfo>, times: Seq<Vec<u32>>, clip: AnimClip)
    ensures
        grows(st, clip_tracks(st, joints, times, clip)),
    decreases joints.len(),
{
    if joints.len() > 0 {
        let j = joints.len() - 1;
        lemma_clip_tracks_grows(st, joints.drop_last(), times.drop_last(), clip);
        let prev = clip_tracks(st, joints.drop_last(), times.drop_last(), clip);
        lemma_track_step_grows(prev, j, clip_keys(joints[j].keys@, times[j]@, clip.first_frame, clip.last_frame), joints[j].key_flags);
    }
}

proof fn lemma_clip_tracks_ok(st: AnimState, joints: Seq<JointInfo>, times: Seq<Vec<u32>>, clip: AnimClip, n_nodes: int)
    requires
        anim_state_ok(st, n_nodes),
        joints.len() <= n_nodes,
        fits(clip_tracks(st, joints, times, clip)),
    ensures
        anim_state_ok(clip_tracks(st, joints, times, clip), n_nodes),
    decreases joints.len(),
{
    if joints.len() > 0 {
        let j = joints.len() - 1;
        let prev = clip_tracks(st, joints.drop_last(), times.drop_last(), clip);
        lemma_track_step_grows(prev, j, clip_keys(joints[j].keys@, times[j]@, clip.first_frame, clip.last_frame), joints[j].key_flags);
        lemma_clip_tracks_ok(st, joints.drop_last(), times.drop_last(), clip, n_nodes);
        lemma_track_step_ok(prev, j, clip_keys(joints[j].keys@, times[j]@, clip.first_frame, clip.last_frame), joints[j].key_flags, n_nodes);
    }
}

/// Every accessor names an existing buffer view and every animation's
/// samplers and channels are sound.
pub open spec fn anims_state_ok(st: AnimsState, n_nodes: int) -> bool {
    &&& accessors_ok(st.2, st.1.len() as int)
    &&& forall|k: int| 0 <= k < st.3.len() ==> anim_refs_ok((#[trigger] st.3[k]).2, st.3[k].1, st.2.len() as int, n_nodes)
}

proof fn lemma_anims_fold_grows(st: AnimsState, clips: Seq<AnimClip>, joints: Seq<JointInfo>, times: Seq<Vec<Vec<u32>>>)
    ensures
        st.0.len() <= anims_fold(st, clips, joints, times).0.len(),
        st.1.len() <= anims_fold(st, clips, joints, times).1.len(),
        st.2.len() <= anims_fold(st, clips, joints, times).2.len(),
        st.3.len() <= anims_fold(st, clips, joints, times).3.len(),
    decreases clips.len(),
{
    if clips.len() > 0 {
        let c = clips.len() - 1;
        lemma_anims_fold_grows(st, clips.drop_last(), joints, times.drop_last());
        let prev = anims_fold(st, clips.drop_last(), joints, times.drop_last());
        lemma_clip_tracks_grows((prev.0, prev.1, prev.2, Seq::empty(), Seq::empty()), joints, times[c]@, clips[c]);
    }
}

proof fn lemma_anims_fold_ok(st: AnimsState, clips: Seq<AnimClip>, joints: Seq<JointInfo>, times: Seq<Vec<Vec<u32>>>)
    requires
        anims_state_ok(st, joints.len() as int),
        anims_fold(st, clips, joints, times).1.len() <= usize::MAX,
        anims_fold(st, clips, joints, times).2.len() <= usize::MAX,
        forall|k: int| 0 <= k < anims_fold(st, clips, joints, times).3.len() ==> (#[trigger] anims_fold(st, clips, joints, times).3[k]).2.len() <= usize::MAX,
    ensures
        anims_state_ok(anims_fold(st, clips, joints, times), joints.len() as int),
    decreases clips.len(),
{
    if clips.len() > 0 {
        let c = clips.len() - 1;
        let prev = anims_fold(st, clips.drop_last(), joints, times.drop_last());
        let t0: AnimState = (prev.0, prev.1, prev.2, Seq::empty(), Seq::empty());
        let t = clip_tracks(t0, joints, times[c]@, clips[c]);
        let r = anims_fold(st, clips, joints, times);
        lemma_clip_tracks_grows(t0, joints, times[c]@, clips[c]);
        assert(r.1 == t.1 && r.2 == t.2);
        assert(prev.3.len() <= r.3.len());
        assert forall|k: int| 0 <= k < prev.3.len() implies (#[trigger] prev.3[k]).2.len() <= usize::MAX by {
            assert(r.3[k] == prev.3[k]);
        }
        lemma_anims_fold_ok(st, clips.drop_last(), joints, times.drop_last());
        assert(anim_state_ok(t0, joints.len() as int));
        if t.4.len() > 0 {
            assert(r.3[r.3.len() - 1] == (clips[c].name@, t.4, t.3));
        }
        assert(t.3.len() <= usize::MAX) by {
            lemma_clip_tracks_ok_len(t0, joints, times[c]@, clips[c]);
            if t.4.len() > 0 {
                assert(r.3[r.3.len() - 1].2 == t.3);
            }
        }
        lemma_clip_tracks_ok(t0, joints, times[c]@, clips[c], joints.len() as int);
        assert forall|k: int| 0 <= k < r.3.len() implies anim_refs_ok((#[trigger] r.3[k]).2, r.3[k].1, r.2.len() as int, joints.len() as int) by {
            if k < prev.3.len() {
                assert(r.3[k] == prev.3[k]);
            }
        }
    }
}

/// Samplers and channels of a clip are added in pairs.
proof fn lemma_clip_tracks_ok_len(st: AnimState, joints: Seq<JointInfo>, times: Seq<Vec<u32>>, clip: AnimClip)
    requires
        st.3.len() == st.4.len(),
    ensures
        clip_tracks(st, joints, times, clip).3.len() == clip_tracks(st, joints, times, clip).4.len(),
    decreases joints.len(),
{
    if joints.len() > 0 {
        let j = joints.len() - 1;
        lemma_clip_tracks_ok_len(st, joints.drop_last(), times.drop_last(), clip);
        let prev = clip_tracks(st, joints.drop_last(), times.drop_last(), clip);
        lemma_track_step_grows(prev, j, clip_keys(joints[j].keys@, times[j]@, clip.first_frame, clip.last_frame), joints[j].key_flags);
    }
}

proof fn lemma_images_fold(bin: Seq<u8>, bvs: Seq<BufferView>, images: Seq<Seq<u8>>)
    ensures
        images_fold(bin, bvs, images).1.len() == bvs.len() + images.len(),
        forall|k: int| 0 <= k < bvs.len() ==> images_fold(bin, bvs, images).1[k] == bvs[k],
        images_fold(bin, bvs, images).0.len() % 4 == 0,
        bin.len() <= images_fold(bin, bvs, images).0.len(),
    decreases images.len(),
{
    crate::glb::lemma_padded(bin, 0);
    if images.len() > 0 {
        lemma_images_fold(bin, bvs, images.drop_last());
        let prev = images_fold(bin, bvs, images.drop_last());
        crate::glb::lemma_padded(prev.0 + images.last(), 0);
    }
}

proof fn lemma_children_of_bound(js: Seq<JointInfo>, p: Option<usize>)
    requires
        js.len() <= usize::MAX,
    ensures
        forall|k: int| 0 <= k < children_of(js, p).len() ==> (#[trigger] children_of(js, p)[k]) < js.len(),
    decreases js.len(),
{
    if js.len() > 0 {
        let d = js.drop_last();
        lemma_children_of_bound(d, p);
        let c = children_of(js, p);
        let cd = children_of(d, p);
        assert forall|k: int| 0 <= k < c.len() implies (#[trigger] c[k]) < js.len() by {
            if k < cd.len() {
                assert(c[k] == cd[k]);
            }
        }
    }
}

/// Every index in the document refers to an existing item: accessors to
/// buffer views, primitives and the skin to accessors, samplers to
/// accessors, channels to samplers and nodes, images to buffer views, child
/// and scene nodes and skin joints to nodes; and the buffer is 4-byte
/// aligned.
pub proof fn lemma_document_references(
    mesh: MeshData,
    joints: Seq<JointInfo>,
    clips: Seq<AnimClip>,
    brush_map: Map<u32, usize>,
    n_brushes: int,
    materials: Seq<Material>,
    images: Seq<Seq<u8>>,
    ibms: Seq<[u32; 16]>,
    bounds: ([u32; 3], [u32; 3]),
    times: Seq<Vec<Vec<u32>>>,
    doc: Document,
    bin: Seq<u8>,
)
    requires
        gltf_matches(mesh, joints, clips, brush_map, n_brushes, materials, images, ibms, bounds, times, doc, bin),
    ensures
        bin.len() % 4 == 0,
        forall|k: int| 0 <= k < doc.accessors@.len() ==> (#[trigger] doc.accessors@[k]).buffer_view < doc.buffer_views@.len(),
        forall|k: int| 0 <= k < doc.primitives@.len() ==> {
            &&& (#[trigger] doc.primitives@[k]).indices < doc.accessors@.len()
            &&& doc.primitives@[k].skin_attributes matches Some((a, b)) ==> a < doc.accessors@.len() && b < doc.accessors@.len()
        },
        doc.skin matches Some(s) ==> s.inverse_bind_matrices < doc.accessors@.len()
            && forall|k: int| 0 <= k < s.joints@.len() ==> (#[trigger] s.joints@[k]) < doc.nodes@.len(),
        forall|a: int| 0 <= a < doc.animations@.len() ==> anim_refs_ok(
            (#[trigger] doc.animations@[a]).samplers@,
            doc.animations@[a].channels@,
            doc.accessors@.len() as int,
            doc.nodes@.len() as int,
        ),
        forall|k: int| 0 <= k < doc.images@.len() ==> (#[trigger] doc.images@[k]) < doc.buffer_views@.len(),
        forall|n: int, k: int| 0 <= n < doc.nodes@.len() && 0 <= k < doc.nodes@[n].children@.len() ==> (#[trigger] doc.nodes@[n].children@[k]) < doc.nodes@.len(),
        forall|k: int| 0 <= k < doc.scene_nodes@.len() ==> (#[trigger] doc.scene_nodes@[k]) < doc.nodes@.len(),
{
    let skin = has_skin_spec(mesh, joints);
    let g = geometry_and_skin(mesh, skin, bounds, ibms);
    let st0: AnimsState = (g.0, g.1, g.2, Seq::empty());
    let f = anims_fold(st0, clips, joints, times);
    let im = images_fold(f.0, f.1, images);
    let ga = geometry_accessors(mesh, skin, bounds);
    let gv = geometry_views(mesh, skin);
    // geometry and skin
    assert(accessors_ok(g.2, g.1.len() as int)) by {
        assert forall|k: int| 0 <= k < g.2.len() implies (#[trigger] g.2[k]).buffer_view < g.1.len() by {
            if k < ga.len() {
                assert(g.2[k] == ga[k]);
            }
        }
    }
    // animations
    lemma_anims_fold_grows(st0, clips, joints, times);
    let anims_view = doc.animations@.map_values(|x: GltfAnimation| anim_value(x));
    assert(doc.accessors.len() == f.2.len());
    assert(doc.buffer_views.len() == im.1.len());
    lemma_images_fold(f.0, f.1, images);
    assert forall|k: int| 0 <= k < f.3.len() implies (#[trigger] f.3[k]).2.len() <= usize::MAX by {
        assert(anims_view[k] == f.3[k]);
        assert(doc.animations@[k].samplers.len() == f.3[k].2.len());
    }
    lemma_anims_fold_ok(st0, clips, joints, times);
    assert forall|a: int| 0 <= a < doc.animations@.len() implies anim_refs_ok(
        (#[trigger] doc.animations@[a]).samplers@,
        doc.animations@[a].channels@,
        doc.accessors@.len() as int,
        doc.nodes@.len() as int,
    ) by {
        assert(anims_view[a] == f.3[a]);
    }
    // primitives
    assert forall|k: int| 0 <= k < doc.primitives@.len() implies {
        &&& (#[trigger] doc.primitives@[k]).indices < doc.accessors@.len()
        &&& doc.primitives@[k].skin_attributes matches Some((a, b)) ==> a < doc.accessors@.len() && b < doc.accessors@.len()
    } by {
        assert(ga.len() == index_slot(skin) + mesh.tri_groups@.len());
    }
    if joints.len() > 0 {
        assert(doc.nodes.len() == joints.len());
        lemma_children_of_bound(joints, None);
    }
    assert forall|n: int, k: int| 0 <= n < doc.nodes@.len() && 0 <= k < doc.nodes@[n].children@.len() implies (#[trigger] doc.nodes@[n].children@[k]) < doc.nodes@.len() by {
        if joints.len() > 0 {
            lemma_children_of_bound(joints, Some(n as usize));
        }
    }
}

/// With the brush map, the materials and the images that the library builds
/// for a model from its sorted brush ids, every primitive names an existing
/// material (groups on the "no brush" id or on a missing brush get the
/// fallback material 0) and every material texture names an existing image.
pub proof fn lemma_document_materials(
    mesh: MeshData,
    joints: Seq<JointInfo>,
    clips: Seq<AnimClip>,
    ids: Seq<u32>,
    brush_map: Map<u32, usize>,
    brushes: Seq<Brush>,
    textures: Seq<Texture>,
    loaded: Seq<Option<LoadedImage>>,
    model_tex: Option<LoadedImage>,
    opts: MaterialOptions,
    ibms: Seq<[u32; 16]>,
    bounds: ([u32; 3], [u32; 3]),
    times: Seq<Vec<Vec<u32>>>,
    doc: Document,
    bin: Seq<u8>,
)
    requires
        strictly_increasing(ids),
        brush_map_of(brush_map, ids),
        loaded.len() == texture_requests_spec(ids, brushes, textures).len(),
        gltf_matches(
            mesh,
            joints,
            clips,
            brush_map,
            brushes.len() as int,
            materials_spec(ids, brushes, textures, loaded, model_tex, opts),
            images_spec(ids, brushes, loaded, model_tex),
            ibms,
            bounds,
            times,
            doc,
            bin,
        ),
    ensures
        doc.materials@.len() >= 1,
        forall|k: int| 0 <= k < doc.primitives@.len() ==> (#[trigger] doc.primitives@[k]).material < doc.materials@.len(),
        forall|m: int| 0 <= m < doc.materials@.len() ==> ((#[trigger] doc.materials@[m]).texture matches Some(t) ==> t < doc.images@.len()),
{
    let n = brushes.len() as int;
    lemma_material_prefix(ids, n);
    lemma_materials_sound(ids, brushes, textures, loaded, model_tex, opts);
    let groups = mesh.tri_groups@;
    assert forall|k: int| 0 <= k < doc.primitives@.len() implies (#[trigger] doc.primitives@[k]).material < doc.materials@.len() by {
        let b = groups[k].brush_id;
        if slot_ok(b, n) && brush_map.contains_key(b) {
            assert(ids.contains(b));
            let j = choose|j: int| 0 <= j < ids.len() && ids[j] == b;
            assert(brush_map[ids[j]] == j);
            assert(slot_ok(ids[j], n));
        }
    }
}

/// Every buffer view lies within the first `n` bytes of the buffer.
pub open spec fn views_within(bvs: Seq<BufferView>, n: int) -> bool {
    forall|k: int| 0 <= k < bvs.len() ==> (#[trigger] bvs[k]).byte_offset + bvs[k].byte_length <= n
}

/// Every buffer view starts on a 4-byte boundary.
pub open spec fn offsets_aligned(bvs: Seq<BufferView>) -> bool {
    forall|k: int| 0 <= k < bvs.len() ==> (#[trigger] bvs[k]).byte_offset % 4 == 0
}

/// Every buffer view starts on a 4-byte boundary, and so does the end `n`
/// of the buffer.
pub open spec fn views_aligned(bvs: Seq<BufferView>, n: int) -> bool {
    &&& n % 4 == 0
    &&& offsets_aligned(bvs)
}

/// Appending data with a buffer view over it keeps the views within the
/// buffer, and aligned when the data is a whole number of 4-byte words.
proof fn lemma_push_view(bin: Seq<u8>, bvs: Seq<BufferView>, bytes: Seq<u8>, v: BufferView)
    requires
        v.byte_offset == bin.len(),
        v.byte_length == bytes.len(),
        bin.len() + bytes.len() <= usize::MAX,
    ensures
        views_within(bvs, bin.len() as int) ==> views_within(bvs.push(v), (bin + bytes).len() as int),
        views_aligned(bvs, bin.len() as int) && bytes.len() % 4 == 0 ==> views_aligned(bvs.push(v), (bin + bytes).len() as int),
{
    let r = bvs.push(v);
    assert forall|k: int| 0 <= k < bvs.len() implies r[k] == bvs[k] by {}
    if views_within(bvs, bin.len() as int) {
        assert forall|k: int| 0 <= k < r.len() implies (#[trigger] r[k]).byte_offset + r[k].byte_length <= (bin + bytes).len() by {
            if k < bvs.len() {
                assert(r[k] == bvs[k]);
            }
        }
    }
    if views_aligned(bvs, bin.len() as int) && bytes.len() % 4 == 0 {
        assert forall|k: int| 0 <= k < r.len() implies (#[trigger] r[k]).byte_offset % 4 == 0 by {
            if k < bvs.len() {
                assert(r[k] == bvs[k]);
            }
        }
    }
}

/// Each stage of a track keeps the buffer views within the buffer and
/// aligned: every piece of data is a whole number of 4-byte words.
proof fn lemma_track_stage_views(st: AnimState, node: int, ps: Seq<(Key, u32)>, flags: u32, c: nat)
    requires
        ps.len() > 0,
        c <= 3,
        track_stage(st, node, ps, flags, c).0.len() <= usize::MAX,
    ensures
        views_within(st.1, st.0.len() as int) ==> views_within(track_stage(st, node, ps, flags, c).1, track_stage(st, node, ps, flags, c).0.len() as int),
        views_aligned(st.1, st.0.len() as int) ==> views_aligned(track_stage(st, node, ps, flags, c).1, track_stage(st, node, ps, flags, c).0.len() as int),
    decreases c,
{
    let kc = ps.len() as int;
    lemma_track_stage(st, node, ps, flags, c);
    if c == 0 {
        let tb = u32s_bytes(ps.map_values(|p: (Key, u32)| p.1));
        lemma_u32s_len(ps.map_values(|p: (Key, u32)| p.1));
        lemma_push_view(st.0, st.1, tb, bv(st.0.len() as int, 4 * kc, 0, ARRAY_BUFFER));
    } else {
        let k = c - 1;
        let s = track_stage(st, node, ps, flags, k as nat);
        lemma_track_stage(st, node, ps, flags, k as nat);
        lemma_track_stage_views(st, node, ps, flags, k as nat);
        if channel_on(flags, k) {
            let bytes = channel_bytes(ps, k);
            let v = bv(s.0.len() as int, channel_elem(k) * kc, channel_elem(k), ARRAY_BUFFER);
            if k == 0 {
                lemma_vec3_len(ps.map_values(|p: (Key, u32)| p.0.position));
                assert(bytes.len() == 4 * (3 * kc));
                assert(v.byte_length == 12 * kc);
            } else if k == 1 {
                lemma_vec3_plain_len(ps.map_values(|p: (Key, u32)| p.0.scale));
                assert(bytes.len() == 4 * (3 * kc));
                assert(v.byte_length == 12 * kc);
            } else {
                lemma_quat_len(ps.map_values(|p: (Key, u32)| p.0.rotation));
                assert(bytes.len() == 4 * (4 * kc));
                assert(v.byte_length == 16 * kc);
            }
            lemma_push_view(s.0, s.1, bytes, v);
        }
    }
}

proof fn lemma_track_step_views(st: AnimState, node: int, ps: Seq<(Key, u32)>, flags: u32)
    requires
        track_step(st, node, ps, flags).0.len() <= usize::MAX,
    ensures
        views_within(st.1, st.0.len() as int) ==> views_within(track_step(st, node, ps, flags).1, track_step(st, node, ps, flags).0.len() as int),
        views_aligned(st.1, st.0.len() as int) ==> views_aligned(track_step(st, node, ps, flags).1, track_step(st, node, ps, flags).0.len() as int),
{
    if ps.len() > 0 {
        lemma_track_stage_views(st, node, ps, flags, 3);
    }
}

proof fn lemma_clip_tracks_views(st: AnimState, joints: Seq<JointInfo>, times: Seq<Vec<u32>>, clip: AnimClip)
    requires
        clip_tracks(st, joints, times, clip).0.len() <= usize::MAX,
    ensures
        views_within(st.1, st.0.len() as int) ==> views_within(clip_tracks(st, joints, times, clip).1, clip_tracks(st, joints, times, clip).0.len() as int),
        views_aligned(st.1, st.0.len() as int) ==> views_aligned(clip_tracks(st, joints, times, clip).1, clip_tracks(st, joints, times, clip).0.len() as int),
    decreases joints.len(),
{
    if joints.len() > 0 {
        let j = joints.len() - 1;
        let prev = clip_tracks(st, joints.drop_last(), times.drop_last(), clip);
        lemma_track_step_grows(prev, j, clip_keys(joints[j].keys@, times[j]@, clip.first_frame, clip.last_frame), joints[j].key_flags);
        lemma_clip_tracks_views(st, joints.drop_last(), times.drop_last(), clip);
        lemma_track_step_views(prev, j, clip_keys(joints[j].keys@, times[j]@, clip.first_frame, clip.last_frame), joints[j].key_flags);
    }
}

proof fn lemma_anims_fold_views(st: AnimsState, clips: Seq<AnimClip>, joints: Seq<JointInfo>, times: Seq<Vec<Vec<u32>>>)
    requires
        anims_fold(st, clips, joints, times).0.len() <= usize::MAX,
    ensures
        views_within(st.1, st.0.len() as int) ==> views_within(anims_fold(st, clips, joints, times).1, anims_fold(st, clips, joints, times).0.len() as int),
        views_aligned(st.1, st.0.len() as int) ==> views_aligned(anims_fold(st, clips, joints, times).1, anims_fold(st, clips, joints, times).0.len() as int),
    decreases clips.len(),
{
    if clips.len() > 0 {
        let c = clips.len() - 1;
        let prev = anims_fold(st, clips.drop_last(), joints, times.drop_last());
        let t0: AnimState = (prev.0, prev.1, prev.2, Seq::empty(), Seq::empty());
        let t = clip_tracks(t0, joints, times[c]@, clips[c]);
        lemma_clip_tracks_grows(t0, joints, times[c]@, clips[c]);
        crate::glb::lemma_padded(t.0, 0);
        lemma_anims_fold_views(st, clips.drop_last(), joints, times.drop_last());
        lemma_clip_tracks_views(t0, joints, times[c]@, clips[c]);
    }
}

proof fn lemma_images_fold_views(bin: Seq<u8>, bvs: Seq<BufferView>, images: Seq<Seq<u8>>)
    requires
        images_fold(bin, bvs, images).0.len() <= usize::MAX,
    ensures
        views_within(bvs, bin.len() as int) ==> views_within(images_fold(bin, bvs, images).1, images_fold(bin, bvs, images).0.len() as int),
        offsets_aligned(bvs) ==> views_aligned(images_fold(bin, bvs, images).1, images_fold(bin, bvs, images).0.len() as int),
    decreases images.len(),
{
    crate::glb::lemma_padded(bin, 0);
    if images.len() > 0 {
        let prev = images_fold(bin, bvs, images.drop_last());
        let data = images.last();
        lemma_images_fold(bin, bvs, images.drop_last());
        crate::glb::lemma_padded(prev.0 + data, 0);
        lemma_images_fold_views(bin, bvs, images.drop_last());
        let r = images_fold(bin, bvs, images);
        let v = BufferView { byte_offset: prev.0.len() as usize, byte_length: data.len() as usize, byte_stride: None, target: None };
        lemma_push_view(prev.0, prev.1, data, v);
        assert(r.1 == prev.1.push(v));
        if views_within(prev.1, prev.0.len() as int) {
            assert forall|k: int| 0 <= k < r.1.len() implies (#[trigger] r.1[k]).byte_offset + r.1[k].byte_length <= r.0.len() by {
                if k < prev.1.len() {
                    assert(r.1[k] == prev.1[k]);
                }
            }
        }
        if views_aligned(prev.1, prev.0.len() as int) {
            assert forall|k: int| 0 <= k < r.1.len() implies (#[trigger] r.1[k]).byte_offset % 4 == 0 by {
                if k < prev.1.len() {
                    assert(r.1[k] == prev.1[k]);
                }
            }
        }
    }
}

/// For a mesh whose attribute arrays all have one entry per vertex (as
/// `prepare_model` gives), every buffer view lies within the buffer.
pub proof fn lemma_views_within_buffer(
    mesh: MeshData,
    joints: Seq<JointInfo>,
    clips: Seq<AnimClip>,
    brush_map: Map<u32, usize>,
    n_brushes: int,
    materials: Seq<Material>,
    images: Seq<Seq<u8>>,
    ibms: Seq<[u32; 16]>,
    bounds: ([u32; 3], [u32; 3]),
    times: Seq<Vec<Vec<u32>>>,
    doc: Document,
    bin: Seq<u8>,
)
    requires
        gltf_matches(mesh, joints, clips, brush_map, n_brushes, materials, images, ibms, bounds, times, doc, bin),
        mesh.normals@.len() == mesh.positions@.len(),
        mesh.uvs@.len() == mesh.positions@.len(),
        mesh.skin@.len() == mesh.positions@.len(),
        bin.len() <= usize::MAX,
    ensures
        views_within(doc.buffer_views@, doc.buffer_length as int),
{
    let skin = has_skin_spec(mesh, joints);
    let g = geometry_and_skin(mesh, skin, bounds, ibms);
    let st0: AnimsState = (g.0, g.1, g.2, Seq::empty());
    let f = anims_fold(st0, clips, joints, times);
    let gb = geometry_bytes(mesh, skin);
    let gv = geometry_views(mesh, skin);
    lemma_vec3_len(mesh.positions@);
    lemma_vec3_len(mesh.normals@);
    lemma_vec2_len(mesh.uvs@);
    lemma_joints_len(mesh.skin@);
    lemma_weights_len(mesh.skin@);
    lemma_u32s_len(all_indices(mesh.tri_groups@));
    lemma_mats_len(ibms);
    crate::glb::lemma_padded(gb, 0);
    crate::glb::lemma_padded(padded(gb, 0) + mats_bytes(ibms), 0);
    lemma_anims_fold_grows(st0, clips, joints, times);
    lemma_images_fold(f.0, f.1, images);
    assert(views_within(gv, padded(gb, 0).len() as int));
    assert(views_within(g.1, g.0.len() as int)) by {
        if skin {
            assert forall|k: int| 0 <= k < g.1.len() implies (#[trigger] g.1[k]).byte_offset + g.1[k].byte_length <= g.0.len() by {
                if k < gv.len() {
                    assert(g.1[k] == gv[k]);
                }
            }
        }
    }
    lemma_anims_fold_views(st0, clips, joints, times);
    lemma_images_fold_views(f.0, f.1, images);
}


/// The geometry and the inverse bind matrices leave the buffer views and
/// the buffer's end aligned.
#[verifier::spinoff_prover]
#[verifier::rlimit(40)]
proof fn lemma_geometry_aligned(mesh: MeshData, skin: bool, bounds: ([u32; 3], [u32; 3]), ibms: Seq<[u32; 16]>)
    requires
        geometry_and_skin(mesh, skin, bounds, ibms).0.len() <= usize::MAX,
    ensures
        views_aligned(geometry_and_skin(mesh, skin, bounds, ibms).1, geometry_and_skin(mesh, skin, bounds, ibms).0.len() as int),
{
    let g = geometry_and_skin(mesh, skin, bounds, ibms);
    let gb = geometry_bytes(mesh, skin);
    let gv = geometry_views(mesh, skin);
    lemma_vec3_len(mesh.positions@);
    lemma_vec3_len(mesh.normals@);
    lemma_vec2_len(mesh.uvs@);
    lemma_joints_len(mesh.skin@);
    lemma_weights_len(mesh.skin@);
    lemma_u32s_len(all_indices(mesh.tri_groups@));
    lemma_mats_len(ibms);
    crate::glb::lemma_padded(gb, 0);
    crate::glb::lemma_padded(padded(gb, 0) + mats_bytes(ibms), 0);
    let p = mesh.positions@.len() as int;
    let n = mesh.normals@.len() as int;
    let u = mesh.uvs@.len() as int;
    let w = mesh.skin@.len() as int;
    assert(off_indices(mesh, skin) <= gb.len());
    assert(off_normals(mesh) == 4 * (3 * p));
    assert(off_uvs(mesh) == 4 * (3 * p + 3 * n));
    assert(off_joints(mesh) == 4 * (3 * p + 3 * n + 2 * u));
    assert(off_weights(mesh) == 4 * (3 * p + 3 * n + 2 * u + 2 * w));
    assert(off_indices(mesh, skin) == 4 * (3 * p + 3 * n + 2 * u + if skin { 6 * w } else { 0 }));
    assert(offsets_aligned(gv));
    if skin {
        assert forall|k: int| 0 <= k < g.1.len() implies (#[trigger] g.1[k]).byte_offset % 4 == 0 by {
            if k < gv.len() {
                assert(g.1[k] == gv[k]);
            }
        }
    }
}

/// Every buffer view starts at a multiple of 4 bytes, and the buffer's
/// length is a multiple of 4: the geometry, the inverse bind matrices, each
/// clip's data and each image are padded to 4 bytes, and every other piece
/// of data is a whole number of 4-byte words.
pub proof fn lemma_views_aligned(
    mesh: MeshData,
    joints: Seq<JointInfo>,
    clips: Seq<AnimClip>,
    brush_map: Map<u32, usize>,
    n_brushes: int,
    materials: Seq<Material>,
    images: Seq<Seq<u8>>,
    ibms: Seq<[u32; 16]>,
    bounds: ([u32; 3], [u32; 3]),
    times: Seq<Vec<Vec<u32>>>,
    doc: Document,
    bin: Seq<u8>,
)
    requires
        gltf_matches(mesh, joints, clips, brush_map, n_brushes, materials, images, ibms, bounds, times, doc, bin),
        bin.len() <= usize::MAX,
    ensures
        doc.buffer_length % 4 == 0,
        forall|k: int| 0 <= k < doc.buffer_views@.len() ==> (#[trigger] doc.buffer_views@[k]).byte_offset % 4 == 0,
{
    let skin = has_skin_spec(mesh, joints);
    let g = geometry_and_skin(mesh, skin, bounds, ibms);
    let st0: AnimsState = (g.0, g.1, g.2, Seq::empty());
    let f = anims_fold(st0, clips, joints, times);
    lemma_anims_fold_grows(st0, clips, joints, times);
    lemma_images_fold(f.0, f.1, images);
    lemma_geometry_aligned(mesh, skin, bounds, ibms);
    lemma_anims_fold_views(st0, clips, joints, times);
    lemma_images_fold_views(f.0, f.1, images);
}


// ---------------------------------------------------------------------------
// Later data never moves earlier data
// ---------------------------------------------------------------------------

/// `a` is a prefix of `b`.
pub open spec fn prefix_of<A>(a: Seq<A>, b: Seq<A>) -> bool {
    &&& a.len() <= b.len()
    &&& forall|i: int| 0 <= i < a.len() ==> #[trigger] b[i] == a[i]
}

/// Buffer, buffer views, accessors, samplers and channels of `a` are
/// prefixes of those of `b`.
pub open spec fn extends(a: AnimState, b: AnimState) -> bool {
    &&& prefix_of(a.0, b.0)
    &&& prefix_of(a.1, b.1)
    &&& prefix_of(a.2, b.2)
    &&& prefix_of(a.3, b.3)
    &&& prefix_of(a.4, b.4)
}

proof fn lemma_track_stage_extends(st: AnimState, node: int, ps: Seq<(Key, u32)>, flags: u32, c: nat)
    ensures
        extends(st, track_stage(st, node, ps, flags, c)),
    decreases c,
{
    if c > 0 {
        lemma_track_stage_extends(st, node, ps, flags, (c - 1) as nat);
        let s = track_stage(st, node, ps, flags, (c - 1) as nat);
        let r = track_stage(st, node, ps, flags, c);
        assert(extends(s, r));
    } else {
        let r = times_step(st, ps);
        assert(extends(st, r));
    }
}

proof fn lemma_clip_tracks_extends(st: AnimState, joints: Seq<JointInfo>, times: Seq<Vec<u32>>, clip: AnimClip)
    ensures
        extends(st, clip_tracks(st, joints, times, clip)),
    decreases joints.len(),
{
    if joints.len() > 0 {
        let j = joints.len() - 1;
        lemma_clip_tracks_extends(st, joints.drop_last(), times.drop_last(), clip);
        let prev = clip_tracks(st, joints.drop_last(), times.drop_last(), clip);
        let ps = clip_keys(joints[j].keys@, times[j]@, clip.first_frame, clip.last_frame);
        if ps.len() > 0 {
            lemma_track_stage_extends(prev, j, ps, joints[j].key_flags, 3);
        }
    }
}

proof fn lemma_anims_fold_extends(st: AnimsState, clips: Seq<AnimClip>, joints: Seq<JointInfo>, times: Seq<Vec<Vec<u32>>>)
    ensures
        prefix_of(st.0, anims_fold(st, clips, joints, times).0),
        prefix_of(st.1, anims_fold(st, clips, joints, times).1),
        prefix_of(st.2, anims_fold(st, clips, joints, times).2),
    decreases clips.len(),
{
    if clips.len() > 0 {
        let c = clips.len() - 1;
        lemma_anims_fold_extends(st, clips.drop_last(), joints, times.drop_last());
        let prev = anims_fold(st, clips.drop_last(), joints, times.drop_last());
        let t0: AnimState = (prev.0, prev.1, prev.2, Seq::empty(), Seq::empty());
        let t = clip_tracks(t0, joints, times[c]@, clips[c]);
        lemma_clip_tracks_extends(t0, joints, times[c]@, clips[c]);
        crate::glb::lemma_padded(t.0, 0);
        assert(prefix_of(t.0, padded(t.0, 0))) by {
            assert forall|i: int| 0 <= i < t.0.len() implies #[trigger] padded(t.0, 0)[i] == t.0[i] by {
                assert(padded(t.0, 0).take(t.0.len() as int)[i] == padded(t.0, 0)[i]);
            }
        }
    }
}

proof fn lemma_images_fold_extends(bin: Seq<u8>, bvs: Seq<BufferView>, images: Seq<Seq<u8>>)
    ensures
        prefix_of(bin, images_fold(bin, bvs, images).0),
        prefix_of(bvs, images_fold(bin, bvs, images).1),
    decreases images.len(),
{
    lemma_images_fold(bin, bvs, images);
    crate::glb::lemma_padded(bin, 0);
    if images.len() > 0 {
        lemma_images_fold_extends(bin, bvs, images.drop_last());
        let prev = images_fold(bin, bvs, images.drop_last());
        let d = prev.0 + images.last();
        crate::glb::lemma_padded(d, 0);
        assert forall|i: int| 0 <= i < bin.len() implies #[trigger] images_fold(bin, bvs, images).0[i] == bin[i] by {
            assert(padded(d, 0).take(d.len() as int)[i] == padded(d, 0)[i]);
            assert(d[i] == prev.0[i]);
        }
    } else {
        assert forall|i: int| 0 <= i < bin.len() implies #[trigger] images_fold(bin, bvs, images).0[i] == bin[i] by {
            assert(padded(bin, 0).take(bin.len() as int)[i] == padded(bin, 0)[i]);
        }
    }
}

/// The geometry's data, views and accessors open the document: the final
/// buffer, views and accessors start with them.
proof fn lemma_geometry_leads(
    mesh: MeshData,
    joints: Seq<JointInfo>,
    clips: Seq<AnimClip>,
    brush_map: Map<u32, usize>,
    n_brushes: int,
    materials: Seq<Material>,
    images: Seq<Seq<u8>>,
    ibms: Seq<[u32; 16]>,
    bounds: ([u32; 3], [u32; 3]),
    times: Seq<Vec<Vec<u32>>>,
    doc: Document,
    bin: Seq<u8>,
)
    requires
        gltf_matches(mesh, joints, clips, brush_map, n_brushes, materials, images, ibms, bounds, times, doc, bin),
    ensures
        prefix_of(geometry_bytes(mesh, has_skin_spec(mesh, joints)), bin),
        prefix_of(geometry_views(mesh, has_skin_spec(mesh, joints)), doc.buffer_views@),
        prefix_of(geometry_accessors(mesh, has_skin_spec(mesh, joints), bounds), doc.accessors@),
{
    let skin = has_skin_spec(mesh, joints);
    let g = geometry_and_skin(mesh, skin, bounds, ibms);
    let st0: AnimsState = (g.0, g.1, g.2, Seq::empty());
    let f = anims_fold(st0, clips, joints, times);
    let gb = geometry_bytes(mesh, skin);
    let b1 = padded(gb, 0);
    lemma_anims_fold_extends(st0, clips, joints, times);
    lemma_images_fold_extends(f.0, f.1, images);
    crate::glb::lemma_padded(gb, 0);
    crate::glb::lemma_padded(b1 + mats_bytes(ibms), 0);
    assert(prefix_of(gb, g.0)) by {
        assert forall|i: int| 0 <= i < gb.len() implies #[trigger] g.0[i] == gb[i] by {
            assert(b1.take(gb.len() as int)[i] == b1[i]);
            if skin {
                let d = b1 + mats_bytes(ibms);
                assert(padded(d, 0).take(d.len() as int)[i] == padded(d, 0)[i]);
            }
        }
    }
}


/// In the document, each primitive draws exactly its triangle group: the
/// primitive's index accessor reads, from the buffer at its view's offset
/// plus its own byte offset, the group's indices in order as `u32`.
pub proof fn lemma_primitive_indices(
    mesh: MeshData,
    joints: Seq<JointInfo>,
    clips: Seq<AnimClip>,
    brush_map: Map<u32, usize>,
    n_brushes: int,
    materials: Seq<Material>,
    images: Seq<Seq<u8>>,
    ibms: Seq<[u32; 16]>,
    bounds: ([u32; 3], [u32; 3]),
    times: Seq<Vec<Vec<u32>>>,
    doc: Document,
    bin: Seq<u8>,
)
    requires
        gltf_matches(mesh, joints, clips, brush_map, n_brushes, materials, images, ibms, bounds, times, doc, bin),
        bin.len() <= usize::MAX,
    ensures
        doc.primitives@.len() == mesh.tri_groups@.len(),
        forall|g: int| #![trigger mesh.tri_groups@[g]] 0 <= g < mesh.tri_groups@.len() ==> reads_u32s(
            bin,
            doc.buffer_views@,
            doc.accessors@,
            doc.primitives@[g].indices as int,
            mesh.tri_groups@[g].indices@,
        ),
{
    let skin = has_skin_spec(mesh, joints);
    let gb = geometry_bytes(mesh, skin);
    let gv = geometry_views(mesh, skin);
    let ga = geometry_accessors(mesh, skin, bounds);
    lemma_geometry_leads(mesh, joints, clips, brush_map, n_brushes, materials, images, ibms, bounds, times, doc, bin);
    lemma_index_accessors(mesh, skin, bounds);
    assert(doc.accessors@.len() == doc.accessors.len());
    lemma_groups_read(gb, gv, ga, mesh.tri_groups@, index_slot(skin), doc.primitives@, bin, doc.buffer_views@, doc.accessors@);
}

proof fn lemma_groups_read(
    gb: Seq<u8>,
    gv: Seq<BufferView>,
    ga: Seq<Accessor>,
    groups: Seq<TriGroup>,
    slot: int,
    prims: Seq<Primitive>,
    bin: Seq<u8>,
    bvs: Seq<BufferView>,
    accs: Seq<Accessor>,
)
    requires
        prefix_of(gb, bin),
        prefix_of(gv, bvs),
        prefix_of(ga, accs),
        slot >= 0,
        accs.len() <= usize::MAX,
        prims.len() == groups.len(),
        forall|g: int| 0 <= g < groups.len() ==> (#[trigger] prims[g]).indices == (slot + g) as usize,
        forall|g: int| #![trigger groups[g]] 0 <= g < groups.len() ==> reads_u32s(gb, gv, ga, slot + g, groups[g].indices@),
    ensures
        forall|g: int| #![trigger groups[g]] 0 <= g < groups.len() ==> reads_u32s(bin, bvs, accs, prims[g].indices as int, groups[g].indices@),
{
    assert forall|g: int| #![trigger groups[g]] 0 <= g < groups.len() implies reads_u32s(bin, bvs, accs, prims[g].indices as int, groups[g].indices@) by {
        lemma_reads_through_prefix(gb, gv, ga, slot + g, groups[g].indices@, bin, bvs, accs);
        assert(prims[g].indices as int == slot + g);
    }
}

/// What an accessor reads stays the same when buffer, views and accessors
/// are extended.
proof fn lemma_reads_through_prefix(
    gb: Seq<u8>,
    gv: Seq<BufferView>,
    ga: Seq<Accessor>,
    k: int,
    vals: Seq<u32>,
    bin: Seq<u8>,
    bvs: Seq<BufferView>,
    accs: Seq<Accessor>,
)
    requires
        reads_u32s(gb, gv, ga, k, vals),
        prefix_of(gb, bin),
        prefix_of(gv, bvs),
        prefix_of(ga, accs),
    ensures
        reads_u32s(bin, bvs, accs, k, vals),
{
    let a = ga[k];
    let v = gv[a.buffer_view as int];
    assert(accs[k] == a);
    assert(bvs[a.buffer_view as int] == v);
    let start = v.byte_offset + a.byte_offset.unwrap();
    assert forall|i: int| 0 <= i < vals.len() implies bin.subrange(start + 4 * i, start + 4 * i + 4) == le_u32(#[trigger] vals[i]) by {
        assert(gb.subrange(start + 4 * i, start + 4 * i + 4) == le_u32(vals[i]));
        assert(bin.subrange(start + 4 * i, start + 4 * i + 4) =~= gb.subrange(start + 4 * i, start + 4 * i + 4));
    }
}


/// Accessors `ja` and `wa` read the skinning of the vertices `skin` from
/// `bytes`: `ja` holds one quadruple of `u16` joint indices per vertex and
/// `wa` one quadruple of `f32` weights, both tightly packed from the start
/// of their views; vertex `v`'s bone joint comes first with its weight
/// first, and the other three joints and weights are 0 (a vertex without a
/// bone has all zeros).
pub open spec fn reads_skin(bytes: Seq<u8>, bvs: Seq<BufferView>, accs: Seq<Accessor>, ja: int, wa: int, skin: Seq<Option<BoneWeight>>) -> bool {
    &&& 0 <= ja < accs.len()
    &&& 0 <= wa < accs.len()
    &&& (accs[ja].buffer_view as int) < bvs.len()
    &&& (accs[wa].buffer_view as int) < bvs.len()
    &&& accs[ja].component_type == UNSIGNED_SHORT
    &&& accs[wa].component_type == FLOAT
    &&& accs[ja].kind == AccessorType::Vec4
    &&& accs[wa].kind == AccessorType::Vec4
    &&& accs[ja].count == skin.len()
    &&& accs[wa].count == skin.len()
    &&& accs[ja].byte_offset is None
    &&& accs[wa].byte_offset is None
    &&& ({
        let js = bvs[accs[ja].buffer_view as int].byte_offset as int;
        let ws = bvs[accs[wa].buffer_view as int].byte_offset as int;
        &&& js + 8 * skin.len() <= bytes.len()
        &&& ws + 16 * skin.len() <= bytes.len()
        &&& forall|v: int| 0 <= v < skin.len() ==> bytes.subrange(js + 8 * v, js + 8 * v + 8) == match #[trigger] skin[v] {
            Some(b) => le_u16(b.joint_idx as u16),
            None => le_u16(0),
        } + le_u16(0) + le_u16(0) + le_u16(0)
        &&& forall|v: int| 0 <= v < skin.len() ==> bytes.subrange(ws + 16 * v, ws + 16 * v + 16) == match #[trigger] skin[v] {
            Some(b) => le_u32(b.weight),
            None => le_u32(0),
        } + le_u32(0) + le_u32(0) + le_u32(0)
    })
}

/// The joint and weight accessors of a skinned mesh's geometry read each
/// vertex's bone from the geometry data.
proof fn lemma_skin_accessors(mesh: MeshData, bounds: ([u32; 3], [u32; 3]))
    requires
        geometry_bytes(mesh, true).len() <= usize::MAX,
        mesh.skin@.len() == mesh.positions@.len(),
    ensures
        reads_skin(geometry_bytes(mesh, true), geometry_views(mesh, true), geometry_accessors(mesh, true, bounds), 3, 4, mesh.skin@),
{
    let sk = mesh.skin@;
    let gb = geometry_bytes(mesh, true);
    let pre = vec3_neg_z_bytes(mesh.positions@) + vec3_neg_z_bytes(mesh.normals@) + vec2_bytes(mesh.uvs@);
    let jb = joints_bytes(sk);
    let wb = weights_bytes(sk);
    lemma_vec3_len(mesh.positions@);
    lemma_vec3_len(mesh.normals@);
    lemma_vec2_len(mesh.uvs@);
    lemma_skin_bytes_layout(sk);
    lemma_u32s_len(all_indices(mesh.tri_groups@));
    assert(gb =~= pre + jb + wb + u32s_bytes(all_indices(mesh.tri_groups@)));
    assert(off_joints(mesh) == pre.len());
    assert(off_weights(mesh) == pre.len() + jb.len());
    let js = pre.len() as int;
    let ws = js + jb.len();
    assert forall|v: int| 0 <= v < sk.len() implies gb.subrange(js + 8 * v, js + 8 * v + 8) == match #[trigger] sk[v] {
        Some(b) => le_u16(b.joint_idx as u16),
        None => le_u16(0),
    } + le_u16(0) + le_u16(0) + le_u16(0) by {
        assert(gb.subrange(js + 8 * v, js + 8 * v + 8) =~= jb.subrange(8 * v, 8 * v + 8));
    }
    assert forall|v: int| 0 <= v < sk.len() implies gb.subrange(ws + 16 * v, ws + 16 * v + 16) == match #[trigger] sk[v] {
        Some(b) => le_u32(b.weight),
        None => le_u32(0),
    } + le_u32(0) + le_u32(0) + le_u32(0) by {
        assert(gb.subrange(ws + 16 * v, ws + 16 * v + 16) =~= wb.subrange(16 * v, 16 * v + 16));
    }
}

proof fn lemma_skin_reads_through_prefix(
    gb: Seq<u8>,
    gv: Seq<BufferView>,
    ga: Seq<Accessor>,
    skin: Seq<Option<BoneWeight>>,
    bin: Seq<u8>,
    bvs: Seq<BufferView>,
    accs: Seq<Accessor>,
)
    requires
        reads_skin(gb, gv, ga, 3, 4, skin),
        prefix_of(gb, bin),
        prefix_of(gv, bvs),
        prefix_of(ga, accs),
    ensures
        reads_skin(bin, bvs, accs, 3, 4, skin),
{
    assert(accs[3] == ga[3] && accs[4] == ga[4]);
    let js = gv[ga[3].buffer_view as int].byte_offset as int;
    let ws = gv[ga[4].buffer_view as int].byte_offset as int;
    assert(bvs[ga[3].buffer_view as int] == gv[ga[3].buffer_view as int]);
    assert(bvs[ga[4].buffer_view as int] == gv[ga[4].buffer_view as int]);
    assert forall|v: int| 0 <= v < skin.len() implies bin.subrange(js + 8 * v, js + 8 * v + 8) == match #[trigger] skin[v] {
        Some(b) => le_u16(b.joint_idx as u16),
        None => le_u16(0),
    } + le_u16(0) + le_u16(0) + le_u16(0) by {
        assert(bin.subrange(js + 8 * v, js + 8 * v + 8) =~= gb.subrange(js + 8 * v, js + 8 * v + 8));
    }
    assert forall|v: int| 0 <= v < skin.len() implies bin.subrange(ws + 16 * v, ws + 16 * v + 16) == match #[trigger] skin[v] {
        Some(b) => le_u32(b.weight),
        None => le_u32(0),
    } + le_u32(0) + le_u32(0) + le_u32(0) by {
        assert(bin.subrange(ws + 16 * v, ws + 16 * v + 16) =~= gb.subrange(ws + 16 * v, ws + 16 * v + 16));
    }
}

/// In a skinned document every primitive's skin attributes are a joints
/// and a weights accessor that read each vertex's bone: `JOINTS_0` of
/// vertex `v` is its bone's joint index then three zeros and `WEIGHTS_0`
/// its bone's weight then three zeros, so the weight belongs to the joint.
pub proof fn lemma_skin_attributes(
    mesh: MeshData,
    joints: Seq<JointInfo>,
    clips: Seq<AnimClip>,
    brush_map: Map<u32, usize>,
    n_brushes: int,
    materials: Seq<Material>,
    images: Seq<Seq<u8>>,
    ibms: Seq<[u32; 16]>,
    bounds: ([u32; 3], [u32; 3]),
    times: Seq<Vec<Vec<u32>>>,
    doc: Document,
    bin: Seq<u8>,
)
    requires
        gltf_matches(mesh, joints, clips, brush_map, n_brushes, materials, images, ibms, bounds, times, doc, bin),
        bin.len() <= usize::MAX,
        mesh.skin@.len() == mesh.positions@.len(),
        has_skin_spec(mesh, joints),
    ensures
        forall|g: int| 0 <= g < doc.primitives@.len() ==> ((#[trigger] doc.primitives@[g]).skin_attributes matches Some((ja, wa))
            && reads_skin(bin, doc.buffer_views@, doc.accessors@, ja as int, wa as int, mesh.skin@)),
{
    lemma_geometry_leads(mesh, joints, clips, brush_map, n_brushes, materials, images, ibms, bounds, times, doc, bin);
    lemma_skin_accessors(mesh, bounds);
    lemma_skin_reads_through_prefix(
        geometry_bytes(mesh, true),
        geometry_views(mesh, true),
        geometry_accessors(mesh, true, bounds),
        mesh.skin@,
        bin,
        doc.buffer_views@,
        doc.accessors@,
    );
    assert(primitives_match(mesh, true, brush_map, n_brushes, doc.primitives@));
}


// ---------------------------------------------------------------------------
// What the animation channels read
// ---------------------------------------------------------------------------

/// Accessor `t` reads the times of the keys `ps` (as `f32` bits): a scalar
/// accessor over one of the views, one element per key, key `k`'s time
/// stored little-endian at the view's offset plus `4k`.
pub open spec fn times_read(bin: Seq<u8>, bvs: Seq<BufferView>, accs: Seq<Accessor>, t: int, ps: Seq<(Key, u32)>) -> bool {
    &&& 0 <= t < accs.len()
    &&& (accs[t].buffer_view as int) < bvs.len()
    &&& accs[t].count == ps.len()
    &&& accs[t].byte_offset is None
    &&& accs[t].kind == AccessorType::Scalar
    &&& ({
        let o = bvs[accs[t].buffer_view as int].byte_offset as int;
        &&& o + 4 * ps.len() <= bin.len()
        &&& forall|k: int| 0 <= k < ps.len() ==> bin.subrange(o + 4 * k, o + 4 * k + 4) == le_u32((#[trigger] ps[k]).1)
    })
}

/// Accessor `o` reads, for each key of `ps`, its value for target `path` in
/// glTF's right-handed form: translation `[x, y, -z]`, scale `[x, y, z]`
/// unchanged, rotation `[w, x, y, z]` as `[x, y, -z, w]` (negation flips
/// the sign bit), tightly packed from the view's offset.
pub open spec fn values_read(bin: Seq<u8>, bvs: Seq<BufferView>, accs: Seq<Accessor>, o: int, path: TargetPath, ps: Seq<(Key, u32)>) -> bool {
    &&& 0 <= o < accs.len()
    &&& (accs[o].buffer_view as int) < bvs.len()
    &&& accs[o].count == ps.len()
    &&& accs[o].byte_offset is None
    &&& accs[o].kind == if path == TargetPath::Rotation { AccessorType::Vec4 } else { AccessorType::Vec3 }
    &&& ({
        let v = bvs[accs[o].buffer_view as int].byte_offset as int;
        &&& path == TargetPath::Translation ==> {
            &&& v + 12 * ps.len() <= bin.len()
            &&& forall|k: int| 0 <= k < ps.len() ==> bin.subrange(v + 12 * k, v + 12 * k + 12)
                == le_u32((#[trigger] ps[k]).0.position[0]) + le_u32(ps[k].0.position[1]) + le_u32(ps[k].0.position[2] ^ 0x8000_0000u32)
        }
        &&& path == TargetPath::Scale ==> {
            &&& v + 12 * ps.len() <= bin.len()
            &&& forall|k: int| 0 <= k < ps.len() ==> bin.subrange(v + 12 * k, v + 12 * k + 12)
                == le_u32((#[trigger] ps[k]).0.scale[0]) + le_u32(ps[k].0.scale[1]) + le_u32(ps[k].0.scale[2])
        }
        &&& path == TargetPath::Rotation ==> {
            &&& v + 16 * ps.len() <= bin.len()
            &&& forall|k: int| 0 <= k < ps.len() ==> bin.subrange(v + 16 * k, v + 16 * k + 16)
                == le_u32((#[trigger] ps[k]).0.rotation[1]) + le_u32(ps[k].0.rotation[2])
                    + le_u32(ps[k].0.rotation[3] ^ 0x8000_0000u32) + le_u32(ps[k].0.rotation[0])
        }
    })
}

/// Channel `ch` plays the keys `ps`: its sampler reads their times as input
/// and their values for the channel's target as output.
pub open spec fn channel_reads(bin: Seq<u8>, bvs: Seq<BufferView>, accs: Seq<Accessor>, samplers: Seq<Sampler>, ch: Channel, ps: Seq<(Key, u32)>) -> bool {
    &&& (ch.sampler as int) < samplers.len()
    &&& times_read(bin, bvs, accs, samplers[ch.sampler as int].input as int, ps)
    &&& values_read(bin, bvs, accs, samplers[ch.sampler as int].output as int, ch.path, ps)
}

proof fn lemma_times_read_prefix(b1: Seq<u8>, v1: Seq<BufferView>, a1: Seq<Accessor>, b2: Seq<u8>, v2: Seq<BufferView>, a2: Seq<Accessor>, t: int, ps: Seq<(Key, u32)>)
    requires
        times_read(b1, v1, a1, t, ps),
        prefix_of(b1, b2),
        prefix_of(v1, v2),
        prefix_of(a1, a2),
    ensures
        times_read(b2, v2, a2, t, ps),
{
    assert(a2[t] == a1[t]);
    assert(v2[a1[t].buffer_view as int] == v1[a1[t].buffer_view as int]);
    let o = v1[a1[t].buffer_view as int].byte_offset as int;
    assert forall|k: int| 0 <= k < ps.len() implies b2.subrange(o + 4 * k, o + 4 * k + 4) == le_u32((#[trigger] ps[k]).1) by {
        assert(b2.subrange(o + 4 * k, o + 4 * k + 4) =~= b1.subrange(o + 4 * k, o + 4 * k + 4));
    }
}

proof fn lemma_values_read_prefix(b1: Seq<u8>, v1: Seq<BufferView>, a1: Seq<Accessor>, b2: Seq<u8>, v2: Seq<BufferView>, a2: Seq<Accessor>, o: int, path: TargetPath, ps: Seq<(Key, u32)>)
    requires
        values_read(b1, v1, a1, o, path, ps),
        prefix_of(b1, b2),
        prefix_of(v1, v2),
        prefix_of(a1, a2),
    ensures
        values_read(b2, v2, a2, o, path, ps),
{
    assert(a2[o] == a1[o]);
    assert(v2[a1[o].buffer_view as int] == v1[a1[o].buffer_view as int]);
    let v = v1[a1[o].buffer_view as int].byte_offset as int;
    if path == TargetPath::Translation || path == TargetPath::Scale {
        assert forall|k: int| 0 <= k < ps.len() implies b2.subrange(v + 12 * k, v + 12 * k + 12) == b1.subrange(v + 12 * k, v + 12 * k + 12)
            && #[trigger] ps[k] == ps[k] by {
            assert(b2.subrange(v + 12 * k, v + 12 * k + 12) =~= b1.subrange(v + 12 * k, v + 12 * k + 12));
        }
    } else {
        assert forall|k: int| 0 <= k < ps.len() implies b2.subrange(v + 16 * k, v + 16 * k + 16) == b1.subrange(v + 16 * k, v + 16 * k + 16)
            && #[trigger] ps[k] == ps[k] by {
            assert(b2.subrange(v + 16 * k, v + 16 * k + 16) =~= b1.subrange(v + 16 * k, v + 16 * k + 16));
        }
    }
}

proof fn lemma_channel_reads_prefix(
    b1: Seq<u8>,
    v1: Seq<BufferView>,
    a1: Seq<Accessor>,
    s1: Seq<Sampler>,
    b2: Seq<u8>,
    v2: Seq<BufferView>,
    a2: Seq<Accessor>,
    s2: Seq<Sampler>,
    ch: Channel,
    ps: Seq<(Key, u32)>,
)
    requires
        channel_reads(b1, v1, a1, s1, ch, ps),
        prefix_of(b1, b2),
        prefix_of(v1, v2),
        prefix_of(a1, a2),
        prefix_of(s1, s2),
    ensures
        channel_reads(b2, v2, a2, s2, ch, ps),
{
    assert(s2[ch.sampler as int] == s1[ch.sampler as int]);
    let sm = s1[ch.sampler as int];
    lemma_times_read_prefix(b1, v1, a1, b2, v2, a2, sm.input as int, ps);
    lemma_values_read_prefix(b1, v1, a1, b2, v2, a2, sm.output as int, ch.path, ps);
}


/// Each stage of a non-empty track keeps its key times readable, and every
/// channel it adds animates `node` with the keys `ps`.
proof fn lemma_track_stage_reads(st: AnimState, node: int, ps: Seq<(Key, u32)>, flags: u32, c: nat)
    requires
        ps.len() > 0,
        c <= 3,
        0 <= node <= usize::MAX,
        fits(track_stage(st, node, ps, flags, c)),
        track_stage(st, node, ps, flags, c).0.len() <= usize::MAX,
    ensures
        times_read(track_stage(st, node, ps, flags, c).0, track_stage(st, node, ps, flags, c).1, track_stage(st, node, ps, flags, c).2, st.2.len() as int, ps),
        st.4.len() <= track_stage(st, node, ps, flags, c).4.len(),
        forall|i: int| st.4.len() <= i < track_stage(st, node, ps, flags, c).4.len() ==> {
            &&& (#[trigger] track_stage(st, node, ps, flags, c).4[i]).node as int == node
            &&& channel_reads(
                track_stage(st, node, ps, flags, c).0,
                track_stage(st, node, ps, flags, c).1,
                track_stage(st, node, ps, flags, c).2,
                track_stage(st, node, ps, flags, c).3,
                track_stage(st, node, ps, flags, c).4[i],
                ps,
            )
        },
    decreases c,
{
    let kc = ps.len() as int;
    lemma_track_stage(st, node, ps, flags, c);
    lemma_track_stage_extends(st, node, ps, flags, c);
    if c == 0 {
        let tms = ps.map_values(|p: (Key, u32)| p.1);
        lemma_u32s_bytes_layout(tms);
        let r = times_step(st, ps);
        let o = st.0.len() as int;
        assert(r.2[st.2.len() as int] == acc(st.1.len() as int, FLOAT, kc, AccessorType::Scalar));
        assert(r.1[st.1.len() as int] == bv(o, 4 * kc, 0, ARRAY_BUFFER));
        assert forall|k: int| 0 <= k < ps.len() implies r.0.subrange(o + 4 * k, o + 4 * k + 4) == le_u32((#[trigger] ps[k]).1) by {
            assert(tms[k] == ps[k].1);
            assert(r.0.subrange(o + 4 * k, o + 4 * k + 4) =~= u32s_bytes(tms).subrange(4 * k, 4 * k + 4));
        }
    } else {
        let k = c - 1;
        let s = track_stage(st, node, ps, flags, k as nat);
        let r = track_stage(st, node, ps, flags, c);
        lemma_track_stage(st, node, ps, flags, k as nat);
        lemma_track_stage_reads(st, node, ps, flags, k as nat);
        if channel_on(flags, k) {
            assert(extends(s, r));
            lemma_times_read_prefix(s.0, s.1, s.2, r.0, r.1, r.2, st.2.len() as int, ps);
            assert forall|i: int| st.4.len() <= i < s.4.len() implies {
                &&& (#[trigger] r.4[i]).node as int == node
                &&& channel_reads(r.0, r.1, r.2, r.3, r.4[i], ps)
            } by {
                assert(r.4[i] == s.4[i]);
                lemma_channel_reads_prefix(s.0, s.1, s.2, s.3, r.0, r.1, r.2, r.3, s.4[i], ps);
            }
            let o = s.0.len() as int;
            let ch = r.4[s.4.len() as int];
            assert(ch == Channel { sampler: s.3.len() as usize, node: node as usize, path: channel_path(k) });
            assert(r.3[s.3.len() as int] == Sampler { input: st.2.len() as usize, output: s.2.len() as usize });
            assert(r.2[s.2.len() as int] == acc(s.1.len() as int, FLOAT, kc, channel_kind(k)));
            assert(r.1[s.1.len() as int] == bv(o, channel_elem(k) * kc, channel_elem(k), ARRAY_BUFFER));
            assert(r.0 == s.0 + channel_bytes(ps, k));
            if k == 0 {
                let xs = ps.map_values(|p: (Key, u32)| p.0.position);
                lemma_vec3_neg_z_bytes_layout(xs);
                assert forall|j: int| 0 <= j < ps.len() implies r.0.subrange(o + 12 * j, o + 12 * j + 12)
                    == le_u32((#[trigger] ps[j]).0.position[0]) + le_u32(ps[j].0.position[1]) + le_u32(ps[j].0.position[2] ^ 0x8000_0000u32) by {
                    assert(xs[j] == ps[j].0.position);
                    assert(r.0.subrange(o + 12 * j, o + 12 * j + 12) =~= channel_bytes(ps, k).subrange(12 * j, 12 * j + 12));
                }
            } else if k == 1 {
                let xs = ps.map_values(|p: (Key, u32)| p.0.scale);
                lemma_vec3_bytes_layout(xs);
                assert forall|j: int| 0 <= j < ps.len() implies r.0.subrange(o + 12 * j, o + 12 * j + 12)
                    == le_u32((#[trigger] ps[j]).0.scale[0]) + le_u32(ps[j].0.scale[1]) + le_u32(ps[j].0.scale[2]) by {
                    assert(xs[j] == ps[j].0.scale);
                    assert(r.0.subrange(o + 12 * j, o + 12 * j + 12) =~= channel_bytes(ps, k).subrange(12 * j, 12 * j + 12));
                }
            } else {
                let xs = ps.map_values(|p: (Key, u32)| p.0.rotation);
                lemma_quat_bytes_layout(xs);
                assert forall|j: int| 0 <= j < ps.len() implies r.0.subrange(o + 16 * j, o + 16 * j + 16)
                    == le_u32((#[trigger] ps[j]).0.rotation[1]) + le_u32(ps[j].0.rotation[2])
                        + le_u32(ps[j].0.rotation[3] ^ 0x8000_0000u32) + le_u32(ps[j].0.rotation[0]) by {
                    assert(xs[j] == ps[j].0.rotation);
                    assert(r.0.subrange(o + 16 * j, o + 16 * j + 16) =~= channel_bytes(ps, k).subrange(16 * j, 16 * j + 16));
                }
            }
            assert(channel_reads(r.0, r.1, r.2, r.3, ch, ps));
        }
    }
}


/// Every channel of a clip animates one of the joints with that joint's
/// keys in the clip.
pub open spec fn clip_channels_read(st: AnimState, joints: Seq<JointInfo>, times: Seq<Vec<u32>>, clip: AnimClip) -> bool {
    forall|i: int| 0 <= i < st.4.len() ==> {
        &&& ((#[trigger] st.4[i]).node as int) < joints.len()
        &&& channel_reads(
            st.0,
            st.1,
            st.2,
            st.3,
            st.4[i],
            clip_keys(joints[st.4[i].node as int].keys@, times[st.4[i].node as int]@, clip.first_frame, clip.last_frame),
        )
    }
}

proof fn lemma_clip_tracks_reads(st: AnimState, joints: Seq<JointInfo>, times: Seq<Vec<u32>>, clip: AnimClip)
    requires
        st.4.len() == 0,
        times.len() == joints.len(),
        joints.len() <= usize::MAX,
        fits(clip_tracks(st, joints, times, clip)),
        clip_tracks(st, joints, times, clip).0.len() <= usize::MAX,
    ensures
        clip_channels_read(clip_tracks(st, joints, times, clip), joints, times, clip),
    decreases joints.len(),
{
    if joints.len() > 0 {
        let j = joints.len() - 1;
        let jd = joints.drop_last();
        let td = times.drop_last();
        let prev = clip_tracks(st, jd, td, clip);
        let ps = clip_keys(joints[j].keys@, times[j]@, clip.first_frame, clip.last_frame);
        let flags = joints[j].key_flags;
        let r = clip_tracks(st, joints, times, clip);
        assert(r == track_step(prev, j, ps, flags));
        lemma_track_step_grows(prev, j, ps, flags);
        lemma_clip_tracks_reads(st, jd, td, clip);
        assert forall|i: int| 0 <= i < prev.4.len() implies {
            &&& ((#[trigger] prev.4[i]).node as int) < joints.len()
            &&& channel_reads(
                prev.0,
                prev.1,
                prev.2,
                prev.3,
                prev.4[i],
                clip_keys(joints[prev.4[i].node as int].keys@, times[prev.4[i].node as int]@, clip.first_frame, clip.last_frame),
            )
        } by {
            let n = prev.4[i].node as int;
            assert(jd[n] == joints[n]);
            assert(td[n] == times[n]);
        }
        if ps.len() > 0 {
            lemma_track_stage_reads(prev, j, ps, flags, 3);
            lemma_track_stage_extends(prev, j, ps, flags, 3);
            assert forall|i: int| 0 <= i < r.4.len() implies {
                &&& ((#[trigger] r.4[i]).node as int) < joints.len()
                &&& channel_reads(
                    r.0,
                    r.1,
                    r.2,
                    r.3,
                    r.4[i],
                    clip_keys(joints[r.4[i].node as int].keys@, times[r.4[i].node as int]@, clip.first_frame, clip.last_frame),
                )
            } by {
                if i < prev.4.len() {
                    assert(r.4[i] == prev.4[i]);
                    let n = prev.4[i].node as int;
                    lemma_channel_reads_prefix(
                        prev.0, prev.1, prev.2, prev.3, r.0, r.1, r.2, r.3, prev.4[i],
                        clip_keys(joints[n].keys@, times[n]@, clip.first_frame, clip.last_frame),
                    );
                }
            }
        }
    }
}


/// Animation `av` plays clip `clip`: it has the clip's name, and each of its
/// channels animates one of the joints with that joint's keys in the clip
/// (`times_c[j]` holding the times of joint `j`'s keys).
pub open spec fn anim_reads(
    bin: Seq<u8>,
    bvs: Seq<BufferView>,
    accs: Seq<Accessor>,
    av: AnimValue,
    clip: AnimClip,
    joints: Seq<JointInfo>,
    times_c: Seq<Vec<u32>>,
) -> bool {
    &&& av.0 == clip.name@
    &&& forall|i: int| 0 <= i < av.1.len() ==> {
        &&& ((#[trigger] av.1[i]).node as int) < joints.len()
        &&& channel_reads(
            bin,
            bvs,
            accs,
            av.2,
            av.1[i],
            clip_keys(joints[av.1[i].node as int].keys@, times_c[av.1[i].node as int]@, clip.first_frame, clip.last_frame),
        )
    }
}

/// Animation `av` plays one of the clips (clip `c` with the key times
/// `times[c]`).
pub open spec fn plays_a_clip(
    bin: Seq<u8>,
    bvs: Seq<BufferView>,
    accs: Seq<Accessor>,
    av: AnimValue,
    clips: Seq<AnimClip>,
    joints: Seq<JointInfo>,
    times: Seq<Vec<Vec<u32>>>,
) -> bool {
    exists|ci: int| 0 <= ci < clips.len() && #[trigger] anim_reads(bin, bvs, accs, av, clips[ci], joints, times[ci]@)
}

/// Every animation built so far plays one of the clips.
pub open spec fn anims_read(st: AnimsState, clips: Seq<AnimClip>, joints: Seq<JointInfo>, times: Seq<Vec<Vec<u32>>>) -> bool {
    forall|a: int| 0 <= a < st.3.len() ==> plays_a_clip(st.0, st.1, st.2, #[trigger] st.3[a], clips, joints, times)
}

proof fn lemma_anim_reads_prefix(
    b1: Seq<u8>,
    v1: Seq<BufferView>,
    a1: Seq<Accessor>,
    b2: Seq<u8>,
    v2: Seq<BufferView>,
    a2: Seq<Accessor>,
    av: AnimValue,
    clip: AnimClip,
    joints: Seq<JointInfo>,
    times_c: Seq<Vec<u32>>,
)
    requires
        anim_reads(b1, v1, a1, av, clip, joints, times_c),
        prefix_of(b1, b2),
        prefix_of(v1, v2),
        prefix_of(a1, a2),
    ensures
        anim_reads(b2, v2, a2, av, clip, joints, times_c),
{
    assert forall|i: int| 0 <= i < av.1.len() implies {
        &&& ((#[trigger] av.1[i]).node as int) < joints.len()
        &&& channel_reads(
            b2,
            v2,
            a2,
            av.2,
            av.1[i],
            clip_keys(joints[av.1[i].node as int].keys@, times_c[av.1[i].node as int]@, clip.first_frame, clip.last_frame),
        )
    } by {
        let n = av.1[i].node as int;
        lemma_channel_reads_prefix(b1, v1, a1, av.2, b2, v2, a2, av.2, av.1[i], clip_keys(joints[n].keys@, times_c[n]@, clip.first_frame, clip.last_frame));
    }
}

proof fn lemma_anims_fold_reads(st: AnimsState, clips: Seq<AnimClip>, joints: Seq<JointInfo>, times: Seq<Vec<Vec<u32>>>)
    requires
        st.3.len() == 0,
        times.len() == clips.len(),
        forall|c: int| 0 <= c < clips.len() ==> (#[trigger] times[c])@.len() == joints.len(),
        joints.len() <= usize::MAX,
        anims_fold(st, clips, joints, times).0.len() <= usize::MAX,
        anims_fold(st, clips, joints, times).1.len() <= usize::MAX,
        anims_fold(st, clips, joints, times).2.len() <= usize::MAX,
        forall|k: int| 0 <= k < anims_fold(st, clips, joints, times).3.len() ==> (#[trigger] anims_fold(st, clips, joints, times).3[k]).2.len() <= usize::MAX,
    ensures
        anims_read(anims_fold(st, clips, joints, times), clips, joints, times),
    decreases clips.len(),
{
    if clips.len() > 0 {
        let c = clips.len() - 1;
        let cd = clips.drop_last();
        let td = times.drop_last();
        let prev = anims_fold(st, cd, joints, td);
        let t0: AnimState = (prev.0, prev.1, prev.2, Seq::empty(), Seq::empty());
        let t = clip_tracks(t0, joints, times[c]@, clips[c]);
        let r = anims_fold(st, clips, joints, times);
        crate::glb::lemma_padded(t.0, 0);
        lemma_clip_tracks_grows(t0, joints, times[c]@, clips[c]);
        lemma_clip_tracks_extends(t0, joints, times[c]@, clips[c]);
        lemma_clip_tracks_ok_len(t0, joints, times[c]@, clips[c]);
        assert(prefix_of(t.0, r.0)) by {
            assert forall|i: int| 0 <= i < t.0.len() implies #[trigger] r.0[i] == t.0[i] by {
                assert(padded(t.0, 0).take(t.0.len() as int)[i] == padded(t.0, 0)[i]);
            }
        }
        assert(prev.3.len() <= r.3.len());
        assert forall|k: int| 0 <= k < prev.3.len() implies (#[trigger] prev.3[k]).2.len() <= usize::MAX by {
            assert(r.3[k] == prev.3[k]);
        }
        assert forall|c2: int| 0 <= c2 < cd.len() implies (#[trigger] td[c2])@.len() == joints.len() by {
            assert(td[c2] == times[c2]);
        }
        lemma_anims_fold_reads(st, cd, joints, td);
        // the clip's own tracks
        assert(t.3.len() <= usize::MAX) by {
            if t.4.len() > 0 {
                assert(r.3[r.3.len() - 1].2 == t.3);
            }
        }
        lemma_clip_tracks_reads(t0, joints, times[c]@, clips[c]);
        assert forall|a: int| 0 <= a < r.3.len() implies plays_a_clip(r.0, r.1, r.2, #[trigger] r.3[a], clips, joints, times) by {
            if a < prev.3.len() {
                assert(plays_a_clip(prev.0, prev.1, prev.2, prev.3[a], cd, joints, td));
                let ci = choose|ci: int| 0 <= ci < cd.len() && #[trigger] anim_reads(prev.0, prev.1, prev.2, prev.3[a], cd[ci], joints, td[ci]@);
                assert(cd[ci] == clips[ci] && td[ci] == times[ci]);
                assert(r.3[a] == prev.3[a]);
                lemma_anim_reads_prefix(prev.0, prev.1, prev.2, r.0, r.1, r.2, prev.3[a], clips[ci], joints, times[ci]@);
                assert(anim_reads(r.0, r.1, r.2, r.3[a], clips[ci], joints, times[ci]@));
            } else {
                let av = r.3[a];
                assert(av == (clips[c].name@, t.4, t.3));
                assert forall|i: int| 0 <= i < av.1.len() implies {
                    &&& ((#[trigger] av.1[i]).node as int) < joints.len()
                    &&& channel_reads(
                        r.0,
                        r.1,
                        r.2,
                        av.2,
                        av.1[i],
                        clip_keys(joints[av.1[i].node as int].keys@, times[c]@[av.1[i].node as int]@, clips[c].first_frame, clips[c].last_frame),
                    )
                } by {
                    let n = t.4[i].node as int;
                    assert(t.4[i] == av.1[i]);
                    lemma_channel_reads_prefix(
                        t.0, t.1, t.2, t.3, r.0, r.1, r.2, t.3, t.4[i],
                        clip_keys(joints[n].keys@, times[c]@[n]@, clips[c].first_frame, clips[c].last_frame),
                    );
                }
                assert(anim_reads(r.0, r.1, r.2, r.3[a], clips[c], joints, times[c]@));
            }
        }
        assert(anims_read(r, clips, joints, times));
    }
}

/// Every animation of the document plays one of the clips: it has the
/// clip's name, and each of its channels animates a joint with that
/// joint's keys in the clip. Its sampler reads the keys' times and, for
/// each key, the key's value in glTF's right-handed form: translation
/// `[x, y, -z]`, scale unchanged, and rotation `[w, x, y, z]` written as
/// `[x, y, -z, w]` (negation flips the sign bit).
pub proof fn lemma_animation_keys(
    mesh: MeshData,
    joints: Seq<JointInfo>,
    clips: Seq<AnimClip>,
    brush_map: Map<u32, usize>,
    n_brushes: int,
    materials: Seq<Material>,
    images: Seq<Seq<u8>>,
    ibms: Seq<[u32; 16]>,
    bounds: ([u32; 3], [u32; 3]),
    times: Seq<Vec<Vec<u32>>>,
    doc: Document,
    bin: Seq<u8>,
)
    requires
        gltf_matches(mesh, joints, clips, brush_map, n_brushes, materials, images, ibms, bounds, times, doc, bin),
        bin.len() <= usize::MAX,
        times_fit(times, clips.len() as int, joints),
    ensures
        forall|a: int| 0 <= a < doc.animations@.len() ==> plays_a_clip(
            bin,
            doc.buffer_views@,
            doc.accessors@,
            anim_value(#[trigger] doc.animations@[a]),
            clips,
            joints,
            times,
        ),
{
    let skin = has_skin_spec(mesh, joints);
    let g = geometry_and_skin(mesh, skin, bounds, ibms);
    let st0: AnimsState = (g.0, g.1, g.2, Seq::empty());
    let f = anims_fold(st0, clips, joints, times);
    let im = images_fold(f.0, f.1, images);
    lemma_images_fold_extends(f.0, f.1, images);
    assert(doc.buffer_views@.len() == doc.buffer_views.len());
    assert(doc.accessors@.len() == doc.accessors.len());
    assert(doc.nodes@.len() == doc.nodes.len());
    assert(joints.len() <= usize::MAX) by {
        if joints.len() > 0 {
            assert(doc.nodes@.len() == joints.len());
        }
    }
    let anims_view = doc.animations@.map_values(|x: GltfAnimation| anim_value(x));
    assert(anims_view == f.3);
    assert forall|k: int| 0 <= k < f.3.len() implies (#[trigger] f.3[k]).2.len() <= usize::MAX by {
        assert(anims_view[k] == f.3[k]);
        assert(doc.animations@[k].samplers@.len() == doc.animations@[k].samplers.len());
    }
    assert forall|c: int| 0 <= c < clips.len() implies (#[trigger] times[c])@.len() == joints.len() by {}
    lemma_anims_fold_reads(st0, clips, joints, times);
    assert forall|a: int| 0 <= a < doc.animations@.len() implies plays_a_clip(
        bin,
        doc.buffer_views@,
        doc.accessors@,
        anim_value(#[trigger] doc.animations@[a]),
        clips,
        joints,
        times,
    ) by {
        assert(anims_view[a] == f.3[a]);
        assert(plays_a_clip(f.0, f.1, f.2, f.3[a], clips, joints, times));
        let ci = choose|ci: int| 0 <= ci < clips.len() && #[trigger] anim_reads(f.0, f.1, f.2, f.3[a], clips[ci], joints, times[ci]@);
        lemma_anim_reads_prefix(f.0, f.1, f.2, bin, doc.buffer_views@, doc.accessors@, f.3[a], clips[ci], joints, times[ci]@);
        assert(anim_reads(bin, doc.buffer_views@, doc.accessors@, anim_value(doc.animations@[a]), clips[ci], joints, times[ci]@));
    }
}

} // verus!
