//! The parsed Blitz3D model and the extraction of mesh, skeleton and
//! animation clips from it.
//!
//! Single-precision values are held as their IEEE-754 bit patterns.
use vstd::prelude::*;
use vstd::string::StringExecFns;

verus! {

/// A texture entry of the `TEXS` chunk. The conversion reads its file name
/// and flags; the blend mode is carried along but not used.
#[derive(Clone, Debug)]
pub struct Texture {
    /// File name as stored in the model (often with a `./` or `.\` prefix).
    pub file: String,
    pub flags: u32,
    pub blend: u32,
}

/// A brush (material) entry of the `BRUS` chunk.
#[derive(Clone, Debug)]
pub struct Brush {
    pub name: String,
    /// RGBA colour, as bit patterns.
    pub color: [u32; 4],
    /// Indices into the texture list, one per texture layer.
    pub texture_id: Vec<u32>,
}

/// One vertex of the `VRTS` chunk.
#[derive(Clone, Copy, Debug)]
pub struct Vertex {
    pub position: [u32; 3],
    pub normal: [u32; 3],
    pub tex_coords: [u32; 2],
}

/// A `TRIS` chunk: triangles that share a brush.
#[derive(Clone, Debug)]
pub struct Tris {
    pub brush_id: u32,
    pub indices: Vec<[u32; 3]>,
}

/// The `MESH` chunk of a node.
#[derive(Clone, Debug)]
pub struct Mesh {
    pub vertices: Vec<Vertex>,
    pub triangles: Vec<Tris>,
}

/// One entry of a `BONE` chunk: a vertex influenced by the node.
#[derive(Clone, Copy, Debug)]
pub struct Bone {
    pub vertex_id: u32,
    pub weight: u32,
}

/// One keyframe of a `KEYS` chunk.
#[derive(Clone, Copy, Debug)]
pub struct Key {
    pub frame: u32,
    pub position: [u32; 3],
    pub scale: [u32; 3],
    /// `[w, x, y, z]`
    pub rotation: [u32; 4],
}

/// The `ANIM` chunk.
#[derive(Clone, Copy, Debug)]
pub struct Animation {
    pub frames: u32,
    pub fps: u32,
}

/// A `SEQS` chunk: a named frame range.
#[derive(Clone, Debug)]
pub struct Sequence {
    pub name: String,
    pub first_frame: u32,
    pub last_frame: u32,
}

/// A `NODE` chunk with its children.
#[derive(Debug)]
pub struct Node {
    pub name: String,
    pub position: [u32; 3],
    pub scale: [u32; 3],
    /// `[w, x, y, z]`
    pub rotation: [u32; 4],
    pub mesh: Mesh,
    pub bones: Vec<Bone>,
    pub key_flags: u32,
    pub keys: Vec<Key>,
    pub children: Vec<Node>,
    pub animation: Animation,
    pub sequences: Vec<Sequence>,
}

/// A parsed `.b3d` file.
#[derive(Debug)]
pub struct B3D {
    pub textures: Vec<Texture>,
    pub brushes: Vec<Brush>,
    pub node: Node,
}

/// Per-vertex skinning data (B3D stores at most one bone per vertex).
#[derive(Clone, Copy, Debug)]
pub struct BoneWeight {
    pub joint_idx: u32,
    pub weight: u32,
}

/// A group of triangle indices sharing a material (brush).
#[derive(Clone, Debug)]
pub struct TriGroup {
    pub brush_id: u32,
    pub indices: Vec<u32>,
}

/// Extracted mesh data from a B3D node.
#[derive(Clone, Debug)]
pub struct MeshData {
    pub positions: Vec<[u32; 3]>,
    pub normals: Vec<[u32; 3]>,
    pub uvs: Vec<[u32; 2]>,
    pub tri_groups: Vec<TriGroup>,
    pub skin: Vec<Option<BoneWeight>>,
}

/// One joint (bone) in the skeleton hierarchy.
#[derive(Clone, Debug)]
pub struct JointInfo {
    pub name: String,
    /// Local bind-pose translation (B3D coordinates).
    pub position: [u32; 3],
    /// Local bind-pose scale.
    pub scale: [u32; 3],
    /// Local bind-pose rotation quaternion (B3D: `[w, x, y, z]`).
    pub rotation: [u32; 4],
    /// Index of the parent joint in the flattened array, or `None` for a root.
    pub parent: Option<usize>,
    /// Key flags bitmask: 1 = position, 2 = scale, 4 = rotation.
    pub key_flags: u32,
    pub keys: Vec<Key>,
}

/// A named animation clip derived from B3D sequences.
#[derive(Clone, Debug)]
pub struct AnimClip {
    pub name: String,
    pub fps: u32,
    pub first_frame: u32,
    pub last_frame: u32,
}

// ---------------------------------------------------------------------------
// Mesh
// ---------------------------------------------------------------------------

/// Triangle indices with the winding reversed (`[a, b, c]` becomes `a, c, b`),
/// which turns left-handed faces into right-handed ones.
pub open spec fn flipped_indices(tris: Seq<[u32; 3]>) -> Seq<u32> {
    Seq::new(3 * tris.len(), |k: int|
        if k % 3 == 0 { tris[k / 3][0] } else if k % 3 == 1 { tris[k / 3][2] } else { tris[k / 3][1] })
}

/// The geometry extracted from a model: one entry per vertex and one
/// triangle group per `TRIS` chunk.
pub open spec fn geometry_matches(b3d: B3D, m: MeshData) -> bool {
    let verts = b3d.node.mesh.vertices@;
    let tris = b3d.node.mesh.triangles@;
    &&& m.positions@ == verts.map_values(|v: Vertex| v.position)
    &&& m.normals@ == verts.map_values(|v: Vertex| v.normal)
    &&& m.uvs@ == verts.map_values(|v: Vertex| v.tex_coords)
    &&& m.tri_groups@.len() == tris.len()
    &&& forall|i: int| 0 <= i < tris.len() ==> {
        &&& (#[trigger] m.tri_groups@[i]).brush_id == tris[i].brush_id
        &&& m.tri_groups@[i].indices@ == flipped_indices(tris[i].indices@)
    }
}

/// The mesh extracted from a model: its geometry, and no skinning yet.
pub open spec fn mesh_matches(b3d: B3D, m: MeshData) -> bool {
    &&& geometry_matches(b3d, m)
    &&& m.skin@ == Seq::new(b3d.node.mesh.vertices@.len(), |i: int| None::<BoneWeight>)
}

fn flip_triangles(tris: &Vec<[u32; 3]>) -> (r: Vec<u32>)
    ensures
        r@ == flipped_indices(tris@),
{
    let mut indices: Vec<u32> = Vec::new();
    let mut i: usize = 0;
    while i < tris.len()
        invariant
            i <= tris@.len(),
            indices@ == flipped_indices(tris@.take(i as int)),
        decreases tris@.len() - i,
    {
        let t = tris[i];
        indices.push(t[0]);
        indices.push(t[2]);
        indices.push(t[1]);
        i = i + 1;
        assert(indices@ =~= flipped_indices(tris@.take(i as int)));
    }
    assert(tris@.take(i as int) =~= tris@);
    indices
}

/// Extract mesh geometry from a parsed B3D file.
pub fn collect_mesh(b3d: &B3D) -> (r: MeshData)
    ensures
        mesh_matches(*b3d, r),
{
    let verts = &b3d.node.mesh.vertices;
    let mut positions: Vec<[u32; 3]> = Vec::new();
    let mut normals: Vec<[u32; 3]> = Vec::new();
    let mut uvs: Vec<[u32; 2]> = Vec::new();
    let mut skin: Vec<Option<BoneWeight>> = Vec::new();
    let mut i: usize = 0;
    while i < verts.len()
        invariant
            i <= verts@.len(),
            positions@ == verts@.take(i as int).map_values(|v: Vertex| v.position),
            normals@ == verts@.take(i as int).map_values(|v: Vertex| v.normal),
            uvs@ == verts@.take(i as int).map_values(|v: Vertex| v.tex_coords),
            skin@ == Seq::new(i as nat, |k: int| None::<BoneWeight>),
        decreases verts@.len() - i,
    {
        let v = verts[i];
        positions.push(v.position);
        normals.push(v.normal);
        uvs.push(v.tex_coords);
        skin.push(None);
        i = i + 1;
        assert(positions@ =~= verts@.take(i as int).map_values(|v: Vertex| v.position));
        assert(normals@ =~= verts@.take(i as int).map_values(|v: Vertex| v.normal));
        assert(uvs@ =~= verts@.take(i as int).map_values(|v: Vertex| v.tex_coords));
        assert(skin@ =~= Seq::new(i as nat, |k: int| None::<BoneWeight>));
    }
    assert(verts@.take(i as int) =~= verts@);

    let tris = &b3d.node.mesh.triangles;
    let mut tri_groups: Vec<TriGroup> = Vec::new();
    let mut j: usize = 0;
    while j < tris.len()
        invariant
            j <= tris@.len(),
            tri_groups@.len() == j,
            forall|k: int| 0 <= k < j ==> {
                &&& (#[trigger] tri_groups@[k]).brush_id == tris@[k].brush_id
                &&& tri_groups@[k].indices@ == flipped_indices(tris@[k].indices@)
            },
        decreases tris@.len() - j,
    {
        let indices = flip_triangles(&tris[j].indices);
        tri_groups.push(TriGroup { brush_id: tris[j].brush_id, indices });
        j = j + 1;
    }
    MeshData { positions, normals, uvs, tri_groups, skin }
}

// ---------------------------------------------------------------------------
// Animation clips
// ---------------------------------------------------------------------------

/// The clips of a node: one per sequence, or a single `"default"` clip over
/// all frames when there are no sequences and more than one frame.
pub open spec fn anims_match(node: Node, r: Seq<AnimClip>) -> bool {
    let seqs = node.sequences@;
    if seqs.len() > 0 {
        &&& r.len() == seqs.len()
        &&& forall|i: int| 0 <= i < seqs.len() ==> {
            &&& (#[trigger] r[i]).name@ == seqs[i].name@
            &&& r[i].fps == node.animation.fps
            &&& r[i].first_frame == seqs[i].first_frame
            &&& r[i].last_frame == seqs[i].last_frame
        }
    } else if node.animation.frames > 1 {
        &&& r.len() == 1
        &&& r[0].name@ == "default"@
        &&& r[0].fps == node.animation.fps
        &&& r[0].first_frame == 0
        &&& r[0].last_frame == node.animation.frames - 1
    } else {
        r.len() == 0
    }
}

/// Collect named animation clips from the B3D node tree.
pub fn collect_anims(node: &Node) -> (r: Vec<AnimClip>)
    ensures
        anims_match(*node, r@),
{
    let mut anims: Vec<AnimClip> = Vec::new();
    if node.sequences.len() > 0 {
        let mut i: usize = 0;
        while i < node.sequences.len()
            invariant
                i <= node.sequences@.len(),
                anims@.len() == i,
                forall|k: int| 0 <= k < i ==> {
                    &&& (#[trigger] anims@[k]).name@ == node.sequences@[k].name@
                    &&& anims@[k].fps == node.animation.fps
                    &&& anims@[k].first_frame == node.sequences@[k].first_frame
                    &&& anims@[k].last_frame == node.sequences@[k].last_frame
                },
            decreases node.sequences@.len() - i,
        {
            let seq = &node.sequences[i];
            anims.push(AnimClip {
                name: seq.name.clone(),
                fps: node.animation.fps,
                first_frame: seq.first_frame,
                last_frame: seq.last_frame,
            });
            i = i + 1;
        }
    } else if node.animation.frames > 1 {
        anims.push(AnimClip {
            name: String::from_str("default"),
            fps: node.animation.fps,
            first_frame: 0,
            last_frame: node.animation.frames - 1,
        });
    }
    anims
}


// ---------------------------------------------------------------------------
// Skeleton
// ---------------------------------------------------------------------------

/// Number of nodes in the tree rooted at `n`.
pub open spec fn subtree_size(n: Node) -> nat
    decreases n,
{
    1 + forest_size(n.children@)
}

/// Number of nodes in a sequence of trees.
pub open spec fn forest_size(s: Seq<Node>) -> nat
    decreases s,
{
    if s.len() == 0 {
        0
    } else {
        forest_size(s.drop_last()) + subtree_size(s.last())
    }
}

/// `j` is the joint recorded for node `n` under `parent`.
pub open spec fn joint_of(n: Node, parent: Option<usize>, j: JointInfo) -> bool {
    &&& j.name@ == n.name@
    &&& j.position == n.position
    &&& j.scale == n.scale
    &&& j.rotation == n.rotation
    &&& j.parent == parent
    &&& j.key_flags == n.key_flags
    &&& j.keys@ == n.keys@
}

/// From index `start` on, `js` holds the tree rooted at `n` in pre-order:
/// `n` itself with parent `parent`, then each child's subtree in turn, each
/// child pointing at `start`.
pub open spec fn tree_laid_out(js: Seq<JointInfo>, start: int, n: Node, parent: Option<usize>) -> bool
    decreases n,
{
    &&& 0 <= start
    &&& start + subtree_size(n) <= js.len()
    &&& joint_of(n, parent, js[start])
    &&& forest_laid_out(js, start + 1, n.children@, start)
}

/// From index `start` on, `js` holds the trees of `s` one after the other in
/// pre-order, their roots pointing at `parent`.
pub open spec fn forest_laid_out(js: Seq<JointInfo>, start: int, s: Seq<Node>, parent: int) -> bool
    decreases s,
{
    if s.len() == 0 {
        true
    } else {
        &&& forest_laid_out(js, start, s.drop_last(), parent)
        &&& tree_laid_out(js, start + forest_size(s.drop_last()), s.last(), Some(parent as usize))
    }
}

/// The last bone of `bones` that names vertex `v`.
pub open spec fn last_bone(bones: Seq<Bone>, v: int) -> Option<Bone>
    decreases bones.len(),
{
    if bones.len() == 0 {
        None
    } else if bones.last().vertex_id == v {
        Some(bones.last())
    } else {
        last_bone(bones.drop_last(), v)
    }
}

/// The binding of vertex `v` after the bones of node `n` (joint `idx`) are
/// applied to `prev`.
pub open spec fn node_assign(n: Node, idx: int, v: int, prev: Option<(usize, u32)>) -> Option<(usize, u32)> {
    match last_bone(n.bones@, v) {
        Some(b) => Some((idx as usize, b.weight)),
        None => prev,
    }
}

/// The binding of vertex `v` after the whole tree rooted at `n`, laid out from
/// joint `start` on, is applied to `prev`: the last bone in pre-order that
/// names `v` wins.
pub open spec fn tree_assign(n: Node, start: int, v: int, prev: Option<(usize, u32)>) -> Option<(usize, u32)>
    decreases n,
{
    forest_assign(n.children@, start + 1, v, node_assign(n, start, v, prev))
}

/// `tree_assign` over a sequence of trees laid out one after the other.
pub open spec fn forest_assign(s: Seq<Node>, start: int, v: int, prev: Option<(usize, u32)>) -> Option<(usize, u32)>
    decreases s,
{
    if s.len() == 0 {
        prev
    } else {
        tree_assign(s.last(), start + forest_size(s.drop_last()), v, forest_assign(s.drop_last(), start, v, prev))
    }
}

/// A tree is at least as large as each of its children's subtrees plus one.
proof fn lemma_forest_size_take(s: Seq<Node>, k: int)
    requires
        0 <= k < s.len(),
    ensures
        forest_size(s.take(k + 1)) == forest_size(s.take(k)) + subtree_size(s[k]),
        forest_size(s.take(k + 1)) <= forest_size(s),
    decreases s.len(),
{
    assert(s.take(k + 1).drop_last() =~= s.take(k));
    if k + 1 < s.len() {
        lemma_forest_size_take(s.drop_last(), k);
        assert(s.drop_last().take(k + 1) =~= s.take(k + 1));
        assert(s.drop_last().take(k) =~= s.take(k));
    } else {
        assert(s.take(k + 1) =~= s);
    }
}

/// Entries that later pushes leave alone keep describing the same trees.
proof fn lemma_laid_out_prefix(js: Seq<JointInfo>, js2: Seq<JointInfo>, start: int, n: Node, parent: Option<usize>)
    requires
        tree_laid_out(js, start, n, parent),
        js.len() <= js2.len(),
        forall|i: int| 0 <= i < js.len() ==> js2[i] == js[i],
    ensures
        tree_laid_out(js2, start, n, parent),
    decreases n,
{
    lemma_forest_laid_out_prefix(js, js2, start + 1, n.children@, start);
}

proof fn lemma_forest_laid_out_prefix(js: Seq<JointInfo>, js2: Seq<JointInfo>, start: int, s: Seq<Node>, parent: int)
    requires
        forest_laid_out(js, start, s, parent),
        js.len() <= js2.len(),
        forall|i: int| 0 <= i < js.len() ==> js2[i] == js[i],
    ensures
        forest_laid_out(js2, start, s, parent),
    decreases s,
{
    if s.len() > 0 {
        lemma_forest_laid_out_prefix(js, js2, start, s.drop_last(), parent);
        lemma_laid_out_prefix(js, js2, start + forest_size(s.drop_last()), s.last(), Some(parent as usize));
    }
}

/// Traverse the node tree in pre-order, appending one joint per node and
/// binding each vertex `< vcount` named by a node's bones to that node's
/// joint (with the bone's weight). Later bindings replace earlier ones.
pub fn collect_joints(
    node: &Node,
    parent: Option<usize>,
    joints: &mut Vec<JointInfo>,
    vertex_joint: &mut Vec<Option<(usize, u32)>>,
    vcount: usize,
)
    requires
        vcount <= old(vertex_joint)@.len(),
    ensures
        final(joints)@.len() == old(joints)@.len() + subtree_size(*node),
        forall|i: int| 0 <= i < old(joints)@.len() ==> final(joints)@[i] == old(joints)@[i],
        tree_laid_out(final(joints)@, old(joints)@.len() as int, *node, parent),
        final(vertex_joint)@.len() == old(vertex_joint)@.len(),
        forall|v: int| 0 <= v < old(vertex_joint)@.len() ==> #[trigger] final(vertex_joint)@[v] == if v < vcount {
            tree_assign(*node, old(joints)@.len() as int, v, old(vertex_joint)@[v])
        } else {
            old(vertex_joint)@[v]
        },
    decreases subtree_size(*node),
{
    let idx = joints.len();
    let mut keys: Vec<Key> = Vec::new();
    let mut k: usize = 0;
    while k < node.keys.len()
        invariant
            k <= node.keys@.len(),
            keys@ == node.keys@.take(k as int),
        decreases node.keys@.len() - k,
    {
        keys.push(node.keys[k]);
        k = k + 1;
        assert(keys@ =~= node.keys@.take(k as int));
    }
    assert(node.keys@.take(k as int) =~= node.keys@);
    joints.push(JointInfo {
        name: node.name.clone(),
        position: node.position,
        scale: node.scale,
        rotation: node.rotation,
        parent,
        key_flags: node.key_flags,
        keys,
    });
    assert(joint_of(*node, parent, joints@[idx as int]));
    assert(forall|i: int| 0 <= i < old(joints)@.len() ==> joints@[i] == old(joints)@[i]);

    let ghost vj0 = vertex_joint@;
    let mut b: usize = 0;
    while b < node.bones.len()
        invariant
            b <= node.bones@.len(),
            vcount <= vj0.len(),
            vertex_joint@.len() == vj0.len(),
            forall|v: int| 0 <= v < vj0.len() ==> #[trigger] vertex_joint@[v] == if v < vcount {
                match last_bone(node.bones@.take(b as int), v) {
                    Some(bn) => Some((idx, bn.weight)),
                    None => vj0[v],
                }
            } else {
                vj0[v]
            },
        decreases node.bones@.len() - b,
    {
        let bone = node.bones[b];
        let vi = bone.vertex_id as usize;
        if vi < vcount {
            vertex_joint.set(vi, Some((idx, bone.weight)));
        }
        b = b + 1;
        assert(node.bones@.take(b as int).drop_last() =~= node.bones@.take(b as int - 1));
    }
    assert(node.bones@.take(b as int) =~= node.bones@);

    let ghost js1 = joints@;
    let ghost vj1 = vertex_joint@;
    let mut c: usize = 0;
    while c < node.children.len()
        invariant
            c <= node.children@.len(),
            vcount <= vj0.len(),
            idx == js1.len() - 1,
            joints@.len() == js1.len() + forest_size(node.children@.take(c as int)),
            forall|i: int| 0 <= i < js1.len() ==> joints@[i] == js1[i],
            forest_laid_out(joints@, idx + 1, node.children@.take(c as int), idx as int),
            vertex_joint@.len() == vj0.len(),
            forall|v: int| 0 <= v < vj0.len() ==> #[trigger] vertex_joint@[v] == if v < vcount {
                forest_assign(node.children@.take(c as int), idx + 1, v, vj1[v])
            } else {
                vj0[v]
            },
            forall|v: int| 0 <= v < vj0.len() ==> #[trigger] vj1[v] == if v < vcount {
                node_assign(*node, idx as int, v, vj0[v])
            } else {
                vj0[v]
            },
        decreases node.children@.len() - c,
    {
        proof {
            lemma_forest_size_take(node.children@, c as int);
        }
        let ghost before = joints@;
        let ghost vjb = vertex_joint@;
        collect_joints(&node.children[c], Some(idx), joints, vertex_joint, vcount);
        proof {
            let s = node.children@.take(c as int + 1);
            assert(s.drop_last() =~= node.children@.take(c as int));
            assert(s.last() == node.children@[c as int]);
            lemma_forest_laid_out_prefix(before, joints@, idx + 1, node.children@.take(c as int), idx as int);
        }
        c = c + 1;
    }
    assert(node.children@.take(c as int) =~= node.children@);
    assert(joint_of(*node, parent, joints@[idx as int]));
    assert(tree_laid_out(joints@, idx as int, *node, parent));
}


// ---------------------------------------------------------------------------
// Whole model
// ---------------------------------------------------------------------------

/// Mesh, skeleton and clips of a model that has geometry.
#[derive(Debug)]
pub struct ModelParts {
    pub mesh: MeshData,
    pub joints: Vec<JointInfo>,
    pub clips: Vec<AnimClip>,
}

/// The skin entry of vertex `v`: the joint of the last bone (in pre-order)
/// that names it, with that bone's weight.
pub open spec fn skin_entry(node: Node, v: int) -> Option<BoneWeight> {
    match tree_assign(node, 0, v, None) {
        Some((ji, w)) => Some(BoneWeight { joint_idx: ji as u32, weight: w }),
        None => None,
    }
}

/// `parts` is what a model yields: its mesh with each vertex bound to its
/// bone, its joints in pre-order, and its clips.
pub open spec fn parts_match(b3d: B3D, parts: ModelParts) -> bool {
    let vc = b3d.node.mesh.vertices@.len();
    &&& geometry_matches(b3d, parts.mesh)
    &&& parts.mesh.skin@ == Seq::new(vc, |v: int| skin_entry(b3d.node, v))
    &&& parts.joints@.len() == subtree_size(b3d.node)
    &&& tree_laid_out(parts.joints@, 0, b3d.node, None)
    &&& anims_match(b3d.node, parts.clips@)
}

/// Extract the mesh (with skinning), skeleton and clips of a model; `None`
/// when the model has no vertices, as such a file is skipped.
pub fn prepare_model(b3d: &B3D) -> (r: Option<ModelParts>)
    ensures
        r is None <==> b3d.node.mesh.vertices@.len() == 0,
        r matches Some(parts) ==> parts_match(*b3d, parts),
{
    let vcount = b3d.node.mesh.vertices.len();
    if vcount == 0 {
        return None;
    }
    let mut joints: Vec<JointInfo> = Vec::new();
    let mut vertex_joint: Vec<Option<(usize, u32)>> = Vec::new();
    let mut i: usize = 0;
    while i < vcount
        invariant
            i <= vcount,
            vertex_joint@ == Seq::new(i as nat, |k: int| None::<(usize, u32)>),
        decreases vcount - i,
    {
        vertex_joint.push(None);
        i = i + 1;
        assert(vertex_joint@ =~= Seq::new(i as nat, |k: int| None::<(usize, u32)>));
    }
    collect_joints(&b3d.node, None, &mut joints, &mut vertex_joint, vcount);

    let mut mesh = collect_mesh(b3d);
    let mut skin: Vec<Option<BoneWeight>> = Vec::new();
    let mut v: usize = 0;
    while v < vcount
        invariant
            v <= vcount,
            vcount == b3d.node.mesh.vertices@.len(),
            vertex_joint@.len() == vcount,
            forall|k: int| 0 <= k < vcount ==> #[trigger] vertex_joint@[k] == tree_assign(b3d.node, 0, k, None),
            skin@ == Seq::new(v as nat, |k: int| skin_entry(b3d.node, k)),
        decreases vcount - v,
    {
        let entry = match vertex_joint[v] {
            Some((ji, w)) => Some(BoneWeight { joint_idx: ji as u32, weight: w }),
            None => None,
        };
        skin.push(entry);
        v = v + 1;
        assert(skin@ =~= Seq::new(v as nat, |k: int| skin_entry(b3d.node, k)));
    }
    mesh.skin = skin;
    let clips = collect_anims(&b3d.node);
    Some(ModelParts { mesh, joints, clips })
}

// ---------------------------------------------------------------------------
// Laws of the skeleton
// ---------------------------------------------------------------------------

proof fn lemma_tree_parents(js: Seq<JointInfo>, start: int, n: Node, parent: Option<usize>)
    requires
        tree_laid_out(js, start, n, parent),
        js.len() <= usize::MAX,
    ensures
        js[start].parent == parent,
        0 <= start,
        start + subtree_size(n) <= js.len(),
        forall|i: int| start < i < start + subtree_size(n) ==> ((#[trigger] js[i].parent) is Some && start <= js[i].parent->0 < i),
    decreases n,
{
    lemma_forest_parents(js, start + 1, n.children@, start);
}

proof fn lemma_forest_parents(js: Seq<JointInfo>, start: int, s: Seq<Node>, parent: int)
    requires
        forest_laid_out(js, start, s, parent),
        js.len() <= usize::MAX,
        0 <= parent < start,
    ensures
        forall|i: int| start <= i < start + forest_size(s) ==> ((#[trigger] js[i].parent) is Some && (js[i].parent->0 == parent || (start <= js[i].parent->0 < i))),
    decreases s,
{
    if s.len() > 0 {
        lemma_forest_parents(js, start, s.drop_last(), parent);
        let m = start + forest_size(s.drop_last());
        lemma_tree_parents(js, m, s.last(), Some(parent as usize));
        assert forall|i: int| start <= i < start + forest_size(s) implies ((#[trigger] js[i].parent) is Some && (js[i].parent->0 == parent || (start <= js[i].parent->0 < i))) by {
            assert(m + subtree_size(s.last()) == start + forest_size(s));
            assert(i < js.len());
            if i >= m {
                if i == m {
                    assert(js[m].parent == Some(parent as usize));
                    assert(js[i].parent->0 == parent);
                } else {
                    assert(m < i < m + subtree_size(s.last()));
                    assert(js[i].parent is Some && m <= js[i].parent->0 < i);
                }
            } else {
                assert(js[i].parent is Some && (js[i].parent->0 == parent || (start <= js[i].parent->0 < i)));
            }
        }
    }
}

/// The joints of a model come in pre-order: the first is the only root and
/// every other joint's parent comes before it.
pub proof fn lemma_parents_precede(node: Node, js: Seq<JointInfo>)
    requires
        js.len() == subtree_size(node),
        js.len() <= usize::MAX,
        tree_laid_out(js, 0, node, None),
    ensures
        js[0].parent is None,
        forall|i: int| 0 < i < js.len() ==> ((#[trigger] js[i].parent) is Some && js[i].parent->0 < i),
{
    lemma_tree_parents(js, 0, node, None);
}

proof fn lemma_tree_assign_range(n: Node, start: int, v: int, prev: Option<(usize, u32)>)
    requires
        0 <= start,
        start + subtree_size(n) <= usize::MAX + 1,
    ensures
        tree_assign(n, start, v, prev) == prev
            || (tree_assign(n, start, v, prev) matches Some((j, w)) && start <= j < start + subtree_size(n)),
    decreases n,
{
    lemma_forest_assign_range(n.children@, start + 1, v, node_assign(n, start, v, prev));
}

proof fn lemma_forest_assign_range(s: Seq<Node>, start: int, v: int, prev: Option<(usize, u32)>)
    requires
        0 <= start,
        start + forest_size(s) <= usize::MAX + 1,
    ensures
        forest_assign(s, start, v, prev) == prev
            || (forest_assign(s, start, v, prev) matches Some((j, w)) && start <= j < start + forest_size(s)),
    decreases s,
{
    if s.len() > 0 {
        lemma_forest_assign_range(s.drop_last(), start, v, prev);
        let m = start + forest_size(s.drop_last());
        lemma_tree_assign_range(s.last(), m, v, forest_assign(s.drop_last(), start, v, prev));
    }
}

/// Every bone binding of a prepared model names an existing joint (when the
/// joint count fits the `u32` joint index).
pub proof fn lemma_skin_joints_exist(b3d: B3D, parts: ModelParts)
    requires
        parts_match(b3d, parts),
        parts.joints@.len() <= u32::MAX,
    ensures
        forall|v: int| 0 <= v < parts.mesh.skin@.len() ==> ((#[trigger] parts.mesh.skin@[v]) matches Some(b) ==> (b.joint_idx as int) < parts.joints@.len()),
{
    assert forall|v: int| 0 <= v < parts.mesh.skin@.len() implies ((#[trigger] parts.mesh.skin@[v]) matches Some(b) ==> (b.joint_idx as int) < parts.joints@.len()) by {
        lemma_tree_assign_range(b3d.node, 0, v, None);
    }
}

} // verus!
