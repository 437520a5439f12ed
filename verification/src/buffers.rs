//! Writers of the vertex, skinning and index data of the glTF binary buffer.
use vstd::prelude::*;
use crate::b3d::{BoneWeight, TriGroup};
use crate::glb::{le_u16, le_u32, push_u16_le, push_u32_le};
use crate::math::{neg_bits, neg_z_pos, neg_z_quat};

verus! {

/// Positions (or normals) converted to right-handed coordinates (Z negated),
/// as little-endian `f32` triples.
pub open spec fn vec3_neg_z_bytes(ps: Seq<[u32; 3]>) -> Seq<u8>
    decreases ps.len(),
{
    if ps.len() == 0 {
        Seq::empty()
    } else {
        let p = ps.last();
        vec3_neg_z_bytes(ps.drop_last()) + le_u32(p[0]) + le_u32(p[1]) + le_u32(neg_bits(p[2]))
    }
}

/// Texture coordinates as little-endian `f32` pairs.
pub open spec fn vec2_bytes(uvs: Seq<[u32; 2]>) -> Seq<u8>
    decreases uvs.len(),
{
    if uvs.len() == 0 {
        Seq::empty()
    } else {
        let uv = uvs.last();
        vec2_bytes(uvs.drop_last()) + le_u32(uv[0]) + le_u32(uv[1])
    }
}

/// The joint index of a vertex (0 when it has no bone), truncated to 16 bits.
pub open spec fn joint_of_entry(s: Option<BoneWeight>) -> u16 {
    match s {
        Some(b) => b.joint_idx as u16,
        None => 0,
    }
}

/// The weight of a vertex's bone (the bits of `0.0` when it has none).
pub open spec fn weight_of_entry(s: Option<BoneWeight>) -> u32 {
    match s {
        Some(b) => b.weight,
        None => 0,
    }
}

/// `JOINTS_0` data: one `u16` quadruple per vertex, its joint then zeros.
pub open spec fn joints_bytes(skin: Seq<Option<BoneWeight>>) -> Seq<u8>
    decreases skin.len(),
{
    if skin.len() == 0 {
        Seq::empty()
    } else {
        joints_bytes(skin.drop_last()) + le_u16(joint_of_entry(skin.last())) + le_u16(0) + le_u16(0)
            + le_u16(0)
    }
}

/// `WEIGHTS_0` data: one `f32` quadruple per vertex, its weight then zeros.
pub open spec fn weights_bytes(skin: Seq<Option<BoneWeight>>) -> Seq<u8>
    decreases skin.len(),
{
    if skin.len() == 0 {
        Seq::empty()
    } else {
        weights_bytes(skin.drop_last()) + le_u32(weight_of_entry(skin.last())) + le_u32(0) + le_u32(0)
            + le_u32(0)
    }
}

/// A sequence of `u32` as little-endian bytes.
pub open spec fn u32s_bytes(xs: Seq<u32>) -> Seq<u8>
    decreases xs.len(),
{
    if xs.len() == 0 {
        Seq::empty()
    } else {
        u32s_bytes(xs.drop_last()) + le_u32(xs.last())
    }
}

/// The indices of all triangle groups, one after the other.
pub open spec fn all_indices(groups: Seq<TriGroup>) -> Seq<u32>
    decreases groups.len(),
{
    if groups.len() == 0 {
        Seq::empty()
    } else {
        all_indices(groups.drop_last()) + groups.last().indices@
    }
}

pub proof fn lemma_vec3_len(ps: Seq<[u32; 3]>)
    ensures
        vec3_neg_z_bytes(ps).len() == 12 * ps.len(),
    decreases ps.len(),
{
    if ps.len() > 0 {
        lemma_vec3_len(ps.drop_last());
    }
}

pub proof fn lemma_vec2_len(uvs: Seq<[u32; 2]>)
    ensures
        vec2_bytes(uvs).len() == 8 * uvs.len(),
    decreases uvs.len(),
{
    if uvs.len() > 0 {
        lemma_vec2_len(uvs.drop_last());
    }
}

pub proof fn lemma_joints_len(skin: Seq<Option<BoneWeight>>)
    ensures
        joints_bytes(skin).len() == 8 * skin.len(),
    decreases skin.len(),
{
    if skin.len() > 0 {
        lemma_joints_len(skin.drop_last());
    }
}

pub proof fn lemma_weights_len(skin: Seq<Option<BoneWeight>>)
    ensures
        weights_bytes(skin).len() == 16 * skin.len(),
    decreases skin.len(),
{
    if skin.len() > 0 {
        lemma_weights_len(skin.drop_last());
    }
}

pub proof fn lemma_u32s_len(xs: Seq<u32>)
    ensures
        u32s_bytes(xs).len() == 4 * xs.len(),
    decreases xs.len(),
{
    if xs.len() > 0 {
        lemma_u32s_len(xs.drop_last());
    }
}

/// The bytes of `xs + ys` are those of `xs` followed by those of `ys`.
pub proof fn lemma_u32s_concat(xs: Seq<u32>, ys: Seq<u32>)
    ensures
        u32s_bytes(xs + ys) == u32s_bytes(xs) + u32s_bytes(ys),
    decreases ys.len(),
{
    if ys.len() == 0 {
        assert(xs + ys =~= xs);
        assert(u32s_bytes(xs) + u32s_bytes(ys) =~= u32s_bytes(xs));
    } else {
        lemma_u32s_concat(xs, ys.drop_last());
        assert((xs + ys).drop_last() =~= xs + ys.drop_last());
        assert(u32s_bytes(xs + ys) =~= u32s_bytes(xs) + u32s_bytes(ys));
    }
}

fn push_vec3_neg_z(bin: &mut Vec<u8>, ps: &[[u32; 3]]) -> (off: usize)
    ensures
        off == old(bin)@.len(),
        final(bin)@ == old(bin)@ + vec3_neg_z_bytes(ps@),
{
    let off = bin.len();
    let mut i: usize = 0;
    while i < ps.len()
        invariant
            i <= ps@.len(),
            bin@ == old(bin)@ + vec3_neg_z_bytes(ps@.take(i as int)),
        decreases ps@.len() - i,
    {
        let c = neg_z_pos(ps[i]);
        push_u32_le(bin, c[0]);
        push_u32_le(bin, c[1]);
        push_u32_le(bin, c[2]);
        i = i + 1;
        assert(ps@.take(i as int).drop_last() =~= ps@.take(i as int - 1));
        assert(bin@ =~= old(bin)@ + vec3_neg_z_bytes(ps@.take(i as int)));
    }
    assert(ps@.take(i as int) =~= ps@);
    off
}

/// Append vertex positions (Z negated); returns the offset where they start.
pub fn push_positions(bin: &mut Vec<u8>, positions: &[[u32; 3]]) -> (off: usize)
    ensures
        off == old(bin)@.len(),
        final(bin)@ == old(bin)@ + vec3_neg_z_bytes(positions@),
{
    push_vec3_neg_z(bin, positions)
}

/// Append vertex normals (Z negated); returns the offset where they start.
pub fn push_normals(bin: &mut Vec<u8>, normals: &[[u32; 3]]) -> (off: usize)
    ensures
        off == old(bin)@.len(),
        final(bin)@ == old(bin)@ + vec3_neg_z_bytes(normals@),
{
    push_vec3_neg_z(bin, normals)
}

/// Append texture coordinates; returns the offset where they start.
pub fn push_uvs(bin: &mut Vec<u8>, uvs: &[[u32; 2]]) -> (off: usize)
    ensures
        off == old(bin)@.len(),
        final(bin)@ == old(bin)@ + vec2_bytes(uvs@),
{
    let off = bin.len();
    let mut i: usize = 0;
    while i < uvs.len()
        invariant
            i <= uvs@.len(),
            bin@ == old(bin)@ + vec2_bytes(uvs@.take(i as int)),
        decreases uvs@.len() - i,
    {
        let uv = uvs[i];
        push_u32_le(bin, uv[0]);
        push_u32_le(bin, uv[1]);
        i = i + 1;
        assert(uvs@.take(i as int).drop_last() =~= uvs@.take(i as int - 1));
        assert(bin@ =~= old(bin)@ + vec2_bytes(uvs@.take(i as int)));
    }
    assert(uvs@.take(i as int) =~= uvs@);
    off
}

/// Append the `JOINTS_0` data; returns the offset where it starts.
pub fn push_joints(bin: &mut Vec<u8>, skin: &[Option<BoneWeight>]) -> (off: usize)
    ensures
        off == old(bin)@.len(),
        final(bin)@ == old(bin)@ + joints_bytes(skin@),
{
    let off = bin.len();
    let mut i: usize = 0;
    while i < skin.len()
        invariant
            i <= skin@.len(),
            bin@ == old(bin)@ + joints_bytes(skin@.take(i as int)),
        decreases skin@.len() - i,
    {
        let j: u16 = match skin[i] {
            Some(b) => b.joint_idx as u16,
            None => 0,
        };
        push_u16_le(bin, j);
        push_u16_le(bin, 0);
        push_u16_le(bin, 0);
        push_u16_le(bin, 0);
        i = i + 1;
        assert(skin@.take(i as int).drop_last() =~= skin@.take(i as int - 1));
        assert(bin@ =~= old(bin)@ + joints_bytes(skin@.take(i as int)));
    }
    assert(skin@.take(i as int) =~= skin@);
    off
}

/// Append the `WEIGHTS_0` data; returns the offset where it starts.
pub fn push_weights(bin: &mut Vec<u8>, skin: &[Option<BoneWeight>]) -> (off: usize)
    ensures
        off == old(bin)@.len(),
        final(bin)@ == old(bin)@ + weights_bytes(skin@),
{
    let off = bin.len();
    let mut i: usize = 0;
    while i < skin.len()
        invariant
            i <= skin@.len(),
            bin@ == old(bin)@ + weights_bytes(skin@.take(i as int)),
        decreases skin@.len() - i,
    {
        let w: u32 = match skin[i] {
            Some(b) => b.weight,
            None => 0,
        };
        push_u32_le(bin, w);
        push_u32_le(bin, 0);
        push_u32_le(bin, 0);
        push_u32_le(bin, 0);
        i = i + 1;
        assert(skin@.take(i as int).drop_last() =~= skin@.take(i as int - 1));
        assert(bin@ =~= old(bin)@ + weights_bytes(skin@.take(i as int)));
    }
    assert(skin@.take(i as int) =~= skin@);
    off
}

/// Append `u32` values little-endian.
pub fn push_u32s(bin: &mut Vec<u8>, xs: &[u32])
    ensures
        final(bin)@ == old(bin)@ + u32s_bytes(xs@),
{
    let mut i: usize = 0;
    while i < xs.len()
        invariant
            i <= xs@.len(),
            bin@ == old(bin)@ + u32s_bytes(xs@.take(i as int)),
        decreases xs@.len() - i,
    {
        push_u32_le(bin, xs[i]);
        i = i + 1;
        assert(xs@.take(i as int).drop_last() =~= xs@.take(i as int - 1));
        assert(bin@ =~= old(bin)@ + u32s_bytes(xs@.take(i as int)));
    }
    assert(xs@.take(i as int) =~= xs@);
}

/// Append the indices of all triangle groups; returns the offset where they
/// start.
pub fn push_indices(bin: &mut Vec<u8>, tri_groups: &[TriGroup]) -> (off: usize)
    ensures
        off == old(bin)@.len(),
        final(bin)@ == old(bin)@ + u32s_bytes(all_indices(tri_groups@)),
{
    let off = bin.len();
    let mut g: usize = 0;
    while g < tri_groups.len()
        invariant
            g <= tri_groups@.len(),
            bin@ == old(bin)@ + u32s_bytes(all_indices(tri_groups@.take(g as int))),
        decreases tri_groups@.len() - g,
    {
        let ghost before = bin@;
        push_u32s(bin, tri_groups[g].indices.as_slice());
        proof {
            let t = tri_groups@.take(g as int + 1);
            assert(t.drop_last() =~= tri_groups@.take(g as int));
            lemma_u32s_concat(all_indices(tri_groups@.take(g as int)), tri_groups@[g as int].indices@);
        }
        g = g + 1;
        assert(bin@ =~= old(bin)@ + u32s_bytes(all_indices(tri_groups@.take(g as int))));
    }
    assert(tri_groups@.take(g as int) =~= tri_groups@);
    off
}

/// Scales as little-endian `f32` triples (unchanged).
pub open spec fn vec3_bytes(ps: Seq<[u32; 3]>) -> Seq<u8>
    decreases ps.len(),
{
    if ps.len() == 0 {
        Seq::empty()
    } else {
        let p = ps.last();
        vec3_bytes(ps.drop_last()) + le_u32(p[0]) + le_u32(p[1]) + le_u32(p[2])
    }
}

/// B3D rotations `[w, x, y, z]` converted to right-handed coordinates (Z
/// negated) and written in glTF order `x, y, z, w`.
pub open spec fn quat_bytes(qs: Seq<[u32; 4]>) -> Seq<u8>
    decreases qs.len(),
{
    if qs.len() == 0 {
        Seq::empty()
    } else {
        let q = qs.last();
        quat_bytes(qs.drop_last()) + le_u32(q[1]) + le_u32(q[2]) + le_u32(neg_bits(q[3])) + le_u32(q[0])
    }
}

/// A sequence of 4x4 matrices, each as 16 little-endian `f32` in the order
/// given.
pub open spec fn mats_bytes(ms: Seq<[u32; 16]>) -> Seq<u8>
    decreases ms.len(),
{
    if ms.len() == 0 {
        Seq::empty()
    } else {
        mats_bytes(ms.drop_last()) + u32s_bytes(ms.last()@)
    }
}

pub proof fn lemma_vec3_plain_len(ps: Seq<[u32; 3]>)
    ensures
        vec3_bytes(ps).len() == 12 * ps.len(),
    decreases ps.len(),
{
    if ps.len() > 0 {
        lemma_vec3_plain_len(ps.drop_last());
    }
}

pub proof fn lemma_quat_len(qs: Seq<[u32; 4]>)
    ensures
        quat_bytes(qs).len() == 16 * qs.len(),
    decreases qs.len(),
{
    if qs.len() > 0 {
        lemma_quat_len(qs.drop_last());
    }
}

pub proof fn lemma_mats_len(ms: Seq<[u32; 16]>)
    ensures
        mats_bytes(ms).len() == 64 * ms.len(),
    decreases ms.len(),
{
    if ms.len() > 0 {
        lemma_mats_len(ms.drop_last());
        lemma_u32s_len(ms.last()@);
    }
}

/// Append scales unchanged.
pub fn push_vec3(bin: &mut Vec<u8>, ps: &Vec<[u32; 3]>)
    ensures
        final(bin)@ == old(bin)@ + vec3_bytes(ps@),
{
    let mut i: usize = 0;
    while i < ps.len()
        invariant
            i <= ps@.len(),
            bin@ == old(bin)@ + vec3_bytes(ps@.take(i as int)),
        decreases ps@.len() - i,
    {
        let c = ps[i];
        push_u32_le(bin, c[0]);
        push_u32_le(bin, c[1]);
        push_u32_le(bin, c[2]);
        i = i + 1;
        assert(ps@.take(i as int).drop_last() =~= ps@.take(i as int - 1));
        assert(bin@ =~= old(bin)@ + vec3_bytes(ps@.take(i as int)));
    }
    assert(ps@.take(i as int) =~= ps@);
}

/// Append rotations in glTF order with Z negated.
pub fn push_quats(bin: &mut Vec<u8>, qs: &Vec<[u32; 4]>)
    ensures
        final(bin)@ == old(bin)@ + quat_bytes(qs@),
{
    let mut i: usize = 0;
    while i < qs.len()
        invariant
            i <= qs@.len(),
            bin@ == old(bin)@ + quat_bytes(qs@.take(i as int)),
        decreases qs@.len() - i,
    {
        let q = neg_z_quat(qs[i]);
        push_u32_le(bin, q[1]);
        push_u32_le(bin, q[2]);
        push_u32_le(bin, q[3]);
        push_u32_le(bin, q[0]);
        i = i + 1;
        assert(qs@.take(i as int).drop_last() =~= qs@.take(i as int - 1));
        assert(bin@ =~= old(bin)@ + quat_bytes(qs@.take(i as int)));
    }
    assert(qs@.take(i as int) =~= qs@);
}

/// Append matrices.
pub fn push_mats(bin: &mut Vec<u8>, ms: &Vec<[u32; 16]>)
    ensures
        final(bin)@ == old(bin)@ + mats_bytes(ms@),
{
    let mut i: usize = 0;
    while i < ms.len()
        invariant
            i <= ms@.len(),
            bin@ == old(bin)@ + mats_bytes(ms@.take(i as int)),
        decreases ms@.len() - i,
    {
        let m = ms[i];
        push_u32s(bin, &m);
        i = i + 1;
        assert(ms@.take(i as int).drop_last() =~= ms@.take(i as int - 1));
        assert(bin@ =~= old(bin)@ + mats_bytes(ms@.take(i as int)));
    }
    assert(ms@.take(i as int) =~= ms@);
}


/// Rotation keys: key `k` takes bytes `16k .. 16k + 16`, holding the B3D
/// rotation `[w, x, y, z]` as glTF's `[x, y, -z, w]` (the sign bit of `z`
/// flipped for right-handed coordinates).
pub proof fn lemma_quat_bytes_layout(qs: Seq<[u32; 4]>)
    ensures
        quat_bytes(qs).len() == 16 * qs.len(),
        forall|k: int| #![trigger qs[k]] 0 <= k < qs.len() ==> quat_bytes(qs).subrange(16 * k, 16 * k + 16)
            == le_u32(qs[k][1]) + le_u32(qs[k][2]) + le_u32(qs[k][3] ^ 0x8000_0000u32) + le_u32(qs[k][0]),
    decreases qs.len(),
{
    lemma_quat_len(qs);
    if qs.len() > 0 {
        let d = qs.drop_last();
        lemma_quat_bytes_layout(d);
        let m = d.len() as int;
        let q = qs.last();
        let tail = le_u32(q[1]) + le_u32(q[2]) + le_u32(neg_bits(q[3])) + le_u32(q[0]);
        assert(quat_bytes(qs) == quat_bytes(d) + tail) by {
            assert(quat_bytes(qs) =~= quat_bytes(d) + tail);
        }
        assert forall|k: int| #![trigger qs[k]] 0 <= k < qs.len() implies quat_bytes(qs).subrange(16 * k, 16 * k + 16)
            == le_u32(qs[k][1]) + le_u32(qs[k][2]) + le_u32(qs[k][3] ^ 0x8000_0000u32) + le_u32(qs[k][0]) by {
            if k < m {
                assert(quat_bytes(qs).subrange(16 * k, 16 * k + 16) =~= quat_bytes(d).subrange(16 * k, 16 * k + 16));
                assert(d[k] == qs[k]);
            } else {
                assert(quat_bytes(qs).subrange(16 * k, 16 * k + 16) =~= tail);
            }
        }
    }
}

/// Skinning data of vertex `v`: its `JOINTS_0` entry (bytes `8v .. 8v + 8`)
/// holds its bone's joint index (truncated to 16 bits) first and three
/// zeros, and its `WEIGHTS_0` entry (bytes `16v .. 16v + 16`) the bone's
/// weight first and three zeros, so the weight belongs to the joint; a
/// vertex without a bone has all zeros.
pub proof fn lemma_skin_bytes_layout(skin: Seq<Option<BoneWeight>>)
    ensures
        joints_bytes(skin).len() == 8 * skin.len(),
        weights_bytes(skin).len() == 16 * skin.len(),
        forall|v: int| #![trigger skin[v]] 0 <= v < skin.len() ==> {
            &&& joints_bytes(skin).subrange(8 * v, 8 * v + 8) == match skin[v] {
                Some(b) => le_u16(b.joint_idx as u16),
                None => le_u16(0),
            } + le_u16(0) + le_u16(0) + le_u16(0)
            &&& weights_bytes(skin).subrange(16 * v, 16 * v + 16) == match skin[v] {
                Some(b) => le_u32(b.weight),
                None => le_u32(0),
            } + le_u32(0) + le_u32(0) + le_u32(0)
        },
    decreases skin.len(),
{
    lemma_joints_len(skin);
    lemma_weights_len(skin);
    if skin.len() > 0 {
        let d = skin.drop_last();
        lemma_skin_bytes_layout(d);
        let m = d.len() as int;
        let e = skin.last();
        let jt = le_u16(joint_of_entry(e)) + le_u16(0) + le_u16(0) + le_u16(0);
        let wt = le_u32(weight_of_entry(e)) + le_u32(0) + le_u32(0) + le_u32(0);
        assert(joints_bytes(skin) =~= joints_bytes(d) + jt);
        assert(weights_bytes(skin) =~= weights_bytes(d) + wt);
        assert forall|v: int| #![trigger skin[v]] 0 <= v < skin.len() implies {
            &&& joints_bytes(skin).subrange(8 * v, 8 * v + 8) == match skin[v] {
                Some(b) => le_u16(b.joint_idx as u16),
                None => le_u16(0),
            } + le_u16(0) + le_u16(0) + le_u16(0)
            &&& weights_bytes(skin).subrange(16 * v, 16 * v + 16) == match skin[v] {
                Some(b) => le_u32(b.weight),
                None => le_u32(0),
            } + le_u32(0) + le_u32(0) + le_u32(0)
        } by {
            if v < m {
                assert(joints_bytes(skin).subrange(8 * v, 8 * v + 8) =~= joints_bytes(d).subrange(8 * v, 8 * v + 8));
                assert(weights_bytes(skin).subrange(16 * v, 16 * v + 16) =~= weights_bytes(d).subrange(16 * v, 16 * v + 16));
                assert(d[v] == skin[v]);
            } else {
                assert(joints_bytes(skin).subrange(8 * v, 8 * v + 8) =~= jt);
                assert(weights_bytes(skin).subrange(16 * v, 16 * v + 16) =~= wt);
            }
        }
    }
}

/// Value `i` of a `u32` sequence takes bytes `4i .. 4i + 4`.
pub proof fn lemma_u32s_bytes_layout(xs: Seq<u32>)
    ensures
        u32s_bytes(xs).len() == 4 * xs.len(),
        forall|i: int| #![trigger xs[i]] 0 <= i < xs.len() ==> u32s_bytes(xs).subrange(4 * i, 4 * i + 4) == le_u32(xs[i]),
    decreases xs.len(),
{
    lemma_u32s_len(xs);
    if xs.len() > 0 {
        let d = xs.drop_last();
        lemma_u32s_bytes_layout(d);
        let m = d.len() as int;
        assert(u32s_bytes(xs) =~= u32s_bytes(d) + le_u32(xs.last()));
        assert forall|i: int| #![trigger xs[i]] 0 <= i < xs.len() implies u32s_bytes(xs).subrange(4 * i, 4 * i + 4) == le_u32(xs[i]) by {
            if i < m {
                assert(u32s_bytes(xs).subrange(4 * i, 4 * i + 4) =~= u32s_bytes(d).subrange(4 * i, 4 * i + 4));
                assert(d[i] == xs[i]);
            } else {
                assert(u32s_bytes(xs).subrange(4 * i, 4 * i + 4) =~= le_u32(xs.last()));
            }
        }
    }
}


/// Translation keys (and positions, normals): entry `k` takes bytes
/// `12k .. 12k + 12`, holding `[x, y, -z]` (the sign bit of `z` flipped).
pub proof fn lemma_vec3_neg_z_bytes_layout(ps: Seq<[u32; 3]>)
    ensures
        vec3_neg_z_bytes(ps).len() == 12 * ps.len(),
        forall|k: int| #![trigger ps[k]] 0 <= k < ps.len() ==> vec3_neg_z_bytes(ps).subrange(12 * k, 12 * k + 12)
            == le_u32(ps[k][0]) + le_u32(ps[k][1]) + le_u32(ps[k][2] ^ 0x8000_0000u32),
    decreases ps.len(),
{
    lemma_vec3_len(ps);
    if ps.len() > 0 {
        let d = ps.drop_last();
        lemma_vec3_neg_z_bytes_layout(d);
        let m = d.len() as int;
        let p = ps.last();
        let tail = le_u32(p[0]) + le_u32(p[1]) + le_u32(neg_bits(p[2]));
        assert(vec3_neg_z_bytes(ps) =~= vec3_neg_z_bytes(d) + tail);
        assert forall|k: int| #![trigger ps[k]] 0 <= k < ps.len() implies vec3_neg_z_bytes(ps).subrange(12 * k, 12 * k + 12)
            == le_u32(ps[k][0]) + le_u32(ps[k][1]) + le_u32(ps[k][2] ^ 0x8000_0000u32) by {
            if k < m {
                assert(vec3_neg_z_bytes(ps).subrange(12 * k, 12 * k + 12) =~= vec3_neg_z_bytes(d).subrange(12 * k, 12 * k + 12));
                assert(d[k] == ps[k]);
            } else {
                assert(vec3_neg_z_bytes(ps).subrange(12 * k, 12 * k + 12) =~= tail);
            }
        }
    }
}

/// Scale keys: entry `k` takes bytes `12k .. 12k + 12`, holding `[x, y, z]`
/// unchanged.
pub proof fn lemma_vec3_bytes_layout(ps: Seq<[u32; 3]>)
    ensures
        vec3_bytes(ps).len() == 12 * ps.len(),
        forall|k: int| #![trigger ps[k]] 0 <= k < ps.len() ==> vec3_bytes(ps).subrange(12 * k, 12 * k + 12)
            == le_u32(ps[k][0]) + le_u32(ps[k][1]) + le_u32(ps[k][2]),
    decreases ps.len(),
{
    lemma_vec3_plain_len(ps);
    if ps.len() > 0 {
        let d = ps.drop_last();
        lemma_vec3_bytes_layout(d);
        let m = d.len() as int;
        let p = ps.last();
        let tail = le_u32(p[0]) + le_u32(p[1]) + le_u32(p[2]);
        assert(vec3_bytes(ps) =~= vec3_bytes(d) + tail);
        assert forall|k: int| #![trigger ps[k]] 0 <= k < ps.len() implies vec3_bytes(ps).subrange(12 * k, 12 * k + 12)
            == le_u32(ps[k][0]) + le_u32(ps[k][1]) + le_u32(ps[k][2]) by {
            if k < m {
                assert(vec3_bytes(ps).subrange(12 * k, 12 * k + 12) =~= vec3_bytes(d).subrange(12 * k, 12 * k + 12));
                assert(d[k] == ps[k]);
            } else {
                assert(vec3_bytes(ps).subrange(12 * k, 12 * k + 12) =~= tail);
            }
        }
    }
}

} // verus!
