//! Coordinate-system conversion on IEEE-754 single-precision bit patterns.
use vstd::prelude::*;

verus! {

/// Bit that holds the sign of an IEEE-754 single-precision value.
pub const SIGN_BIT: u32 = 0x8000_0000;

/// The bit pattern of `-x` for the single-precision value whose bits are `b`.
pub open spec fn neg_bits(b: u32) -> u32 {
    b ^ SIGN_BIT
}

/// Negate a single-precision value given by its bit pattern (IEEE-754
/// negation flips the sign bit and leaves every other bit unchanged).
pub fn negate(b: u32) -> (r: u32)
    ensures
        r == neg_bits(b),
{
    b ^ SIGN_BIT
}

/// Negating twice gives back the original bit pattern.
pub proof fn lemma_neg_bits_involution(b: u32)
    ensures
        neg_bits(neg_bits(b)) == b,
{
    assert((b ^ 0x8000_0000u32) ^ 0x8000_0000u32 == b) by (bit_vector);
}

/// `p` with its Z component negated.
pub open spec fn neg_z_pos_spec(p: [u32; 3]) -> [u32; 3] {
    [p[0], p[1], neg_bits(p[2])]
}

/// `q = [w, x, y, z]` with the Z component of its axis negated.
pub open spec fn neg_z_quat_spec(q: [u32; 4]) -> [u32; 4] {
    [q[0], q[1], q[2], neg_bits(q[3])]
}

/// Converting a position twice gives it back: the conversion is its own
/// inverse.
pub proof fn lemma_neg_z_pos_involution(p: [u32; 3])
    ensures
        neg_z_pos_spec(neg_z_pos_spec(p)) == p,
{
    lemma_neg_bits_involution(p[2]);
    assert(neg_z_pos_spec(neg_z_pos_spec(p))@ =~= p@);
}

/// Converting a rotation twice gives it back.
pub proof fn lemma_neg_z_quat_involution(q: [u32; 4])
    ensures
        neg_z_quat_spec(neg_z_quat_spec(q)) == q,
{
    lemma_neg_bits_involution(q[3]);
    assert(neg_z_quat_spec(neg_z_quat_spec(q))@ =~= q@);
}

/// Convert a B3D position `[x, y, z]` (left-handed Y-up) to right-handed
/// Y-up by negating Z.
pub fn neg_z_pos(p: [u32; 3]) -> (r: [u32; 3])
    ensures
        r == neg_z_pos_spec(p),
{
    [p[0], p[1], negate(p[2])]
}

/// Convert a B3D quaternion `[w, x, y, z]` (left-handed Y-up) to right-handed
/// Y-up by negating the Z component of the rotation axis.
/// The result is still `[w, x, y, z]`.
pub fn neg_z_quat(q: [u32; 4]) -> (r: [u32; 4])
    ensures
        r == neg_z_quat_spec(q),
{
    [q[0], q[1], q[2], negate(q[3])]
}

} // verus!
