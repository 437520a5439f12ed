//! Little-endian encoding, 4-byte alignment and the binary glTF (`.glb`)
//! container.
use vstd::prelude::*;

verus! {

/// Little-endian bytes of a `u32`.
pub open spec fn le_u32(x: u32) -> Seq<u8> {
    seq![(x & 0xff) as u8, ((x >> 8) & 0xff) as u8, ((x >> 16) & 0xff) as u8, ((x >> 24) & 0xff) as u8]
}

/// Little-endian bytes of a `u16`.
pub open spec fn le_u16(x: u16) -> Seq<u8> {
    seq![(x & 0xff) as u8, ((x >> 8) & 0xff) as u8]
}

/// Number of filler bytes that bring a length of `n` to a multiple of 4.
pub open spec fn pad_count(n: nat) -> nat {
    if n % 4 == 0 { 0 } else { (4 - n % 4) as nat }
}

/// `n` filler bytes of value `b`.
pub open spec fn filler(n: nat, b: u8) -> Seq<u8> {
    Seq::new(n, |i: int| b)
}

/// `data` padded with `b` up to a multiple of 4 bytes.
pub open spec fn padded(data: Seq<u8>, b: u8) -> Seq<u8> {
    data + filler(pad_count(data.len()), b)
}

/// Append the little-endian bytes of `x`.
pub fn push_u32_le(buf: &mut Vec<u8>, x: u32)
    ensures
        final(buf)@ == old(buf)@ + le_u32(x),
{
    buf.push((x & 0xff) as u8);
    buf.push(((x >> 8) & 0xff) as u8);
    buf.push(((x >> 16) & 0xff) as u8);
    buf.push(((x >> 24) & 0xff) as u8);
    assert(buf@ =~= old(buf)@ + le_u32(x));
}

/// Append the little-endian bytes of `x`.
pub fn push_u16_le(buf: &mut Vec<u8>, x: u16)
    ensures
        final(buf)@ == old(buf)@ + le_u16(x),
{
    buf.push((x & 0xff) as u8);
    buf.push(((x >> 8) & 0xff) as u8);
    assert(buf@ =~= old(buf)@ + le_u16(x));
}

/// Append all of `data`.
pub fn push_bytes(buf: &mut Vec<u8>, data: &[u8])
    ensures
        final(buf)@ == old(buf)@ + data@,
{
    let mut i: usize = 0;
    while i < data.len()
        invariant
            i <= data@.len(),
            buf@ == old(buf)@ + data@.take(i as int),
        decreases data@.len() - i,
    {
        buf.push(data[i]);
        i = i + 1;
        assert(buf@ =~= old(buf)@ + data@.take(i as int));
    }
    assert(data@.take(i as int) =~= data@);
}

/// Append `b` until the length is a multiple of 4.
fn pad_with(data: &mut Vec<u8>, b: u8)
    ensures
        final(data)@ == padded(old(data)@, b),
{
    let ghost start = data@;
    while data.len() % 4 != 0
        invariant
            start.len() <= data@.len() <= start.len() + pad_count(start.len()),
            data@ == start + filler((data@.len() - start.len()) as nat, b),
            data@.len() % 4 != 0 ==> data@.len() < start.len() + pad_count(start.len()),
        decreases start.len() + pad_count(start.len()) - data@.len(),
    {
        let ghost before = data@;
        data.push(b);
        assert(data@ =~= start + filler((data@.len() - start.len()) as nat, b));
    }
    assert(data@.len() == start.len() + pad_count(start.len()));
}

/// Copy `data`, padding it with spaces (`0x20`) to a multiple of 4 bytes, as
/// the glTF binary container requires of its JSON chunk.
pub fn pad_to_4(data: &[u8]) -> (r: Vec<u8>)
    ensures
        r@ == padded(data@, 0x20),
{
    let mut v: Vec<u8> = Vec::new();
    push_bytes(&mut v, data);
    assert(v@ =~= data@);
    pad_with(&mut v, 0x20);
    v
}

/// Pad `data` in place with zero bytes to a multiple of 4.
pub fn pad_to_4_in_place(data: &mut Vec<u8>)
    ensures
        final(data)@ == padded(old(data)@, 0),
{
    pad_with(data, 0);
}

/// `"glTF"`
pub open spec fn glb_magic() -> Seq<u8> {
    seq![0x67u8, 0x6C, 0x54, 0x46]
}

/// `"JSON"`
pub open spec fn json_tag() -> Seq<u8> {
    seq![0x4Au8, 0x53, 0x4F, 0x4E]
}

/// `"BIN\0"`
pub open spec fn bin_tag() -> Seq<u8> {
    seq![0x42u8, 0x49, 0x4E, 0x00]
}

/// Length of the `.glb` file that frames `json` and `bin`.
pub open spec fn glb_len(json: Seq<u8>, bin: Seq<u8>) -> int {
    28 + padded(json, 0x20).len() as int + bin.len() as int
}

/// The `.glb` file: a 12-byte header (magic, version 2, total length), the
/// JSON chunk padded with spaces, and the binary chunk.
pub open spec fn glb_bytes(json: Seq<u8>, bin: Seq<u8>) -> Seq<u8> {
    let pj = padded(json, 0x20);
    glb_magic() + le_u32(2) + le_u32(glb_len(json, bin) as u32)
        + le_u32(pj.len() as u32) + json_tag() + pj
        + le_u32(bin.len() as u32) + bin_tag() + bin
}

/// Frame a glTF JSON document and its binary buffer as a `.glb` file.
///
/// Every length in the container is a `u32`, so the file must fit in 4 GiB.
pub fn frame_glb(json: &[u8], bin: &[u8]) -> (r: Vec<u8>)
    requires
        glb_len(json@, bin@) <= u32::MAX,
    ensures
        r@ == glb_bytes(json@, bin@),
{
    let json_padded = pad_to_4(json);
    let json_len = json_padded.len() as u32;
    let bin_len = bin.len() as u32;
    let total_len: u32 = 28 + json_len + bin_len;
    let mut glb: Vec<u8> = Vec::new();
    glb.push(0x67);
    glb.push(0x6C);
    glb.push(0x54);
    glb.push(0x46);
    push_u32_le(&mut glb, 2);
    push_u32_le(&mut glb, total_len);
    push_u32_le(&mut glb, json_len);
    glb.push(0x4A);
    glb.push(0x53);
    glb.push(0x4F);
    glb.push(0x4E);
    push_bytes(&mut glb, json_padded.as_slice());
    push_u32_le(&mut glb, bin_len);
    glb.push(0x42);
    glb.push(0x49);
    glb.push(0x4E);
    glb.push(0x00);
    push_bytes(&mut glb, bin);
    assert(glb@ =~= glb_bytes(json@, bin@));
    glb
}

/// Padding keeps the data as a prefix and ends on a multiple of 4.
pub proof fn lemma_padded(data: Seq<u8>, b: u8)
    ensures
        padded(data, b).len() % 4 == 0,
        data.len() <= padded(data, b).len() < data.len() + 4,
        padded(data, b).take(data.len() as int) == data,
        forall|i: int| data.len() <= i < padded(data, b).len() ==> padded(data, b)[i] == b,
{
    assert(padded(data, b).take(data.len() as int) =~= data);
}

/// Padding is idempotent: an aligned buffer is left as it is.
pub proof fn lemma_padded_idempotent(data: Seq<u8>, b: u8)
    ensures
        padded(padded(data, b), b) == padded(data, b),
{
    lemma_padded(data, b);
    assert(padded(padded(data, b), b) =~= padded(data, b));
}

/// The length field of a framed `.glb` is its actual length, the file is
/// 4-byte aligned when the binary chunk is, and both chunks can be read back
/// at the offsets that the chunk headers give: the JSON chunk is the JSON
/// text followed by fewer than 4 spaces, and the binary chunk is the buffer
/// unchanged.
pub proof fn lemma_glb_layout(json: Seq<u8>, bin: Seq<u8>)
    requires
        glb_len(json, bin) <= u32::MAX,
    ensures
        glb_bytes(json, bin).len() == glb_len(json, bin),
        glb_bytes(json, bin).subrange(0, 4) == glb_magic(),
        glb_bytes(json, bin).subrange(4, 8) == le_u32(2),
        glb_bytes(json, bin).subrange(8, 12) == le_u32(glb_bytes(json, bin).len() as u32),
        glb_bytes(json, bin).subrange(12, 16) == le_u32(padded(json, 0x20).len() as u32),
        glb_bytes(json, bin).subrange(16, 20) == json_tag(),
        glb_bytes(json, bin).subrange(20, 20 + json.len() as int) == json,
        json.len() <= padded(json, 0x20).len() < json.len() + 4,
        padded(json, 0x20).len() % 4 == 0,
        forall|i: int| 20 + json.len() <= i < 20 + padded(json, 0x20).len() ==> #[trigger] glb_bytes(json, bin)[i] == 0x20,
        ({
            let o: int = 20 + padded(json, 0x20).len() as int;
            &&& glb_bytes(json, bin).subrange(o, o + 4) == le_u32(bin.len() as u32)
            &&& glb_bytes(json, bin).subrange(o + 4, o + 8) == bin_tag()
            &&& glb_bytes(json, bin).subrange(o + 8, glb_len(json, bin)) == bin
        }),
        bin.len() % 4 == 0 ==> glb_bytes(json, bin).len() % 4 == 0,
{
    lemma_padded(json, 0x20);
    let g = glb_bytes(json, bin);
    let pj = padded(json, 0x20);
    let o: int = 20 + pj.len() as int;
    assert(g.subrange(0, 4) =~= glb_magic());
    assert(g.subrange(4, 8) =~= le_u32(2));
    assert(g.subrange(8, 12) =~= le_u32(glb_len(json, bin) as u32));
    assert(g.subrange(12, 16) =~= le_u32(pj.len() as u32));
    assert(g.subrange(16, 20) =~= json_tag());
    assert(g.subrange(20, 20 + json.len() as int) =~= pj.take(json.len() as int));
    assert forall|i: int| 20 + json.len() <= i < 20 + pj.len() implies #[trigger] g[i] == 0x20 by {
        assert(g[i] == pj[i - 20]);
    }
    assert(g.subrange(o, o + 4) =~= le_u32(bin.len() as u32));
    assert(g.subrange(o + 4, o + 8) =~= bin_tag());
    assert(g.subrange(o + 8, glb_len(json, bin)) =~= bin);
}

} // verus!
