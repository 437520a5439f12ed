use b3d2glb::glb::{frame_glb, pad_to_4, pad_to_4_in_place, push_u16_le, push_u32_le};
use b3d2glb::math::{negate, neg_z_pos, neg_z_quat};

#[test]
fn pad_to_4_adds_spaces() {
    assert_eq!(pad_to_4(b"abc"), b"abc ".to_vec());
    assert_eq!(pad_to_4(b"abcd"), b"abcd".to_vec());
    assert_eq!(pad_to_4(b"abcde"), b"abcde   ".to_vec());
    assert_eq!(pad_to_4(b""), Vec::<u8>::new());
}

#[test]
fn pad_in_place_adds_zeros() {
    let mut v = vec![1u8, 2, 3, 4, 5, 6];
    pad_to_4_in_place(&mut v);
    assert_eq!(v, vec![1, 2, 3, 4, 5, 6, 0, 0]);
    pad_to_4_in_place(&mut v);
    assert_eq!(v.len(), 8);
}

#[test]
fn little_endian_matches_std() {
    for x in [0u32, 1, 0x1234_5678, u32::MAX, 0x8000_0000] {
        let mut v = Vec::new();
        push_u32_le(&mut v, x);
        assert_eq!(v, x.to_le_bytes().to_vec());
    }
    let mut v = Vec::new();
    push_u16_le(&mut v, 0xBEEF);
    assert_eq!(v, 0xBEEFu16.to_le_bytes().to_vec());
}

#[test]
fn glb_header_and_chunks() {
    let json = br#"{"asset":{"version":"2.0"}}"#;
    let bin = [1u8, 2, 3, 4, 5, 6, 7, 8];
    let glb = frame_glb(json, &bin);
    assert_eq!(&glb[..4], b"glTF");
    assert_eq!(u32::from_le_bytes(glb[4..8].try_into().unwrap()), 2);
    assert_eq!(u32::from_le_bytes(glb[8..12].try_into().unwrap()) as usize, glb.len());
    let json_len = u32::from_le_bytes(glb[12..16].try_into().unwrap()) as usize;
    assert_eq!(json_len, 28);
    assert_eq!(&glb[16..20], b"JSON");
    assert_eq!(&glb[20..20 + json.len()], json);
    assert_eq!(&glb[20 + json.len()..20 + json_len], b" ");
    let o = 20 + json_len;
    assert_eq!(u32::from_le_bytes(glb[o..o + 4].try_into().unwrap()), 8);
    assert_eq!(&glb[o + 4..o + 8], b"BIN\0");
    assert_eq!(&glb[o + 8..], &bin);
    assert_eq!(glb.len() % 4, 0);
}

#[test]
fn negation_flips_sign() {
    assert_eq!(f32::from_bits(negate(1.5f32.to_bits())), -1.5);
    assert_eq!(f32::from_bits(negate((-2.0f32).to_bits())), 2.0);
    assert_eq!(negate(0), 0x8000_0000);
}

#[test]
fn neg_z_converts_handedness() {
    let p = [1.0f32.to_bits(), 2.0f32.to_bits(), 3.0f32.to_bits()];
    let r = neg_z_pos(p);
    assert_eq!(r, [1.0f32.to_bits(), 2.0f32.to_bits(), (-3.0f32).to_bits()]);
    assert_eq!(neg_z_pos(r), p);
    let q = [1.0f32.to_bits(), 0.5f32.to_bits(), 0.25f32.to_bits(), 0.125f32.to_bits()];
    let rq = neg_z_quat(q);
    assert_eq!(rq, [q[0], q[1], q[2], (-0.125f32).to_bits()]);
    assert_eq!(neg_z_quat(rq), q);
}
