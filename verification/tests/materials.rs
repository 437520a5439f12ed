use b3d2glb::b3d::{Brush, Texture, TriGroup};
use b3d2glb::materials::{
    alpha_mode, build_brush_map, build_materials, default_options, needs_model_texture, sorted_brush_ids,
    texture_requests, AlphaMode, LoadedImage, MaterialOptions,
};

fn b(x: f32) -> u32 {
    x.to_bits()
}

fn group(id: u32) -> TriGroup {
    TriGroup { brush_id: id, indices: vec![] }
}

fn brush(color: f32, tex: Vec<u32>) -> Brush {
    Brush { name: "b".into(), color: [b(color), b(color), b(color), b(1.0)], texture_id: tex }
}

fn tex(file: &str, flags: u32) -> Texture {
    Texture { file: file.into(), flags, blend: 0 }
}

fn img(data: &[u8], has_alpha: bool) -> Option<LoadedImage> {
    Some(LoadedImage { png: data.to_vec(), has_alpha })
}

#[test]
fn brush_map_sorted_unique() {
    let groups = vec![group(5), group(2), group(5), group(u32::MAX), group(0)];
    let ids = sorted_brush_ids(&groups);
    assert_eq!(ids, vec![0, 2, 5, u32::MAX]);
    let map = build_brush_map(&ids);
    assert_eq!(map.len(), 4);
    assert_eq!(map[&0], 0);
    assert_eq!(map[&2], 1);
    assert_eq!(map[&5], 2);
    assert_eq!(map[&u32::MAX], 3);
    assert_eq!(map.get(&7), None);
}

#[test]
fn brush_map_sends_no_brush_to_zero() {
    let ids = sorted_brush_ids(&vec![group(3), group(1)]);
    assert_eq!(ids, vec![1, 3]);
    let map = build_brush_map(&ids);
    assert_eq!(map.len(), 3);
    assert_eq!(map[&1], 0);
    assert_eq!(map[&3], 1);
    assert_eq!(map[&u32::MAX], 0);
}

#[test]
fn requests_follow_brush_order() {
    let ids = vec![0, 1, 2, 7];
    let brushes = vec![brush(0.1, vec![1]), brush(0.2, vec![]), brush(0.3, vec![0])];
    let textures = vec![tex(".\\gfx\\Wood.BMP", 0), tex("./skin.png", 0)];
    let req = texture_requests(&ids, &brushes, &textures);
    // Brush 7 does not exist: it gets no material and no request.
    assert_eq!(req.len(), 2);
    assert_eq!(req[0], "skin");
    // On this platform the backslashes are part of the file name.
    assert_eq!(req[1], "gfx\\Wood");
}

#[test]
fn materials_from_brushes_and_textures() {
    let ids = vec![0, 1, 2];
    let brushes = vec![brush(0.5, vec![0]), brush(0.25, vec![]), brush(0.75, vec![1])];
    let textures = vec![tex("a.bmp", 0), tex("b.bmp", 4)];
    let loaded = vec![None, img(&[9, 9], false)];
    let (mats, images) = build_materials(&ids, &brushes, &textures, &loaded, &None, &default_options());
    assert_eq!(mats.len(), 3);
    // texture did not load: plain white
    assert_eq!(mats[0].base_color, [b(1.0); 4]);
    assert_eq!(mats[0].texture, None);
    // no texture: the brush colour
    assert_eq!(mats[1].base_color, [b(0.25), b(0.25), b(0.25), b(1.0)]);
    // loaded texture: first image, masked by its flags
    assert_eq!(mats[2].texture, Some(0));
    assert_eq!(mats[2].alpha, AlphaMode::Mask);
    assert_eq!(images, vec![vec![9, 9]]);
    for m in &mats {
        assert_eq!(m.metallic, b(0.0));
        assert_eq!(m.roughness, b(1.0));
    }
}

#[test]
fn model_texture_fallback() {
    let ids = vec![0, 1];
    let brushes = vec![brush(0.5, vec![]), brush(0.5, vec![])];
    let loaded: Vec<Option<LoadedImage>> = vec![];
    assert!(needs_model_texture(&ids, &brushes, &loaded));
    let model = img(&[1, 2, 3], true);
    let (mats, images) = build_materials(&ids, &brushes, &[], &loaded, &model, &default_options());
    assert_eq!(images, vec![vec![1, 2, 3]]);
    assert!(mats.iter().all(|m| m.texture == Some(0) && m.alpha == AlphaMode::Blend && m.base_color == [b(1.0); 4]));
}

#[test]
fn default_material_when_no_brush() {
    let ids = vec![3];
    let brushes = vec![brush(0.5, vec![])];
    let loaded: Vec<Option<LoadedImage>> = vec![];
    assert!(!needs_model_texture(&ids, &brushes, &loaded));
    let (mats, images) = build_materials(&ids, &brushes, &[], &loaded, &None, &default_options());
    assert_eq!(mats.len(), 1);
    assert_eq!(mats[0].base_color, [b(0.8), b(0.8), b(0.8), b(1.0)]);
    assert!(images.is_empty());
}

#[test]
fn options_override_factors_and_color() {
    let ids = vec![0, 1];
    let brushes = vec![brush(0.5, vec![]), brush(0.5, vec![0])];
    let textures = vec![tex("t.png", 0)];
    let loaded = vec![img(&[7], false)];
    let opts = MaterialOptions { metallic: b(0.5), roughness: b(0.3), color: Some([b(1.0), 0, 0, b(0.5)]) };
    let (mats, _) = build_materials(&ids, &brushes, &textures, &loaded, &None, &opts);
    assert_eq!(mats[0].base_color, [b(1.0), 0, 0, b(0.5)]);
    assert_eq!(mats[1].base_color, [b(1.0); 4]);
    assert!(mats.iter().all(|m| m.metallic == b(0.5) && m.roughness == b(0.3)));
}

#[test]
fn alpha_from_flags_then_pixels() {
    assert_eq!(alpha_mode(4, false), AlphaMode::Mask);
    assert_eq!(alpha_mode(6, true), AlphaMode::Mask);
    assert_eq!(alpha_mode(2, false), AlphaMode::Blend);
    assert_eq!(alpha_mode(1, true), AlphaMode::Blend);
    assert_eq!(alpha_mode(1, false), AlphaMode::Opaque);
}
