//! Brush-to-material mapping and glTF materials.
//!
//! Colours and factors are IEEE-754 single-precision bit patterns.
use vstd::prelude::*;
use crate::b3d::{Brush, Texture, TriGroup};
use crate::glb::push_bytes;
use std::collections::HashMap;
use crate::texture::{strip_dot_prefixes, texture_stem, texture_stem_spec, trim_start_matches};

verus! {

/// Bits of `1.0f32`.
pub const ONE_BITS: u32 = 0x3F80_0000;

/// Bits of `0.8f32`.
pub const GREY_BITS: u32 = 0x3F4C_CCCD;

/// Bits of `0.0f32`.
pub const ZERO_BITS: u32 = 0;

/// A glTF PBR metallic-roughness material (always double-sided).
#[derive(Clone, Copy, Debug, PartialEq, Eq)]
pub struct Material {
    /// RGBA base colour factor.
    pub base_color: [u32; 4],
    /// Index of the base colour texture, if any.
    pub texture: Option<usize>,
    pub metallic: u32,
    pub roughness: u32,
    pub alpha: AlphaMode,
}

/// How a material's alpha is used.
#[derive(Clone, Copy, Debug, PartialEq, Eq)]
pub enum AlphaMode {
    Opaque,
    /// Alpha-tested (cut out).
    Mask,
    /// Alpha-blended.
    Blend,
}

/// A texture converted to PNG, and whether its pixels hold any
/// transparency.
#[derive(Clone, Debug)]
pub struct LoadedImage {
    pub png: Vec<u8>,
    pub has_alpha: bool,
}

/// Blitz3D texture flag: the texture has an alpha channel.
pub const TEX_FLAG_ALPHA: u32 = 2;

/// Blitz3D texture flag: the texture is masked (black is transparent).
pub const TEX_FLAG_MASKED: u32 = 4;

/// The alpha mode of a textured material: from the texture's flags (masked,
/// then alpha), or else from the pixel data.
pub open spec fn texture_alpha(flags: u32, has_alpha: bool) -> AlphaMode {
    if flags & TEX_FLAG_MASKED != 0 {
        AlphaMode::Mask
    } else if flags & TEX_FLAG_ALPHA != 0 || has_alpha {
        AlphaMode::Blend
    } else {
        AlphaMode::Opaque
    }
}

/// The alpha mode of a textured material (see `texture_alpha`).
pub fn alpha_mode(flags: u32, has_alpha: bool) -> (r: AlphaMode)
    ensures
        r == texture_alpha(flags, has_alpha),
{
    if flags & TEX_FLAG_MASKED != 0 {
        AlphaMode::Mask
    } else if flags & TEX_FLAG_ALPHA != 0 || has_alpha {
        AlphaMode::Blend
    } else {
        AlphaMode::Opaque
    }
}

/// Material settings chosen by the user.
#[derive(Clone, Copy, Debug)]
pub struct MaterialOptions {
    /// Metallic factor of every material.
    pub metallic: u32,
    /// Roughness factor of every material.
    pub roughness: u32,
    /// Base colour of every material that ends without a texture.
    pub color: Option<[u32; 4]>,
}

/// The documented defaults: metallic 0.0, roughness 1.0, no colour override.
pub open spec fn default_options_spec() -> MaterialOptions {
    MaterialOptions { metallic: ZERO_BITS, roughness: ONE_BITS, color: None }
}

/// The default material options.
pub fn default_options() -> (r: MaterialOptions)
    ensures
        r == default_options_spec(),
{
    MaterialOptions { metallic: ZERO_BITS, roughness: ONE_BITS, color: None }
}

pub open spec fn white() -> [u32; 4] {
    [ONE_BITS, ONE_BITS, ONE_BITS, ONE_BITS]
}

pub open spec fn grey() -> [u32; 4] {
    [GREY_BITS, GREY_BITS, GREY_BITS, ONE_BITS]
}

// ---------------------------------------------------------------------------
// Brush map
// ---------------------------------------------------------------------------

pub open spec fn strictly_increasing(s: Seq<u32>) -> bool {
    forall|i: int, j: int| 0 <= i < j < s.len() ==> s[i] < s[j]
}

/// The brush ids that the triangle groups use.
pub open spec fn group_brush_ids(groups: Seq<TriGroup>) -> Set<u32> {
    Set::new(|b: u32| exists|i: int| 0 <= i < groups.len() && (#[trigger] groups[i]).brush_id == b)
}

/// The distinct brush ids of the triangle groups, in increasing order; the
/// material of a group is the position of its brush id in this list.
pub fn sorted_brush_ids(tri_groups: &[TriGroup]) -> (r: Vec<u32>)
    ensures
        strictly_increasing(r@),
        forall|b: u32| r@.contains(b) <==> group_brush_ids(tri_groups@).contains(b),
{
    let mut ids: Vec<u32> = Vec::new();
    let mut g: usize = 0;
    while g < tri_groups.len()
        invariant
            g <= tri_groups@.len(),
            strictly_increasing(ids@),
            forall|b: u32| ids@.contains(b) <==> group_brush_ids(tri_groups@.take(g as int)).contains(b),
        decreases tri_groups@.len() - g,
    {
        let b = tri_groups[g].brush_id;
        let mut p: usize = 0;
        while p < ids.len() && ids[p] < b
            invariant
                p <= ids@.len(),
                forall|k: int| 0 <= k < p ==> ids@[k] < b,
            decreases ids@.len() - p,
        {
            p = p + 1;
        }
        let ghost before = ids@;
        if p < ids.len() && ids[p] == b {
        } else {
            ids.insert(p, b);
            assert forall|i: int, j: int| 0 <= i < j < ids@.len() implies ids@[i] < ids@[j] by {
                if j < p {
                } else if i < p && j == p {
                } else if i < p {
                    assert(ids@[j] == before[j - 1]);
                } else if i == p {
                    assert(ids@[j] == before[j - 1]);
                    assert(before[p as int] > b);
                } else {
                    assert(ids@[i] == before[i - 1]);
                }
            }
        }
        proof {
            let t = tri_groups@.take(g as int + 1);
            assert forall|x: u32| ids@.contains(x) <==> group_brush_ids(t).contains(x) by {
                if ids@.contains(x) {
                    if x == b {
                        assert(t[g as int].brush_id == b);
                    } else {
                        let k = choose|k: int| 0 <= k < ids@.len() && ids@[k] == x;
                        if !(p < before.len() && before[p as int] == b) {
                            if k < p {
                                assert(before[k] == x);
                            } else if k > p {
                                assert(before[k - 1] == x);
                            }
                        }
                        assert(before.contains(x));
                        let i = choose|i: int| 0 <= i < g && (#[trigger] tri_groups@.take(g as int)[i]).brush_id == x;
                        assert(t[i].brush_id == x);
                    }
                }
                if group_brush_ids(t).contains(x) {
                    let i = choose|i: int| 0 <= i < t.len() && (#[trigger] t[i]).brush_id == x;
                    if i < g {
                        assert(tri_groups@.take(g as int)[i].brush_id == x);
                        assert(before.contains(x));
                        let k = choose|k: int| 0 <= k < before.len() && before[k] == x;
                        if !(p < before.len() && before[p as int] == b) {
                            if k < p {
                                assert(ids@[k] == x);
                            } else {
                                assert(ids@[k + 1] == x);
                            }
                        } else {
                            assert(ids@[k] == x);
                        }
                    } else {
                        if p < before.len() && before[p as int] == b {
                            assert(ids@[p as int] == x);
                        } else {
                            assert(ids@[p as int] == x);
                        }
                    }
                }
            }
        }
        g = g + 1;
    }
    assert(tri_groups@.take(g as int) =~= tri_groups@);
    ids
}

/// `map` is the brush map of the sorted brush ids `ids`: each id maps to its
/// position among them, and the "no brush" id `0xFFFFFFFF`, when it is not
/// one of them, to 0.
pub open spec fn brush_map_of(map: Map<u32, usize>, ids: Seq<u32>) -> bool {
    &&& forall|b: u32| map.contains_key(b) <==> (ids.contains(b) || b == u32::MAX)
    &&& forall|k: int| 0 <= k < ids.len() ==> map[#[trigger] ids[k]] == k
    &&& !ids.contains(u32::MAX) ==> map[u32::MAX] == 0
}

/// The brush map: brush id to material rank, from the sorted brush ids.
pub fn build_brush_map(ids: &Vec<u32>) -> (r: HashMap<u32, usize>)
    requires
        strictly_increasing(ids@),
    ensures
        brush_map_of(r@, ids@),
{
    let mut map: HashMap<u32, usize> = HashMap::new();
    map.insert(u32::MAX, 0);
    let mut i: usize = 0;
    while i < ids.len()
        invariant
            i <= ids@.len(),
            strictly_increasing(ids@),
            forall|b: u32| map@.contains_key(b) <==> (ids@.take(i as int).contains(b) || b == u32::MAX),
            forall|k: int| 0 <= k < i ==> map@[#[trigger] ids@[k]] == k,
            !ids@.take(i as int).contains(u32::MAX) ==> map@[u32::MAX] == 0,
        decreases ids@.len() - i,
    {
        let ghost before = map@;
        let b = ids[i];
        map.insert(b, i);
        proof {
            let t0 = ids@.take(i as int);
            let t1 = ids@.take(i as int + 1);
            assert(t1 =~= t0.push(b));
            assert forall|x: u32| t1.contains(x) <==> (t0.contains(x) || x == b) by {
                if t1.contains(x) {
                    let k = choose|k: int| 0 <= k < t1.len() && t1[k] == x;
                    if k < i {
                        assert(t0[k] == x);
                    }
                }
                if t0.contains(x) {
                    let k = choose|k: int| 0 <= k < t0.len() && t0[k] == x;
                    assert(t1[k] == x);
                }
                if x == b {
                    assert(t1[i as int] == x);
                }
            }
            assert forall|k: int| 0 <= k < i + 1 implies map@[#[trigger] ids@[k]] == k by {
                if k < i {
                    assert(ids@[k] < b);
                }
            }
            if !t1.contains(u32::MAX) {
                assert(!t0.contains(u32::MAX));
                assert(b != u32::MAX);
            }
        }
        i = i + 1;
    }
    assert(ids@.take(i as int) =~= ids@);
    map
}

// ---------------------------------------------------------------------------
// Materials
// ---------------------------------------------------------------------------

/// A brush id that gets a material: a real brush (not the `0xFFFFFFFF` "no
/// brush" id) within the brush list.
pub open spec fn slot_ok(b: u32, n_brushes: int) -> bool {
    b != u32::MAX && b < n_brushes
}

/// Length of the longest prefix of `ids` whose brushes all get a material;
/// with increasing ids these are exactly the brushes that get one.
pub open spec fn material_count(ids: Seq<u32>, n_brushes: int) -> nat
    decreases ids.len(),
{
    if ids.len() == 0 {
        0
    } else if forall|k: int| 0 <= k < ids.len() ==> slot_ok(#[trigger] ids[k], n_brushes) {
        ids.len()
    } else {
        material_count(ids.drop_last(), n_brushes)
    }
}

/// The texture that a brush's first texture layer refers to, if it exists.
pub open spec fn tex_ref(brush: Brush, textures: Seq<Texture>) -> Option<Texture> {
    if brush.texture_id@.len() > 0 && (brush.texture_id@[0] as int) < textures.len() {
        Some(textures[brush.texture_id@[0] as int])
    } else {
        None
    }
}

/// The name under which a texture is looked up: the stem of its file.
pub open spec fn texture_name(t: Texture) -> Seq<char> {
    texture_stem_spec(strip_dot_prefixes(t.file@))
}

/// The textures to load, in order: one per brush of `ids` that refers to a
/// texture.
pub open spec fn requests_spec(ids: Seq<u32>, brushes: Seq<Brush>, textures: Seq<Texture>) -> Seq<Seq<char>>
    decreases ids.len(),
{
    if ids.len() == 0 {
        Seq::empty()
    } else {
        requests_spec(ids.drop_last(), brushes, textures) + match tex_ref(brushes[ids.last() as int], textures) {
            Some(t) => seq![texture_name(t)],
            None => Seq::empty(),
        }
    }
}

/// The textures to load for the sorted brush ids.
pub open spec fn texture_requests_spec(ids: Seq<u32>, brushes: Seq<Brush>, textures: Seq<Texture>) -> Seq<Seq<char>> {
    requests_spec(ids.take(material_count(ids, brushes.len() as int) as int), brushes, textures)
}

/// Number of loads that succeeded.
pub open spec fn some_count(loaded: Seq<Option<LoadedImage>>) -> nat
    decreases loaded.len(),
{
    if loaded.len() == 0 {
        0
    } else {
        some_count(loaded.drop_last()) + if loaded.last() is Some { 1nat } else { 0nat }
    }
}

/// The data of the loads that succeeded, in order.
pub open spec fn loaded_images(loaded: Seq<Option<LoadedImage>>) -> Seq<Seq<u8>>
    decreases loaded.len(),
{
    if loaded.len() == 0 {
        Seq::empty()
    } else {
        loaded_images(loaded.drop_last()) + match loaded.last() {
            Some(d) => seq![d.png@],
            None => Seq::empty(),
        }
    }
}

/// The material of the brush with the `i`-th sorted id before the user's options apply:
/// textured when its texture loaded, white when it refers to a texture that
/// did not load, and the brush colour otherwise.
pub open spec fn base_material(
    ids: Seq<u32>,
    brushes: Seq<Brush>,
    textures: Seq<Texture>,
    loaded: Seq<Option<LoadedImage>>,
    i: int,
) -> Material {
    let brush = brushes[ids[i] as int];
    let r = requests_spec(ids.take(i), brushes, textures).len() as int;
    match tex_ref(brush, textures) {
        Some(t) => match loaded[r] {
            Some(img) => Material {
                base_color: white(),
                texture: Some(some_count(loaded.take(r)) as usize),
                metallic: ZERO_BITS,
                roughness: ZERO_BITS,
                alpha: texture_alpha(t.flags, img.has_alpha),
            },
            None => Material { base_color: white(), texture: None, metallic: ZERO_BITS, roughness: ZERO_BITS, alpha: AlphaMode::Opaque },
        },
        None => Material { base_color: brush.color, texture: None, metallic: ZERO_BITS, roughness: ZERO_BITS, alpha: AlphaMode::Opaque },
    }
}

/// A material with the user's factors, and the override colour when it has
/// no texture.
pub open spec fn with_options(m: Material, opts: MaterialOptions) -> Material {
    Material {
        base_color: match (m.texture, opts.color) {
            (None, Some(c)) => c,
            _ => m.base_color,
        },
        texture: m.texture,
        metallic: opts.metallic,
        roughness: opts.roughness,
        alpha: m.alpha,
    }
}

/// Whether the texture named after the model is tried: when no texture of
/// the brushes loaded and there is at least one material.
pub open spec fn needs_model_texture_spec(ids: Seq<u32>, brushes: Seq<Brush>, loaded: Seq<Option<LoadedImage>>) -> bool {
    some_count(loaded) == 0 && material_count(ids, brushes.len() as int) > 0
}

/// Whether the texture named after the model replaces every material's
/// colour.
pub open spec fn uses_model_texture(
    ids: Seq<u32>,
    brushes: Seq<Brush>,
    loaded: Seq<Option<LoadedImage>>,
    model_tex: Option<LoadedImage>,
) -> bool {
    needs_model_texture_spec(ids, brushes, loaded) && model_tex is Some
}

/// A material textured with the texture named after the model.
pub open spec fn model_material(has_alpha: bool) -> Material {
    Material {
        base_color: white(),
        texture: Some(0),
        metallic: ZERO_BITS,
        roughness: ZERO_BITS,
        alpha: if has_alpha { AlphaMode::Blend } else { AlphaMode::Opaque },
    }
}

/// The materials: one per sorted brush id that gets one (all textured with
/// the model texture when it is used), or a single grey material when there
/// is none; then the user's options.
pub open spec fn materials_spec(
    ids: Seq<u32>,
    brushes: Seq<Brush>,
    textures: Seq<Texture>,
    loaded: Seq<Option<LoadedImage>>,
    model_tex: Option<LoadedImage>,
    opts: MaterialOptions,
) -> Seq<Material> {
    let p = material_count(ids, brushes.len() as int);
    if p == 0 {
        seq![with_options(Material { base_color: grey(), texture: None, metallic: ZERO_BITS, roughness: ZERO_BITS, alpha: AlphaMode::Opaque }, opts)]
    } else if uses_model_texture(ids, brushes, loaded, model_tex) {
        Seq::new(p, |i: int| with_options(model_material(model_tex.unwrap().has_alpha), opts))
    } else {
        Seq::new(p, |i: int| with_options(base_material(ids, brushes, textures, loaded, i), opts))
    }
}

/// The images of the materials, in texture-index order.
pub open spec fn images_spec(
    ids: Seq<u32>,
    brushes: Seq<Brush>,
    loaded: Seq<Option<LoadedImage>>,
    model_tex: Option<LoadedImage>,
) -> Seq<Seq<u8>> {
    if uses_model_texture(ids, brushes, loaded, model_tex) {
        seq![model_tex.unwrap().png@]
    } else {
        loaded_images(loaded)
    }
}

/// With increasing ids, the entries that get a material are a prefix: an
/// entry gets one exactly when its position is below the material count.
pub proof fn lemma_material_prefix(ids: Seq<u32>, n: int)
    requires
        strictly_increasing(ids),
    ensures
        material_count(ids, n) <= ids.len(),
        forall|k: int| 0 <= k < ids.len() ==> (slot_ok(#[trigger] ids[k], n) <==> k < material_count(ids, n)),
    decreases ids.len(),
{
    if ids.len() > 0 {
        if forall|k: int| 0 <= k < ids.len() ==> slot_ok(#[trigger] ids[k], n) {
        } else {
            let d = ids.drop_last();
            lemma_material_prefix(d, n);
            let j = choose|j: int| 0 <= j < ids.len() && !slot_ok(#[trigger] ids[j], n);
            assert forall|k: int| 0 <= k < ids.len() implies (slot_ok(#[trigger] ids[k], n) <==> k < material_count(ids, n)) by {
                if k < ids.len() - 1 {
                    assert(d[k] == ids[k]);
                } else {
                    // the last id is the largest: it fails whenever any does
                    if slot_ok(ids[k], n) {
                        assert(ids[j] <= ids[k]);
                    }
                }
            }
        }
    }
}

proof fn lemma_requests_take(ids: Seq<u32>, brushes: Seq<Brush>, textures: Seq<Texture>, i: int)
    requires
        0 <= i < ids.len(),
    ensures
        requests_spec(ids.take(i + 1), brushes, textures) == requests_spec(ids.take(i), brushes, textures)
            + match tex_ref(brushes[ids[i] as int], textures) {
            Some(t) => seq![texture_name(t)],
            None => Seq::<Seq<char>>::empty(),
        },
{
    assert(ids.take(i + 1).drop_last() =~= ids.take(i));
}

proof fn lemma_requests_mono(ids: Seq<u32>, brushes: Seq<Brush>, textures: Seq<Texture>, i: int, j: int)
    requires
        0 <= i <= j <= ids.len(),
    ensures
        requests_spec(ids.take(i), brushes, textures).len() <= requests_spec(ids.take(j), brushes, textures).len(),
    decreases j - i,
{
    if i < j {
        lemma_requests_mono(ids, brushes, textures, i, j - 1);
        lemma_requests_take(ids, brushes, textures, j - 1);
    }
}

proof fn lemma_loaded_take(loaded: Seq<Option<LoadedImage>>, r: int)
    requires
        0 <= r < loaded.len(),
    ensures
        some_count(loaded.take(r + 1)) == some_count(loaded.take(r)) + if loaded[r] is Some { 1nat } else { 0nat },
        loaded_images(loaded.take(r + 1)) == loaded_images(loaded.take(r)) + match loaded[r] {
            Some(d) => seq![d.png@],
            None => Seq::<Seq<u8>>::empty(),
        },
{
    assert(loaded.take(r + 1).drop_last() =~= loaded.take(r));
}

proof fn lemma_loaded_images_len(loaded: Seq<Option<LoadedImage>>)
    ensures
        loaded_images(loaded).len() == some_count(loaded),
    decreases loaded.len(),
{
    if loaded.len() > 0 {
        lemma_loaded_images_len(loaded.drop_last());
    }
}

/// Copy a byte vector.
fn copy_bytes(v: &Vec<u8>) -> (r: Vec<u8>)
    ensures
        r@ == v@,
{
    let mut r: Vec<u8> = Vec::new();
    push_bytes(&mut r, v.as_slice());
    assert(r@ =~= v@);
    r
}

/// The textures to load for the materials of the sorted brush ids, in order.
pub fn texture_requests(ids: &Vec<u32>, brushes: &[Brush], textures: &[Texture]) -> (r: Vec<String>)
    requires
        strictly_increasing(ids@),
    ensures
        r@.len() == texture_requests_spec(ids@, brushes@, textures@).len(),
        forall|k: int| 0 <= k < r@.len() ==> (#[trigger] r@[k])@ == texture_requests_spec(ids@, brushes@, textures@)[k],
{
    proof {
        lemma_material_prefix(ids@, brushes@.len() as int);
    }
    let ghost p = material_count(ids@, brushes@.len() as int) as int;
    let mut r: Vec<String> = Vec::new();
    let mut i: usize = 0;
    while i < ids.len()
        invariant
            i <= ids@.len(),
            0 <= p <= ids@.len(),
            p == material_count(ids@, brushes@.len() as int),
            forall|k: int| 0 <= k < ids@.len() ==> (slot_ok(#[trigger] ids@[k], brushes@.len() as int) <==> k < p),
            r@.len() == requests_spec(ids@.take(if i < p { i as int } else { p }), brushes@, textures@).len(),
            forall|k: int| 0 <= k < r@.len() ==> (#[trigger] r@[k])@ == requests_spec(ids@.take(if i < p { i as int } else { p }), brushes@, textures@)[k],
        decreases ids@.len() - i,
    {
        let bid = ids[i];
        if bid == u32::MAX || bid as usize >= brushes.len() {
            i = i + 1;
            continue;
        }
        proof {
            lemma_requests_take(ids@, brushes@, textures@, i as int);
        }
        let brush = &brushes[bid as usize];
        if brush.texture_id.len() > 0 && (brush.texture_id[0] as usize) < textures.len() {
            let tex = &textures[brush.texture_id[0] as usize];
            let raw = trim_start_matches(trim_start_matches(tex.file.as_str(), ".\\"), "./");
            let name = texture_stem(raw);
            r.push(String::from_str(name));
        }
        i = i + 1;
    }
    r
}

/// Whether the texture named after the model is to be tried, given the
/// results of loading the requested textures.
pub fn needs_model_texture(ids: &Vec<u32>, brushes: &[Brush], loaded: &Vec<Option<LoadedImage>>) -> (r: bool)
    requires
        strictly_increasing(ids@),
    ensures
        r == needs_model_texture_spec(ids@, brushes@, loaded@),
{
    proof {
        lemma_material_prefix(ids@, brushes@.len() as int);
    }
    let mut any_loaded = false;
    let mut r: usize = 0;
    while r < loaded.len()
        invariant
            r <= loaded@.len(),
            any_loaded == (some_count(loaded@.take(r as int)) > 0),
        decreases loaded@.len() - r,
    {
        proof {
            lemma_loaded_take(loaded@, r as int);
        }
        if loaded[r].is_some() {
            any_loaded = true;
        }
        r = r + 1;
    }
    assert(loaded@.take(r as int) =~= loaded@);
    let has_material = ids.len() > 0 && ids[0] != u32::MAX && (ids[0] as usize) < brushes.len();
    !any_loaded && has_material
}

/// Build the materials and their images from the sorted brush ids, the textures the
/// brushes refer to, the results of loading the requested textures (in the
/// order of `texture_requests`), the texture named after the model (only
/// looked at when `needs_model_texture` holds) and the user's options.
pub fn build_materials(
    ids: &Vec<u32>,
    brushes: &[Brush],
    textures: &[Texture],
    loaded: &Vec<Option<LoadedImage>>,
    model_tex: &Option<LoadedImage>,
    opts: &MaterialOptions,
) -> (r: (Vec<Material>, Vec<Vec<u8>>))
    requires
        strictly_increasing(ids@),
        loaded@.len() == texture_requests_spec(ids@, brushes@, textures@).len(),
    ensures
        r.0@ == materials_spec(ids@, brushes@, textures@, loaded@, *model_tex, *opts),
        r.1@.map_values(|d: Vec<u8>| d@) == images_spec(ids@, brushes@, loaded@, *model_tex),
{
    proof {
        lemma_material_prefix(ids@, brushes@.len() as int);
        lemma_requests_mono(ids@, brushes@, textures@, 0, material_count(ids@, brushes@.len() as int) as int);
    }
    let ghost p = material_count(ids@, brushes@.len() as int) as int;
    let mut materials: Vec<Material> = Vec::new();
    let mut images: Vec<Vec<u8>> = Vec::new();
    let mut r: usize = 0;
    let mut i: usize = 0;
    while i < ids.len()
        invariant
            i <= ids@.len(),
            0 <= p <= ids@.len(),
            p == material_count(ids@, brushes@.len() as int),
            forall|k: int| 0 <= k < ids@.len() ==> (slot_ok(#[trigger] ids@[k], brushes@.len() as int) <==> k < p),
            loaded@.len() == requests_spec(ids@.take(p), brushes@, textures@).len(),
            materials@.len() == if i < p { i as int } else { p },
            r == requests_spec(ids@.take(materials@.len() as int), brushes@, textures@).len(),
            r <= loaded@.len(),
            forall|k: int| 0 <= k < materials@.len() ==> #[trigger] materials@[k] == base_material(ids@, brushes@, textures@, loaded@, k),
            images@.map_values(|d: Vec<u8>| d@) == loaded_images(loaded@.take(r as int)),
            images@.len() == some_count(loaded@.take(r as int)),
        decreases ids@.len() - i,
    {
        let bid = ids[i];
        if bid == u32::MAX || bid as usize >= brushes.len() {
            i = i + 1;
            continue;
        }
        proof {
            lemma_requests_take(ids@, brushes@, textures@, i as int);
            lemma_requests_mono(ids@, brushes@, textures@, i as int + 1, p);
        }
        let brush = &brushes[bid as usize];
        let m;
        if brush.texture_id.len() > 0 && (brush.texture_id[0] as usize) < textures.len() {
            proof {
                lemma_loaded_take(loaded@, r as int);
                lemma_loaded_images_len(loaded@.take(r as int));
            }
            let tex = &textures[brush.texture_id[0] as usize];
            match &loaded[r] {
                Some(img) => {
                    let tex_idx = images.len();
                    images.push(copy_bytes(&img.png));
                    m = Material { base_color: [ONE_BITS, ONE_BITS, ONE_BITS, ONE_BITS], texture: Some(tex_idx), metallic: ZERO_BITS, roughness: ZERO_BITS, alpha: alpha_mode(tex.flags, img.has_alpha) };
                    assert(images@.map_values(|d: Vec<u8>| d@) =~= loaded_images(loaded@.take(r as int + 1)));
                },
                None => {
                    m = Material { base_color: [ONE_BITS, ONE_BITS, ONE_BITS, ONE_BITS], texture: None, metallic: ZERO_BITS, roughness: ZERO_BITS, alpha: AlphaMode::Opaque };
                },
            }
            assert(r < loaded.len());
            r = r + 1;
        } else {
            m = Material { base_color: brush.color, texture: None, metallic: ZERO_BITS, roughness: ZERO_BITS, alpha: AlphaMode::Opaque };
        }
        proof {
            assert(ids@.take(i as int + 1).take(i as int) =~= ids@.take(i as int));
            assert(m == base_material(ids@, brushes@, textures@, loaded@, i as int));
        }
        materials.push(m);
        i = i + 1;
    }
    proof {
        lemma_loaded_images_len(loaded@);
        assert(loaded@.take(r as int) =~= loaded@);
    }

    // Fallback: the texture named after the model.
    let use_model = images.len() == 0 && materials.len() > 0 && model_tex.is_some();
    if use_model {
        let (bytes, has_alpha) = match model_tex {
            Some(b) => (copy_bytes(&b.png), b.has_alpha),
            None => (Vec::new(), false),
        };
        images.push(bytes);
        let model_alpha = if has_alpha { AlphaMode::Blend } else { AlphaMode::Opaque };
        let mut k: usize = 0;
        while k < materials.len()
            invariant
                k <= materials@.len(),
                materials@.len() == p,
                model_tex is Some,
                model_alpha == model_material(model_tex.unwrap().has_alpha).alpha,
                forall|j: int| 0 <= j < k ==> #[trigger] materials@[j] == model_material(model_tex.unwrap().has_alpha),
            decreases materials@.len() - k,
        {
            materials.set(k, Material { base_color: [ONE_BITS, ONE_BITS, ONE_BITS, ONE_BITS], texture: Some(0), metallic: ZERO_BITS, roughness: ZERO_BITS, alpha: model_alpha });
            k = k + 1;
        }
        assert(images@.map_values(|d: Vec<u8>| d@) =~= seq![model_tex.unwrap().png@]);
    }

    // Ensure at least one material exists.
    if materials.len() == 0 {
        materials.push(Material { base_color: [GREY_BITS, GREY_BITS, GREY_BITS, ONE_BITS], texture: None, metallic: ZERO_BITS, roughness: ZERO_BITS, alpha: AlphaMode::Opaque });
    }

    // The user's options.
    let ghost pre = materials@;
    let mut k: usize = 0;
    while k < materials.len()
        invariant
            k <= materials@.len(),
            materials@.len() == pre.len(),
            forall|j: int| 0 <= j < k ==> #[trigger] materials@[j] == with_options(pre[j], *opts),
            forall|j: int| k <= j < materials@.len() ==> #[trigger] materials@[j] == pre[j],
        decreases materials@.len() - k,
    {
        let old_m = materials[k];
        let base_color = match (old_m.texture, opts.color) {
            (None, Some(c)) => c,
            _ => old_m.base_color,
        };
        materials.set(k, Material { base_color, texture: old_m.texture, metallic: opts.metallic, roughness: opts.roughness, alpha: old_m.alpha });
        k = k + 1;
    }
    assert(materials@ =~= materials_spec(ids@, brushes@, textures@, loaded@, *model_tex, *opts));
    (materials, images)
}

proof fn lemma_some_count_mono(loaded: Seq<Option<LoadedImage>>, a: int, b: int)
    requires
        0 <= a <= b <= loaded.len(),
    ensures
        some_count(loaded.take(a)) <= some_count(loaded.take(b)),
    decreases b - a,
{
    if a < b {
        lemma_some_count_mono(loaded, a, b - 1);
        lemma_loaded_take(loaded, b - 1);
    }
}

/// There is always at least one material; every material has the user's
/// metallic and roughness factors; and every texture index names one of
/// the images.
pub proof fn lemma_materials_sound(
    ids: Seq<u32>,
    brushes: Seq<Brush>,
    textures: Seq<Texture>,
    loaded: Seq<Option<LoadedImage>>,
    model_tex: Option<LoadedImage>,
    opts: MaterialOptions,
)
    requires
        strictly_increasing(ids),
        loaded.len() == texture_requests_spec(ids, brushes, textures).len(),
    ensures
        ({
            let ms = materials_spec(ids, brushes, textures, loaded, model_tex, opts);
            let imgs = images_spec(ids, brushes, loaded, model_tex);
            &&& ms.len() >= 1
            &&& forall|k: int| 0 <= k < ms.len() ==> {
                &&& (#[trigger] ms[k]).metallic == opts.metallic
                &&& ms[k].roughness == opts.roughness
                &&& ms[k].texture matches Some(t) ==> (t as int) < imgs.len()
            }
        }),
{
    let n = brushes.len() as int;
    lemma_material_prefix(ids, n);
    let p = material_count(ids, n) as int;
    let ms = materials_spec(ids, brushes, textures, loaded, model_tex, opts);
    let imgs = images_spec(ids, brushes, loaded, model_tex);
    assert(ids.take(p).take(p) =~= ids.take(p));
    lemma_loaded_images_len(loaded);
    assert(loaded.take(loaded.len() as int) =~= loaded);
    if p > 0 && !uses_model_texture(ids, brushes, loaded, model_tex) {
        assert forall|k: int| 0 <= k < ms.len() implies (#[trigger] ms[k]).texture matches Some(t) ==> (t as int) < imgs.len() by {
            let brush = brushes[ids[k] as int];
            let r = requests_spec(ids.take(k), brushes, textures).len() as int;
            if tex_ref(brush, textures) is Some {
                lemma_requests_take(ids, brushes, textures, k);
                lemma_requests_mono(ids, brushes, textures, k + 1, p);
                assert(ids.take(k + 1).take(k) =~= ids.take(k));
                assert(r < loaded.len());
                if loaded[r] is Some {
                    lemma_loaded_take(loaded, r);
                    lemma_some_count_mono(loaded, r + 1, loaded.len() as int);
                }
            }
        }
    }
}


/// The loads before the `r`-th one are a prefix of the images: the image of
/// the `r`-th load, when it succeeded, sits at the number of earlier
/// successful loads.
proof fn lemma_loaded_image_at(loaded: Seq<Option<LoadedImage>>, r: int, b: int)
    requires
        0 <= r < b <= loaded.len(),
        loaded[r] is Some,
    ensures
        some_count(loaded.take(r)) < loaded_images(loaded.take(b)).len(),
        loaded_images(loaded.take(b))[some_count(loaded.take(r)) as int] == loaded[r].unwrap().png@,
    decreases b - r,
{
    lemma_loaded_images_len(loaded.take(r));
    if b == r + 1 {
        lemma_loaded_take(loaded, r);
    } else {
        lemma_loaded_image_at(loaded, r, b - 1);
        lemma_loaded_take(loaded, b - 1);
    }
}

/// Material `k` (one of the brushes that get a material, without the
/// model's texture) has texture index `some_count(loaded.take(r))`, `r`
/// being its request, when its brush's texture loaded, and none otherwise.
proof fn lemma_material_texture_index(
    ids: Seq<u32>,
    brushes: Seq<Brush>,
    textures: Seq<Texture>,
    loaded: Seq<Option<LoadedImage>>,
    model_tex: Option<LoadedImage>,
    opts: MaterialOptions,
    k: int,
)
    requires
        strictly_increasing(ids),
        loaded.len() == texture_requests_spec(ids, brushes, textures).len(),
        !uses_model_texture(ids, brushes, loaded, model_tex),
        loaded.len() <= usize::MAX,
        0 <= k < material_count(ids, brushes.len() as int),
    ensures
        ({
            let ms = materials_spec(ids, brushes, textures, loaded, model_tex, opts);
            let r = requests_spec(ids.take(k), brushes, textures).len() as int;
            &&& k < ms.len()
            &&& tex_ref(brushes[ids[k] as int], textures) is Some ==> r < loaded.len()
            &&& ms[k].texture is Some <==> (tex_ref(brushes[ids[k] as int], textures) is Some && loaded[r] is Some)
            &&& ms[k].texture is Some ==> ms[k].texture.unwrap() == some_count(loaded.take(r))
        }),
{
    let n = brushes.len() as int;
    lemma_material_prefix(ids, n);
    let p = material_count(ids, n) as int;
    let ms = materials_spec(ids, brushes, textures, loaded, model_tex, opts);
    let r = requests_spec(ids.take(k), brushes, textures).len() as int;
    assert(ms.len() == p);
    assert(ms[k] == with_options(base_material(ids, brushes, textures, loaded, k), opts));
    if tex_ref(brushes[ids[k] as int], textures) is Some {
        lemma_requests_take(ids, brushes, textures, k);
        lemma_requests_mono(ids, brushes, textures, k + 1, p);
        assert(r < loaded.len());
        lemma_some_count_le(loaded.take(r));
    }
}

/// At most every load succeeds.
proof fn lemma_some_count_le(loaded: Seq<Option<LoadedImage>>)
    ensures
        some_count(loaded) <= loaded.len(),
    decreases loaded.len(),
{
    if loaded.len() > 0 {
        lemma_some_count_le(loaded.drop_last());
    }
}

/// Each textured material shows its own texture: when the brush of
/// material `k` refers to a texture whose load succeeded (the load of
/// request `r`, where `r` counts the requests of the materials before it),
/// its texture index names the image holding exactly that load's PNG; and
/// materials with textures have strictly increasing, so distinct, texture
/// indices. With the model's texture, the one image is that texture and
/// every material shows it.
pub proof fn lemma_material_textures(
    ids: Seq<u32>,
    brushes: Seq<Brush>,
    textures: Seq<Texture>,
    loaded: Seq<Option<LoadedImage>>,
    model_tex: Option<LoadedImage>,
    opts: MaterialOptions,
)
    requires
        strictly_increasing(ids),
        loaded.len() == texture_requests_spec(ids, brushes, textures).len(),
        loaded.len() <= usize::MAX,
    ensures
        ({
            let ms = materials_spec(ids, brushes, textures, loaded, model_tex, opts);
            let imgs = images_spec(ids, brushes, loaded, model_tex);
            let p = material_count(ids, brushes.len() as int) as int;
            &&& !uses_model_texture(ids, brushes, loaded, model_tex) ==> forall|k: int| #![trigger ms[k]] 0 <= k < p ==> {
                let r = requests_spec(ids.take(k), brushes, textures).len() as int;
                tex_ref(brushes[ids[k] as int], textures) is Some && loaded[r] is Some ==> {
                    &&& ms[k].texture is Some
                    &&& (ms[k].texture.unwrap() as int) < imgs.len()
                    &&& imgs[ms[k].texture.unwrap() as int] == loaded[r].unwrap().png@
                }
            }
            &&& !uses_model_texture(ids, brushes, loaded, model_tex) ==> forall|k1: int, k2: int| #![trigger ms[k1], ms[k2]]
                0 <= k1 < k2 < ms.len() && ms[k1].texture is Some && ms[k2].texture is Some
                ==> ms[k1].texture.unwrap() < ms[k2].texture.unwrap()
            &&& uses_model_texture(ids, brushes, loaded, model_tex) ==> {
                &&& imgs == seq![model_tex.unwrap().png@]
                &&& forall|k: int| 0 <= k < ms.len() ==> (#[trigger] ms[k]).texture == Some(0usize)
            }
        }),
{
    let n = brushes.len() as int;
    lemma_material_prefix(ids, n);
    let p = material_count(ids, n) as int;
    let ms = materials_spec(ids, brushes, textures, loaded, model_tex, opts);
    let imgs = images_spec(ids, brushes, loaded, model_tex);
    assert(loaded.take(loaded.len() as int) =~= loaded);
    if !uses_model_texture(ids, brushes, loaded, model_tex) {
        assert forall|k: int| #![trigger ms[k]] 0 <= k < p implies {
            let r = requests_spec(ids.take(k), brushes, textures).len() as int;
            tex_ref(brushes[ids[k] as int], textures) is Some && loaded[r] is Some ==> {
                &&& ms[k].texture is Some
                &&& (ms[k].texture.unwrap() as int) < imgs.len()
                &&& imgs[ms[k].texture.unwrap() as int] == loaded[r].unwrap().png@
            }
        } by {
            let r = requests_spec(ids.take(k), brushes, textures).len() as int;
            lemma_material_texture_index(ids, brushes, textures, loaded, model_tex, opts, k);
            if tex_ref(brushes[ids[k] as int], textures) is Some && loaded[r] is Some {
                lemma_loaded_image_at(loaded, r, loaded.len() as int);
            }
        }
        assert forall|k1: int, k2: int| #![trigger ms[k1], ms[k2]]
            0 <= k1 < k2 < ms.len() && ms[k1].texture is Some && ms[k2].texture is Some
            implies ms[k1].texture.unwrap() < ms[k2].texture.unwrap() by {
            lemma_material_textured_order(ids, brushes, textures, loaded, model_tex, opts, k1, k2);
        }
    }
}

/// Two textured materials: the later one's texture index is larger.
proof fn lemma_material_textured_order(
    ids: Seq<u32>,
    brushes: Seq<Brush>,
    textures: Seq<Texture>,
    loaded: Seq<Option<LoadedImage>>,
    model_tex: Option<LoadedImage>,
    opts: MaterialOptions,
    k1: int,
    k2: int,
)
    requires
        strictly_increasing(ids),
        loaded.len() == texture_requests_spec(ids, brushes, textures).len(),
        !uses_model_texture(ids, brushes, loaded, model_tex),
        loaded.len() <= usize::MAX,
        0 <= k1 < k2 < materials_spec(ids, brushes, textures, loaded, model_tex, opts).len(),
        materials_spec(ids, brushes, textures, loaded, model_tex, opts)[k1].texture is Some,
        materials_spec(ids, brushes, textures, loaded, model_tex, opts)[k2].texture is Some,
    ensures
        materials_spec(ids, brushes, textures, loaded, model_tex, opts)[k1].texture.unwrap()
            < materials_spec(ids, brushes, textures, loaded, model_tex, opts)[k2].texture.unwrap(),
{
    let n = brushes.len() as int;
    lemma_material_prefix(ids, n);
    let p = material_count(ids, n) as int;
    if p == 0 {
        // a single untextured material
    } else {
        lemma_material_texture_index(ids, brushes, textures, loaded, model_tex, opts, k1);
        lemma_material_texture_index(ids, brushes, textures, loaded, model_tex, opts, k2);
        let r1 = requests_spec(ids.take(k1), brushes, textures).len() as int;
        let r2 = requests_spec(ids.take(k2), brushes, textures).len() as int;
        lemma_requests_take(ids, brushes, textures, k1);
        assert(ids.take(k1 + 1).take(k1) =~= ids.take(k1));
        lemma_requests_mono(ids, brushes, textures, k1 + 1, k2);
        lemma_loaded_take(loaded, r1);
        lemma_some_count_mono(loaded, r1 + 1, r2);
        lemma_some_count_le(loaded.take(r2));
    }
}

} // verus!
