//! Texture names and the places where a texture file is looked for.
use vstd::prelude::*;
use vstd::string::{StrSliceExecFns, StringExecFns};

verus! {

// ---------------------------------------------------------------------------
// Path operations of std (behaviour named, see each item)
// ---------------------------------------------------------------------------

/// What `std::path::Path::file_stem` gives for a path (as text).
pub uninterp spec fn file_stem_of(path: Seq<char>) -> Option<Seq<char>>;

/// What `std::path::Path::join` gives for a base and a path (as text).
pub uninterp spec fn path_join_of(base: Seq<char>, path: Seq<char>) -> Seq<char>;

/// What `str::to_lowercase` gives for a text.
pub uninterp spec fn lowercase_of(s: Seq<char>) -> Seq<char>;

/// Calls `std::path::Path::file_stem` on `p`; the stem of a path given as
/// UTF-8 text is itself UTF-8, so the conversion back to text always succeeds.
/// Claims only that the result is the one `file_stem_of` names.
#[verifier::external_body]
pub(crate) fn path_file_stem<'a>(p: &'a str) -> (r: Option<&'a str>)
    ensures
        r is Some <==> file_stem_of(p@) is Some,
        r matches Some(s) ==> file_stem_of(p@) == Some(s@),
{
    match std::path::Path::new(p).file_stem() {
        Some(s) => s.to_str(),
        None => None,
    }
}

/// Calls `std::path::Path::join` and returns the joined path as text (both
/// parts are UTF-8, so the text conversion loses nothing). Claims only that
/// the result is the one `path_join_of` names.
#[verifier::external_body]
pub(crate) fn path_join(base: &str, path: &str) -> (r: String)
    ensures
        r@ == path_join_of(base@, path@),
{
    std::path::Path::new(base).join(path).to_string_lossy().into_owned()
}

/// Calls `str::to_lowercase`. Claims only that the result is the one
/// `lowercase_of` names.
#[verifier::external_body]
fn to_lowercase(s: &str) -> (r: String)
    ensures
        r@ == lowercase_of(s@),
{
    s.to_lowercase()
}

// ---------------------------------------------------------------------------
// Prefix trimming
// ---------------------------------------------------------------------------

/// `s` with every leading repetition of `p` removed (`str::trim_start_matches`
/// with a non-empty pattern).
pub open spec fn trim_prefix_all(s: Seq<char>, p: Seq<char>) -> Seq<char>
    decreases s.len(),
{
    if p.len() > 0 && p.len() <= s.len() && s.take(p.len() as int) == p {
        trim_prefix_all(s.skip(p.len() as int), p)
    } else {
        s
    }
}

/// Whether `s` holds `p` at character position `from`.
fn matches_at(s: &str, from: usize, p: &str) -> (r: bool)
    requires
        from <= s@.len(),
    ensures
        r == (p@.len() <= s@.len() - from && s@.subrange(from as int, from + p@.len()) == p@),
{
    let n = s.unicode_len();
    let m = p.unicode_len();
    if m > n - from {
        return false;
    }
    let mut i: usize = 0;
    while i < m
        invariant
            i <= m,
            m == p@.len(),
            n == s@.len(),
            from + m <= n,
            forall|k: int| 0 <= k < i ==> s@[from + k] == p@[k],
        decreases m - i,
    {
        if s.get_char(from + i) != p.get_char(i) {
            assert(s@.subrange(from as int, from + p@.len())[i as int] != p@[i as int]);
            return false;
        }
        i = i + 1;
    }
    assert(s@.subrange(from as int, from + p@.len()) =~= p@);
    true
}

/// Remove every leading repetition of `p` from `s` (`str::trim_start_matches`).
pub fn trim_start_matches<'a>(s: &'a str, p: &str) -> (r: &'a str)
    ensures
        r@ == trim_prefix_all(s@, p@),
{
    let n = s.unicode_len();
    let m = p.unicode_len();
    let mut pos: usize = 0;
    assert(s@.skip(0) =~= s@);
    if m > 0 {
        while matches_at(s, pos, p)
            invariant
                pos <= n,
                n == s@.len(),
                m == p@.len(),
                m > 0,
                trim_prefix_all(s@, p@) == trim_prefix_all(s@.skip(pos as int), p@),
            decreases n - pos,
        {
            let ghost rest = s@.skip(pos as int);
            assert(rest.take(p@.len() as int) =~= s@.subrange(pos as int, pos + p@.len()));
            assert(rest.skip(p@.len() as int) =~= s@.skip(pos + m));
            pos = pos + m;
        }
        proof {
            let rest = s@.skip(pos as int);
            if p@.len() <= rest.len() {
                assert(rest.take(p@.len() as int) =~= s@.subrange(pos as int, pos + p@.len()));
            }
        }
    }
    assert(s@.skip(pos as int) =~= s@.subrange(pos as int, n as int));
    s.substring_char(pos, n)
}

// ---------------------------------------------------------------------------
// Texture names
// ---------------------------------------------------------------------------

/// A texture path with its leading `.\` and `./` prefixes removed.
pub open spec fn strip_dot_prefixes(raw: Seq<char>) -> Seq<char> {
    trim_prefix_all(trim_prefix_all(raw, ".\\"@), "./"@)
}

/// The stem of a texture path: the file stem of the path without its leading
/// `.\` and `./` prefixes, or `"unknown"` when it has none.
pub open spec fn texture_stem_spec(raw: Seq<char>) -> Seq<char> {
    match file_stem_of(strip_dot_prefixes(raw)) {
        Some(s) => s,
        None => "unknown"@,
    }
}

/// Strip texture path down to its stem.
pub fn texture_stem<'a>(raw: &'a str) -> (r: &'a str)
    ensures
        r@ == texture_stem_spec(raw@),
{
    let a = trim_start_matches(raw, ".\\");
    let b = trim_start_matches(a, "./");
    match path_file_stem(b) {
        Some(s) => s,
        None => "unknown",
    }
}

/// Directories searched for textures, relative to the game directory.
pub open spec fn search_dirs() -> Seq<Seq<char>> {
    seq!["mods/Stranded II/gfx"@, "gfx"@]
}

/// File extensions tried, in order.
pub open spec fn texture_exts() -> Seq<Seq<char>> {
    seq!["bmp"@, "jpg"@, "jpeg"@, "png"@, "tga"@]
}

/// The candidate file for texture `name` in search directory `d`, extension
/// `e` and spelling `f` (0: as given, 1: lower case).
pub open spec fn candidate(name: Seq<char>, game_dir: Seq<char>, d: int, e: int, f: int) -> Seq<char> {
    let dir = path_join_of(game_dir, search_dirs()[d]);
    let fname = if f == 0 { name } else { lowercase_of(name) };
    path_join_of(dir, fname + "."@ + texture_exts()[e])
}

/// All candidate files for texture `name`, in search order: directory, then
/// extension, then spelling.
pub open spec fn texture_candidates_spec(name: Seq<char>, game_dir: Seq<char>) -> Seq<Seq<char>> {
    Seq::new(20, |k: int| candidate(name, game_dir, k / 10, (k % 10) / 2, k % 2))
}

/// The files where texture `name` may be found under `game_dir`, in the
/// order in which they are tried.
pub fn texture_candidates(name: &str, game_dir: &str) -> (r: Vec<String>)
    ensures
        r@.len() == 20,
        forall|k: int| 0 <= k < 20 ==> (#[trigger] r@[k])@ == texture_candidates_spec(name@, game_dir@)[k],
{
    let lower = to_lowercase(name);
    let dirs: [&str; 2] = ["mods/Stranded II/gfx", "gfx"];
    let exts: [&str; 5] = ["bmp", "jpg", "jpeg", "png", "tga"];
    let mut r: Vec<String> = Vec::new();
    let mut d: usize = 0;
    while d < 2
        invariant
            d <= 2,
            dirs@ == seq!["mods/Stranded II/gfx", "gfx"],
            exts@ == seq!["bmp", "jpg", "jpeg", "png", "tga"],
            lower@ == lowercase_of(name@),
            r@.len() == 10 * d,
            forall|k: int| 0 <= k < r@.len() ==> (#[trigger] r@[k])@ == texture_candidates_spec(name@, game_dir@)[k],
        decreases 2 - d,
    {
        let dir = path_join(game_dir, dirs[d]);
        let mut e: usize = 0;
        while e < 5
            invariant
                d < 2,
                e <= 5,
                dirs@ == seq!["mods/Stranded II/gfx", "gfx"],
                exts@ == seq!["bmp", "jpg", "jpeg", "png", "tga"],
                lower@ == lowercase_of(name@),
                dir@ == path_join_of(game_dir@, search_dirs()[d as int]),
                r@.len() == 10 * d + 2 * e,
                forall|k: int| 0 <= k < r@.len() ==> (#[trigger] r@[k])@ == texture_candidates_spec(name@, game_dir@)[k],
            decreases 5 - e,
        {
            let mut f0 = String::from_str(name);
            f0.append(".");
            f0.append(exts[e]);
            let p0 = path_join(dir.as_str(), f0.as_str());
            let mut f1 = String::from_str(lower.as_str());
            f1.append(".");
            f1.append(exts[e]);
            let p1 = path_join(dir.as_str(), f1.as_str());
            proof {
                let k0 = 10 * d + 2 * e;
                assert(k0 / 10 == d && (k0 % 10) / 2 == e && k0 % 2 == 0);
                assert((k0 + 1) / 10 == d && ((k0 + 1) % 10) / 2 == e && (k0 + 1) % 2 == 1);
                assert(exts@[e as int]@ == texture_exts()[e as int]);
            }
            r.push(p0);
            r.push(p1);
            e = e + 1;
        }
        d = d + 1;
    }
    r
}

/// The index of the first candidate that exists, if any.
pub open spec fn first_existing(exists: Seq<bool>) -> Option<int>
    decreases exists.len(),
{
    if exists.len() == 0 {
        None
    } else {
        match first_existing(exists.drop_last()) {
            Some(i) => Some(i),
            None => if exists.last() { Some(exists.len() - 1) } else { None },
        }
    }
}

/// Find a texture file by name in the common B3D game directories: the first
/// candidate of `texture_candidates(name, game_dir)` whose file exists, where
/// `exists[k]` tells whether candidate `k` does.
pub fn find_texture(name: &str, game_dir: &str, exists: &Vec<bool>) -> (r: Option<String>)
    requires
        exists@.len() == 20,
    ensures
        match first_existing(exists@) {
            Some(k) => r matches Some(p) && p@ == texture_candidates_spec(name@, game_dir@)[k],
            None => r is None,
        },
{
    let mut cands = texture_candidates(name, game_dir);
    let mut k: usize = 0;
    while k < 20
        invariant
            k <= 20,
            exists@.len() == 20,
            cands@.len() == 20,
            forall|j: int| 0 <= j < 20 ==> (#[trigger] cands@[j])@ == texture_candidates_spec(name@, game_dir@)[j],
            first_existing(exists@.take(k as int)) is None,
        decreases 20 - k,
    {
        assert(exists@.take(k as int + 1).drop_last() =~= exists@.take(k as int));
        if exists[k] {
            proof {
                lemma_first_existing_prefix(exists@, k as int + 1);
            }
            let p = cands.swap_remove(k);
            return Some(p);
        }
        k = k + 1;
    }
    assert(exists@.take(20) =~= exists@);
    None
}

/// The first existing index of a prefix that has one is the first of the
/// whole sequence.
proof fn lemma_first_existing_prefix(s: Seq<bool>, n: int)
    requires
        0 <= n <= s.len(),
        first_existing(s.take(n)) is Some,
    ensures
        first_existing(s) == first_existing(s.take(n)),
    decreases s.len() - n,
{
    if n < s.len() {
        assert(s.take(n + 1).drop_last() =~= s.take(n));
        lemma_first_existing_prefix(s, n + 1);
    } else {
        assert(s.take(n) =~= s);
    }
}

/// Whether some pixel of RGBA8 data (four bytes per pixel, alpha last) is
/// not fully opaque.
pub open spec fn has_transparent_pixel(rgba: Seq<u8>) -> bool {
    exists|k: int| 0 <= k < rgba.len() && k % 4 == 3 && #[trigger] rgba[k] < 255
}

/// Whether some pixel of RGBA8 data is not fully opaque.
pub fn any_transparent(rgba: &[u8]) -> (r: bool)
    ensures
        r == has_transparent_pixel(rgba@),
{
    let n = rgba.len() / 4;
    let mut p: usize = 0;
    while p < n
        invariant
            p <= n,
            n == rgba@.len() / 4,
            forall|j: int| 0 <= j < 4 * p && j < rgba@.len() && j % 4 == 3 ==> rgba@[j] >= 255,
        decreases n - p,
    {
        assert(4 * p + 3 < rgba.len()) by {
            assert(p + 1 <= n);
            assert(4 * n <= rgba@.len());
        }
        if rgba[4 * p + 3] < 255 {
            assert(rgba@[4 * p + 3] < 255 && (4 * p + 3) % 4 == 3);
            return true;
        }
        p = p + 1;
    }
    assert forall|j: int| 0 <= j < rgba@.len() && j % 4 == 3 implies #[trigger] rgba@[j] >= 255 by {
        assert(j < 4 * n);
    }
    false
}

/// Trimming leaves a suffix of the text that no longer starts with the
/// pattern.
pub proof fn lemma_trim_prefix_all(s: Seq<char>, p: Seq<char>)
    requires
        p.len() > 0,
    ensures
        trim_prefix_all(s, p) == s.skip(s.len() - trim_prefix_all(s, p).len()),
        trim_prefix_all(s, p).len() <= s.len(),
        !(p.len() <= trim_prefix_all(s, p).len() && trim_prefix_all(s, p).take(p.len() as int) == p),
    decreases s.len(),
{
    if p.len() <= s.len() && s.take(p.len() as int) == p {
        let rest = s.skip(p.len() as int);
        lemma_trim_prefix_all(rest, p);
        let r = trim_prefix_all(rest, p);
        assert(rest.skip(rest.len() - r.len()) =~= s.skip(s.len() - r.len()));
    } else {
        assert(s.skip(0) =~= s);
    }
}

} // verus!
