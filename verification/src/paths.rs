//! Input selection and output naming.
use vstd::prelude::*;
use vstd::string::{StrSliceExecFns, StringExecFns};
use crate::cli::push_char;
use crate::texture::{file_stem_of, path_file_stem};

verus! {

/// What `std::path::Path::parent` gives for a path (as text).
pub uninterp spec fn parent_of(path: Seq<char>) -> Option<Seq<char>>;

/// What `std::path::Path::extension` gives for a path (as text).
pub uninterp spec fn extension_of(path: Seq<char>) -> Option<Seq<char>>;

/// Calls `std::path::Path::parent`; the parent of a path given as UTF-8
/// text is UTF-8 too. Claims that the result is the one `parent_of` names,
/// and, as the documentation says ("the `Path` without its final
/// component"), that it is a prefix of the path. Which prefix (how the
/// components are split) is left unsaid.
#[verifier::external_body]
fn path_parent<'a>(p: &'a str) -> (r: Option<&'a str>)
    ensures
        r is Some <==> parent_of(p@) is Some,
        r matches Some(s) ==> parent_of(p@) == Some(s@) && s@.is_prefix_of(p@),
{
    match std::path::Path::new(p).parent() {
        Some(q) => q.to_str(),
        None => None,
    }
}

/// Calls `std::path::Path::extension`; claims only that the result is the
/// one `extension_of` names.
#[verifier::external_body]
fn path_extension<'a>(p: &'a str) -> (r: Option<&'a str>)
    ensures
        r is Some <==> extension_of(p@) is Some,
        r matches Some(s) ==> extension_of(p@) == Some(s@),
{
    match std::path::Path::new(p).extension() {
        Some(e) => e.to_str(),
        None => None,
    }
}

/// The context (game) directory guessed from the first input: the parent of
/// its directory when it is a file, its parent otherwise.
pub open spec fn derive_context_spec(path: Seq<char>, is_file: bool) -> Option<Seq<char>> {
    if is_file {
        match parent_of(path) {
            Some(p) => parent_of(p),
            None => None,
        }
    } else {
        parent_of(path)
    }
}

/// Guess the context directory from an input path; `is_file` tells whether
/// the path names an existing file. A guessed directory is always an
/// ancestor of the path: a prefix of its text.
pub fn derive_context<'a>(path: &'a str, is_file: bool) -> (r: Option<&'a str>)
    ensures
        match derive_context_spec(path@, is_file) {
            Some(c) => r matches Some(s) && s@ == c,
            None => r is None,
        },
        r matches Some(s) ==> s@.is_prefix_of(path@),
{
    if is_file {
        match path_parent(path) {
            Some(p) => {
                let r = path_parent(p);
                proof {
                    if let Some(s) = r {
                        assert(s@ =~= path@.subrange(0, s@.len() as int)) by {
                            assert forall|i: int| 0 <= i < s@.len() implies s@[i] == path@[i] by {
                                assert(s@[i] == p@[i]);
                                assert(p@[i] == path@[i]);
                            }
                        }
                    }
                }
                r
            },
            None => None,
        }
    } else {
        path_parent(path)
    }
}

/// Whether converting the file may need textures (conservatively: always).
pub fn needs_textures(_path: &str) -> (r: bool)
    ensures
        r,
{
    true
}

/// Whether a path names a `.b3d` file (by its extension).
pub fn is_b3d_file(path: &str) -> (r: bool)
    ensures
        r == (extension_of(path@) == Some("b3d"@)),
{
    match path_extension(path) {
        Some(e) => {
            let r = crate::cli::str_eq(e, "b3d");
            r
        },
        None => false,
    }
}

fn concat(a: &str, b: &str) -> (r: String)
    ensures
        r@ == a@ + b@,
{
    let mut s = String::from_str(a);
    s.append(b);
    s
}

/// The name of a model: the file stem of its path, or empty.
pub open spec fn model_name_spec(path: Seq<char>) -> Seq<char> {
    match file_stem_of(path) {
        Some(s) => s,
        None => Seq::empty(),
    }
}

/// The name of the model in the file at `path`.
pub fn model_name(path: &str) -> (r: String)
    ensures
        r@ == model_name_spec(path@),
{
    match path_file_stem(path) {
        Some(s) => String::from_str(s),
        None => String::new(),
    }
}

/// The output file name for an input: its stem with `.glb`, or `.gltf` for
/// separate files; `None` when the input path has no file stem.
pub fn output_file_name(path: &str, glb: bool) -> (r: Option<String>)
    ensures
        match file_stem_of(path@) {
            Some(s) => r matches Some(n) && n@ == s + if glb { ".glb"@ } else { ".gltf"@ },
            None => r is None,
        },
{
    match path_file_stem(path) {
        Some(s) => Some(if glb { concat(s, ".glb") } else { concat(s, ".gltf") }),
        None => None,
    }
}

/// The binary buffer file written beside a `.gltf` named `<stem>.gltf`.
pub fn bin_file_name(stem: &str) -> (r: String)
    ensures
        r@ == stem@ + ".bin"@,
{
    concat(stem, ".bin")
}

/// The character of decimal digit `d`.
pub open spec fn digit_char(d: int) -> char {
    ((48 + d) as u8) as char
}

/// `n` in decimal.
pub open spec fn decimal_spec(n: nat) -> Seq<char>
    decreases n,
{
    if n < 10 {
        seq![digit_char(n as int)]
    } else {
        decimal_spec(n / 10).push(digit_char((n % 10) as int))
    }
}

/// Write `n` in decimal.
pub fn decimal(n: usize) -> (r: String)
    ensures
        r@ == decimal_spec(n as nat),
    decreases n,
{
    let d = (n % 10) as u8;
    let c = (48u8 + d) as char;
    if n < 10 {
        let mut s = String::new();
        push_char(&mut s, c);
        assert(s@ =~= seq![digit_char(n as int)]);
        s
    } else {
        let mut s = decimal(n / 10);
        push_char(&mut s, c);
        s
    }
}

/// The file name of texture `i` of model `model` when textures are written
/// as separate files.
pub open spec fn image_file_name_spec(model: Seq<char>, i: nat) -> Seq<char> {
    model + "_tex"@ + decimal_spec(i) + ".png"@
}

/// File name of texture `i` of a model written as separate files.
pub fn image_file_name(model: &str, i: usize) -> (r: String)
    ensures
        r@ == image_file_name_spec(model@, i as nat),
{
    let mut s = concat(model, "_tex");
    let d = decimal(i);
    s.append(d.as_str());
    s.append(".png");
    s
}

/// URI of texture `i` of a model written as separate files, relative to the
/// `.gltf` file.
pub fn image_uri(model: &str, i: usize) -> (r: String)
    ensures
        r@ == "textures/"@ + image_file_name_spec(model@, i as nat),
{
    let f = image_file_name(model, i);
    concat("textures/", f.as_str())
}

} // verus!
