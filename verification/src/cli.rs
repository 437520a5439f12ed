//! Command-line arguments.
use vstd::prelude::*;
use vstd::string::{StrSliceExecFns, StringExecFns};

verus! {

/// Calls `String::push`: appends one character.
#[verifier::external_body]
pub(crate) fn push_char(s: &mut String, c: char)
    ensures
        final(s)@ == old(s)@.push(c),
{
    s.push(c);
}

/// Whether two texts are equal.
pub fn str_eq(a: &str, b: &str) -> (r: bool)
    ensures
        r == (a@ == b@),
{
    let n = a.unicode_len();
    if n != b.unicode_len() {
        return false;
    }
    let mut i: usize = 0;
    while i < n
        invariant
            i <= n,
            n == a@.len(),
            n == b@.len(),
            forall|k: int| 0 <= k < i ==> a@[k] == b@[k],
        decreases n - i,
    {
        if a.get_char(i) != b.get_char(i) {
            return false;
        }
        i = i + 1;
    }
    assert(a@ =~= b@);
    true
}

/// `s` split at every `c` (`str::split` with a character): always at least
/// one part, none containing `c`.
pub open spec fn split_spec(s: Seq<char>, c: char) -> Seq<Seq<char>>
    decreases s.len(),
{
    if s.len() == 0 {
        seq![Seq::empty()]
    } else {
        let p = split_spec(s.drop_last(), c);
        if s.last() == c {
            p.push(Seq::empty())
        } else {
            p.update(p.len() - 1, p.last().push(s.last()))
        }
    }
}

proof fn lemma_split_nonempty(s: Seq<char>, c: char)
    ensures
        split_spec(s, c).len() >= 1,
    decreases s.len(),
{
    if s.len() > 0 {
        lemma_split_nonempty(s.drop_last(), c);
    }
}

/// Split `s` at every `c`.
pub fn split_char(s: &str, c: char) -> (r: Vec<String>)
    ensures
        r@.len() == split_spec(s@, c).len(),
        forall|k: int| 0 <= k < r@.len() ==> (#[trigger] r@[k])@ == split_spec(s@, c)[k],
{
    let n = s.unicode_len();
    let mut parts: Vec<String> = Vec::new();
    let mut cur = String::new();
    let mut i: usize = 0;
    while i < n
        invariant
            i <= n,
            n == s@.len(),
            parts@.len() + 1 == split_spec(s@.take(i as int), c).len(),
            forall|k: int| 0 <= k < parts@.len() ==> (#[trigger] parts@[k])@ == split_spec(s@.take(i as int), c)[k],
            cur@ == split_spec(s@.take(i as int), c).last(),
        decreases n - i,
    {
        proof {
            assert(s@.take(i as int + 1).drop_last() =~= s@.take(i as int));
            lemma_split_nonempty(s@.take(i as int), c);
        }
        let ch = s.get_char(i);
        if ch == c {
            parts.push(cur);
            cur = String::new();
        } else {
            push_char(&mut cur, ch);
        }
        i = i + 1;
    }
    parts.push(cur);
    proof {
        assert(s@.take(i as int) =~= s@);
        lemma_split_nonempty(s@, c);
    }
    parts
}

/// Parsed command-line arguments.
#[derive(Debug)]
pub struct Args {
    /// Input paths (files or directories).
    pub inputs: Vec<String>,
    /// Output directory (default: current dir).
    pub out_dir: String,
    /// Context / game directory for texture lookups.
    pub context_dir: Option<String>,
    /// Whether to write a single .glb (otherwise .gltf + .bin + textures).
    pub glb: bool,
    /// Metallic and roughness factors, as given (numbers still to be read).
    pub material: Option<(String, String)>,
    /// Fallback base colour components R, G, B[, A], as given.
    pub color: Option<Vec<String>>,
}

/// What the command line asks for.
#[derive(Debug)]
pub enum Command {
    /// Convert with these arguments.
    Run(Args),
    /// Print the usage text and stop.
    Help,
}

/// Arguments as plain values: inputs, output directory, context directory,
/// binary output, material factors, colour components.
pub type ArgsView = (Seq<Seq<char>>, Seq<char>, Option<Seq<char>>, bool, Option<(Seq<char>, Seq<char>)>, Option<Seq<Seq<char>>>);

pub open spec fn args_view(a: Args) -> ArgsView {
    (
        a.inputs@.map_values(|s: String| s@),
        a.out_dir@,
        match a.context_dir { Some(d) => Some(d@), None => None },
        a.glb,
        match a.material { Some((m, r)) => Some((m@, r@)), None => None },
        match a.color { Some(c) => Some(c@.map_values(|s: String| s@)), None => None },
    )
}

/// The metallic and roughness parts of a `--material` value:
/// `"<metallic>,<roughness>"` or `"<metallic>m<roughness>r"`.
pub open spec fn material_parts(v: Seq<char>) -> Option<(Seq<char>, Seq<char>)> {
    let by_comma = split_spec(v, ',');
    if by_comma.len() == 2 {
        Some((by_comma[0], by_comma[1]))
    } else if v.len() > 0 && v.last() == 'r' && split_spec(v.drop_last(), 'm').len() == 2 {
        Some((split_spec(v.drop_last(), 'm')[0], split_spec(v.drop_last(), 'm')[1]))
    } else {
        None
    }
}

/// The components of a `--color` value: three or four, comma-separated.
pub open spec fn color_parts(v: Seq<char>) -> Option<Seq<Seq<char>>> {
    let parts = split_spec(v, ',');
    if parts.len() == 3 || parts.len() == 4 { Some(parts) } else { None }
}

pub open spec fn is_one_of2(a: Seq<char>, x: Seq<char>, y: Seq<char>) -> bool {
    a == x || a == y
}

/// The outcome of reading the arguments from position `i` on with the
/// arguments read so far `st`: `Ok(None)` asks for help.
pub open spec fn parse_from(raw: Seq<Seq<char>>, i: int, st: ArgsView) -> Result<Option<ArgsView>, Seq<char>>
    decreases raw.len() - i,
{
    if i < 0 || i >= raw.len() {
        if st.0.len() == 0 {
            Err("no input files or directories specified"@)
        } else {
            Ok(Some(st))
        }
    } else {
        let a = raw[i];
        let has_value = i + 1 < raw.len();
        if a == "-h"@ || a == "--help"@ || a == "-?"@ {
            Ok(None)
        } else if is_one_of2(a, "-o"@, "--out"@) {
            if !has_value {
                Err("-o/--out requires a value"@)
            } else {
                parse_from(raw, i + 2, (st.0, raw[i + 1], st.2, st.3, st.4, st.5))
            }
        } else if is_one_of2(a, "-c"@, "--context"@) {
            if !has_value {
                Err("-c/--context requires a value"@)
            } else {
                parse_from(raw, i + 2, (st.0, st.1, Some(raw[i + 1]), st.3, st.4, st.5))
            }
        } else if is_one_of2(a, "-b"@, "--glb"@) {
            parse_from(raw, i + 1, (st.0, st.1, st.2, true, st.4, st.5))
        } else if is_one_of2(a, "-m"@, "--material"@) {
            if !has_value {
                Err("-m/--material requires a value"@)
            } else {
                match material_parts(raw[i + 1]) {
                    Some(mr) => parse_from(raw, i + 2, (st.0, st.1, st.2, st.3, Some(mr), st.5)),
                    None => Err("invalid material value: "@ + raw[i + 1]),
                }
            }
        } else if is_one_of2(a, "-C"@, "--color"@) {
            if !has_value {
                Err("-C/--color requires a value"@)
            } else {
                match color_parts(raw[i + 1]) {
                    Some(cs) => parse_from(raw, i + 2, (st.0, st.1, st.2, st.3, st.4, Some(cs))),
                    None => Err("invalid color value: "@ + raw[i + 1]),
                }
            }
        } else if a.len() > 0 && a[0] == '-' {
            Err("unknown option: "@ + a)
        } else {
            parse_from(raw, i + 1, (st.0.push(a), st.1, st.2, st.3, st.4, st.5))
        }
    }
}

/// The outcome for a whole command line (`raw[0]` is the program name).
pub open spec fn parse_args_spec(raw: Seq<Seq<char>>) -> Result<Option<ArgsView>, Seq<char>> {
    parse_from(raw, 1, (Seq::empty(), "."@, None, false, None, None))
}

/// Split a `--material` value into its metallic and roughness parts.
pub fn split_material(v: &str) -> (r: Option<(String, String)>)
    ensures
        match material_parts(v@) {
            Some((m, ro)) => r matches Some((a, b)) && a@ == m && b@ == ro,
            None => r is None,
        },
{
    let by_comma = split_char(v, ',');
    if by_comma.len() == 2 {
        return Some((by_comma[0].clone(), by_comma[1].clone()));
    }
    let n = v.unicode_len();
    if n > 0 && v.get_char(n - 1) == 'r' {
        let head = v.substring_char(0, n - 1);
        assert(head@ =~= v@.drop_last());
        let by_m = split_char(head, 'm');
        if by_m.len() == 2 {
            return Some((by_m[0].clone(), by_m[1].clone()));
        }
    }
    None
}

/// Split a `--color` value into its three or four components.
pub fn split_color(v: &str) -> (r: Option<Vec<String>>)
    ensures
        match color_parts(v@) {
            Some(cs) => r matches Some(p) && p@.map_values(|s: String| s@) == cs,
            None => r is None,
        },
{
    let parts = split_char(v, ',');
    if parts.len() == 3 || parts.len() == 4 {
        assert(parts@.map_values(|s: String| s@) =~= split_spec(v@, ','));
        Some(parts)
    } else {
        None
    }
}

fn concat(a: &str, b: &str) -> (r: String)
    ensures
        r@ == a@ + b@,
{
    let mut s = String::from_str(a);
    s.append(b);
    s
}

/// Parse the command line (`raw[0]` is the program name).
pub fn parse_args(raw: &Vec<String>) -> (r: Result<Command, String>)
    ensures
        match parse_args_spec(raw@.map_values(|s: String| s@)) {
            Ok(Some(v)) => r matches Ok(Command::Run(a)) && args_view(a) == v,
            Ok(None) => r matches Ok(Command::Help),
            Err(e) => r matches Err(m) && m@ == e,
        },
{
    let ghost rv = raw@.map_values(|s: String| s@);
    let mut args = Args {
        inputs: Vec::new(),
        out_dir: String::from_str("."),
        context_dir: None,
        glb: false,
        material: None,
        color: None,
    };
    assert(args_view(args) == (Seq::<Seq<char>>::empty(), "."@, None::<Seq<char>>, false, None::<(Seq<char>, Seq<char>)>, None::<Seq<Seq<char>>>)) by {
        assert(args.inputs@.map_values(|s: String| s@) =~= Seq::<Seq<char>>::empty());
    }
    let mut i: usize = 1;
    while i < raw.len()
        invariant
            1 <= i,
            rv == raw@.map_values(|s: String| s@),
            parse_args_spec(rv) == parse_from(rv, i as int, args_view(args)),
        decreases raw@.len() - i,
    {
        let a = raw[i].as_str();
        let has_value = i + 1 < raw.len();
        assert(a@ == rv[i as int]);
        if str_eq(a, "-h") || str_eq(a, "--help") || str_eq(a, "-?") {
            return Ok(Command::Help);
        } else if str_eq(a, "-o") || str_eq(a, "--out") {
            if !has_value {
                return Err(String::from_str("-o/--out requires a value"));
            }
            assert(raw[i + 1]@ == rv[i + 1]);
            args.out_dir = raw[i + 1].clone();
            i = i + 2;
        } else if str_eq(a, "-c") || str_eq(a, "--context") {
            if !has_value {
                return Err(String::from_str("-c/--context requires a value"));
            }
            assert(raw[i + 1]@ == rv[i + 1]);
            args.context_dir = Some(raw[i + 1].clone());
            i = i + 2;
        } else if str_eq(a, "-b") || str_eq(a, "--glb") {
            args.glb = true;
            i = i + 1;
        } else if str_eq(a, "-m") || str_eq(a, "--material") {
            if !has_value {
                return Err(String::from_str("-m/--material requires a value"));
            }
            assert(raw[i + 1]@ == rv[i + 1]);
            match split_material(raw[i + 1].as_str()) {
                Some(mr) => {
                    args.material = Some(mr);
                },
                None => {
                    return Err(concat("invalid material value: ", raw[i + 1].as_str()));
                },
            }
            i = i + 2;
        } else if str_eq(a, "-C") || str_eq(a, "--color") {
            if !has_value {
                return Err(String::from_str("-C/--color requires a value"));
            }
            assert(raw[i + 1]@ == rv[i + 1]);
            match split_color(raw[i + 1].as_str()) {
                Some(cs) => {
                    args.color = Some(cs);
                },
                None => {
                    return Err(concat("invalid color value: ", raw[i + 1].as_str()));
                },
            }
            i = i + 2;
        } else if a.unicode_len() > 0 && a.get_char(0) == '-' {
            return Err(concat("unknown option: ", a));
        } else {
            let ghost before = args.inputs@;
            args.inputs.push(raw[i].clone());
            assert(args.inputs@.map_values(|s: String| s@) =~= before.map_values(|s: String| s@).push(a@));
            i = i + 1;
        }
    }
    if args.inputs.len() == 0 {
        return Err(String::from_str("no input files or directories specified"));
    }
    Ok(Command::Run(args))
}

} // verus!
