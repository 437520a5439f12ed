use b3d2glb::cli::{parse_args, split_char, Command};
use b3d2glb::paths::{bin_file_name, decimal, derive_context, image_file_name, image_uri, is_b3d_file, model_name, needs_textures, output_file_name};
use b3d2glb::texture::{any_transparent, find_texture, texture_candidates, texture_stem, trim_start_matches};

fn args(v: &[&str]) -> Vec<String> {
    v.iter().map(|s| s.to_string()).collect()
}

#[test]
fn texture_stem_strips_prefix_and_extension() {
    assert_eq!(texture_stem("./gfx/wood.bmp"), "wood");
    assert_eq!(texture_stem(".\\skin.jpg"), "skin");
    assert_eq!(texture_stem("./././a.b.png"), "a.b");
    assert_eq!(texture_stem(""), "unknown");
}

#[test]
fn trim_start_repeats() {
    assert_eq!(trim_start_matches("ababx", "ab"), "x");
    assert_eq!(trim_start_matches("aab", "ab"), "aab");
    assert_eq!(trim_start_matches("xyz", ""), "xyz");
}

#[test]
fn candidates_in_search_order() {
    let c = texture_candidates("Wood", "/game");
    assert_eq!(c.len(), 20);
    assert_eq!(c[0], "/game/mods/Stranded II/gfx/Wood.bmp");
    assert_eq!(c[1], "/game/mods/Stranded II/gfx/wood.bmp");
    assert_eq!(c[2], "/game/mods/Stranded II/gfx/Wood.jpg");
    assert_eq!(c[9], "/game/mods/Stranded II/gfx/wood.tga");
    assert_eq!(c[10], "/game/gfx/Wood.bmp");
    assert_eq!(c[19], "/game/gfx/wood.tga");
}

#[test]
fn find_texture_takes_first_existing() {
    let mut exists = vec![false; 20];
    exists[13] = true;
    exists[17] = true;
    assert_eq!(find_texture("Rock", "g", &exists).as_deref(), Some("g/gfx/rock.jpg"));
    assert_eq!(find_texture("Rock", "g", &vec![false; 20]), None);
}

#[test]
fn parse_args_defaults() {
    match parse_args(&args(&["b3d2glb", "m.b3d"])).unwrap() {
        Command::Run(a) => {
            assert_eq!(a.inputs, vec!["m.b3d".to_string()]);
            assert_eq!(a.out_dir, ".");
            assert_eq!(a.context_dir, None);
            assert!(!a.glb);
            assert!(a.material.is_none());
            assert!(a.color.is_none());
        }
        Command::Help => panic!("not help"),
    }
}

#[test]
fn parse_args_all_options() {
    let raw = args(&["p", "-b", "-o", "out", "--context", "game", "-m", "0.0m0.9r", "-C", "0.8,0.8,0.8", "a.b3d", "dir"]);
    match parse_args(&raw).unwrap() {
        Command::Run(a) => {
            assert!(a.glb);
            assert_eq!(a.out_dir, "out");
            assert_eq!(a.context_dir.as_deref(), Some("game"));
            assert_eq!(a.material, Some(("0.0".to_string(), "0.9".to_string())));
            assert_eq!(a.color, Some(vec!["0.8".to_string(), "0.8".to_string(), "0.8".to_string()]));
            assert_eq!(a.inputs, vec!["a.b3d".to_string(), "dir".to_string()]);
        }
        Command::Help => panic!("not help"),
    }
    match parse_args(&args(&["p", "--material", "0.5,0.3", "x"])).unwrap() {
        Command::Run(a) => assert_eq!(a.material, Some(("0.5".to_string(), "0.3".to_string()))),
        Command::Help => panic!("not help"),
    }
}

#[test]
fn parse_args_help_and_errors() {
    assert!(matches!(parse_args(&args(&["p", "x", "--help"])), Ok(Command::Help)));
    assert!(matches!(parse_args(&args(&["p", "-?"])), Ok(Command::Help)));
    assert_eq!(parse_args(&args(&["p"])).err().unwrap(), "no input files or directories specified");
    assert_eq!(parse_args(&args(&["p", "x", "-o"])).err().unwrap(), "-o/--out requires a value");
    assert_eq!(parse_args(&args(&["p", "-c"])).err().unwrap(), "-c/--context requires a value");
    assert_eq!(parse_args(&args(&["p", "-z", "x"])).err().unwrap(), "unknown option: -z");
    assert_eq!(parse_args(&args(&["p", "-m", "bad", "x"])).err().unwrap(), "invalid material value: bad");
    assert_eq!(parse_args(&args(&["p", "-C", "1,2", "x"])).err().unwrap(), "invalid color value: 1,2");
}

#[test]
fn split_on_char() {
    assert_eq!(split_char("a,b,,c", ','), vec!["a", "b", "", "c"]);
    assert_eq!(split_char("", ','), vec![""]);
}

#[test]
fn naming_of_outputs() {
    assert_eq!(output_file_name("dir/monkey.b3d", true).as_deref(), Some("monkey.glb"));
    assert_eq!(output_file_name("dir/monkey.b3d", false).as_deref(), Some("monkey.gltf"));
    assert_eq!(model_name("x/y/tree.b3d"), "tree");
    assert_eq!(bin_file_name("tree"), "tree.bin");
    assert_eq!(decimal(0), "0");
    assert_eq!(decimal(1207), "1207");
    assert_eq!(image_file_name("tree", 12), "tree_tex12.png");
    assert_eq!(image_uri("tree", 3), "textures/tree_tex3.png");
}

#[test]
fn inputs_and_context() {
    assert!(is_b3d_file("a/b/model.b3d"));
    assert!(!is_b3d_file("a/b/model.B3D"));
    assert!(!is_b3d_file("a/b/model.txt"));
    assert_eq!(derive_context("game/gfx/m.b3d", true), Some("game"));
    assert_eq!(derive_context("game/gfx", false), Some("game"));
    assert_eq!(derive_context("/game/gfx/monkey.b3d", true), Some("/game"));
    assert_eq!(derive_context("m.b3d", true), None);
    for (p, f) in [("a/b/c/d.b3d", true), ("a//b/", false), ("./x/y", true)] {
        if let Some(c) = derive_context(p, f) {
            assert!(p.starts_with(c));
        }
    }
    assert!(needs_textures("any"));
}

#[test]
fn transparency_scan() {
    assert!(!any_transparent(&[1, 2, 3, 255, 4, 5, 6, 255]));
    assert!(any_transparent(&[1, 2, 3, 255, 4, 5, 6, 254]));
    assert!(!any_transparent(&[0, 0, 0]));
    assert!(!any_transparent(&[]));
}
