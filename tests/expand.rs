use std::collections::HashMap;

use cargo_unify::{
    chars_of, expand, expand_with, extend_path, get_mod, line_col_offset, mod_declarations,
    mod_dir, Action, CrateType, DeclError, ExpandError, ModDecl, PathError, SrcPath, MAX_DEPTH,
};

fn path(parts: &[&str]) -> SrcPath {
    SrcPath { parts: parts.iter().map(|s| s.to_string()).collect() }
}

/// Runs an expansion against an in-memory tree; returns the result and the
/// files asked for, in order.
fn run_logged(files: &[(&[&str], &str)], root: &[&str]) -> (Result<String, ExpandError>, Vec<SrcPath>) {
    let tree: HashMap<Vec<String>, String> = files
        .iter()
        .map(|(p, t)| (p.iter().map(|s| s.to_string()).collect(), t.to_string()))
        .collect();
    let root = path(root);
    let text = tree.get(&root.parts).expect("root file is in the tree").clone();
    let (mut session, mut action) = expand(&text, &root);
    let mut reads = Vec::new();
    loop {
        match action {
            Action::Done(out) => return (Ok(out), reads),
            Action::Fail(e) => return (Err(e), reads),
            Action::Read(p) => {
                assert!(session.is_waiting());
                let found = tree.get(&p.parts).cloned();
                reads.push(p);
                action = session.resume(found);
            }
        }
    }
}

fn run(files: &[(&[&str], &str)], root: &[&str]) -> Result<String, ExpandError> {
    run_logged(files, root).0
}

const LIB: &str = "mod a;\nmod b;\n\nfn lib() {}\n";

fn sample_tree() -> Vec<(&'static [&'static str], &'static str)> {
    vec![
        (&["_test", "src", "lib.rs"], LIB),
        (&["_test", "src", "a.rs"], "mod c;\n\nfn a() {}\n"),
        (&["_test", "src", "a", "c.rs"], "fn c() {}\n"),
        (&["_test", "src", "b", "mod.rs"], "mod d;\n\nfn b() {}\n"),
        (&["_test", "src", "b", "d.rs"], "fn d() {}\n"),
    ]
}

#[test]
fn test_expand() {
    const EXPECTED: &str = "mod a {
mod c {
fn c() {}

} 

fn a() {}

} 
mod b {
mod d {
fn d() {}

} 

fn b() {}

} 

fn lib() {}
";
    let expanded = run(&sample_tree(), &["_test", "src", "lib.rs"])
        .expect("testing crate should be parseable");
    assert_eq!(expanded, EXPECTED.to_owned());
}

#[test]
fn expansion_asks_for_files_depth_first() {
    let (_, reads) = run_logged(&sample_tree(), &["_test", "src", "lib.rs"]);
    let expected = vec![
        path(&["_test", "src", "a.rs"]),
        path(&["_test", "src", "a", "c.rs"]),
        path(&["_test", "src", "b.rs"]),
        path(&["_test", "src", "b", "mod.rs"]),
        path(&["_test", "src", "b", "d.rs"]),
    ];
    assert_eq!(reads, expected);
}

#[test]
fn text_without_declarations_is_unchanged() {
    let text = "// mod fake;\nfn f() { let s = \"mod x;\"; }\nmod inline { fn g() {} }\n";
    let out = run(&[(&["src", "lib.rs"], text)], &["src", "lib.rs"]).unwrap();
    assert_eq!(out, text);
}

#[test]
fn expansion_is_idempotent_on_flattened_text() {
    let once = run(&sample_tree(), &["_test", "src", "lib.rs"]).unwrap();
    let twice = run(&[(&["_test", "src", "lib.rs"], once.as_str())], &["_test", "src", "lib.rs"]).unwrap();
    assert_eq!(once, twice);
}

#[test]
fn text_around_declarations_is_kept() {
    let root = "/* mod no; */ pub mod a ; // tail\n#[cfg(x)]\nmod b;\nstruct S;";
    let files: Vec<(&[&str], &str)> = vec![
        (&["src", "main.rs"], root),
        (&["src", "a.rs"], "const A: u8 = 1;"),
        (&["src", "b.rs"], "const B: u8 = 2;"),
    ];
    let out = run(&files, &["src", "main.rs"]).unwrap();
    assert_eq!(
        out,
        "/* mod no; */ pub mod a  {\nconst A: u8 = 1;\n}  // tail\n#[cfg(x)]\nmod b {\nconst B: u8 = 2;\n} \nstruct S;"
    );
}

#[test]
fn two_declarations_keep_their_order() {
    let files: Vec<(&[&str], &str)> = vec![
        (&["src", "lib.rs"], "mod first;\n// between\nmod second;\n"),
        (&["src", "first.rs"], "fn one() {}"),
        (&["src", "second.rs"], "fn two() {}"),
    ];
    let out = run(&files, &["src", "lib.rs"]).unwrap();
    let first = out.find("fn one() {}").unwrap();
    let second = out.find("fn two() {}").unwrap();
    assert!(first < second);
    assert!(out.contains("\n} \n// between\nmod second {"));
}

#[test]
fn direct_file_is_preferred_over_mod_file() {
    let files: Vec<(&[&str], &str)> = vec![
        (&["src", "lib.rs"], "mod m;"),
        (&["src", "m.rs"], "fn direct() {}"),
        (&["src", "m", "mod.rs"], "fn nested() {}"),
    ];
    let (out, reads) = run_logged(&files, &["src", "lib.rs"]);
    assert_eq!(out.unwrap(), "mod m {\nfn direct() {}\n} ");
    assert_eq!(reads, vec![path(&["src", "m.rs"])]);
}

#[test]
fn mod_file_is_used_when_no_direct_file() {
    let files: Vec<(&[&str], &str)> = vec![
        (&["src", "lib.rs"], "mod m;"),
        (&["src", "m", "mod.rs"], "fn nested() {}"),
    ];
    let out = run(&files, &["src", "lib.rs"]).unwrap();
    assert_eq!(out, "mod m {\nfn nested() {}\n} ");
}

#[test]
fn missing_module_is_reported() {
    let files: Vec<(&[&str], &str)> = vec![(&["crate", "src", "main.rs"], "mod gone;\n")];
    let err = run(&files, &["crate", "src", "main.rs"]).unwrap_err();
    assert_eq!(
        err,
        ExpandError::ModuleNotFound { name: "gone".to_string(), dir: path(&["crate", "src"]) }
    );
}

#[test]
fn missing_nested_module_names_child_directory() {
    let files: Vec<(&[&str], &str)> = vec![
        (&["src", "lib.rs"], "mod a;"),
        (&["src", "a.rs"], "mod z;"),
    ];
    let err = run(&files, &["src", "lib.rs"]).unwrap_err();
    assert_eq!(err, ExpandError::ModuleNotFound { name: "z".to_string(), dir: path(&["src", "a"]) });
}

#[test]
fn invalid_source_is_a_parse_error() {
    let files: Vec<(&[&str], &str)> = vec![
        (&["src", "lib.rs"], "mod a;"),
        (&["src", "a.rs"], "fn broken( {"),
    ];
    match run(&files, &["src", "lib.rs"]) {
        Err(ExpandError::Parse { path: p, message }) => {
            assert_eq!(p, path(&["src", "a.rs"]));
            assert!(!message.is_empty());
        }
        other => panic!("unexpected {:?}", other),
    }
}

#[test]
fn empty_path_is_a_path_error() {
    let (_, action) = expand("fn f() {}", &path(&[]));
    assert_eq!(action, Action::Fail(ExpandError::Path { path: path(&[]), error: PathError::NoParent }));
}

#[test]
fn self_reference_stops_at_depth_limit() {
    let files: Vec<(&[&str], &str)> = vec![(&["src", "lib.rs"], "mod lib;")];
    let (err, reads) = run_logged(&files, &["src", "lib.rs"]);
    assert_eq!(err.unwrap_err(), ExpandError::TooDeep { path: path(&["src", "lib.rs"]) });
    assert_eq!(reads.len(), MAX_DEPTH);
}

#[test]
fn mod_dir_of_entry_files_is_parent() {
    for name in ["main.rs", "lib.rs", "mod.rs"] {
        assert_eq!(mod_dir(&path(&["x", "src", name])).unwrap(), path(&["x", "src"]));
    }
    assert_eq!(mod_dir(&path(&["src", "a", "mod.rs"])).unwrap(), path(&["src", "a"]));
}

#[test]
fn mod_dir_of_other_files_appends_stem() {
    assert_eq!(mod_dir(&path(&["src", "foo.rs"])).unwrap(), path(&["src", "foo"]));
    assert_eq!(mod_dir(&path(&["src", "a", "b.rs"])).unwrap(), path(&["src", "a", "b"]));
    assert_eq!(mod_dir(&path(&["src", "lib.tar.gz"])).unwrap(), path(&["src", "lib.tar"]));
    assert_eq!(mod_dir(&path(&["src", ".hidden"])).unwrap(), path(&["src", ".hidden"]));
    assert_eq!(mod_dir(&path(&["src", "noext"])).unwrap(), path(&["src", "noext"]));
}

#[test]
fn mod_dir_errors() {
    assert_eq!(mod_dir(&path(&[])), Err(PathError::NoParent));
    assert_eq!(mod_dir(&path(&["src", ".."])), Err(PathError::NoFileName));
    assert_eq!(mod_dir(&path(&["/"])), Err(PathError::NoFileName));
}

#[test]
fn candidates_in_order() {
    let dir = path(&["src", "a"]);
    assert_eq!(get_mod("m", &dir, 0), path(&["src", "a", "m.rs"]));
    assert_eq!(get_mod("m", &dir, 1), path(&["src", "a", "m", "mod.rs"]));
}

#[test]
fn extend_path_appends_nodes() {
    assert_eq!(extend_path(&path(&["a"]), &["b", "c.rs"]), path(&["a", "b", "c.rs"]));
    assert_eq!(extend_path(&path(&["a"]), &[]), path(&["a"]));
}

#[test]
fn base_file_per_crate_type() {
    assert_eq!(CrateType::Lib.base_file(&path(&["."])), path(&[".", "src", "lib.rs"]));
    assert_eq!(CrateType::Bin.base_file(&path(&["."])), path(&[".", "src", "main.rs"]));
}

#[test]
fn declarations_are_located_by_offset() {
    let text = "mod a;\nmod inline {}\n  mod b\n  ;\n";
    let decls = mod_declarations(text).unwrap();
    assert_eq!(
        decls,
        vec![
            ModDecl { name: "a".to_string(), offset: 5 },
            ModDecl { name: "b".to_string(), offset: 31 },
        ]
    );
}

#[test]
fn declaration_offsets_count_characters() {
    let text = "// é\u{1F600}\nconst S: &str = \"ü\"; mod z;\n";
    let decls = mod_declarations(text).unwrap();
    let chars: Vec<char> = text.chars().collect();
    assert_eq!(decls.len(), 1);
    assert_eq!(chars[decls[0].offset], ';');
    assert_eq!(decls[0].offset, 32);
}

#[test]
fn declarations_with_crlf_lines() {
    let text = "mod a;\r\nmod b;\r\n";
    let decls = mod_declarations(text).unwrap();
    assert_eq!(decls.iter().map(|d| d.offset).collect::<Vec<_>>(), vec![5, 13]);
}

#[test]
fn syntax_error_from_declarations() {
    assert!(matches!(mod_declarations("mod ;"), Err(DeclError::Syntax(_))));
}

#[test]
fn line_col_offset_values() {
    let text = chars_of("ab\ncd\n\nx");
    assert_eq!(line_col_offset(&text, 1, 0), Some(0));
    assert_eq!(line_col_offset(&text, 1, 2), Some(2));
    assert_eq!(line_col_offset(&text, 2, 1), Some(4));
    assert_eq!(line_col_offset(&text, 4, 0), Some(7));
    assert_eq!(line_col_offset(&text, 2, 3), None);
    assert_eq!(line_col_offset(&text, 5, 0), None);
    assert_eq!(line_col_offset(&text, 0, 0), None);
    assert_eq!(line_col_offset(&text, 3, 1), None);
}

#[test]
fn expand_with_splices_bodies() {
    let decls = vec![
        ModDecl { name: "a".to_string(), offset: 5 },
        ModDecl { name: "b".to_string(), offset: 12 },
    ];
    let bodies = vec!["A".to_string(), String::new()];
    assert_eq!(expand_with("mod a; mod b;!", &decls, &bodies), "mod a {\nA\n}  mod b {\n\n} !");
    assert_eq!(expand_with("plain", &Vec::new(), &Vec::new()), "plain");
}

#[test]
fn chars_of_multibyte() {
    assert_eq!(chars_of("aé😀"), vec!['a', 'é', '😀']);
}

#[test]
fn failure_keeps_chain_of_open_files() {
    let lib = path(&["src", "lib.rs"]);
    let (mut session, action) = expand("mod a;", &lib);
    assert_eq!(action, Action::Read(path(&["src", "a.rs"])));
    let action = session.resume(Some("mod z;".to_string()));
    assert_eq!(action, Action::Read(path(&["src", "a", "z.rs"])));
    let action = session.resume(None);
    assert_eq!(action, Action::Read(path(&["src", "a", "z", "mod.rs"])));
    let action = session.resume(None);
    assert!(matches!(action, Action::Fail(ExpandError::ModuleNotFound { .. })));
    assert!(!session.is_waiting());
    assert_eq!(session.open_files(), vec![lib, path(&["src", "a.rs"])]);
}

#[test]
fn decorated_declarations_inline_and_inline_modules_stay() {
    let files: Vec<(&[&str], &str)> = vec![
        (&["src", "lib.rs"], "#[cfg(test)]\npub mod a;\nmod x { mod y; }\n"),
        (&["src", "a.rs"], "fn a() {}\n"),
    ];
    let out = run(&files, &["src", "lib.rs"]).unwrap();
    assert_eq!(out, "#[cfg(test)]\npub mod a {\nfn a() {}\n\n} \nmod x { mod y; }\n");
}

#[test]
fn child_modules_resolve_in_child_directory() {
    let files: Vec<(&[&str], &str)> = vec![
        (&["src", "lib.rs"], "mod a;\n"),
        (&["src", "a.rs"], "mod c;\n"),
        (&["src", "c.rs"], "fn c() {}\n"),
    ];
    let err = run(&files, &["src", "lib.rs"]).unwrap_err();
    assert_eq!(err, ExpandError::ModuleNotFound { name: "c".to_string(), dir: path(&["src", "a"]) });
}

#[test]
fn text_between_two_declarations_exact() {
    let files: Vec<(&[&str], &str)> = vec![
        (&["src", "lib.rs"], "mod a;\n// between\nmod b;\n"),
        (&["src", "a.rs"], "fn a() {}\n"),
        (&["src", "b.rs"], "fn b() {}\n"),
    ];
    let out = run(&files, &["src", "lib.rs"]).unwrap();
    assert_eq!(out, "mod a {\nfn a() {}\n\n} \n// between\nmod b {\nfn b() {}\n\n} \n");
}

#[test]
fn direct_file_is_preferred_for_later_modules() {
    let files: Vec<(&[&str], &str)> = vec![
        (&["src", "lib.rs"], "mod a;\nmod b;\n"),
        (&["src", "a.rs"], "mod c;\n"),
        (&["src", "a", "c.rs"], "fn c1() {}"),
        (&["src", "a", "c", "mod.rs"], "fn c2() {}"),
        (&["src", "b.rs"], "fn b1() {}"),
        (&["src", "b", "mod.rs"], "fn b2() {}"),
    ];
    let (out, reads) = run_logged(&files, &["src", "lib.rs"]);
    assert_eq!(
        out.unwrap(),
        "mod a {\nmod c {\nfn c1() {}\n} \n\n} \nmod b {\nfn b1() {}\n} \n"
    );
    assert_eq!(
        reads,
        vec![path(&["src", "a.rs"]), path(&["src", "a", "c.rs"]), path(&["src", "b.rs"])]
    );
}

#[test]
fn byte_order_mark_keeps_first_line_declarations() {
    let text = "\u{feff}mod a; mod b;\n";
    let decls = mod_declarations(text).unwrap();
    assert_eq!(decls.iter().map(|d| d.offset).collect::<Vec<_>>(), vec![6, 13]);
    let files: Vec<(&[&str], &str)> = vec![
        (&["src", "lib.rs"], text),
        (&["src", "a.rs"], "fn a() {}"),
        (&["src", "b.rs"], "fn b() {}"),
    ];
    let out = run(&files, &["src", "lib.rs"]).unwrap();
    assert_eq!(out, "\u{feff}mod a {\nfn a() {}\n}  mod b {\nfn b() {}\n} \n");
}
