use bundler::bundle::{
    find_path_override, flat_file, nested_file, parse_rs_file, to_file_path, Attribute, Bundler,
    ModuleDecl, Read, Request, SourceItem, Target,
};
use quote::ToTokens;
use bundler::error::{BundleError, ErrorKind};
use bundler::path::{ModulePath, ModulePathBuf};

type Item = SourceItem<String>;

fn other(text: &str) -> Item {
    SourceItem::Other(text.to_string(), vec![])
}

fn holding(text: &str, nested: Vec<Item>) -> Item {
    SourceItem::Other(text.to_string(), nested)
}

fn declared(name: &str, attrs: Vec<Attribute>) -> Item {
    SourceItem::Module(ModuleDecl {
        name: name.to_string(),
        attrs,
        body: None,
        origin: None,
        decl: format!("mod {};", name),
    })
}

fn inline(name: &str, body: Vec<Item>) -> Item {
    SourceItem::Module(ModuleDecl {
        name: name.to_string(),
        attrs: vec![],
        body: Some(body),
        origin: None,
        decl: format!("mod {};", name),
    })
}

fn loaded(name: &str, attrs: Vec<Attribute>, origin: usize, body: Vec<Item>) -> Item {
    SourceItem::Module(ModuleDecl {
        name: name.to_string(),
        attrs,
        body: Some(body),
        origin: Some(origin),
        decl: format!("mod {};", name),
    })
}

fn path_attr(value: &str) -> Attribute {
    Attribute { name: "path".to_string(), value: Some(value.to_string()) }
}

fn directory(file: &str) -> String {
    match file.rfind('/') {
        Some(at) => file[..at].to_string(),
        None => String::new(),
    }
}

fn locate(target: &Target, files: &[String]) -> String {
    match target {
        Target::Relative { includer, path } => format!("{}/{}", directory(&files[*includer]), path),
        Target::Rooted { components } => format!("src/{}", components.join("/")),
    }
}

/// Loads every out-of-line module from `disk`, as a caller with a file
/// system would, and gives the items and the files that were read.
fn run(
    root: Vec<Item>,
    disk: &dyn Fn(&str) -> Option<Vec<Item>>,
) -> Result<(Vec<Item>, Vec<String>), BundleError> {
    run_on(Bundler::new(root), disk)
}

fn run_on(
    bundler: Bundler<String>,
    disk: &dyn Fn(&str) -> Option<Vec<Item>>,
) -> Result<(Vec<Item>, Vec<String>), BundleError> {
    let mut files = vec!["src/lib.rs".to_string()];
    let mut bundler = bundler;
    while let Some(request) = bundler.next_request()? {
        let flat_exists = match request.probe() {
            Some(flat) => disk(&locate(&flat, &files)).is_some(),
            None => false,
        };
        let file = locate(&request.target(flat_exists), &files);
        let body = match disk(&file) {
            Some(items) => items,
            None => return Err(parse_rs_file(Read::Missing, &file).err().unwrap()),
        };
        files.push(file);
        assert!(bundler.supply(body, files.len() - 1));
    }
    match bundler.finish() {
        Ok(items) => Ok((items, files)),
        Err(_) => panic!("a module is still out of line"),
    }
}

#[test]
fn single_file_crate_stays_as_it_is() {
    let root = vec![other("fn main() {}"), other("struct S;")];
    let bundler = Bundler::new(vec![other("fn main() {}"), other("struct S;")]);
    assert_eq!(bundler.next_request(), Ok(None));
    assert_eq!(bundler.finish().as_ref(), Ok(&root));
    let (items, files) = run(vec![other("fn main() {}"), other("struct S;")], &|_| None).unwrap();
    assert_eq!(items, root);
    assert_eq!(files, vec!["src/lib.rs".to_string()]);
}

#[test]
fn sibling_file_is_loaded_into_its_module() {
    let disk = |file: &str| match file {
        "src/foo.rs" => Some(vec![other("fn f() {}")]),
        _ => None,
    };
    let (items, files) = run(vec![declared("foo", vec![]), other("fn main() {}")], &disk).unwrap();
    assert_eq!(
        items,
        vec![loaded("foo", vec![], 1, vec![other("fn f() {}")]), other("fn main() {}")]
    );
    assert_eq!(files, vec!["src/lib.rs".to_string(), "src/foo.rs".to_string()]);
}

#[test]
fn directory_style_file_is_the_fallback() {
    let disk = |file: &str| match file {
        "src/foo/mod.rs" => Some(vec![other("fn g() {}")]),
        _ => None,
    };
    let (items, files) = run(vec![declared("foo", vec![])], &disk).unwrap();
    assert_eq!(items, vec![loaded("foo", vec![], 1, vec![other("fn g() {}")])]);
    assert_eq!(files[1], "src/foo/mod.rs");
}

#[test]
fn flat_file_wins_over_directory_style_file() {
    let disk = |file: &str| match file {
        "src/foo.rs" => Some(vec![other("flat")]),
        "src/foo/mod.rs" => Some(vec![other("nested")]),
        _ => None,
    };
    let (items, _) = run(vec![declared("foo", vec![])], &disk).unwrap();
    assert_eq!(items, vec![loaded("foo", vec![], 1, vec![other("flat")])]);
}

#[test]
fn explicit_path_is_loaded_whatever_else_exists() {
    let disk = |file: &str| match file {
        "src/foo.rs" => Some(vec![other("conventional")]),
        "src/foo/mod.rs" => Some(vec![other("conventional too")]),
        "src/elsewhere/impl.rs" => Some(vec![other("named")]),
        _ => None,
    };
    let attrs = vec![path_attr("elsewhere/impl.rs")];
    let (items, files) = run(vec![declared("foo", attrs.clone())], &disk).unwrap();
    assert_eq!(items, vec![loaded("foo", attrs, 1, vec![other("named")])]);
    assert_eq!(files[1], "src/elsewhere/impl.rs");
}

#[test]
fn explicit_path_has_no_fallback() {
    let disk = |file: &str| match file {
        "src/foo.rs" => Some(vec![other("conventional")]),
        _ => None,
    };
    let err = run(vec![declared("foo", vec![path_attr("missing.rs")])], &disk).unwrap_err();
    assert_eq!(err.kind, ErrorKind::FileNotFound);
    assert_eq!(err.subject, "src/missing.rs");
}

#[test]
fn missing_module_file_is_file_not_found() {
    let err = run(vec![declared("foo", vec![])], &|_| None).unwrap_err();
    assert_eq!(err.kind, ErrorKind::FileNotFound);
    assert_eq!(err.subject, "src/foo/mod.rs");
}

#[test]
fn nested_modules_are_found_below_the_source_root() {
    let disk = |file: &str| match file {
        "src/a.rs" => Some(vec![declared("b", vec![]), other("in a")]),
        "src/a/b.rs" => Some(vec![other("in b")]),
        _ => None,
    };
    let (items, files) = run(vec![declared("a", vec![]), other("last")], &disk).unwrap();
    assert_eq!(
        items,
        vec![
            loaded(
                "a",
                vec![],
                1,
                vec![loaded("b", vec![], 2, vec![other("in b")]), other("in a")]
            ),
            other("last"),
        ]
    );
    assert_eq!(files, vec!["src/lib.rs", "src/a.rs", "src/a/b.rs"]);
}

#[test]
fn explicit_path_is_relative_to_the_file_that_declares_it() {
    let disk = |file: &str| match file {
        "src/deep/a.rs" => Some(vec![declared("b", vec![path_attr("b_impl.rs")])]),
        "src/deep/b_impl.rs" => Some(vec![other("in b")]),
        _ => None,
    };
    let root = vec![declared("a", vec![path_attr("deep/a.rs")])];
    let (items, files) = run(root, &disk).unwrap();
    assert_eq!(files, vec!["src/lib.rs", "src/deep/a.rs", "src/deep/b_impl.rs"]);
    assert_eq!(
        items,
        vec![loaded(
            "a",
            vec![path_attr("deep/a.rs")],
            1,
            vec![loaded("b", vec![path_attr("b_impl.rs")], 2, vec![other("in b")])]
        )]
    );
}

#[test]
fn inline_module_is_kept_and_searched() {
    let bundler = Bundler::new(vec![inline("outer", vec![other("x"), declared("inner", vec![])])]);
    let request = bundler.next_request().unwrap().unwrap();
    assert_eq!(request.module.as_str(), "crate::outer::inner");
    assert_eq!(request.includer, 0);
    assert_eq!(request.path_override, None);
    let disk = |file: &str| match file {
        "src/outer/inner.rs" => Some(vec![other("y")]),
        _ => None,
    };
    let (items, _) =
        run(vec![inline("outer", vec![other("x"), declared("inner", vec![])])], &disk).unwrap();
    assert_eq!(
        items,
        vec![inline("outer", vec![other("x"), loaded("inner", vec![], 1, vec![other("y")])])]
    );
}

#[test]
fn requests_come_in_source_order_and_depth_first() {
    let mut bundler = Bundler::new(vec![declared("a", vec![]), declared("z", vec![])]);
    assert_eq!(bundler.next_request().unwrap().unwrap().module.as_str(), "crate::a");
    assert!(bundler.supply(vec![other("x"), declared("b", vec![])], 1));
    let second = bundler.next_request().unwrap().unwrap();
    assert_eq!(second.module.as_str(), "crate::a::b");
    assert_eq!(second.includer, 1);
    assert!(bundler.supply(vec![], 2));
    let third = bundler.next_request().unwrap().unwrap();
    assert_eq!(third.module.as_str(), "crate::z");
    assert_eq!(third.includer, 0);
    assert!(bundler.supply(vec![], 3));
    assert_eq!(bundler.next_request(), Ok(None));
    assert!(!bundler.supply(vec![other("late")], 4));
    assert_eq!(
        bundler.finish(),
        Ok(vec![
            loaded("a", vec![], 1, vec![other("x"), loaded("b", vec![], 2, vec![])]),
            loaded("z", vec![], 3, vec![]),
        ])
    );
}

#[test]
fn nothing_is_handed_out_before_every_body_is_in_place() {
    let bundler = Bundler::new(vec![other("x"), declared("a", vec![])]);
    let mut bundler = match bundler.finish() {
        Ok(_) => panic!("a module is still out of line"),
        Err(bundler) => bundler,
    };
    assert!(bundler.supply(vec![], 1));
    assert_eq!(bundler.finish(), Ok(vec![other("x"), loaded("a", vec![], 1, vec![])]));
}

#[test]
fn request_names_its_candidates() {
    let request = Request {
        module: ModulePathBuf::from("crate::a::b"),
        includer: 3,
        path_override: None,
    };
    let flat = Target::Rooted { components: vec!["a".to_string(), "b.rs".to_string()] };
    let nested = Target::Rooted {
        components: vec!["a".to_string(), "b".to_string(), "mod.rs".to_string()],
    };
    assert_eq!(request.probe(), Some(flat.clone()));
    assert_eq!(request.target(true), flat);
    assert_eq!(request.target(false), nested);
    let named = Request {
        module: ModulePathBuf::from("crate::a::b"),
        includer: 3,
        path_override: Some("x/y.rs".to_string()),
    };
    let relative = Target::Relative { includer: 3, path: "x/y.rs".to_string() };
    assert_eq!(named.probe(), None);
    assert_eq!(named.target(true), relative);
    assert_eq!(named.target(false), relative);
}

#[test]
fn file_path_drops_the_crate_segment() {
    assert_eq!(to_file_path(ModulePath::new("crate::a::b")), vec!["a".to_string(), "b".to_string()]);
    assert_eq!(to_file_path(ModulePath::new("crate")), Vec::<String>::new());
    assert_eq!(to_file_path(ModulePath::new("")), Vec::<String>::new());
}

#[test]
fn file_names_follow_the_two_conventions() {
    assert_eq!(flat_file(ModulePath::new("crate::a::b")), vec!["a", "b.rs"]);
    assert_eq!(nested_file(ModulePath::new("crate::a::b")), vec!["a", "b", "mod.rs"]);
    assert_eq!(flat_file(ModulePath::new("crate::foo")), vec!["foo.rs"]);
    assert_eq!(nested_file(ModulePath::new("crate::foo")), vec!["foo", "mod.rs"]);
    assert_eq!(flat_file(ModulePath::new("crate")), vec![".rs"]);
    assert_eq!(nested_file(ModulePath::new("crate")), vec!["mod.rs"]);
}

#[test]
fn module_inside_another_item_is_loaded() {
    let root = vec![
        holding("fn f() { #[path = \"in_f.rs\"] mod inner; }", vec![
            declared("inner", vec![path_attr("in_f.rs")]),
        ]),
        declared("last", vec![]),
    ];
    let bundler = Bundler::new(root);
    let first = bundler.next_request().unwrap().unwrap();
    assert_eq!(first.module.as_str(), "crate::inner");
    assert_eq!(first.path_override, Some("in_f.rs".to_string()));
    let disk = |file: &str| match file {
        "src/in_f.rs" => Some(vec![other("fn g() {}")]),
        "src/last.rs" => Some(vec![]),
        _ => None,
    };
    let (items, files) = match bundler.finish() {
        Ok(_) => panic!("a module is still out of line"),
        Err(bundler) => run_on(bundler, &disk).unwrap(),
    };
    assert_eq!(files, vec!["src/lib.rs", "src/in_f.rs", "src/last.rs"]);
    assert_eq!(
        items,
        vec![
            holding("fn f() { #[path = \"in_f.rs\"] mod inner; }", vec![loaded(
                "inner",
                vec![path_attr("in_f.rs")],
                1,
                vec![other("fn g() {}")]
            )]),
            loaded("last", vec![], 2, vec![]),
        ]
    );
}

#[test]
fn first_path_attribute_decides() {
    let attrs = vec![
        Attribute { name: "cfg".to_string(), value: None },
        path_attr("first.rs"),
        path_attr("second.rs"),
    ];
    assert_eq!(find_path_override(&attrs), Some("first.rs".to_string()));
    let without_value = vec![Attribute { name: "path".to_string(), value: None }, path_attr("x.rs")];
    assert_eq!(find_path_override(&without_value), None);
    assert_eq!(find_path_override(&vec![]), None);
}

#[test]
fn fully_qualified_names_are_unsupported() {
    let bad_name = Bundler::new(vec![other("x"), declared("::foo", vec![])]);
    let err = bad_name.next_request().unwrap_err();
    assert_eq!(err.kind, ErrorKind::UnsupportedConstruct);
    assert_eq!(err.subject, "::foo");
    let bad_file = Bundler::new(vec![declared("foo", vec![path_attr("::x")])]);
    let err = bad_file.next_request().unwrap_err();
    assert_eq!(err.kind, ErrorKind::UnsupportedConstruct);
    assert_eq!(err.subject, "::x");
}

#[test]
fn failed_reads_become_errors_of_their_kind() {
    let missing = parse_rs_file(Read::Missing, "a.rs").err().unwrap();
    assert_eq!(missing, BundleError { kind: ErrorKind::FileNotFound, subject: "a.rs".to_string() });
    let locked = parse_rs_file(Read::Unreadable, "b.rs").err().unwrap();
    assert_eq!(locked, BundleError { kind: ErrorKind::Unreadable, subject: "b.rs".to_string() });
}

#[test]
fn source_text_is_parsed() {
    let text = Read::Text("mod foo;\nfn main() {}\n".to_string());
    let file = parse_rs_file(text, "src/main.rs").ok().unwrap();
    assert_eq!(file.items.len(), 2);
    assert!(matches!(&file.items[0], syn::Item::Mod(m) if m.ident == "foo" && m.content.is_none()));
    assert!(matches!(&file.items[1], syn::Item::Fn(f) if f.sig.ident == "main"));
}

#[test]
fn one_text_gives_one_tree() {
    let text = "mod a { pub fn f() -> u8 { 1 } }\nuse a::f;\n";
    let first = parse_rs_file(Read::Text(text.to_string()), "x.rs").ok().unwrap();
    let second = parse_rs_file(Read::Text(text.to_string()), "y.rs").ok().unwrap();
    assert_eq!(first.to_token_stream().to_string(), second.to_token_stream().to_string());
    assert_eq!(
        first.to_token_stream().to_string(),
        "mod a { pub fn f () -> u8 { 1 } } use a :: f ;"
    );
}

#[test]
fn literal_that_the_parser_does_not_know_is_a_syntax_error() {
    let text = "fn f() { let s = c\"x\"; }".to_string();
    let err = match parse_rs_file(Read::Text(text), "src/c.rs") {
        Ok(_) => panic!("the text is no source file"),
        Err(err) => err,
    };
    assert_eq!(err.kind, ErrorKind::SyntaxError);
    assert_eq!(err.subject, "src/c.rs");
}

#[test]
fn broken_source_text_is_a_syntax_error() {
    let err = match parse_rs_file(Read::Text("fn main( {".to_string()), "src/broken.rs") {
        Ok(_) => panic!("the text is no source file"),
        Err(err) => err,
    };
    assert_eq!(err.kind, ErrorKind::SyntaxError);
    assert_eq!(err.subject, "src/broken.rs");
}

#[test]
fn errors_describe_kind_and_subject() {
    assert_eq!(
        BundleError::new(ErrorKind::FileNotFound, "src/foo.rs").describe(),
        "file not found: src/foo.rs"
    );
    assert_eq!(
        BundleError::new(ErrorKind::Unreadable, "src/foo.rs").describe(),
        "file cannot be read: src/foo.rs"
    );
    assert_eq!(BundleError::new(ErrorKind::SyntaxError, "a.rs").describe(), "syntax error: a.rs");
    assert_eq!(
        BundleError::new(ErrorKind::UnsupportedConstruct, "::a").describe(),
        "unsupported construct: ::a"
    );
}
