use bundler::error::ErrorKind;
use bundler::mod_tree::{
    collect_path, joined, make_mod_tree, parse_path, parse_use, ModTree, Node, Syntax, UseTree,
};
use bundler::path::ModulePathBuf;

fn access(text: &str) -> Syntax {
    Syntax::Access { path: syn::parse_str(text).unwrap(), content: vec![] }
}

fn path(text: &str) -> ModulePathBuf {
    ModulePathBuf::from(text)
}

fn name(text: &str) -> UseTree {
    UseTree::Name(text.to_string())
}

fn prefix(text: &str, tree: UseTree) -> UseTree {
    UseTree::Path { name: text.to_string(), tree: Box::new(tree) }
}

fn pair(local: &str, target: &str) -> (String, ModulePathBuf) {
    (local.to_string(), path(target))
}

fn scope(items: Vec<ModTree>, accesses: Vec<&str>) -> Node {
    Node { items, accesses: accesses.into_iter().map(path).collect() }
}

#[test]
fn empty_file_is_an_empty_scope() {
    assert_eq!(make_mod_tree(&vec![]), Ok(ModTree::File(scope(vec![], vec![]))));
    let fresh = Node::new();
    assert!(fresh.items.is_empty());
    assert!(fresh.accesses.is_empty());
}

#[test]
fn references_are_recorded_in_order() {
    let tree = make_mod_tree(&vec![access("a::b"), access("c"), access("crate::d::e")]);
    assert_eq!(tree, Ok(ModTree::File(scope(vec![], vec!["a::b", "c", "crate::d::e"]))));
}

#[test]
fn reference_inside_a_reference_follows_it() {
    let outer = Syntax::Access {
        path: syn::parse_str("Vec<inner::T>").unwrap(),
        content: vec![access("inner::T")],
    };
    let tree = make_mod_tree(&vec![outer, access("last")]);
    assert_eq!(tree, Ok(ModTree::File(scope(vec![], vec!["Vec", "inner::T", "last"]))));
}

#[test]
fn reference_in_a_nested_scope_stays_there() {
    let content = vec![
        access("before"),
        Syntax::Block { content: vec![access("inside")] },
        access("after"),
    ];
    let expected = scope(
        vec![ModTree::Block(scope(vec![], vec!["inside"]))],
        vec!["before", "after"],
    );
    assert_eq!(make_mod_tree(&content), Ok(ModTree::File(expected)));
}

#[test]
fn module_gets_a_scope_of_its_own() {
    let content = vec![
        Syntax::Module {
            name: "m".to_string(),
            content: vec![
                Syntax::TypeDecl { name: "S".to_string(), content: vec![access("u::T")] },
                access("x::y"),
            ],
        },
        access("top"),
    ];
    let expected = scope(
        vec![ModTree::Mod(
            "m".to_string(),
            scope(vec![ModTree::Type("S".to_string())], vec!["u::T", "x::y"]),
        )],
        vec!["top"],
    );
    assert_eq!(make_mod_tree(&content), Ok(ModTree::File(expected)));
}

#[test]
fn type_parameters_are_declared_in_the_generic_scope() {
    let function = Syntax::Generic {
        type_params: vec!["T".to_string(), "U".to_string()],
        content: vec![access("T"), Syntax::Block { content: vec![access("U::new")] }],
    };
    let expected = scope(
        vec![ModTree::Generics(scope(
            vec![
                ModTree::Type("T".to_string()),
                ModTree::Type("U".to_string()),
                ModTree::Block(scope(vec![], vec!["U::new"])),
            ],
            vec!["T"],
        ))],
        vec![],
    );
    assert_eq!(make_mod_tree(&vec![function]), Ok(ModTree::File(expected)));
}

#[test]
fn type_declarations_are_leaves_of_the_current_scope() {
    let content = vec![
        Syntax::TypeDecl { name: "A".to_string(), content: vec![] },
        Syntax::TypeDecl {
            name: "B".to_string(),
            content: vec![access("f::G"), Syntax::Block { content: vec![] }],
        },
    ];
    let expected = scope(
        vec![
            ModTree::Type("A".to_string()),
            ModTree::Type("B".to_string()),
            ModTree::Block(scope(vec![], vec![])),
        ],
        vec!["f::G"],
    );
    assert_eq!(make_mod_tree(&content), Ok(ModTree::File(expected)));
}

#[test]
fn import_becomes_a_list_of_pairs() {
    let import = Syntax::Import {
        leading_colon: false,
        tree: prefix("std", prefix("fmt", name("Debug"))),
        content: vec![access("visibility::scope")],
    };
    let expected = scope(
        vec![ModTree::Use(vec![pair("Debug", "std::fmt::Debug")])],
        vec!["visibility::scope"],
    );
    assert_eq!(make_mod_tree(&vec![import]), Ok(ModTree::File(expected)));
}

#[test]
fn import_with_leading_separator_is_unsupported() {
    let import = Syntax::Import { leading_colon: true, tree: name("std"), content: vec![] };
    let err = make_mod_tree(&vec![access("fine"), import]).unwrap_err();
    assert_eq!(err.kind, ErrorKind::UnsupportedConstruct);
    assert_eq!(err.subject, "::");
}

#[test]
fn reference_with_leading_separator_is_unsupported() {
    let inside = Syntax::Module {
        name: "m".to_string(),
        content: vec![Syntax::Block { content: vec![access("::std::fmt::Debug")] }],
    };
    let err = make_mod_tree(&vec![access("fine"), inside, access("::later")]).unwrap_err();
    assert_eq!(err.kind, ErrorKind::UnsupportedConstruct);
    assert_eq!(err.subject, "::std::fmt::Debug");
}

#[test]
fn path_of_the_syntax_tree_is_read_by_its_identifiers() {
    let plain: syn::Path = syn::parse_str("a::b::c").unwrap();
    assert_eq!(parse_path(&plain), Ok(path("a::b::c")));
    let generic: syn::Path = syn::parse_str("std::vec::Vec<u8>").unwrap();
    assert_eq!(parse_path(&generic), Ok(path("std::vec::Vec")));
    let single: syn::Path = syn::parse_str("x").unwrap();
    assert_eq!(parse_path(&single), Ok(path("x")));
    let global: syn::Path = syn::parse_str("::a::b").unwrap();
    let err = parse_path(&global).unwrap_err();
    assert_eq!(err.kind, ErrorKind::UnsupportedConstruct);
    assert_eq!(err.subject, "::a::b");
}

#[test]
fn segments_are_pushed_one_by_one() {
    let segments = |list: &[&str]| list.iter().map(|s| s.to_string()).collect::<Vec<_>>();
    assert_eq!(collect_path(false, &segments(&["a", "b"])), Ok(path("a::b")));
    assert_eq!(collect_path(false, &segments(&[])), Ok(path("")));
    assert_eq!(collect_path(false, &segments(&["a", "crate", "b"])), Ok(path("crate::b")));
    let err = collect_path(false, &segments(&["a", "::b", "c"])).unwrap_err();
    assert_eq!(err.subject, "::b");
    let err = collect_path(true, &segments(&["a", "b"])).unwrap_err();
    assert_eq!(err.subject, "::a::b");
    assert_eq!(joined(&segments(&["a", "b", "c"])), "a::b::c");
    assert_eq!(joined(&segments(&["a"])), "a");
    assert_eq!(joined(&segments(&[])), "");
}

#[test]
fn plain_import_binds_its_last_name() {
    assert_eq!(parse_use(&name("a")), Ok(vec![pair("a", "a")]));
    assert_eq!(parse_use(&prefix("a", prefix("b", name("c")))), Ok(vec![pair("c", "a::b::c")]));
}

#[test]
fn renaming_import_binds_the_new_name() {
    let tree = prefix("a", UseTree::Rename { name: "b".to_string(), rename: "c".to_string() });
    assert_eq!(parse_use(&tree), Ok(vec![pair("c", "a::b")]));
}

#[test]
fn glob_import_is_recorded_by_a_star() {
    assert_eq!(parse_use(&UseTree::Glob), Ok(vec![pair("*", "*")]));
    assert_eq!(parse_use(&prefix("a", prefix("b", UseTree::Glob))), Ok(vec![pair("*", "a::b::*")]));
}

#[test]
fn grouped_import_is_expanded() {
    let tree = prefix(
        "a",
        UseTree::Group(vec![
            name("x"),
            prefix("b", UseTree::Group(vec![name("y"), UseTree::Glob])),
            UseTree::Rename { name: "z".to_string(), rename: "w".to_string() },
        ]),
    );
    assert_eq!(
        parse_use(&tree),
        Ok(vec![pair("x", "a::x"), pair("y", "a::b::y"), pair("*", "a::b::*"), pair("w", "a::z")])
    );
    assert_eq!(parse_use(&UseTree::Group(vec![])), Ok(vec![]));
}

#[test]
fn import_of_self_binds_the_prefix() {
    let tree = prefix("a", prefix("b", UseTree::Group(vec![name("self"), name("c")])));
    assert_eq!(parse_use(&tree), Ok(vec![pair("b", "a::b"), pair("c", "a::b::c")]));
    assert_eq!(parse_use(&prefix("a", name("self"))), Ok(vec![pair("a", "a")]));
}

#[test]
fn import_of_an_unsupported_path_fails() {
    let tree = prefix("a", UseTree::Group(vec![name("fine"), prefix("b", name("::c"))]));
    let err = parse_use(&tree).unwrap_err();
    assert_eq!(err.kind, ErrorKind::UnsupportedConstruct);
    assert_eq!(err.subject, "::c");
}
