use bundler::elimination::{collect_reachablity, flatten_mods, proc_mod, ModuleMap};
use bundler::error::ErrorKind;
use bundler::mod_tree::{ModTree, Node};
use bundler::path::ModulePathBuf;

fn path(text: &str) -> ModulePathBuf {
    ModulePathBuf::from(text)
}

fn scope(items: Vec<ModTree>, accesses: Vec<&str>) -> Node {
    Node { items, accesses: accesses.into_iter().map(path).collect() }
}

fn module(name: &str, items: Vec<ModTree>, accesses: Vec<&str>) -> ModTree {
    ModTree::Mod(name.to_string(), scope(items, accesses))
}

fn typed(name: &str) -> ModTree {
    ModTree::Type(name.to_string())
}

fn import(pairs: Vec<(&str, &str)>) -> ModTree {
    ModTree::Use(pairs.into_iter().map(|(local, target)| (local.to_string(), path(target))).collect())
}

fn reached(root: Node) -> Vec<String> {
    let mods = flatten_mods(ModTree::File(root)).unwrap();
    collect_reachablity(&mods).iter().map(|p| p.as_str().to_string()).collect()
}

#[test]
fn file_without_modules_is_the_module_crate() {
    let mods = flatten_mods(ModTree::File(scope(vec![typed("S")], vec!["a::b"]))).unwrap();
    assert_eq!(mods.len(), 1);
    assert!(mods.contains("crate"));
    assert_eq!(mods.get("crate"), Some(&scope(vec![typed("S")], vec!["a::b"])));
    assert_eq!(mods.get("crate::a"), None);
}

#[test]
fn modules_are_lifted_out_of_their_parents() {
    let root = scope(
        vec![
            typed("Top"),
            module("a", vec![typed("InA"), module("b", vec![typed("InB")], vec!["z"])], vec!["x"]),
            ModTree::Block(scope(vec![], vec!["in::block"])),
        ],
        vec!["y"],
    );
    let mods = flatten_mods(ModTree::File(root)).unwrap();
    assert_eq!(mods.len(), 3);
    assert_eq!(
        mods.get("crate"),
        Some(&scope(vec![typed("Top"), ModTree::Block(scope(vec![], vec!["in::block"]))], vec!["y"]))
    );
    assert_eq!(mods.get("crate::a"), Some(&scope(vec![typed("InA")], vec!["x"])));
    assert_eq!(mods.get("crate::a::b"), Some(&scope(vec![typed("InB")], vec!["z"])));
}

#[test]
fn bodies_of_one_module_are_merged() {
    let root = scope(
        vec![
            module("foo", vec![typed("A"), typed("B")], vec!["p"]),
            typed("Between"),
            module("foo", vec![typed("C")], vec!["q", "p"]),
        ],
        vec![],
    );
    let mods = flatten_mods(ModTree::File(root)).unwrap();
    assert_eq!(mods.len(), 2);
    assert_eq!(
        mods.get("crate::foo"),
        Some(&scope(vec![typed("A"), typed("B"), typed("C")], vec!["p", "q", "p"]))
    );
    assert_eq!(mods.get("crate"), Some(&scope(vec![typed("Between")], vec![])));
}

#[test]
fn module_in_a_block_is_not_lifted() {
    let inner = module("hidden", vec![], vec![]);
    let root = scope(vec![ModTree::Block(scope(vec![inner], vec![]))], vec![]);
    let mods = flatten_mods(ModTree::File(root)).unwrap();
    assert_eq!(mods.len(), 1);
    assert!(!mods.contains("crate::hidden"));
}

#[test]
fn module_as_root_is_named_by_itself() {
    let mods = flatten_mods(module("top", vec![module("sub", vec![], vec![])], vec![])).unwrap();
    assert_eq!(mods.len(), 2);
    assert!(mods.contains("top"));
    assert!(mods.contains("top::sub"));
}

#[test]
fn module_name_with_leading_separator_is_unsupported() {
    let root = scope(vec![module("fine", vec![module("::bad", vec![], vec![])], vec![])], vec![]);
    let err = flatten_mods(ModTree::File(root)).unwrap_err();
    assert_eq!(err.kind, ErrorKind::UnsupportedConstruct);
    assert_eq!(err.subject, "::bad");
}

#[test]
fn map_merges_scopes_under_one_key() {
    let mut mods = ModuleMap::new();
    assert_eq!(mods.len(), 0);
    mods.merge(path("crate::a"), scope(vec![typed("X")], vec!["one"]));
    mods.merge(path("crate::b"), scope(vec![], vec![]));
    mods.merge(path("crate::a"), scope(vec![typed("Y")], vec!["two"]));
    assert_eq!(mods.len(), 2);
    assert_eq!(mods.get("crate::a"), Some(&scope(vec![typed("X"), typed("Y")], vec!["one", "two"])));
    assert_eq!(mods.get("crate::b"), Some(&scope(vec![], vec![])));
    assert!(!mods.contains("crate"));
}

#[test]
fn imports_of_a_module_bind_names() {
    let node = scope(
        vec![
            import(vec![("a", "crate::a"), ("T", "crate::b::T")]),
            typed("S"),
            ModTree::Block(scope(vec![import(vec![("hidden", "crate::h")])], vec![])),
            import(vec![("a", "crate::other")]),
        ],
        vec![],
    );
    let aliases = proc_mod(&node);
    assert_eq!(aliases.lookup("a"), Some(&path("crate::other")));
    assert_eq!(aliases.lookup("T"), Some(&path("crate::b::T")));
    assert_eq!(aliases.lookup("hidden"), None);
    assert_eq!(aliases.lookup("S"), None);
}

#[test]
fn unreferenced_module_is_not_reached() {
    let root = scope(
        vec![module("a", vec![], vec![]), module("b", vec![], vec![])],
        vec!["crate::a::run"],
    );
    assert_eq!(reached(root), vec!["crate", "crate::a"]);
}

#[test]
fn crate_alone_is_reached_without_references() {
    let root = scope(vec![module("a", vec![], vec![])], vec![]);
    assert_eq!(reached(root), vec!["crate"]);
    let mut alone = ModuleMap::new();
    alone.merge(path("crate"), scope(vec![], vec!["crate::gone::f"]));
    assert_eq!(
        collect_reachablity(&alone).iter().map(|p| p.as_str()).collect::<Vec<_>>(),
        vec!["crate"]
    );
}

#[test]
fn references_are_followed_from_module_to_module() {
    let root = scope(
        vec![
            module("a", vec![], vec!["crate::b::f"]),
            module("b", vec![], vec!["crate::b::g", "crate::a::h", "crate::c::d::x"]),
            module("c", vec![module("d", vec![], vec![])], vec!["crate::e::y"]),
            module("e", vec![], vec![]),
        ],
        vec!["crate::a::run", "std::fmt::Debug"],
    );
    assert_eq!(reached(root), vec!["crate", "crate::a", "crate::b", "crate::c::d"]);
}

#[test]
fn imported_name_leads_to_its_module() {
    let root = scope(
        vec![
            import(vec![("helper", "crate::util::helper"), ("m", "crate::deep::m")]),
            module("util", vec![], vec![]),
            module("deep", vec![module("m", vec![], vec![])], vec![]),
            module("unused", vec![], vec![]),
        ],
        vec!["helper", "m::Thing"],
    );
    assert_eq!(reached(root), vec!["crate", "crate::util", "crate::deep::m"]);
}

#[test]
fn path_that_names_a_module_leads_to_it() {
    let root = scope(
        vec![module("a", vec![module("b", vec![], vec![])], vec![])],
        vec!["crate::a::b"],
    );
    assert_eq!(reached(root), vec!["crate", "crate::a::b"]);
}

#[test]
fn glob_import_alone_reaches_nothing() {
    let root = scope(
        vec![
            import(vec![("*", "crate::prelude::*")]),
            module("prelude", vec![], vec![]),
            module("other", vec![], vec![]),
        ],
        vec!["Thing"],
    );
    assert_eq!(reached(root), vec!["crate"]);
}

#[test]
fn map_lists_its_keys() {
    let root = scope(
        vec![module("a", vec![module("b", vec![], vec![])], vec![]), module("a", vec![], vec![])],
        vec![],
    );
    let mods = flatten_mods(ModTree::File(root)).unwrap();
    let mut keys: Vec<String> = mods.keys().iter().map(|p| p.as_str().to_string()).collect();
    keys.sort();
    assert_eq!(keys, vec!["crate", "crate::a", "crate::a::b"]);
    assert!(ModuleMap::new().keys().is_empty());
}

#[test]
fn bodies_of_one_module_are_merged_wherever_they_stand() {
    let root = scope(
        vec![
            module("a", vec![module("b", vec![typed("One")], vec!["p"])], vec![]),
            module("c", vec![], vec![]),
            module("a", vec![typed("InA"), module("b", vec![typed("Two")], vec!["q"])], vec![]),
            module("a", vec![module("b", vec![typed("Three")], vec![])], vec!["r"]),
        ],
        vec![],
    );
    let mods = flatten_mods(ModTree::File(root)).unwrap();
    assert_eq!(mods.len(), 4);
    assert_eq!(
        mods.get("crate::a::b"),
        Some(&scope(vec![typed("One"), typed("Two"), typed("Three")], vec!["p", "q"]))
    );
    assert_eq!(mods.get("crate::a"), Some(&scope(vec![typed("InA")], vec!["r"])));
}

#[test]
fn trees_are_copied_whole() {
    let tree = ModTree::File(scope(
        vec![
            import(vec![("a", "crate::a")]),
            module("a", vec![typed("T"), ModTree::Block(scope(vec![], vec!["x"]))], vec!["y"]),
            ModTree::Generics(scope(vec![typed("G")], vec![])),
        ],
        vec!["crate::a::T"],
    ));
    assert_eq!(tree.clone(), tree);
    let node = scope(vec![typed("S")], vec!["a::b"]);
    assert_eq!(node.clone(), node);
}

#[test]
fn references_in_nested_scopes_are_not_followed() {
    let root = scope(
        vec![
            ModTree::Block(scope(vec![], vec!["crate::a::f"])),
            ModTree::Generics(scope(vec![], vec!["crate::a::g"])),
            module("a", vec![], vec![]),
        ],
        vec![],
    );
    assert_eq!(reached(root), vec!["crate"]);
}

#[test]
fn each_module_is_reached_once() {
    let root = scope(
        vec![module("a", vec![], vec!["crate::a::x", "crate::y"]), module("b", vec![], vec![])],
        vec!["crate::a::f", "crate::a::g", "crate::h"],
    );
    assert_eq!(reached(root), vec!["crate", "crate::a"]);
}
