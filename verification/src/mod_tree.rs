//! The scope tree: what each lexical scope declares, imports and refers to.

use crate::error::{BundleError, ErrorKind};
use crate::path::{pushed, ModulePath, ModulePathBuf};
use crate::text::{has_leading_separator, join, separator, text_eq, texts};
use vstd::prelude::*;
use vstd::string::*;

verus! {

/// One entry of a scope.
#[derive(Debug, PartialEq, Eq)]
pub enum ModTree {
    /// The scope of a whole file: the root of a tree.
    File(Node),
    /// A module with its name and scope.
    Mod(String, Node),
    /// An import list: pairs of a local name and the path that it stands for.
    Use(Vec<(String, ModulePathBuf)>),
    /// The scope of a generic parameter list, with what it governs.
    Generics(Node),
    /// A declared type, by name.
    Type(String),
    /// The scope of a block.
    Block(Node),
}

/// A lexical scope.
#[derive(Debug, PartialEq, Eq)]
pub struct Node {
    /// The entries of the scope, in source order.
    pub items: Vec<ModTree>,
    /// Every path that the scope itself refers to.
    pub accesses: Vec<ModulePathBuf>,
}

/// The mathematical value of a `ModTree`.
pub enum TreeModel {
    File(NodeModel),
    Mod(Seq<char>, NodeModel),
    Use(Seq<(Seq<char>, Seq<char>)>),
    Generics(NodeModel),
    Type(Seq<char>),
    Block(NodeModel),
}

/// The mathematical value of a `Node`.
pub struct NodeModel {
    pub items: Seq<TreeModel>,
    pub accesses: Seq<Seq<char>>,
}

/// The texts of a list of paths.
pub open spec fn paths_model(paths: Seq<ModulePathBuf>) -> Seq<Seq<char>> {
    Seq::new(paths.len(), |i: int| paths[i]@)
}

/// The pairs of an import list, as texts.
pub open spec fn imports_model(pairs: Seq<(String, ModulePathBuf)>) -> Seq<(Seq<char>, Seq<char>)> {
    Seq::new(pairs.len(), |i: int| (pairs[i].0@, pairs[i].1@))
}

/// The value of an entry.
pub open spec fn tree_model(tree: ModTree) -> TreeModel
    decreases tree,
{
    match tree {
        ModTree::File(node) => TreeModel::File(node_model(node)),
        ModTree::Mod(name, node) => TreeModel::Mod(name@, node_model(node)),
        ModTree::Use(pairs) => TreeModel::Use(imports_model(pairs@)),
        ModTree::Generics(node) => TreeModel::Generics(node_model(node)),
        ModTree::Type(name) => TreeModel::Type(name@),
        ModTree::Block(node) => TreeModel::Block(node_model(node)),
    }
}

/// The value of a scope.
pub open spec fn node_model(node: Node) -> NodeModel
    decreases node,
{
    NodeModel { items: items_model(node.items@), accesses: paths_model(node.accesses@) }
}

/// The values of a list of entries.
pub open spec fn items_model(items: Seq<ModTree>) -> Seq<TreeModel>
    decreases items,
{
    Seq::new(
        items.len(),
        |i: int|
            if 0 <= i < items.len() {
                tree_model(items[i])
            } else {
                arbitrary()
            },
    )
}

impl View for ModTree {
    type V = TreeModel;

    open spec fn view(&self) -> TreeModel {
        tree_model(*self)
    }
}

impl View for Node {
    type V = NodeModel;

    open spec fn view(&self) -> NodeModel {
        node_model(*self)
    }
}

/// A copy of an entry.
fn clone_tree(tree: &ModTree) -> (copy: ModTree)
    ensures
        copy@ == tree@,
    decreases *tree, 0nat,
{
    match tree {
        ModTree::File(node) => ModTree::File(clone_node(node)),
        ModTree::Mod(name, node) => ModTree::Mod(name.clone(), clone_node(node)),
        ModTree::Use(pairs) => {
            let mut copy: Vec<(String, ModulePathBuf)> = Vec::new();
            let mut i: usize = 0;
            while i < pairs.len()
                invariant
                    0 <= i <= pairs.len(),
                    imports_model(copy@) == imports_model(pairs@).take(i as int),
                decreases pairs.len() - i,
            {
                let ghost done = imports_model(copy@);
                copy.push((pairs[i].0.clone(), pairs[i].1.clone()));
                assert(imports_model(copy@) =~= done.push(imports_model(pairs@)[i as int]));
                assert(imports_model(pairs@).take(i + 1) =~= done.push(
                    imports_model(pairs@)[i as int],
                ));
                i = i + 1;
            }
            assert(imports_model(pairs@).take(i as int) =~= imports_model(pairs@));
            ModTree::Use(copy)
        },
        ModTree::Generics(node) => ModTree::Generics(clone_node(node)),
        ModTree::Type(name) => ModTree::Type(name.clone()),
        ModTree::Block(node) => ModTree::Block(clone_node(node)),
    }
}

/// A copy of a scope.
fn clone_node(node: &Node) -> (copy: Node)
    ensures
        copy@ == node@,
    decreases *node, 1nat,
{
    let mut items: Vec<ModTree> = Vec::new();
    let mut i: usize = 0;
    while i < node.items.len()
        invariant
            0 <= i <= node.items.len(),
            items_model(items@) == items_model(node.items@).take(i as int),
        decreases node.items.len() - i,
    {
        let ghost done = items_model(items@);
        let entry = clone_tree(&node.items[i]);
        items.push(entry);
        assert(items_model(items@) =~= done.push(entry@));
        assert(items_model(node.items@).take(i + 1) =~= done.push(entry@));
        i = i + 1;
    }
    assert(items_model(node.items@).take(i as int) =~= items_model(node.items@));
    let mut accesses: Vec<ModulePathBuf> = Vec::new();
    let mut k: usize = 0;
    while k < node.accesses.len()
        invariant
            0 <= k <= node.accesses.len(),
            paths_model(accesses@) == paths_model(node.accesses@).take(k as int),
        decreases node.accesses.len() - k,
    {
        let ghost done = paths_model(accesses@);
        accesses.push(node.accesses[k].clone());
        assert(paths_model(accesses@) =~= done.push(node.accesses[k as int]@));
        assert(paths_model(node.accesses@).take(k + 1) =~= done.push(node.accesses[k as int]@));
        k = k + 1;
    }
    assert(paths_model(node.accesses@).take(k as int) =~= paths_model(node.accesses@));
    Node { items, accesses }
}

impl Clone for ModTree {
    fn clone(&self) -> (copy: Self)
        ensures
            copy@ == self@,
    {
        clone_tree(self)
    }
}

impl Clone for Node {
    fn clone(&self) -> (copy: Self)
        ensures
            copy@ == self@,
    {
        clone_node(self)
    }
}

impl Node {
    /// The scope without entries and references.
    pub fn new() -> (node: Self)
        ensures
            node@.items == Seq::<TreeModel>::empty(),
            node@.accesses == Seq::<Seq<char>>::empty(),
    {
        Node { items: Vec::new(), accesses: Vec::new() }
    }
}

/// The tree of an import statement.
#[derive(Debug, PartialEq, Eq)]
pub enum UseTree {
    /// A name at the end of a path.
    Name(String),
    /// A name at the end of a path, and the local name that it is given.
    Rename { name: String, rename: String },
    /// Everything at the end of a path.
    Glob,
    /// A name in front of the rest of the path.
    Path { name: String, tree: Box<UseTree> },
    /// Alternatives behind a shared prefix.
    Group(Vec<UseTree>),
}

/// A path of the syntax tree.
#[verifier::external_type_specification]
#[verifier::external_body]
pub struct ExPath(syn::Path);

/// Whether a path of the syntax tree starts with a separator.
pub uninterp spec fn leading_colon_of(path: syn::Path) -> bool;

/// The identifiers of the segments of a path of the syntax tree, in order.
pub uninterp spec fn idents_of(path: syn::Path) -> Seq<Seq<char>>;

/// Reads `leading_colon` of `syn::Path`: whether the path was written with
/// a separator in front. The contract gives that answer its name.
#[verifier::external_body]
fn path_is_global(path: &syn::Path) -> (global: bool)
    ensures
        global == leading_colon_of(*path),
{
    path.leading_colon.is_some()
}

/// Walks `segments` of `syn::Path` and hands out the identifier of each
/// segment as text, in order. The contract gives that list its name.
#[verifier::external_body]
fn path_idents(path: &syn::Path) -> (idents: Vec<String>)
    ensures
        texts(idents@) == idents_of(*path),
{
    path.segments.iter().map(|segment| segment.ident.to_string()).collect()
}

/// A piece of source text, as far as scopes, declarations, imports and
/// references go. `content` holds what stands inside the piece, in source
/// order.
pub enum Syntax {
    /// A reference to a path.
    Access { path: syn::Path, content: Vec<Syntax> },
    /// A module.
    Module { name: String, content: Vec<Syntax> },
    /// An import statement.
    Import { leading_colon: bool, tree: UseTree, content: Vec<Syntax> },
    /// A function or an implementation block, with the names of its type
    /// parameters.
    Generic { type_params: Vec<String>, content: Vec<Syntax> },
    /// A block.
    Block { content: Vec<Syntax> },
    /// The declaration of a struct, an enum, a union, a trait or a type
    /// alias.
    TypeDecl { name: String, content: Vec<Syntax> },
}

/// The path that grows from `current` when the segments are pushed one by
/// one, or the first segment in the fully qualified form.
pub open spec fn collected(current: Seq<char>, segments: Seq<Seq<char>>) -> Result<
    Seq<char>,
    Seq<char>,
>
    decreases segments.len(),
{
    if segments.len() == 0 {
        Ok(current)
    } else if has_leading_separator(segments[0]) {
        Err(segments[0])
    } else {
        collected(pushed(current, segments[0]), segments.drop_first())
    }
}

/// The path that a reference names, or what is unsupported in it: the whole
/// path where it starts with a separator.
pub open spec fn path_text(leading_colon: bool, segments: Seq<Seq<char>>) -> Result<
    Seq<char>,
    Seq<char>,
> {
    if leading_colon {
        Err(separator() + join(segments))
    } else {
        collected(Seq::empty(), segments)
    }
}

/// The pairs of a tree that stands behind the prefix `name`: a pair with the
/// local name `self` comes to stand for the prefix itself, any other gets the
/// prefix in front of its path.
pub open spec fn prefixed(name: Seq<char>, pairs: Seq<(Seq<char>, Seq<char>)>) -> Result<
    Seq<(Seq<char>, Seq<char>)>,
    Seq<char>,
>
    decreases pairs.len(),
{
    if pairs.len() == 0 {
        Ok(Seq::empty())
    } else if pairs[0].0 != "self"@ && has_leading_separator(pairs[0].1) {
        Err(pairs[0].1)
    } else {
        match prefixed(name, pairs.drop_first()) {
            Err(e) => Err(e),
            Ok(rest) => Ok(
                seq![
                    if pairs[0].0 == "self"@ {
                        (name, name)
                    } else {
                        (pairs[0].0, pushed(name, pairs[0].1))
                    },
                ] + rest,
            ),
        }
    }
}

/// The pairs of local name and path that an import tree binds, or the first
/// path in it that is unsupported.
pub open spec fn use_pairs(tree: UseTree) -> Result<Seq<(Seq<char>, Seq<char>)>, Seq<char>>
    decreases tree,
{
    match tree {
        UseTree::Name(name) => Ok(seq![(name@, name@)]),
        UseTree::Rename { name, rename } => Ok(seq![(rename@, name@)]),
        UseTree::Glob => Ok(seq![("*"@, "*"@)]),
        UseTree::Path { name, tree } => match use_pairs(*tree) {
            Err(e) => Err(e),
            Ok(inner) => prefixed(name@, inner),
        },
        UseTree::Group(items) => group_pairs(items@),
    }
}

/// The pairs of the alternatives of a group, in order.
pub open spec fn group_pairs(items: Seq<UseTree>) -> Result<Seq<(Seq<char>, Seq<char>)>, Seq<char>>
    decreases items,
{
    if items.len() == 0 {
        Ok(Seq::empty())
    } else {
        match use_pairs(items[0]) {
            Err(e) => Err(e),
            Ok(first) => match group_pairs(items.drop_first()) {
                Err(e) => Err(e),
                Ok(rest) => Ok(first + rest),
            },
        }
    }
}

/// The declared types of a generic parameter list.
pub open spec fn declared(type_params: Seq<Seq<char>>) -> Seq<TreeModel> {
    Seq::new(type_params.len(), |i: int| TreeModel::Type(type_params[i]))
}

/// The scope without entries.
pub open spec fn empty_scope() -> NodeModel {
    NodeModel { items: Seq::empty(), accesses: Seq::empty() }
}

/// The scope `acc` after one piece of source text was taken into it, or
/// what is unsupported in the piece. A module, a generic parameter list and
/// a block each collect their content in a scope of their own, which becomes
/// one entry of `acc`. Everything else adds to `acc` itself.
pub open spec fn absorb(acc: NodeModel, piece: Syntax) -> Result<NodeModel, Seq<char>>
    decreases piece,
{
    match piece {
        Syntax::Access { path, content } => match path_text(
            leading_colon_of(path),
            idents_of(path),
        ) {
            Err(e) => Err(e),
            Ok(path) => absorb_all(
                NodeModel { items: acc.items, accesses: acc.accesses.push(path) },
                content@,
            ),
        },
        Syntax::Module { name, content } => match absorb_all(empty_scope(), content@) {
            Err(e) => Err(e),
            Ok(inner) => Ok(
                NodeModel {
                    items: acc.items.push(TreeModel::Mod(name@, inner)),
                    accesses: acc.accesses,
                },
            ),
        },
        Syntax::Import { leading_colon, tree, content } => if leading_colon {
            Err(separator())
        } else {
            match use_pairs(tree) {
                Err(e) => Err(e),
                Ok(pairs) => absorb_all(
                    NodeModel {
                        items: acc.items.push(TreeModel::Use(pairs)),
                        accesses: acc.accesses,
                    },
                    content@,
                ),
            }
        },
        Syntax::Generic { type_params, content } => match absorb_all(
            NodeModel { items: declared(texts(type_params@)), accesses: Seq::empty() },
            content@,
        ) {
            Err(e) => Err(e),
            Ok(inner) => Ok(
                NodeModel {
                    items: acc.items.push(TreeModel::Generics(inner)),
                    accesses: acc.accesses,
                },
            ),
        },
        Syntax::Block { content } => match absorb_all(empty_scope(), content@) {
            Err(e) => Err(e),
            Ok(inner) => Ok(
                NodeModel {
                    items: acc.items.push(TreeModel::Block(inner)),
                    accesses: acc.accesses,
                },
            ),
        },
        Syntax::TypeDecl { name, content } => absorb_all(
            NodeModel { items: acc.items.push(TreeModel::Type(name@)), accesses: acc.accesses },
            content@,
        ),
    }
}

/// The scope `acc` after the pieces were taken into it one by one.
pub open spec fn absorb_all(acc: NodeModel, pieces: Seq<Syntax>) -> Result<NodeModel, Seq<char>>
    decreases pieces,
{
    if pieces.len() == 0 {
        Ok(acc)
    } else {
        match absorb(acc, pieces[0]) {
            Err(e) => Err(e),
            Ok(next) => absorb_all(next, pieces.drop_first()),
        }
    }
}

/// The scope tree of a file with the given content.
pub open spec fn scope_tree(content: Seq<Syntax>) -> Result<TreeModel, Seq<char>> {
    match absorb_all(empty_scope(), content) {
        Err(e) => Err(e),
        Ok(node) => Ok(TreeModel::File(node)),
    }
}

/// One more segment at the end joins on behind a separator.
pub proof fn lemma_join_push(segments: Seq<Seq<char>>, last: Seq<char>)
    requires
        segments.len() > 0,
    ensures
        join(segments.push(last)) == join(segments) + separator() + last,
    decreases segments.len(),
{
    let all = segments.push(last);
    if segments.len() == 1 {
        assert(all.drop_first() =~= seq![last]);
        assert(join(all.drop_first()) == last);
    } else {
        lemma_join_push(segments.drop_first(), last);
        assert(all.drop_first() =~= segments.drop_first().push(last));
        assert(join(all) =~= join(segments) + separator() + last);
    }
}

/// The text that holds the segments with a separator between neighbours.
pub fn joined(segments: &Vec<String>) -> (text: String)
    ensures
        text@ == join(texts(segments@)),
{
    let mut text = String::new();
    let mut i: usize = 0;
    while i < segments.len()
        invariant
            0 <= i <= segments.len(),
            text@ == join(texts(segments@).take(i as int)),
        decreases segments.len() - i,
    {
        let ghost done = texts(segments@).take(i as int);
        if i > 0 {
            proof {
                reveal_strlit("::");
                assert("::"@ =~= separator());
                lemma_join_push(done, segments[i as int]@);
            }
            text.append("::");
        }
        text.append(segments[i].as_str());
        assert(texts(segments@).take(i + 1) =~= done.push(segments[i as int]@));
        assert(text@ =~= join(done.push(segments[i as int]@)));
        i = i + 1;
    }
    assert(texts(segments@).take(i as int) =~= texts(segments@));
    text
}

/// The path that a reference of the syntax tree names. A reference that
/// starts with a separator is refused.
pub fn parse_path(node: &syn::Path) -> (r: Result<ModulePathBuf, BundleError>)
    ensures
        match path_text(leading_colon_of(*node), idents_of(*node)) {
            Ok(text) => (r matches Ok(path) && path@ == text),
            Err(subject) => (r matches Err(e) && e.kind == ErrorKind::UnsupportedConstruct
                && e.subject@ == subject),
        },
{
    let leading_colon = path_is_global(node);
    let segments = path_idents(node);
    collect_path(leading_colon, &segments)
}

/// The path that the segments make when they are pushed one by one. A path
/// with a separator in front is refused.
pub fn collect_path(leading_colon: bool, segments: &Vec<String>) -> (r: Result<
    ModulePathBuf,
    BundleError,
>)
    ensures
        match path_text(leading_colon, texts(segments@)) {
            Ok(text) => (r matches Ok(path) && path@ == text),
            Err(subject) => (r matches Err(e) && e.kind == ErrorKind::UnsupportedConstruct
                && e.subject@ == subject),
        },
{
    if leading_colon {
        proof {
            reveal_strlit("::");
            assert("::"@ =~= separator());
        }
        let mut subject = String::from_str("::");
        subject.append(joined(segments).as_str());
        return Err(BundleError { kind: ErrorKind::UnsupportedConstruct, subject });
    }
    let mut path = ModulePathBuf::new();
    let mut i: usize = 0;
    assert(texts(segments@).skip(0) =~= texts(segments@));
    while i < segments.len()
        invariant
            0 <= i <= segments.len(),
            !leading_colon,
            collected(Seq::empty(), texts(segments@)) == collected(
                path@,
                texts(segments@).skip(i as int),
            ),
        decreases segments.len() - i,
    {
        let ghost rest = texts(segments@).skip(i as int);
        assert(rest[0] == segments[i as int]@);
        assert(rest.drop_first() =~= texts(segments@).skip(i + 1));
        let ghost before = path@;
        match path.push(segments[i].as_str()) {
            Ok(()) => {},
            Err(e) => {
                assert(collected(before, rest) == Err::<Seq<char>, Seq<char>>(rest[0]));
                return Err(e);
            },
        }
        i = i + 1;
    }
    Ok(path)
}

/// Puts the prefix `name` in front of the pairs of a tree.
fn prefix_pairs(name: &String, pairs: &Vec<(String, ModulePathBuf)>) -> (r: Result<
    Vec<(String, ModulePathBuf)>,
    BundleError,
>)
    ensures
        match prefixed(name@, imports_model(pairs@)) {
            Ok(expected) => (r matches Ok(out) && imports_model(out@) == expected),
            Err(subject) => (r matches Err(e) && e.kind == ErrorKind::UnsupportedConstruct
                && e.subject@ == subject),
        },
{
    let mut out: Vec<(String, ModulePathBuf)> = Vec::new();
    let mut i: usize = 0;
    let ghost all = imports_model(pairs@);
    assert(all.skip(0) =~= all);
    while i < pairs.len()
        invariant
            0 <= i <= pairs.len(),
            all == imports_model(pairs@),
            prefixed(name@, all) == match prefixed(name@, all.skip(i as int)) {
                Ok(rest) => Ok::<Seq<(Seq<char>, Seq<char>)>, Seq<char>>(imports_model(out@) + rest),
                Err(subject) => Err(subject),
            },
        decreases pairs.len() - i,
    {
        let ghost tail = all.skip(i as int);
        let ghost done = imports_model(out@);
        assert(tail[0] == all[i as int]);
        assert(tail.drop_first() =~= all.skip(i + 1));
        let local = &pairs[i].0;
        let target = &pairs[i].1;
        if text_eq(local.as_str(), "self") {
            out.push((name.clone(), ModulePathBuf::from_text(name.as_str())));
            proof {
                assert(imports_model(out@) =~= done.push((name@, name@)));
                if prefixed(name@, tail.drop_first()) is Ok {
                    let rest = prefixed(name@, tail.drop_first())->Ok_0;
                    assert(done.push((name@, name@)) + rest =~= done + (seq![(name@, name@)]
                        + rest));
                }
            }
        } else {
            match ModulePath::new(name.as_str()).join(target.as_str()) {
                Err(e) => {
                    return Err(e);
                },
                Ok(path) => {
                    out.push((local.clone(), path));
                    proof {
                        let pair = (local@, pushed(name@, target@));
                        assert(imports_model(out@) =~= done.push(pair));
                        if prefixed(name@, tail.drop_first()) is Ok {
                            let rest = prefixed(name@, tail.drop_first())->Ok_0;
                            assert(done.push(pair) + rest =~= done + (seq![pair] + rest));
                        }
                    }
                },
            }
        }
        i = i + 1;
    }
    assert(all.skip(i as int) =~= Seq::<(Seq<char>, Seq<char>)>::empty());
    assert(imports_model(out@) + Seq::<(Seq<char>, Seq<char>)>::empty() =~= imports_model(out@));
    Ok(out)
}

/// The pairs of local name and path that an import tree binds.
#[verifier::loop_isolation(false)]
pub fn parse_use(tree: &UseTree) -> (r: Result<Vec<(String, ModulePathBuf)>, BundleError>)
    ensures
        match use_pairs(*tree) {
            Ok(expected) => (r matches Ok(out) && imports_model(out@) == expected),
            Err(subject) => (r matches Err(e) && e.kind == ErrorKind::UnsupportedConstruct
                && e.subject@ == subject),
        },
    decreases *tree,
{
    let mut out: Vec<(String, ModulePathBuf)> = Vec::new();
    match tree {
        UseTree::Name(name) => {
            out.push((name.clone(), ModulePathBuf::from_text(name.as_str())));
            assert(imports_model(out@) =~= seq![(name@, name@)]);
            Ok(out)
        },
        UseTree::Rename { name, rename } => {
            out.push((rename.clone(), ModulePathBuf::from_text(name.as_str())));
            assert(imports_model(out@) =~= seq![(rename@, name@)]);
            Ok(out)
        },
        UseTree::Glob => {
            out.push((String::from_str("*"), ModulePathBuf::from_text("*")));
            assert(imports_model(out@) =~= seq![("*"@, "*"@)]);
            Ok(out)
        },
        UseTree::Path { name, tree } => {
            match parse_use(&**tree) {
                Err(e) => Err(e),
                Ok(inner) => prefix_pairs(name, &inner),
            }
        },
        UseTree::Group(items) => {
            let mut i: usize = 0;
            assert(items@.skip(0) =~= items@);
            while i < items.len()
                invariant
                    0 <= i <= items.len(),
                    group_pairs(items@) == match group_pairs(items@.skip(i as int)) {
                        Ok(rest) => Ok::<Seq<(Seq<char>, Seq<char>)>, Seq<char>>(
                            imports_model(out@) + rest,
                        ),
                        Err(subject) => Err(subject),
                    },
                decreases items.len() - i,
            {
                let ghost tail = items@.skip(i as int);
                let ghost done = imports_model(out@);
                assert(tail[0] == items@[i as int]);
                assert(tail.drop_first() =~= items@.skip(i + 1));
                match parse_use(&items[i]) {
                    Err(e) => {
                        assert(group_pairs(tail) is Err);
                        return Err(e);
                    },
                    Ok(part) => {
                        let mut part = part;
                        let ghost first = imports_model(part@);
                        out.append(&mut part);
                        proof {
                            assert(imports_model(out@) =~= done + first);
                            if group_pairs(tail.drop_first()) is Ok {
                                let rest = group_pairs(tail.drop_first())->Ok_0;
                                assert((done + first) + rest =~= done + (first + rest));
                            }
                        }
                    },
                }
                i = i + 1;
            }
            assert(items@.skip(i as int) =~= Seq::<UseTree>::empty());
            assert(imports_model(out@) + Seq::<(Seq<char>, Seq<char>)>::empty() =~= imports_model(
                out@,
            ));
            Ok(out)
        },
    }
}

/// Takes one piece of source text into the scope `acc`.
fn absorb_piece(acc: &mut Node, piece: &Syntax) -> (r: Result<(), BundleError>)
    ensures
        match absorb(old(acc)@, *piece) {
            Ok(node) => r is Ok && final(acc)@ == node,
            Err(subject) => (r matches Err(e) && e.kind == ErrorKind::UnsupportedConstruct
                && e.subject@ == subject),
        },
    decreases *piece,
{
    let ghost start = acc@;
    match piece {
        Syntax::Access { path, content } => {
            match parse_path(path) {
                Err(e) => Err(e),
                Ok(access) => {
                    acc.accesses.push(access);
                    assert(acc@.accesses =~= start.accesses.push(access@));
                    absorb_pieces(acc, content)
                },
            }
        },
        Syntax::Module { name, content } => {
            let mut inner = Node::new();
            assert(inner@ == empty_scope());
            match absorb_pieces(&mut inner, content) {
                Err(e) => Err(e),
                Ok(()) => {
                    acc.items.push(ModTree::Mod(name.clone(), inner));
                    assert(acc@.items =~= start.items.push(TreeModel::Mod(name@, inner@)));
                    Ok(())
                },
            }
        },
        Syntax::Import { leading_colon, tree, content } => {
            if *leading_colon {
                proof {
                    reveal_strlit("::");
                    assert("::"@ =~= separator());
                }
                return Err(BundleError::new(ErrorKind::UnsupportedConstruct, "::"));
            }
            match parse_use(tree) {
                Err(e) => Err(e),
                Ok(pairs) => {
                    let ghost bound = imports_model(pairs@);
                    acc.items.push(ModTree::Use(pairs));
                    assert(acc@.items =~= start.items.push(TreeModel::Use(bound)));
                    absorb_pieces(acc, content)
                },
            }
        },
        Syntax::Generic { type_params, content } => {
            let mut inner = Node::new();
            let mut i: usize = 0;
            while i < type_params.len()
                invariant
                    0 <= i <= type_params.len(),
                    inner@.items == declared(texts(type_params@)).take(i as int),
                    inner@.accesses == Seq::<Seq<char>>::empty(),
                decreases type_params.len() - i,
            {
                let ghost done = inner@.items;
                inner.items.push(ModTree::Type(type_params[i].clone()));
                assert(inner@.items =~= done.push(TreeModel::Type(type_params[i as int]@)));
                assert(declared(texts(type_params@)).take(i + 1) =~= done.push(
                    TreeModel::Type(type_params[i as int]@),
                ));
                i = i + 1;
            }
            assert(declared(texts(type_params@)).take(i as int) =~= declared(
                texts(type_params@),
            ));
            match absorb_pieces(&mut inner, content) {
                Err(e) => Err(e),
                Ok(()) => {
                    acc.items.push(ModTree::Generics(inner));
                    assert(acc@.items =~= start.items.push(TreeModel::Generics(inner@)));
                    Ok(())
                },
            }
        },
        Syntax::Block { content } => {
            let mut inner = Node::new();
            assert(inner@ == empty_scope());
            match absorb_pieces(&mut inner, content) {
                Err(e) => Err(e),
                Ok(()) => {
                    acc.items.push(ModTree::Block(inner));
                    assert(acc@.items =~= start.items.push(TreeModel::Block(inner@)));
                    Ok(())
                },
            }
        },
        Syntax::TypeDecl { name, content } => {
            acc.items.push(ModTree::Type(name.clone()));
            assert(acc@.items =~= start.items.push(TreeModel::Type(name@)));
            absorb_pieces(acc, content)
        },
    }
}

/// Takes pieces of source text into the scope `acc`, one by one.
#[verifier::loop_isolation(false)]
fn absorb_pieces(acc: &mut Node, pieces: &Vec<Syntax>) -> (r: Result<(), BundleError>)
    ensures
        match absorb_all(old(acc)@, pieces@) {
            Ok(node) => r is Ok && final(acc)@ == node,
            Err(subject) => (r matches Err(e) && e.kind == ErrorKind::UnsupportedConstruct
                && e.subject@ == subject),
        },
    decreases *pieces,
{
    let ghost start = acc@;
    let mut i: usize = 0;
    assert(pieces@.skip(0) =~= pieces@);
    while i < pieces.len()
        invariant
            0 <= i <= pieces.len(),
            absorb_all(start, pieces@) == absorb_all(acc@, pieces@.skip(i as int)),
        decreases pieces.len() - i,
    {
        let ghost tail = pieces@.skip(i as int);
        assert(tail[0] == pieces@[i as int]);
        assert(tail.drop_first() =~= pieces@.skip(i + 1));
        let ghost before = acc@;
        match absorb_piece(acc, &pieces[i]) {
            Ok(()) => {},
            Err(e) => {
                assert(absorb_all(before, tail) is Err);
                return Err(e);
            },
        }
        i = i + 1;
    }
    Ok(())
}

/// The scope tree of a file with the given content: what each scope
/// declares, imports and refers to.
pub fn make_mod_tree(content: &Vec<Syntax>) -> (r: Result<ModTree, BundleError>)
    ensures
        match scope_tree(content@) {
            Ok(tree) => (r matches Ok(t) && t@ == tree),
            Err(subject) => (r matches Err(e) && e.kind == ErrorKind::UnsupportedConstruct
                && e.subject@ == subject),
        },
{
    let mut root = Node::new();
    assert(root@ == empty_scope());
    match absorb_pieces(&mut root, content) {
        Ok(()) => Ok(ModTree::File(root)),
        Err(e) => Err(e),
    }
}

/// Taking in two runs of pieces one after the other is taking in the two
/// runs joined.
pub proof fn lemma_absorb_all_append(acc: NodeModel, first: Seq<Syntax>, second: Seq<Syntax>)
    ensures
        absorb_all(acc, first + second) == match absorb_all(acc, first) {
            Ok(node) => absorb_all(node, second),
            Err(subject) => Err(subject),
        },
    decreases first.len(),
{
    let all = first + second;
    if first.len() == 0 {
        assert(all =~= second);
    } else {
        assert(all[0] == first[0]);
        assert(all.drop_first() =~= first.drop_first() + second);
        match absorb(acc, first[0]) {
            Ok(next) => {
                lemma_absorb_all_append(next, first.drop_first(), second);
            },
            Err(_) => {},
        }
    }
}

/// A module, a generic parameter list and a block each add one entry to the
/// scope that they stand in, and no reference: what is referred to inside
/// them is recorded in their own scope alone.
pub proof fn lemma_nested_scope_is_one_entry(acc: NodeModel, piece: Syntax)
    requires
        piece is Module || piece is Generic || piece is Block,
        absorb(acc, piece) is Ok,
    ensures
        absorb(acc, piece)->Ok_0.accesses == acc.accesses,
        absorb(acc, piece)->Ok_0.items.len() == acc.items.len() + 1,
        absorb(acc, piece)->Ok_0.items.drop_last() == acc.items,
        match piece {
            Syntax::Module { name, content } => absorb(acc, piece)->Ok_0.items.last()
                == TreeModel::Mod(name@, absorb_all(empty_scope(), content@)->Ok_0),
            Syntax::Generic { type_params, content } => absorb(acc, piece)->Ok_0.items.last()
                == TreeModel::Generics(
                absorb_all(
                    NodeModel { items: declared(texts(type_params@)), accesses: Seq::empty() },
                    content@,
                )->Ok_0,
            ),
            Syntax::Block { content } => absorb(acc, piece)->Ok_0.items.last()
                == TreeModel::Block(absorb_all(empty_scope(), content@)->Ok_0),
            _ => true,
        },
{
    let after = absorb(acc, piece)->Ok_0;
    assert(after.items.drop_last() =~= acc.items);
}

/// Taking in a piece only adds to a scope: what the scope held stays at the
/// front of its entries and of its references, in its order.
pub proof fn lemma_absorb_extends(acc: NodeModel, piece: Syntax)
    requires
        absorb(acc, piece) is Ok,
    ensures
        acc.items.is_prefix_of(absorb(acc, piece)->Ok_0.items),
        acc.accesses.is_prefix_of(absorb(acc, piece)->Ok_0.accesses),
    decreases piece,
{
    let after = absorb(acc, piece)->Ok_0;
    match piece {
        Syntax::Access { path, content } => {
            let access = path_text(leading_colon_of(path), idents_of(path))->Ok_0;
            let next = NodeModel { items: acc.items, accesses: acc.accesses.push(access) };
            lemma_absorb_all_extends(next, content@);
            lemma_prefix_of_longer(acc.items, next.items, after.items);
            lemma_prefix_of_longer(acc.accesses, next.accesses, after.accesses);
        },
        Syntax::Import { leading_colon, tree, content } => {
            let entry = TreeModel::Use(use_pairs(tree)->Ok_0);
            let next = NodeModel { items: acc.items.push(entry), accesses: acc.accesses };
            lemma_absorb_all_extends(next, content@);
            lemma_prefix_of_longer(acc.items, next.items, after.items);
            lemma_prefix_of_longer(acc.accesses, next.accesses, after.accesses);
        },
        Syntax::TypeDecl { name, content } => {
            let entry = TreeModel::Type(name@);
            let next = NodeModel { items: acc.items.push(entry), accesses: acc.accesses };
            lemma_absorb_all_extends(next, content@);
            lemma_prefix_of_longer(acc.items, next.items, after.items);
            lemma_prefix_of_longer(acc.accesses, next.accesses, after.accesses);
        },
        _ => {
            assert(after.items.subrange(0, acc.items.len() as int) =~= acc.items);
            assert(after.accesses.subrange(0, acc.accesses.len() as int) =~= acc.accesses);
        },
    }
}

/// Taking in pieces only adds to a scope.
pub proof fn lemma_absorb_all_extends(acc: NodeModel, pieces: Seq<Syntax>)
    requires
        absorb_all(acc, pieces) is Ok,
    ensures
        acc.items.is_prefix_of(absorb_all(acc, pieces)->Ok_0.items),
        acc.accesses.is_prefix_of(absorb_all(acc, pieces)->Ok_0.accesses),
    decreases pieces,
{
    if pieces.len() == 0 {
        lemma_prefix_of_longer(acc.items, acc.items, acc.items);
        lemma_prefix_of_longer(acc.accesses, acc.accesses, acc.accesses);
    } else {
        let next = absorb(acc, pieces[0])->Ok_0;
        let last = absorb_all(next, pieces.drop_first())->Ok_0;
        lemma_absorb_extends(acc, pieces[0]);
        lemma_absorb_all_extends(next, pieces.drop_first());
        lemma_prefix_of_longer(acc.items, next.items, last.items);
        lemma_prefix_of_longer(acc.accesses, next.accesses, last.accesses);
    }
}

/// What stands at the front of a list stands at the front of every list
/// that starts with that list.
proof fn lemma_prefix_of_longer<A>(short: Seq<A>, middle: Seq<A>, long: Seq<A>)
    requires
        short.len() <= middle.len(),
        forall|i: int| 0 <= i < short.len() ==> short[i] == middle[i],
        middle.is_prefix_of(long),
    ensures
        short.is_prefix_of(long),
{
    assert forall|i: int| 0 <= i < short.len() implies short[i] == long[i] by {
        assert(long.subrange(0, middle.len() as int)[i] == long[i]);
    }
    assert(short =~= long.subrange(0, short.len() as int));
}

} // verus!
