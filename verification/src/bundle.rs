//! Loading of out-of-line modules: which declaration is resolved next, where
//! its file is looked for, and how the loaded items take their place.
//!
//! Reading and parsing files is left to the caller. The caller asks for the
//! next request, reads what it names, and supplies the parsed items, until no
//! request is left.

use crate::error::{BundleError, ErrorKind};
use crate::path::{pushed, ModulePath, ModulePathBuf};
use crate::text::{has_leading_separator, segments_of, starts_with_separator, text_eq, texts};
use vstd::prelude::*;
use vstd::string::*;

verus! {

/// An attribute of a declaration: its name, and its value where it has the
/// form `name = "value"`.
#[derive(Clone, Debug, PartialEq, Eq)]
pub struct Attribute {
    pub name: String,
    pub value: Option<String>,
}

/// A module declaration. `T` is what the caller keeps of the declaration
/// itself.
#[derive(Debug, PartialEq, Eq)]
pub struct ModuleDecl<T> {
    pub name: String,
    pub attrs: Vec<Attribute>,
    /// The items of the module; `None` while the module is out of line.
    pub body: Option<Vec<SourceItem<T>>>,
    /// The file that the body was loaded from; `None` for a body that was
    /// written in place.
    pub origin: Option<usize>,
    pub decl: T,
}

/// An item of a source file: a module declaration, or anything else, with
/// the module declarations that stand somewhere inside it, in source order.
#[derive(Debug, PartialEq, Eq)]
pub enum SourceItem<T> {
    Module(ModuleDecl<T>),
    Other(T, Vec<SourceItem<T>>),
}

/// The mathematical value of an `Attribute`.
pub struct AttributeModel {
    pub name: Seq<char>,
    pub value: Option<Seq<char>>,
}

/// The mathematical value of a `ModuleDecl`.
pub struct ModuleModel<T> {
    pub name: Seq<char>,
    pub attrs: Seq<AttributeModel>,
    pub body: Option<Seq<ItemModel<T>>>,
    pub origin: Option<usize>,
    pub decl: T,
}

/// The mathematical value of a `SourceItem`.
pub enum ItemModel<T> {
    Module(ModuleModel<T>),
    Other(T, Seq<ItemModel<T>>),
}

/// The text of a string that may be absent.
pub open spec fn option_text(s: Option<String>) -> Option<Seq<char>> {
    match s {
        Some(v) => Some(v@),
        None => None,
    }
}

/// The value of an attribute.
pub open spec fn attribute_model(attr: Attribute) -> AttributeModel {
    AttributeModel { name: attr.name@, value: option_text(attr.value) }
}

/// The values of a list of attributes.
pub open spec fn attributes_model(attrs: Seq<Attribute>) -> Seq<AttributeModel> {
    Seq::new(attrs.len(), |i: int| attribute_model(attrs[i]))
}

/// The value of an item.
pub open spec fn item_model<T>(item: SourceItem<T>) -> ItemModel<T>
    decreases item,
{
    match item {
        SourceItem::Other(x, nested) => ItemModel::Other(x, items_model(nested@)),
        SourceItem::Module(m) => ItemModel::Module(
            ModuleModel {
                name: m.name@,
                attrs: attributes_model(m.attrs@),
                body: match m.body {
                    None => None,
                    Some(b) => Some(items_model(b@)),
                },
                origin: m.origin,
                decl: m.decl,
            },
        ),
    }
}

/// The values of a list of items.
pub open spec fn items_model<T>(items: Seq<SourceItem<T>>) -> Seq<ItemModel<T>>
    decreases items,
{
    Seq::new(
        items.len(),
        |i: int|
            if 0 <= i < items.len() {
                item_model(items[i])
            } else {
                arbitrary()
            },
    )
}

/// The value of the first attribute from position `i` on that is named
/// `path`.
pub open spec fn override_from(attrs: Seq<AttributeModel>, i: int) -> Option<Seq<char>>
    decreases attrs.len() - i,
{
    if i < 0 || i >= attrs.len() {
        None
    } else if attrs[i].name == "path"@ {
        attrs[i].value
    } else {
        override_from(attrs, i + 1)
    }
}

/// The file that a declaration names for its body: the value of its first
/// attribute named `path`.
pub open spec fn path_override(attrs: Seq<AttributeModel>) -> Option<Seq<char>> {
    override_from(attrs, 0)
}

/// What a walk over the items finds first.
pub enum Scan {
    /// No declaration is out of line.
    Complete,
    /// The first out-of-line declaration: the path of its module, the file
    /// that declares it and the file that it names, if any.
    Pending { module: Seq<char>, includer: usize, path_override: Option<Seq<char>> },
    /// A module name or a named file in the fully qualified form.
    Unsupported(Seq<char>),
}

/// What the walk finds in one item, met in the module `path` of the file
/// `file`.
pub open spec fn scan_item<T>(item: ItemModel<T>, path: Seq<char>, file: usize) -> Scan
    decreases item, 0nat,
{
    match item {
        ItemModel::Other(_, nested) => scan_from(nested, 0, path, file),
        ItemModel::Module(m) => if has_leading_separator(m.name) {
            Scan::Unsupported(m.name)
        } else {
            match m.body {
                Some(body) => scan_from(
                    body,
                    0,
                    pushed(path, m.name),
                    match m.origin {
                        Some(f) => f,
                        None => file,
                    },
                ),
                None => match path_override(m.attrs) {
                    Some(o) => if has_leading_separator(o) {
                        Scan::Unsupported(o)
                    } else {
                        Scan::Pending {
                            module: pushed(path, m.name),
                            includer: file,
                            path_override: Some(o),
                        }
                    },
                    None => Scan::Pending {
                        module: pushed(path, m.name),
                        includer: file,
                        path_override: None,
                    },
                },
            }
        },
    }
}

/// What the walk finds in the items from position `i` on.
pub open spec fn scan_from<T>(items: Seq<ItemModel<T>>, i: int, path: Seq<char>, file: usize) -> Scan
    decreases items, items.len() - i,
{
    if i < 0 || i >= items.len() {
        Scan::Complete
    } else {
        match scan_item(items[i], path, file) {
            Scan::Complete => scan_from(items, i + 1, path, file),
            found => found,
        }
    }
}

/// What the walk over a whole crate finds: it starts in the module `crate`
/// of the root file, which has the number 0.
pub open spec fn scan<T>(items: Seq<ItemModel<T>>) -> Scan {
    scan_from(items, 0, "crate"@, 0)
}

/// The request to load the body of one out-of-line module.
#[derive(Clone, Debug, PartialEq, Eq)]
pub struct Request {
    /// The path of the module, from the crate root.
    pub module: ModulePathBuf,
    /// The number of the file that holds the declaration.
    pub includer: usize,
    /// The file that the declaration names, if it names one.
    pub path_override: Option<String>,
}

impl Request {
    /// The request as a result of the walk.
    pub open spec fn as_scan(&self) -> Scan {
        Scan::Pending {
            module: self.module@,
            includer: self.includer,
            path_override: option_text(self.path_override),
        }
    }
}

/// Looks up the file that a declaration names for its body.
pub fn find_path_override(attrs: &Vec<Attribute>) -> (found: Option<String>)
    ensures
        option_text(found) == path_override(attributes_model(attrs@)),
{
    let mut i: usize = 0;
    while i < attrs.len()
        invariant
            0 <= i <= attrs.len(),
            path_override(attributes_model(attrs@)) == override_from(
                attributes_model(attrs@),
                i as int,
            ),
        decreases attrs.len() - i,
    {
        if text_eq(attrs[i].name.as_str(), "path") {
            return match &attrs[i].value {
                Some(v) => Some(v.clone()),
                None => None,
            };
        }
        i = i + 1;
    }
    None
}

/// What the walk finds in one item.
fn walk_item<T>(item: &SourceItem<T>, path: &ModulePathBuf, file: usize) -> (r: Result<
    Option<Request>,
    BundleError,
>)
    ensures
        match scan_item(item_model(*item), path@, file) {
            Scan::Complete => r == Ok::<Option<Request>, BundleError>(None),
            Scan::Unsupported(s) => (r matches Err(e) && e.kind == ErrorKind::UnsupportedConstruct
                && e.subject@ == s),
            found => (r matches Ok(Some(req)) && req.as_scan() == found),
        },
    decreases *item, 0nat,
{
    match item {
        SourceItem::Other(_, nested) => walk_items(nested, path, file),
        SourceItem::Module(m) => {
            let child = match path.as_module_path().join(m.name.as_str()) {
                Ok(c) => c,
                Err(e) => {
                    return Err(e);
                },
            };
            match &m.body {
                Some(body) => {
                    let inner = match m.origin {
                        Some(f) => f,
                        None => file,
                    };
                    walk_items(body, &child, inner)
                },
                None => {
                    let named = find_path_override(&m.attrs);
                    match named {
                        Some(o) => {
                            if starts_with_separator(o.as_str()) {
                                Err(BundleError::new(ErrorKind::UnsupportedConstruct, o.as_str()))
                            } else {
                                Ok(
                                    Some(
                                        Request {
                                            module: child,
                                            includer: file,
                                            path_override: Some(o),
                                        },
                                    ),
                                )
                            }
                        },
                        None => Ok(
                            Some(Request { module: child, includer: file, path_override: None }),
                        ),
                    }
                },
            }
        },
    }
}

/// What the walk finds in a list of items.
fn walk_items<T>(items: &Vec<SourceItem<T>>, path: &ModulePathBuf, file: usize) -> (r: Result<
    Option<Request>,
    BundleError,
>)
    ensures
        match scan_from(items_model(items@), 0, path@, file) {
            Scan::Complete => r == Ok::<Option<Request>, BundleError>(None),
            Scan::Unsupported(s) => (r matches Err(e) && e.kind == ErrorKind::UnsupportedConstruct
                && e.subject@ == s),
            found => (r matches Ok(Some(req)) && req.as_scan() == found),
        },
    decreases *items, 1nat,
{
    let mut i: usize = 0;
    while i < items.len()
        invariant
            0 <= i <= items.len(),
            scan_from(items_model(items@), 0, path@, file) == scan_from(
                items_model(items@),
                i as int,
                path@,
                file,
            ),
        decreases items.len() - i,
    {
        match walk_item(&items[i], path, file) {
            Ok(None) => {},
            found => {
                return found;
            },
        }
        i = i + 1;
    }
    Ok(None)
}

/// Whether an out-of-line declaration stands in the item.
pub open spec fn item_pending<T>(item: ItemModel<T>) -> bool
    decreases item, 0nat,
{
    match item {
        ItemModel::Other(_, nested) => first_pending(nested, 0) < nested.len(),
        ItemModel::Module(m) => match m.body {
            None => true,
            Some(b) => first_pending(b, 0) < b.len(),
        },
    }
}

/// The position of the first item from `i` on in which an out-of-line
/// declaration stands, or the length where there is none.
pub open spec fn first_pending<T>(items: Seq<ItemModel<T>>, i: int) -> int
    decreases items, items.len() - i,
{
    if i < 0 || i >= items.len() {
        items.len() as int
    } else if item_pending(items[i]) {
        i
    } else {
        first_pending(items, i + 1)
    }
}

/// No out-of-line declaration is left among the items.
pub open spec fn is_complete<T>(items: Seq<ItemModel<T>>) -> bool {
    first_pending(items, 0) == items.len()
}

/// The item after `body`, loaded from `file`, took the place of the first
/// out-of-line declaration in it.
pub open spec fn fill_item<T>(item: ItemModel<T>, body: Seq<ItemModel<T>>, file: usize) -> ItemModel<
    T,
>
    decreases item, 0nat,
{
    match item {
        ItemModel::Other(x, nested) => ItemModel::Other(x, fill_items(nested, body, file)),
        ItemModel::Module(m) => match m.body {
            None => ItemModel::Module(
                ModuleModel {
                    name: m.name,
                    attrs: m.attrs,
                    body: Some(body),
                    origin: Some(file),
                    decl: m.decl,
                },
            ),
            Some(b) => ItemModel::Module(
                ModuleModel {
                    name: m.name,
                    attrs: m.attrs,
                    body: Some(fill_items(b, body, file)),
                    origin: m.origin,
                    decl: m.decl,
                },
            ),
        },
    }
}

/// The items after `body`, loaded from `file`, took the place of the first
/// out-of-line declaration among them. Nothing changes where there is none.
pub open spec fn fill_items<T>(items: Seq<ItemModel<T>>, body: Seq<ItemModel<T>>, file: usize) -> Seq<
    ItemModel<T>,
>
    decreases items, 1nat,
{
    let i = first_pending(items, 0);
    if 0 <= i < items.len() {
        items.update(i, fill_item(items[i], body, file))
    } else {
        items
    }
}

/// The number of out-of-line declarations in the item.
pub open spec fn pending_in_item<T>(item: ItemModel<T>) -> nat
    decreases item, 0nat,
{
    match item {
        ItemModel::Other(_, nested) => pending_from(nested, 0),
        ItemModel::Module(m) => match m.body {
            None => 1,
            Some(b) => pending_from(b, 0),
        },
    }
}

/// The number of out-of-line declarations in the items from position `i` on.
pub open spec fn pending_from<T>(items: Seq<ItemModel<T>>, i: int) -> nat
    decreases items, items.len() - i,
{
    if i < 0 || i >= items.len() {
        0
    } else {
        pending_in_item(items[i]) + pending_from(items, i + 1)
    }
}

/// The number of out-of-line declarations in the items.
pub open spec fn pending_count<T>(items: Seq<ItemModel<T>>) -> nat {
    pending_from(items, 0)
}

/// What `first_pending` finds: an item with an out-of-line declaration in
/// it, and none before it.
pub proof fn lemma_first_pending<T>(items: Seq<ItemModel<T>>, i: int)
    requires
        0 <= i <= items.len(),
    ensures
        i <= first_pending(items, i) <= items.len(),
        first_pending(items, i) < items.len() ==> item_pending(items[first_pending(items, i)]),
        forall|j: int| i <= j < first_pending(items, i) ==> !item_pending(#[trigger] items[j]),
    decreases items.len() - i,
{
    if i < items.len() && !item_pending(items[i]) {
        lemma_first_pending(items, i + 1);
    }
}

/// Whether an out-of-line declaration stands in the item.
fn has_pending<T>(item: &SourceItem<T>) -> (b: bool)
    ensures
        b == item_pending(item_model(*item)),
    decreases *item, 0nat,
{
    match item {
        SourceItem::Other(_, nested) => find_pending(nested) < nested.len(),
        SourceItem::Module(m) => match &m.body {
            None => true,
            Some(b) => find_pending(b) < b.len(),
        },
    }
}

/// Finds the first item in which an out-of-line declaration stands.
fn find_pending<T>(items: &Vec<SourceItem<T>>) -> (i: usize)
    ensures
        i == first_pending(items_model(items@), 0),
        i <= items.len(),
    decreases *items, 1nat,
{
    let mut i: usize = 0;
    while i < items.len()
        invariant
            0 <= i <= items.len(),
            first_pending(items_model(items@), 0) == first_pending(items_model(items@), i as int),
        decreases items.len() - i,
    {
        if has_pending(&items[i]) {
            return i;
        }
        i = i + 1;
    }
    i
}

/// Puts `body` in the place of the first out-of-line declaration in the item.
fn place_in_item<T>(item: SourceItem<T>, body: Vec<SourceItem<T>>, file: usize) -> (r: SourceItem<T>)
    requires
        item_pending(item_model(item)),
    ensures
        item_model(r) == fill_item(item_model(item), items_model(body@), file),
    decreases item, 0nat,
{
    match item {
        SourceItem::Other(x, nested) => {
            let mut nested = nested;
            place_in_items(&mut nested, body, file);
            SourceItem::Other(x, nested)
        },
        SourceItem::Module(m) => {
            let ModuleDecl { name, attrs, body: own, origin, decl } = m;
            match own {
                None => SourceItem::Module(
                    ModuleDecl { name, attrs, body: Some(body), origin: Some(file), decl },
                ),
                Some(inner) => {
                    let mut inner = inner;
                    place_in_items(&mut inner, body, file);
                    SourceItem::Module(ModuleDecl { name, attrs, body: Some(inner), origin, decl })
                },
            }
        },
    }
}

/// Puts `body` in the place of the first out-of-line declaration among the
/// items.
fn place_in_items<T>(items: &mut Vec<SourceItem<T>>, body: Vec<SourceItem<T>>, file: usize)
    requires
        first_pending(items_model(old(items)@), 0) < old(items).len(),
    ensures
        items_model(final(items)@) == fill_items(
            items_model(old(items)@),
            items_model(body@),
            file,
        ),
    decreases *old(items), 1nat,
{
    let ghost before = items_model(items@);
    let i = find_pending(items);
    proof {
        lemma_first_pending(before, 0);
    }
    let item = items.remove(i);
    let filled = place_in_item(item, body, file);
    items.insert(i, filled);
    assert(items_model(items@) =~= before.update(i as int, item_model(filled)));
}

/// Where the file of a module is looked for.
#[derive(Clone, Debug, PartialEq, Eq)]
pub enum Target {
    /// The file `path`, taken from the directory of the file with the number
    /// `includer`.
    Relative { includer: usize, path: String },
    /// The file that the components name below the source root: directories,
    /// then the name of the file.
    Rooted { components: Vec<String> },
}

/// The mathematical value of a `Target`.
pub enum TargetModel {
    Relative { includer: usize, path: Seq<char> },
    Rooted { components: Seq<Seq<char>> },
}

/// The value of a target.
pub open spec fn target_model(target: Target) -> TargetModel {
    match target {
        Target::Relative { includer, path } => TargetModel::Relative { includer, path: path@ },
        Target::Rooted { components } => TargetModel::Rooted { components: texts(components@) },
    }
}

/// The directories and the file stem that a module path names below the
/// source root: its segments behind the first.
pub open spec fn file_components(module: Seq<char>) -> Seq<Seq<char>> {
    if segments_of(module).len() == 0 {
        Seq::empty()
    } else {
        segments_of(module).drop_first()
    }
}

/// The flat file of a module: below the source root, the directories that
/// the segments behind the first name, and the file that the last segment
/// names with the extension `rs`.
pub open spec fn flat_components(module: Seq<char>) -> Seq<Seq<char>> {
    let stems = file_components(module);
    if stems.len() == 0 {
        seq![".rs"@]
    } else {
        stems.drop_last().push(stems.last() + ".rs"@)
    }
}

/// The nested file of a module: the file `mod.rs` in the directory that the
/// segments behind the first name below the source root.
pub open spec fn nested_components(module: Seq<char>) -> Seq<Seq<char>> {
    file_components(module).push("mod.rs"@)
}

/// Where the body of a module is read from: the file that the declaration
/// names, else the flat file if it exists, else the nested one.
pub open spec fn chosen_target(
    module: Seq<char>,
    includer: usize,
    path_override: Option<Seq<char>>,
    flat_exists: bool,
) -> TargetModel {
    match path_override {
        Some(path) => TargetModel::Relative { includer, path },
        None => if flat_exists {
            TargetModel::Rooted { components: flat_components(module) }
        } else {
            TargetModel::Rooted { components: nested_components(module) }
        },
    }
}

/// A file that the declaration names is the target whatever else exists.
/// Without one, the flat file is the target if it exists, and the nested
/// file if it does not: there is no third place to look.
pub proof fn lemma_target_choice(
    module: Seq<char>,
    includer: usize,
    path_override: Option<Seq<char>>,
    flat_exists: bool,
)
    ensures
        path_override matches Some(path) ==> chosen_target(
            module,
            includer,
            path_override,
            flat_exists,
        ) == (TargetModel::Relative { includer, path }),
        path_override is None && flat_exists ==> chosen_target(
            module,
            includer,
            path_override,
            flat_exists,
        ) == (TargetModel::Rooted { components: flat_components(module) }),
        path_override is None && !flat_exists ==> chosen_target(
            module,
            includer,
            path_override,
            flat_exists,
        ) == (TargetModel::Rooted { components: nested_components(module) }),
{
}

/// The components that a module path names below the source root.
pub fn to_file_path(path: ModulePath<'_>) -> (components: Vec<String>)
    ensures
        texts(components@) == file_components(path@),
{
    let mut components: Vec<String> = Vec::new();
    let mut it = path.iter();
    let ghost all = it.remaining();
    match it.next() {
        None => {
            assert(texts(components@) =~= file_components(path@));
            return components;
        },
        Some(_) => {},
    }
    loop
        invariant
            all == path.segments(),
            all.len() > 0,
            texts(components@) + it.remaining() == all.drop_first(),
        ensures
            texts(components@) == all.drop_first(),
        decreases it.remaining().len(),
    {
        let ghost rest = it.remaining();
        let ghost done = texts(components@);
        match it.next() {
            None => {
                assert(done + rest =~= done);
                break ;
            },
            Some(seg) => {
                components.push(String::from_str(seg));
                assert(texts(components@) =~= done.push(rest[0]));
                assert(done.push(rest[0]) + rest.drop_first() =~= done + rest);
            },
        }
    }
    components
}

/// The components of the flat file of a module.
pub fn flat_file(path: ModulePath<'_>) -> (components: Vec<String>)
    ensures
        texts(components@) == flat_components(path@),
{
    let mut components = to_file_path(path);
    let ghost stems = texts(components@);
    match components.pop() {
        None => {
            components.push(String::from_str(".rs"));
            assert(texts(components@) =~= seq![".rs"@]);
        },
        Some(stem) => {
            let mut name = stem;
            name.append(".rs");
            components.push(name);
            assert(texts(components@) =~= stems.drop_last().push(stems.last() + ".rs"@));
        },
    }
    components
}

/// The components of the nested file of a module.
pub fn nested_file(path: ModulePath<'_>) -> (components: Vec<String>)
    ensures
        texts(components@) == nested_components(path@),
{
    let mut components = to_file_path(path);
    let ghost stems = texts(components@);
    components.push(String::from_str("mod.rs"));
    assert(texts(components@) =~= stems.push("mod.rs"@));
    components
}

impl Request {
    /// The file whose existence decides the target, where the declaration
    /// names no file.
    pub fn probe(&self) -> (t: Option<Target>)
        ensures
            self.path_override is Some ==> t is None,
            self.path_override is None ==> (t matches Some(x) && target_model(x)
                == TargetModel::Rooted { components: flat_components(self.module@) }),
    {
        match &self.path_override {
            Some(_) => None,
            None => Some(Target::Rooted { components: flat_file(self.module.as_module_path()) }),
        }
    }

    /// The file that the body of the module is read from.
    pub fn target(&self, flat_exists: bool) -> (t: Target)
        ensures
            target_model(t) == chosen_target(
                self.module@,
                self.includer,
                option_text(self.path_override),
                flat_exists,
            ),
    {
        match &self.path_override {
            Some(path) => Target::Relative { includer: self.includer, path: path.clone() },
            None => {
                if flat_exists {
                    Target::Rooted { components: flat_file(self.module.as_module_path()) }
                } else {
                    Target::Rooted { components: nested_file(self.module.as_module_path()) }
                }
            },
        }
    }
}

/// A parsed source file.
#[verifier::external_type_specification]
#[verifier::external_body]
pub struct ExFile(syn::File);

/// What the parser says of a text that it refuses.
#[verifier::external_type_specification]
#[verifier::external_body]
pub struct ExSynError(syn::Error);

/// Whether a text parses as a source file.
pub uninterp spec fn is_source_text(text: Seq<char>) -> bool;

/// The syntax tree of a text that parses as a source file.
pub uninterp spec fn source_tree(text: Seq<char>) -> syn::File;

/// Calls `syn::parse_file`, which parses the text of a whole source file.
/// The contract gives the question whether it succeeds, and the tree that it
/// returns, their names: both depend on the text alone.
#[verifier::external_body]
fn parse_text(text: &str) -> (parsed: Result<syn::File, syn::Error>)
    ensures
        parsed is Ok == is_source_text(text@),
        parsed matches Ok(tree) ==> tree == source_tree(text@),
{
    syn::parse_file(text)
}

/// What came of reading a file.
#[derive(Clone, Debug, PartialEq, Eq)]
pub enum Read {
    /// The text of the file.
    Text(String),
    /// The file does not exist.
    Missing,
    /// The file exists and cannot be opened or read.
    Unreadable,
}

/// The parsed file, or the failure as a syntax error in `file`.
pub fn parsed_or_error(parsed: Result<syn::File, syn::Error>, file: &str) -> (r: Result<
    syn::File,
    BundleError,
>)
    ensures
        match parsed {
            Ok(tree) => r == Ok::<syn::File, BundleError>(tree),
            Err(_) => (r matches Err(e) && e.kind == ErrorKind::SyntaxError && e.subject@
                == file@),
        },
{
    match parsed {
        Ok(tree) => Ok(tree),
        Err(_) => Err(BundleError::new(ErrorKind::SyntaxError, file)),
    }
}

/// Parses what was read of the source file `file`. A file that is missing,
/// cannot be read or does not parse fails the load, each in its kind.
pub fn parse_rs_file(read: Read, file: &str) -> (r: Result<syn::File, BundleError>)
    ensures
        match read {
            Read::Text(text) => if is_source_text(text@) {
                r == Ok::<syn::File, BundleError>(source_tree(text@))
            } else {
                r matches Err(e) && e.kind == ErrorKind::SyntaxError && e.subject@ == file@
            },
            Read::Missing => r matches Err(e) && e.kind == ErrorKind::FileNotFound && e.subject@
                == file@,
            Read::Unreadable => r matches Err(e) && e.kind == ErrorKind::Unreadable && e.subject@
                == file@,
        },
{
    match read {
        Read::Text(text) => parsed_or_error(parse_text(text.as_str()), file),
        Read::Missing => Err(BundleError::new(ErrorKind::FileNotFound, file)),
        Read::Unreadable => Err(BundleError::new(ErrorKind::Unreadable, file)),
    }
}

/// The items of a crate while the bodies of its out-of-line modules are
/// loaded.
#[derive(Debug, PartialEq, Eq)]
pub struct Bundler<T> {
    items: Vec<SourceItem<T>>,
}

impl<T> View for Bundler<T> {
    type V = Seq<ItemModel<T>>;

    closed spec fn view(&self) -> Seq<ItemModel<T>> {
        items_model(self.items@)
    }
}

impl<T> Bundler<T> {
    /// Starts from the items of the root file.
    pub fn new(items: Vec<SourceItem<T>>) -> (bundler: Self)
        ensures
            bundler@ == items_model(items@),
    {
        Bundler { items }
    }

    /// The first out-of-line declaration, met walking the items in order and
    /// each module's body before the item behind it; `None` when every body
    /// is in place.
    pub fn next_request(&self) -> (r: Result<Option<Request>, BundleError>)
        ensures
            match scan(self@) {
                Scan::Complete => r == Ok::<Option<Request>, BundleError>(None),
                Scan::Unsupported(s) => (r matches Err(e) && e.kind
                    == ErrorKind::UnsupportedConstruct && e.subject@ == s),
                found => (r matches Ok(Some(req)) && req.as_scan() == found),
            },
    {
        let root = ModulePathBuf::from_text("crate");
        walk_items(&self.items, &root, 0)
    }

    /// Puts `body`, loaded from the file with the number `file`, in the place
    /// of the first out-of-line declaration, and says whether there was one.
    pub fn supply(&mut self, body: Vec<SourceItem<T>>, file: usize) -> (placed: bool)
        ensures
            placed == !is_complete(old(self)@),
            final(self)@ == fill_items(old(self)@, items_model(body@), file),
    {
        proof {
            lemma_first_pending(self@, 0);
        }
        if find_pending(&self.items) < self.items.len() {
            place_in_items(&mut self.items, body, file);
            true
        } else {
            false
        }
    }

    /// The items with the bodies that were supplied, once every body is in
    /// place. Before that nothing is handed out, and the bundler comes back
    /// as it is.
    pub fn finish(self) -> (r: Result<Vec<SourceItem<T>>, Self>)
        ensures
            match r {
                Ok(items) => is_complete(self@) && items_model(items@) == self@,
                Err(bundler) => !is_complete(self@) && bundler@ == self@,
            },
    {
        proof {
            lemma_first_pending(self@, 0);
        }
        if find_pending(&self.items) < self.items.len() {
            Err(self)
        } else {
            Ok(self.items)
        }
    }
}

/// The walk finds nothing in an item exactly where no out-of-line
/// declaration stands in it, unless it stops at an unsupported name.
pub proof fn lemma_scan_item_pending<T>(item: ItemModel<T>, path: Seq<char>, file: usize)
    ensures
        scan_item(item, path, file) is Complete ==> !item_pending(item),
        scan_item(item, path, file) is Pending ==> item_pending(item),
    decreases item, 0nat,
{
    match item {
        ItemModel::Other(_, nested) => {
            lemma_scan_pending(nested, 0, path, file);
        },
        ItemModel::Module(m) => {
            if !has_leading_separator(m.name) {
                match m.body {
                    Some(body) => {
                        let inner = match m.origin {
                            Some(f) => f,
                            None => file,
                        };
                        lemma_scan_pending(body, 0, pushed(path, m.name), inner);
                    },
                    None => {},
                }
            }
        },
    }
}

/// A walk that ends without a request leaves no out-of-line declaration
/// behind, and a request stands for one that is there.
pub proof fn lemma_scan_pending<T>(items: Seq<ItemModel<T>>, i: int, path: Seq<char>, file: usize)
    requires
        0 <= i <= items.len(),
    ensures
        scan_from(items, i, path, file) is Complete ==> first_pending(items, i) == items.len(),
        scan_from(items, i, path, file) is Pending ==> first_pending(items, i) < items.len(),
    decreases items, items.len() - i,
{
    if i < items.len() {
        lemma_scan_item_pending(items[i], path, file);
        lemma_first_pending(items, i);
        if scan_item(items[i], path, file) is Complete {
            lemma_scan_pending(items, i + 1, path, file);
        }
    }
}

/// Replacing one item changes the count by the difference of the two items.
proof fn lemma_pending_update<T>(items: Seq<ItemModel<T>>, j: int, i: int, item: ItemModel<T>)
    requires
        0 <= j <= i < items.len(),
    ensures
        pending_from(items.update(i, item), j) + pending_in_item(items[i]) == pending_from(items, j)
            + pending_in_item(item),
        forall|k: int| i < k <= items.len() ==> pending_from(items.update(i, item), k)
            == pending_from(items, k),
    decreases i - j,
{
    let changed = items.update(i, item);
    assert forall|k: int| i < k <= items.len() implies pending_from(changed, k) == pending_from(
        items,
        k,
    ) by {
        lemma_pending_tail(items, changed, k);
    }
    if j < i {
        lemma_pending_update(items, j + 1, i, item);
    }
}

/// Two lists that agree from `k` on hold as many declarations from there.
proof fn lemma_pending_tail<T>(a: Seq<ItemModel<T>>, b: Seq<ItemModel<T>>, k: int)
    requires
        a.len() == b.len(),
        0 <= k <= a.len(),
        forall|n: int| k <= n < a.len() ==> a[n] == b[n],
    ensures
        pending_from(a, k) == pending_from(b, k),
    decreases a.len() - k,
{
    if k < a.len() {
        lemma_pending_tail(a, b, k + 1);
    }
}

/// No out-of-line declaration is counted where none stands.
pub proof fn lemma_pending_zero<T>(items: Seq<ItemModel<T>>, i: int)
    requires
        0 <= i <= items.len(),
    ensures
        (pending_from(items, i) == 0) == (first_pending(items, i) == items.len()),
    decreases items, items.len() - i,
{
    if i < items.len() {
        lemma_first_pending(items, i);
        lemma_first_pending(items, i + 1);
        lemma_pending_zero(items, i + 1);
        match items[i] {
            ItemModel::Other(_, nested) => {
                lemma_pending_zero(nested, 0);
                lemma_first_pending(nested, 0);
            },
            ItemModel::Module(m) => match m.body {
                None => {},
                Some(b) => {
                    lemma_pending_zero(b, 0);
                    lemma_first_pending(b, 0);
                },
            },
        }
        assert(item_pending(items[i]) == (pending_in_item(items[i]) != 0));
    }
}

/// Filling an item resolves one declaration and brings in those of the body.
pub proof fn lemma_fill_item_count<T>(item: ItemModel<T>, body: Seq<ItemModel<T>>, file: usize)
    requires
        item_pending(item),
    ensures
        pending_in_item(fill_item(item, body, file)) + 1 == pending_in_item(item) + pending_count(
            body,
        ),
    decreases item, 0nat,
{
    match item {
        ItemModel::Other(_, nested) => {
            lemma_fill_count(nested, body, file);
        },
        ItemModel::Module(m) => match m.body {
            None => {},
            Some(b) => {
                lemma_fill_count(b, body, file);
            },
        },
    }
}

/// Each supplied body resolves exactly one out-of-line declaration and adds
/// those that the body itself holds.
pub proof fn lemma_fill_count<T>(items: Seq<ItemModel<T>>, body: Seq<ItemModel<T>>, file: usize)
    requires
        !is_complete(items),
    ensures
        pending_count(fill_items(items, body, file)) + 1 == pending_count(items) + pending_count(
            body,
        ),
    decreases items, 1nat,
{
    lemma_first_pending(items, 0);
    let i = first_pending(items, 0);
    assert(i < items.len());
    lemma_fill_item_count(items[i], body, file);
    lemma_pending_update(items, 0, i, fill_item(items[i], body, file));
}

/// The item is no module declaration and holds none.
pub open spec fn is_plain_item<T>(item: ItemModel<T>) -> bool {
    item matches ItemModel::Other(_, nested) && nested.len() == 0
}

/// A crate without module declarations needs no file: the walk finds
/// nothing, and supplying a body changes nothing.
pub proof fn lemma_plain_items<T>(items: Seq<ItemModel<T>>, body: Seq<ItemModel<T>>, file: usize)
    requires
        forall|i: int| 0 <= i < items.len() ==> is_plain_item(#[trigger] items[i]),
    ensures
        scan(items) is Complete,
        is_complete(items),
        pending_count(items) == 0,
        fill_items(items, body, file) == items,
{
    lemma_plain_walk(items, 0, "crate"@, 0);
    lemma_scan_pending(items, 0, "crate"@, 0);
    lemma_pending_zero(items, 0);
}

/// A walk over items that are no modules finds nothing.
proof fn lemma_plain_walk<T>(items: Seq<ItemModel<T>>, i: int, path: Seq<char>, file: usize)
    requires
        0 <= i <= items.len(),
        forall|k: int| 0 <= k < items.len() ==> is_plain_item(#[trigger] items[k]),
    ensures
        scan_from(items, i, path, file) is Complete,
    decreases items.len() - i,
{
    if i < items.len() {
        lemma_plain_walk(items, i + 1, path, file);
        assert(is_plain_item(items[i]));
        assert(scan_item(items[i], path, file) is Complete);
    }
}

} // verus!
