//! The flat module map and the modules that can be reached from the crate
//! root.

use crate::error::{BundleError, ErrorKind};
use crate::mod_tree::{
    imports_model, items_model, paths_model, ModTree, Node, NodeModel, TreeModel,
};
use crate::path::{pushed, ModulePathBuf};
use crate::text::{
    has_leading_separator, join, lemma_join_concat, lemma_join_segments, segments_of, separator,
    text_eq,
};
use vstd::prelude::*;
use vstd::string::*;

verus! {

/// The scopes of the modules of a crate, each under the path of its module.
#[derive(Debug)]
pub struct ModuleMap {
    entries: Vec<(ModulePathBuf, Node)>,
}

/// No two entries have the same key.
pub open spec fn distinct_keys(entries: Seq<(ModulePathBuf, Node)>) -> bool {
    forall|i: int, j: int|
        0 <= i < j < entries.len() ==> (#[trigger] entries[i]).0@ != (#[trigger] entries[j]).0@
}

/// The map that a list of entries stands for.
pub open spec fn entries_map(entries: Seq<(ModulePathBuf, Node)>) -> Map<Seq<char>, NodeModel>
    decreases entries.len(),
{
    if entries.len() == 0 {
        Map::empty()
    } else {
        entries_map(entries.drop_last()).insert(entries.last().0@, entries.last().1@)
    }
}

/// The scope that holds the entries and references of `a`, then those of `b`.
pub open spec fn merged(a: NodeModel, b: NodeModel) -> NodeModel {
    NodeModel { items: a.items + b.items, accesses: a.accesses + b.accesses }
}

/// The map after a scope arrived for `key`: it is added to the scope that
/// the key has already, or is the key's first.
pub open spec fn merge_entry(
    map: Map<Seq<char>, NodeModel>,
    key: Seq<char>,
    node: NodeModel,
) -> Map<Seq<char>, NodeModel> {
    if map.dom().contains(key) {
        map.insert(key, merged(map[key], node))
    } else {
        map.insert(key, node)
    }
}

/// The keys of the map are the keys of the entries.
proof fn lemma_entries_dom(entries: Seq<(ModulePathBuf, Node)>, key: Seq<char>)
    ensures
        entries_map(entries).dom().contains(key) == exists|i: int|
            0 <= i < entries.len() && (#[trigger] entries[i]).0@ == key,
    decreases entries.len(),
{
    if entries.len() > 0 {
        let front = entries.drop_last();
        lemma_entries_dom(front, key);
        if entries_map(entries).dom().contains(key) {
            if entries.last().0@ == key {
                assert(entries[entries.len() - 1].0@ == key);
            } else {
                let i = choose|i: int| 0 <= i < front.len() && (#[trigger] front[i]).0@ == key;
                assert(entries[i].0@ == key);
            }
        } else {
            if exists|i: int| 0 <= i < entries.len() && (#[trigger] entries[i]).0@ == key {
                let i = choose|i: int| 0 <= i < entries.len() && (#[trigger] entries[i]).0@ == key;
                if i < front.len() {
                    assert(front[i].0@ == key);
                }
            }
        }
    }
}

/// Under the key of an entry the map holds the scope of the entry.
proof fn lemma_entries_lookup(entries: Seq<(ModulePathBuf, Node)>, i: int)
    requires
        distinct_keys(entries),
        0 <= i < entries.len(),
    ensures
        entries_map(entries).dom().contains(entries[i].0@),
        entries_map(entries)[entries[i].0@] == entries[i].1@,
    decreases entries.len(),
{
    let front = entries.drop_last();
    if i < entries.len() - 1 {
        assert(distinct_keys(front)) by {
            assert forall|a: int, b: int| 0 <= a < b < front.len() implies (#[trigger] front[a]).0@
                != (#[trigger] front[b]).0@ by {
                assert(entries[a].0@ != entries[b].0@);
            }
        }
        lemma_entries_lookup(front, i);
        assert(entries[i].0@ != entries[entries.len() - 1].0@);
    }
}

/// Replacing the scope of an entry replaces it in the map.
proof fn lemma_entries_update(
    entries: Seq<(ModulePathBuf, Node)>,
    i: int,
    entry: (ModulePathBuf, Node),
)
    requires
        distinct_keys(entries),
        0 <= i < entries.len(),
        entry.0@ == entries[i].0@,
    ensures
        distinct_keys(entries.update(i, entry)),
        entries_map(entries.update(i, entry)) == entries_map(entries).insert(entry.0@, entry.1@),
    decreases entries.len(),
{
    let changed = entries.update(i, entry);
    assert(distinct_keys(changed)) by {
        assert forall|a: int, b: int| 0 <= a < b < changed.len() implies (#[trigger] changed[a]).0@
            != (#[trigger] changed[b]).0@ by {
            assert(entries[a].0@ != entries[b].0@);
        }
    }
    let front = entries.drop_last();
    if i == entries.len() - 1 {
        assert(changed.drop_last() =~= front);
        assert(entries_map(changed) =~= entries_map(entries).insert(entry.0@, entry.1@));
    } else {
        assert(distinct_keys(front)) by {
            assert forall|a: int, b: int| 0 <= a < b < front.len() implies (#[trigger] front[a]).0@
                != (#[trigger] front[b]).0@ by {
                assert(entries[a].0@ != entries[b].0@);
            }
        }
        lemma_entries_update(front, i, entry);
        assert(changed.drop_last() =~= front.update(i, entry));
        assert(entries[i].0@ != entries[entries.len() - 1].0@);
        assert(entries_map(changed) =~= entries_map(entries).insert(entry.0@, entry.1@));
    }
}

impl View for ModuleMap {
    type V = Map<Seq<char>, NodeModel>;

    closed spec fn view(&self) -> Map<Seq<char>, NodeModel> {
        entries_map(self.entries@)
    }
}

impl ModuleMap {
    #[verifier::type_invariant]
    spec fn keys_are_distinct(self) -> bool {
        distinct_keys(self.entries@)
    }

    /// The map without modules.
    pub fn new() -> (map: Self)
        ensures
            map@ == Map::<Seq<char>, NodeModel>::empty(),
    {
        ModuleMap { entries: Vec::new() }
    }

    /// The number of modules.
    pub fn len(&self) -> (n: usize)
        ensures
            n == self@.dom().len(),
            self@.dom().finite(),
    {
        proof {
            use_type_invariant(self);
            lemma_entries_len(self.entries@);
        }
        self.entries.len()
    }

    /// Where the entry of `key` stands.
    fn position(&self, key: &str) -> (found: Option<usize>)
        ensures
            match found {
                Some(i) => i < self.entries.len() && self.entries[i as int].0@ == key@,
                None => !self@.dom().contains(key@),
            },
    {
        let mut i: usize = 0;
        while i < self.entries.len()
            invariant
                0 <= i <= self.entries.len(),
                forall|j: int| 0 <= j < i ==> (#[trigger] self.entries[j]).0@ != key@,
            decreases self.entries.len() - i,
        {
            if text_eq(self.entries[i].0.as_str(), key) {
                return Some(i);
            }
            i = i + 1;
        }
        proof {
            lemma_entries_dom(self.entries@, key@);
        }
        None
    }

    /// Whether a module has the path `key`.
    pub fn contains(&self, key: &str) -> (b: bool)
        ensures
            b == self@.dom().contains(key@),
    {
        proof {
            use_type_invariant(self);
        }
        match self.position(key) {
            Some(i) => {
                proof {
                    lemma_entries_lookup(self.entries@, i as int);
                }
                true
            },
            None => false,
        }
    }

    /// The scope of the module with the path `key`.
    pub fn get(&self, key: &str) -> (found: Option<&Node>)
        ensures
            match found {
                Some(node) => self@.dom().contains(key@) && node@ == self@[key@],
                None => !self@.dom().contains(key@),
            },
    {
        proof {
            use_type_invariant(self);
        }
        match self.position(key) {
            Some(i) => {
                proof {
                    lemma_entries_lookup(self.entries@, i as int);
                }
                Some(&self.entries[i].1)
            },
            None => None,
        }
    }

    /// The paths of the modules, each once.
    pub fn keys(&self) -> (keys: Vec<ModulePathBuf>)
        ensures
            paths_model(keys@).no_duplicates(),
            paths_model(keys@).to_set() == self@.dom(),
    {
        proof {
            use_type_invariant(self);
        }
        let mut keys: Vec<ModulePathBuf> = Vec::new();
        let mut i: usize = 0;
        while i < self.entries.len()
            invariant
                0 <= i <= self.entries.len(),
                keys.len() == i,
                forall|j: int| 0 <= j < i ==> paths_model(keys@)[j] == (#[trigger] self.entries[j]).0@,
            decreases self.entries.len() - i,
        {
            keys.push(self.entries[i].0.clone());
            i = i + 1;
        }
        proof {
            let listed = paths_model(keys@);
            assert forall|a: int, b: int|
                0 <= a < listed.len() && 0 <= b < listed.len() && a != b implies listed[a]
                != listed[b] by {
                if a < b {
                    assert(self.entries[a].0@ != self.entries[b].0@);
                } else {
                    assert(self.entries[b].0@ != self.entries[a].0@);
                }
            }
            assert forall|key: Seq<char>| listed.to_set().contains(key) == self@.dom().contains(
                key,
            ) by {
                lemma_entries_dom(self.entries@, key);
                if listed.contains(key) {
                    let j = choose|j: int| 0 <= j < listed.len() && listed[j] == key;
                    assert(self.entries[j].0@ == key);
                }
                if self@.dom().contains(key) {
                    let j = choose|j: int|
                        0 <= j < self.entries@.len() && (#[trigger] self.entries@[j]).0@ == key;
                    assert(listed[j] == key);
                }
            }
            assert(listed.to_set() =~= self@.dom());
        }
        keys
    }

    /// Adds a scope for `key`: to the scope that the key has, or as its
    /// first.
    pub fn merge(&mut self, key: ModulePathBuf, node: Node)
        ensures
            final(self)@ == merge_entry(old(self)@, key@, node@),
    {
        proof {
            use_type_invariant(&*self);
        }
        let ghost before = self.entries@;
        let found = self.position(key.as_str());
        let mut entries: Vec<(ModulePathBuf, Node)> = Vec::new();
        std::mem::swap(&mut entries, &mut self.entries);
        match found {
            None => {
                proof {
                    lemma_entries_dom(before, key@);
                    let after = before.push((key, node));
                    assert(after.drop_last() =~= before);
                    assert(distinct_keys(after)) by {
                        assert forall|a: int, b: int| 0 <= a < b < after.len() implies (
                        #[trigger] after[a]).0@ != (#[trigger] after[b]).0@ by {
                            if b < before.len() {
                                assert(before[a].0@ != before[b].0@);
                            } else {
                                assert(before[a].0@ != key@);
                            }
                        }
                    }
                }
                entries.push((key, node));
            },
            Some(i) => {
                proof {
                    lemma_entries_lookup(before, i as int);
                }
                let (own_key, own) = entries.remove(i);
                let mut own = own;
                let mut extra = node;
                own.items.append(&mut extra.items);
                own.accesses.append(&mut extra.accesses);
                proof {
                    assert(own@.items =~= before[i as int].1@.items + node@.items);
                    assert(own@.accesses =~= before[i as int].1@.accesses + node@.accesses);
                    lemma_entries_update(before, i as int, (own_key, own));
                    assert(before.remove(i as int).insert(i as int, (own_key, own))
                        =~= before.update(i as int, (own_key, own)));
                }
                entries.insert(i, (own_key, own));
            },
        }
        std::mem::swap(&mut entries, &mut self.entries);
    }
}

/// The map has as many keys as there are entries.
proof fn lemma_entries_len(entries: Seq<(ModulePathBuf, Node)>)
    requires
        distinct_keys(entries),
    ensures
        entries_map(entries).dom().finite(),
        entries_map(entries).dom().len() == entries.len(),
    decreases entries.len(),
{
    if entries.len() > 0 {
        let front = entries.drop_last();
        assert(distinct_keys(front)) by {
            assert forall|a: int, b: int| 0 <= a < b < front.len() implies (#[trigger] front[a]).0@
                != (#[trigger] front[b]).0@ by {
                assert(entries[a].0@ != entries[b].0@);
            }
        }
        lemma_entries_len(front);
        lemma_entries_dom(front, entries.last().0@);
        if entries_map(front).dom().contains(entries.last().0@) {
            let i = choose|i: int| 0 <= i < front.len() && (#[trigger] front[i]).0@ == entries.last().0@;
            assert(entries[i].0@ != entries[entries.len() - 1].0@);
        }
    }
}

/// The entries of a scope that are no modules, in their order.
pub open spec fn without_modules(items: Seq<TreeModel>) -> Seq<TreeModel>
    decreases items.len(),
{
    if items.len() == 0 {
        Seq::empty()
    } else if items[0] is Mod {
        without_modules(items.drop_first())
    } else {
        seq![items[0]] + without_modules(items.drop_first())
    }
}

/// The first module name in the fully qualified form, met walking the
/// modules among the entries in order and each module before what it holds.
pub open spec fn unsupported_in(items: Seq<TreeModel>) -> Option<Seq<char>>
    decreases items,
{
    if items.len() == 0 {
        None
    } else {
        match items[0] {
            TreeModel::Mod(name, child) => if has_leading_separator(name) {
                Some(name)
            } else {
                match unsupported_in(child.items) {
                    Some(found) => Some(found),
                    None => unsupported_in(items.drop_first()),
                }
            },
            _ => unsupported_in(items.drop_first()),
        }
    }
}

/// The map after the scope of the module `path` was flattened into it: first
/// the modules in the scope, in order, then the scope itself without them.
pub open spec fn flatten_into(
    map: Map<Seq<char>, NodeModel>,
    path: Seq<char>,
    node: NodeModel,
) -> Map<Seq<char>, NodeModel>
    decreases node,
{
    merge_entry(
        flatten_list(map, path, node.items),
        path,
        NodeModel { items: without_modules(node.items), accesses: node.accesses },
    )
}

/// The map after the modules among the entries of the module `path` were
/// flattened into it, in order.
pub open spec fn flatten_list(
    map: Map<Seq<char>, NodeModel>,
    path: Seq<char>,
    items: Seq<TreeModel>,
) -> Map<Seq<char>, NodeModel>
    decreases items,
{
    if items.len() == 0 {
        map
    } else {
        flatten_list(
            match items[0] {
                TreeModel::Mod(name, child) => flatten_into(map, pushed(path, name), child),
                _ => map,
            },
            path,
            items.drop_first(),
        )
    }
}

/// The first module name of a tree in the fully qualified form.
pub open spec fn unsupported_name(tree: TreeModel) -> Option<Seq<char>> {
    match tree {
        TreeModel::File(node) => unsupported_in(node.items),
        TreeModel::Mod(name, node) => if has_leading_separator(name) {
            Some(name)
        } else {
            unsupported_in(node.items)
        },
        _ => None,
    }
}

/// The map after a tree that stands in the module `path` was flattened into
/// it. A file is the module `crate`; a module is named below `path`.
pub open spec fn flatten_tree(
    map: Map<Seq<char>, NodeModel>,
    path: Seq<char>,
    tree: TreeModel,
) -> Map<Seq<char>, NodeModel> {
    match tree {
        TreeModel::File(node) => flatten_into(map, "crate"@, node),
        TreeModel::Mod(name, node) => flatten_into(map, pushed(path, name), node),
        _ => map,
    }
}

/// The flat module map of a tree.
pub open spec fn flatten(tree: TreeModel) -> Map<Seq<char>, NodeModel> {
    flatten_tree(Map::empty(), Seq::empty(), tree)
}

fn is_module(tree: &ModTree) -> (b: bool)
    ensures
        b == (tree@ is Mod),
{
    matches!(tree, ModTree::Mod(_, _))
}

/// Flattens a scope into the map under `path`.
fn flatten_node(res: &mut ModuleMap, path: ModulePathBuf, node: Node) -> (r: Result<(), BundleError>)
    ensures
        match unsupported_in(node@.items) {
            Some(name) => (r matches Err(e) && e.kind == ErrorKind::UnsupportedConstruct
                && e.subject@ == name),
            None => r is Ok && final(res)@ == flatten_into(old(res)@, path@, node@),
        },
    decreases node, 0nat,
{
    let ghost start = res@;
    let ghost orig = node@.items;
    let Node { items, accesses } = node;
    let mut items = items;
    let mut i: usize = 0;
    assert(items_model(items@).skip(0) =~= orig);
    assert(items_model(items@).take(0) =~= Seq::<TreeModel>::empty());
    while i < items.len()
        invariant
            0 <= i <= items.len(),
            orig == node@.items,
            forall|j: int| 0 <= j < items.len() ==> decreases_to!(node => #[trigger] items@[j]),
            unsupported_in(orig) == unsupported_in(items_model(items@).skip(i as int)),
            unsupported_in(orig) is None ==> flatten_list(start, path@, orig) == flatten_list(
                res@,
                path@,
                items_model(items@).skip(i as int),
            ),
            without_modules(orig) == items_model(items@).take(i as int) + without_modules(
                items_model(items@).skip(i as int),
            ),
        decreases items.len() - i,
    {
        let ghost cur = items_model(items@);
        let ghost tail = cur.skip(i as int);
        assert(tail[0] == cur[i as int]);
        assert(tail.drop_first() =~= cur.skip(i + 1));
        if is_module(&items[i]) {
            let child = items.remove(i);
            assert(items_model(items@) =~= cur.remove(i as int));
            assert(items_model(items@).skip(i as int) =~= cur.skip(i + 1));
            assert(items_model(items@).take(i as int) =~= cur.take(i as int));
            assert(child@ == tail[0]);
            match flatten_mods_rec(res, &path, child) {
                Ok(()) => {},
                Err(e) => {
                    assert(unsupported_in(tail) == unsupported_name(child@));
                    return Err(e);
                },
            }
        } else {
            assert(cur.take(i + 1) =~= cur.take(i as int) + seq![cur[i as int]]);
            i = i + 1;
        }
    }
    let ghost cur = items_model(items@);
    assert(cur.take(i as int) =~= cur);
    assert(cur.skip(i as int) =~= Seq::<TreeModel>::empty());
    let own = Node { items, accesses };
    assert(own@.items =~= without_modules(orig));
    res.merge(path, own);
    Ok(())
}

/// Flattens a file or a module that stands in the module `path` into the
/// map.
fn flatten_mods_rec(res: &mut ModuleMap, path: &ModulePathBuf, tree: ModTree) -> (r: Result<
    (),
    BundleError,
>)
    requires
        tree is File || tree is Mod,
    ensures
        match unsupported_name(tree@) {
            Some(name) => (r matches Err(e) && e.kind == ErrorKind::UnsupportedConstruct
                && e.subject@ == name),
            None => r is Ok && final(res)@ == flatten_tree(old(res)@, path@, tree@),
        },
    decreases tree, 1nat,
{
    match tree {
        ModTree::File(node) => flatten_node(res, ModulePathBuf::from_text("crate"), node),
        ModTree::Mod(name, node) => {
            match path.as_module_path().join(name.as_str()) {
                Ok(own) => flatten_node(res, own, node),
                Err(e) => Err(e),
            }
        },
        _ => Ok(()),
    }
}

/// Lifts every module out of the scope that holds it and gathers the scopes
/// in one map, each under the path of its module. Scopes that come to stand
/// under one path are merged.
pub fn flatten_mods(tree: ModTree) -> (r: Result<ModuleMap, BundleError>)
    requires
        tree is File || tree is Mod,
    ensures
        match unsupported_name(tree@) {
            Some(name) => (r matches Err(e) && e.kind == ErrorKind::UnsupportedConstruct
                && e.subject@ == name),
            None => (r matches Ok(map) && map@ == flatten(tree@)),
        },
{
    let mut res = ModuleMap::new();
    let root = ModulePathBuf::new();
    match flatten_mods_rec(&mut res, &root, tree) {
        Ok(()) => Ok(res),
        Err(e) => Err(e),
    }
}

/// No entry of the scope is a module.
pub open spec fn holds_no_module(items: Seq<TreeModel>) -> bool {
    forall|i: int| 0 <= i < items.len() ==> !(#[trigger] items[i] is Mod)
}

/// No scope of the map holds a module.
pub open spec fn is_flat(map: Map<Seq<char>, NodeModel>) -> bool {
    forall|key: Seq<char>| map.dom().contains(key) ==> holds_no_module(#[trigger] map[key].items)
}

/// What is left without the modules holds no module, and is the whole where
/// there was none.
pub proof fn lemma_without_modules(items: Seq<TreeModel>)
    ensures
        holds_no_module(without_modules(items)),
        holds_no_module(items) ==> without_modules(items) == items,
    decreases items.len(),
{
    if items.len() > 0 {
        let rest = items.drop_first();
        lemma_without_modules(rest);
        if holds_no_module(items) {
            assert(holds_no_module(rest)) by {
                assert forall|i: int| 0 <= i < rest.len() implies !(#[trigger] rest[i] is Mod) by {
                    assert(!(items[i + 1] is Mod));
                }
            }
            assert(!(items[0] is Mod));
            assert(seq![items[0]] + rest =~= items);
        }
    }
}

/// Entries that are no modules add nothing to the map.
pub proof fn lemma_flatten_list_plain(
    map: Map<Seq<char>, NodeModel>,
    path: Seq<char>,
    items: Seq<TreeModel>,
)
    requires
        holds_no_module(items),
    ensures
        flatten_list(map, path, items) == map,
    decreases items.len(),
{
    if items.len() > 0 {
        let rest = items.drop_first();
        assert(!(items[0] is Mod));
        assert(holds_no_module(rest)) by {
            assert forall|i: int| 0 <= i < rest.len() implies !(#[trigger] rest[i] is Mod) by {
                assert(!(items[i + 1] is Mod));
            }
        }
        lemma_flatten_list_plain(map, path, rest);
    }
}

/// Flattening a scope into a flat map leaves the map flat: afterwards every
/// module is a key of the map, and no scope in it holds one.
pub proof fn lemma_flatten_into_flat(
    map: Map<Seq<char>, NodeModel>,
    path: Seq<char>,
    node: NodeModel,
)
    requires
        is_flat(map),
    ensures
        is_flat(flatten_into(map, path, node)),
        flatten_into(map, path, node).dom().contains(path),
    decreases node,
{
    lemma_flatten_list_flat(map, path, node.items);
    lemma_without_modules(node.items);
    let below = flatten_list(map, path, node.items);
    let own = NodeModel { items: without_modules(node.items), accesses: node.accesses };
    let after = merge_entry(below, path, own);
    assert forall|key: Seq<char>| after.dom().contains(key) implies holds_no_module(
        #[trigger] after[key].items,
    ) by {
        if key == path {
            if below.dom().contains(path) {
                assert(holds_no_module(below[path].items));
            }
        } else {
            assert(holds_no_module(below[key].items));
        }
    }
}

/// Flattening the modules among the entries leaves a flat map flat.
pub proof fn lemma_flatten_list_flat(
    map: Map<Seq<char>, NodeModel>,
    path: Seq<char>,
    items: Seq<TreeModel>,
)
    requires
        is_flat(map),
    ensures
        is_flat(flatten_list(map, path, items)),
    decreases items,
{
    if items.len() > 0 {
        match items[0] {
            TreeModel::Mod(name, child) => {
                lemma_flatten_into_flat(map, pushed(path, name), child);
                lemma_flatten_list_flat(
                    flatten_into(map, pushed(path, name), child),
                    path,
                    items.drop_first(),
                );
            },
            _ => {
                lemma_flatten_list_flat(map, path, items.drop_first());
            },
        }
    }
}

/// The flat module map of a file has the key `crate`, and no scope in it
/// holds a module.
pub proof fn lemma_flatten_file(node: NodeModel)
    ensures
        flatten(TreeModel::File(node)).dom().contains("crate"@),
        is_flat(flatten(TreeModel::File(node))),
{
    lemma_flatten_into_flat(Map::empty(), "crate"@, node);
}

/// Two bodies of one module, declared one behind the other in a file, come
/// to stand under one key: its entries are those of the first body, then
/// those of the second.
pub proof fn lemma_split_module_merges(
    name: Seq<char>,
    first: NodeModel,
    second: NodeModel,
    accesses: Seq<Seq<char>>,
)
    requires
        holds_no_module(first.items),
        holds_no_module(second.items),
        pushed("crate"@, name) != "crate"@,
    ensures
        ({
            let file = TreeModel::File(
                NodeModel {
                    items: seq![TreeModel::Mod(name, first), TreeModel::Mod(name, second)],
                    accesses,
                },
            );
            let key = pushed("crate"@, name);
            &&& flatten(file).dom().contains(key)
            &&& flatten(file)[key] == merged(first, second)
        }),
{
    let items = seq![TreeModel::Mod(name, first), TreeModel::Mod(name, second)];
    let key = pushed("crate"@, name);
    let empty = Map::<Seq<char>, NodeModel>::empty();
    lemma_without_modules(first.items);
    lemma_without_modules(second.items);
    lemma_flatten_list_plain(empty, key, first.items);
    let one = flatten_into(empty, key, first);
    assert(one == empty.insert(key, first));
    lemma_flatten_list_plain(one, key, second.items);
    let two = flatten_into(one, key, second);
    assert(two == one.insert(key, merged(first, second)));
    let rest = items.drop_first();
    assert(rest[0] == TreeModel::Mod(name, second));
    assert(rest.drop_first().len() == 0);
    assert(flatten_list(one, "crate"@, rest) == two) by {
        assert(flatten_list(two, "crate"@, rest.drop_first()) == two);
    }
    assert(flatten_list(empty, "crate"@, items) == two);
}

/// What a scope itself brings to the map: the scope without its modules.
pub open spec fn own_scope(node: NodeModel) -> NodeModel {
    NodeModel { items: without_modules(node.items), accesses: node.accesses }
}

/// The scopes that the module `path` and the modules in it bring to the
/// map, each with its key, in the order in which they arrive: for every
/// module first what the modules in it bring, in source order, then its
/// own scope.
pub open spec fn contributions(path: Seq<char>, node: NodeModel) -> Seq<(Seq<char>, NodeModel)>
    decreases node,
{
    list_contributions(path, node.items).push((path, own_scope(node)))
}

/// The scopes that the modules among the entries of the module `path`
/// bring to the map.
pub open spec fn list_contributions(path: Seq<char>, items: Seq<TreeModel>) -> Seq<
    (Seq<char>, NodeModel),
>
    decreases items,
{
    if items.len() == 0 {
        Seq::empty()
    } else {
        (match items[0] {
            TreeModel::Mod(name, child) => contributions(pushed(path, name), child),
            _ => Seq::empty(),
        }) + list_contributions(path, items.drop_first())
    }
}

/// The map after the scopes arrived one by one.
pub open spec fn merge_all(
    map: Map<Seq<char>, NodeModel>,
    arrivals: Seq<(Seq<char>, NodeModel)>,
) -> Map<Seq<char>, NodeModel>
    decreases arrivals.len(),
{
    if arrivals.len() == 0 {
        map
    } else {
        merge_all(merge_entry(map, arrivals[0].0, arrivals[0].1), arrivals.drop_first())
    }
}

/// A scope arrives for the key.
pub open spec fn arrives(arrivals: Seq<(Seq<char>, NodeModel)>, key: Seq<char>) -> bool {
    exists|i: int| 0 <= i < arrivals.len() && (#[trigger] arrivals[i]).0 == key
}

/// The entries and references of all the scopes that arrive for the key,
/// one scope behind the other.
pub open spec fn gathered(arrivals: Seq<(Seq<char>, NodeModel)>, key: Seq<char>) -> NodeModel
    decreases arrivals.len(),
{
    if arrivals.len() == 0 {
        NodeModel { items: Seq::empty(), accesses: Seq::empty() }
    } else if arrivals[0].0 == key {
        merged(arrivals[0].1, gathered(arrivals.drop_first(), key))
    } else {
        gathered(arrivals.drop_first(), key)
    }
}

/// Scopes that arrive in two runs arrive as in one.
pub proof fn lemma_merge_all_append(
    map: Map<Seq<char>, NodeModel>,
    first: Seq<(Seq<char>, NodeModel)>,
    second: Seq<(Seq<char>, NodeModel)>,
)
    ensures
        merge_all(map, first + second) == merge_all(merge_all(map, first), second),
    decreases first.len(),
{
    let all = first + second;
    if first.len() == 0 {
        assert(all =~= second);
    } else {
        assert(all[0] == first[0]);
        assert(all.drop_first() =~= first.drop_first() + second);
        lemma_merge_all_append(
            merge_entry(map, first[0].0, first[0].1),
            first.drop_first(),
            second,
        );
    }
}

/// Flattening a scope into the map lets its contributions arrive one by
/// one.
pub proof fn lemma_flatten_into_arrivals(
    map: Map<Seq<char>, NodeModel>,
    path: Seq<char>,
    node: NodeModel,
)
    ensures
        flatten_into(map, path, node) == merge_all(map, contributions(path, node)),
    decreases node,
{
    let below = list_contributions(path, node.items);
    let own = seq![(path, own_scope(node))];
    lemma_flatten_list_arrivals(map, path, node.items);
    lemma_merge_all_append(map, below, own);
    assert(below.push((path, own_scope(node))) =~= below + own);
    let reached = merge_all(map, below);
    let last = merge_entry(reached, path, own_scope(node));
    assert(own.drop_first().len() == 0);
    assert(merge_all(last, own.drop_first()) == last);
    assert(merge_all(reached, own) == last);
}

/// Flattening the modules among the entries lets their contributions
/// arrive one by one.
pub proof fn lemma_flatten_list_arrivals(
    map: Map<Seq<char>, NodeModel>,
    path: Seq<char>,
    items: Seq<TreeModel>,
)
    ensures
        flatten_list(map, path, items) == merge_all(map, list_contributions(path, items)),
    decreases items,
{
    if items.len() > 0 {
        let rest = items.drop_first();
        match items[0] {
            TreeModel::Mod(name, child) => {
                let first = contributions(pushed(path, name), child);
                lemma_flatten_into_arrivals(map, pushed(path, name), child);
                lemma_flatten_list_arrivals(merge_all(map, first), path, rest);
                lemma_merge_all_append(map, first, list_contributions(path, rest));
            },
            _ => {
                lemma_flatten_list_arrivals(map, path, rest);
                assert(Seq::<(Seq<char>, NodeModel)>::empty() + list_contributions(path, rest)
                    =~= list_contributions(path, rest));
            },
        }
    }
}

/// After the scopes arrived, a key is in the map where it was there before
/// or a scope arrived for it, and its scope holds what it held before and,
/// behind that, what arrived for it, in the order of arrival.
pub proof fn lemma_merge_all_gathers(
    map: Map<Seq<char>, NodeModel>,
    arrivals: Seq<(Seq<char>, NodeModel)>,
    key: Seq<char>,
)
    ensures
        merge_all(map, arrivals).dom().contains(key) == (map.dom().contains(key) || arrives(
            arrivals,
            key,
        )),
        map.dom().contains(key) ==> merge_all(map, arrivals)[key] == merged(
            map[key],
            gathered(arrivals, key),
        ),
        !map.dom().contains(key) && arrives(arrivals, key) ==> merge_all(map, arrivals)[key]
            == gathered(arrivals, key),
    decreases arrivals.len(),
{
    let nothing = NodeModel { items: Seq::empty(), accesses: Seq::empty() };
    if arrivals.len() == 0 {
        if map.dom().contains(key) {
            let held = map[key];
            assert(held.items + nothing.items =~= held.items);
            assert(held.accesses + nothing.accesses =~= held.accesses);
        }
    } else {
        let rest = arrivals.drop_first();
        let next = merge_entry(map, arrivals[0].0, arrivals[0].1);
        lemma_merge_all_gathers(next, rest, key);
        assert(arrives(arrivals, key) == (arrivals[0].0 == key || arrives(rest, key))) by {
            if arrives(rest, key) {
                let i = choose|i: int| 0 <= i < rest.len() && (#[trigger] rest[i]).0 == key;
                assert(arrivals[i + 1].0 == key);
            }
            if arrives(arrivals, key) && arrivals[0].0 != key {
                let i = choose|i: int| 0 <= i < arrivals.len() && (#[trigger] arrivals[i]).0 == key;
                assert(rest[i - 1].0 == key);
            }
        }
        if arrivals[0].0 == key {
            let arrived = arrivals[0].1;
            let later = gathered(rest, key);
            if map.dom().contains(key) {
                let held = map[key];
                assert((held.items + arrived.items) + later.items =~= held.items + (arrived.items
                    + later.items));
                assert((held.accesses + arrived.accesses) + later.accesses =~= held.accesses + (
                arrived.accesses + later.accesses));
            }
        }
    }
}

/// In the flat module map of a file, a path is a key where a module of the
/// file has that path, and its scope holds the entries that are no modules
/// and the references of all the bodies of that path, one body behind the
/// other: no body replaces another.
pub proof fn lemma_flatten_gathers(node: NodeModel, key: Seq<char>)
    ensures
        flatten(TreeModel::File(node)).dom().contains(key) == arrives(
            contributions("crate"@, node),
            key,
        ),
        arrives(contributions("crate"@, node), key) ==> flatten(TreeModel::File(node))[key]
            == gathered(contributions("crate"@, node), key),
{
    lemma_flatten_into_arrivals(Map::empty(), "crate"@, node);
    lemma_merge_all_gathers(Map::empty(), contributions("crate"@, node), key);
}

/// The names that a module binds by its imports, each with the path that it
/// stands for.
#[derive(Debug)]
pub struct AliasMap {
    pairs: Vec<(String, ModulePathBuf)>,
}

/// The map that a list of bindings stands for: a later binding of a name
/// replaces an earlier one.
pub open spec fn alias_map(pairs: Seq<(Seq<char>, Seq<char>)>) -> Map<Seq<char>, Seq<char>>
    decreases pairs.len(),
{
    if pairs.len() == 0 {
        Map::empty()
    } else {
        alias_map(pairs.drop_last()).insert(pairs.last().0, pairs.last().1)
    }
}

/// The pairs of the import lists that stand directly in a scope, in order.
pub open spec fn import_pairs(items: Seq<TreeModel>) -> Seq<(Seq<char>, Seq<char>)>
    decreases items.len(),
{
    if items.len() == 0 {
        Seq::empty()
    } else {
        (match items[0] {
            TreeModel::Use(pairs) => pairs,
            _ => Seq::empty(),
        }) + import_pairs(items.drop_first())
    }
}

/// The names that a scope binds by the import lists directly in it.
pub open spec fn aliases_of(node: NodeModel) -> Map<Seq<char>, Seq<char>> {
    alias_map(import_pairs(node.items))
}

impl View for AliasMap {
    type V = Map<Seq<char>, Seq<char>>;

    closed spec fn view(&self) -> Map<Seq<char>, Seq<char>> {
        alias_map(imports_model(self.pairs@))
    }
}

impl AliasMap {
    /// The path that `name` stands for.
    pub fn lookup(&self, name: &str) -> (found: Option<&ModulePathBuf>)
        ensures
            match found {
                Some(path) => self@.dom().contains(name@) && path@ == self@[name@],
                None => !self@.dom().contains(name@),
            },
    {
        let ghost all = imports_model(self.pairs@);
        let mut i: usize = self.pairs.len();
        assert(all.take(i as int) =~= all);
        while i > 0
            invariant
                0 <= i <= self.pairs.len(),
                all == imports_model(self.pairs@),
                alias_map(all).dom().contains(name@) == alias_map(all.take(i as int)).dom().contains(
                    name@,
                ),
                alias_map(all).dom().contains(name@) ==> alias_map(all)[name@] == alias_map(
                    all.take(i as int),
                )[name@],
            decreases i,
        {
            let ghost front = all.take(i as int);
            i = i - 1;
            assert(front.drop_last() =~= all.take(i as int));
            assert(front.last() == all[i as int]);
            if text_eq(self.pairs[i].0.as_str(), name) {
                return Some(&self.pairs[i].1);
            }
        }
        None
    }
}

/// Gathers the names that a module binds by the import lists directly in its
/// scope.
pub fn proc_mod(node: &Node) -> (aliases: AliasMap)
    ensures
        aliases@ == aliases_of(node@),
{
    let mut pairs: Vec<(String, ModulePathBuf)> = Vec::new();
    let ghost items = node@.items;
    let mut i: usize = 0;
    assert(items.skip(0) =~= items);
    while i < node.items.len()
        invariant
            0 <= i <= node.items.len(),
            items == node@.items,
            import_pairs(items) == imports_model(pairs@) + import_pairs(items.skip(i as int)),
        decreases node.items.len() - i,
    {
        let ghost tail = items.skip(i as int);
        let ghost done = imports_model(pairs@);
        assert(tail[0] == items[i as int]);
        assert(tail.drop_first() =~= items.skip(i + 1));
        match &node.items[i] {
            ModTree::Use(list) => {
                let ghost bound = imports_model(list@);
                let mut k: usize = 0;
                while k < list.len()
                    invariant
                        0 <= k <= list.len(),
                        bound == imports_model(list@),
                        imports_model(pairs@) == done + bound.take(k as int),
                    decreases list.len() - k,
                {
                    let ghost so_far = imports_model(pairs@);
                    pairs.push((list[k].0.clone(), list[k].1.clone()));
                    assert(imports_model(pairs@) =~= so_far.push(bound[k as int]));
                    assert(bound.take(k + 1) =~= bound.take(k as int).push(bound[k as int]));
                    assert(done + bound.take(k + 1) =~= (done + bound.take(k as int)).push(
                        bound[k as int],
                    ));
                    k = k + 1;
                }
                assert(bound.take(k as int) =~= bound);
                assert((done + bound) + import_pairs(tail.drop_first()) =~= done + (bound
                    + import_pairs(tail.drop_first())));
            },
            _ => {
                assert(done + (Seq::<(Seq<char>, Seq<char>)>::empty() + import_pairs(
                    tail.drop_first(),
                )) =~= done + import_pairs(tail.drop_first()));
            },
        }
        i = i + 1;
    }
    assert(items.skip(i as int) =~= Seq::<TreeModel>::empty());
    assert(imports_model(pairs@) + Seq::<(Seq<char>, Seq<char>)>::empty() =~= imports_model(
        pairs@,
    ));
    AliasMap { pairs }
}

/// The path that a reference stands for: where the name that it starts with
/// is bound, the name gives way to the path that it is bound to.
pub open spec fn canonical(aliases: Map<Seq<char>, Seq<char>>, reference: Seq<char>) -> Seq<char> {
    let segments = segments_of(reference);
    if segments.len() > 0 && aliases.dom().contains(segments[0]) {
        join(segments_of(aliases[segments[0]]) + segments.drop_first())
    } else {
        reference
    }
}

/// The module that owns what a path names: the path itself where it names a
/// module, else the path without its last segment where that names one.
pub open spec fn owner(keys: Set<Seq<char>>, path: Seq<char>) -> Option<Seq<char>> {
    if keys.contains(path) {
        Some(path)
    } else if segments_of(path).len() >= 2 && keys.contains(join(segments_of(path).drop_last())) {
        Some(join(segments_of(path).drop_last()))
    } else {
        None
    }
}

/// The module that a reference leads to, if it leads to one of the map.
pub open spec fn resolve(
    keys: Set<Seq<char>>,
    aliases: Map<Seq<char>, Seq<char>>,
    reference: Seq<char>,
) -> Option<Seq<char>> {
    owner(keys, canonical(aliases, reference))
}

/// A reference of the scope leads to the module `to`. The references of a
/// scope are the paths that it refers to itself. A glob import binds the name
/// `*`, which no reference starts with, so glob imports take no part.
pub open spec fn node_refers_to(keys: Set<Seq<char>>, node: NodeModel, to: Seq<char>) -> bool {
    exists|i: int|
        0 <= i < node.accesses.len() && resolve(keys, aliases_of(node), #[trigger] node.accesses[i])
            == Some(to)
}

/// A reference of the module `from` leads to the module `to`.
pub open spec fn refers_to(map: Map<Seq<char>, NodeModel>, from: Seq<char>, to: Seq<char>) -> bool {
    map.dom().contains(from) && node_refers_to(map.dom(), map[from], to)
}

/// Step `i` of the chain is a reference from one module to the next.
pub open spec fn is_link(map: Map<Seq<char>, NodeModel>, chain: Seq<Seq<char>>, i: int) -> bool {
    refers_to(map, chain[i], chain[i + 1])
}

/// A chain of references that starts at the crate root.
pub open spec fn is_chain(map: Map<Seq<char>, NodeModel>, chain: Seq<Seq<char>>) -> bool {
    &&& chain.len() > 0
    &&& chain[0] == "crate"@
    &&& forall|i: int| 0 <= i < chain.len() - 1 ==> #[trigger] is_link(map, chain, i)
}

/// A chain of references leads from the crate root to the module.
pub open spec fn reachable(map: Map<Seq<char>, NodeModel>, module: Seq<char>) -> bool {
    exists|chain: Seq<Seq<char>>| #[trigger] is_chain(map, chain) && chain.last() == module
}

/// The path that a reference stands for.
fn canonical_path(aliases: &AliasMap, reference: &ModulePathBuf) -> (path: ModulePathBuf)
    ensures
        path@ == canonical(aliases@, reference@),
{
    let whole = reference.as_module_path();
    let mut it = whole.iter();
    let ghost segments = segments_of(reference@);
    match it.next() {
        None => reference.clone(),
        Some(first) => match aliases.lookup(first) {
            None => reference.clone(),
            Some(target) => {
                let ghost front = segments_of(target@);
                proof {
                    lemma_join_segments(target@);
                }
                if it.is_done() {
                    assert(front + segments.drop_first() =~= front);
                    target.clone()
                } else if target.as_module_path().is_empty() {
                    assert(front + segments.drop_first() =~= segments.drop_first());
                    it.as_path().into_module_path_buf()
                } else {
                    proof {
                        lemma_join_concat(front, segments.drop_first());
                        reveal_strlit("::");
                        assert("::"@ =~= separator());
                    }
                    let mut text = String::from_str(target.as_str());
                    text.append("::");
                    text.append(it.as_path().as_str());
                    ModulePathBuf::from_text(text.as_str())
                }
            },
        },
    }
}

/// The module that owns what a path names.
fn owning_module(mods: &ModuleMap, path: ModulePathBuf) -> (found: Option<ModulePathBuf>)
    ensures
        match owner(mods@.dom(), path@) {
            Some(key) => (found matches Some(p) && p@ == key),
            None => found is None,
        },
{
    if mods.contains(path.as_str()) {
        Some(path)
    } else {
        let mut parent = path;
        if parent.pop() && mods.contains(parent.as_str()) {
            Some(parent)
        } else {
            None
        }
    }
}

/// Whether the list holds the path.
fn holds_path(list: &Vec<ModulePathBuf>, path: &ModulePathBuf) -> (b: bool)
    ensures
        b == paths_model(list@).contains(path@),
{
    let mut i: usize = 0;
    while i < list.len()
        invariant
            0 <= i <= list.len(),
            forall|j: int| 0 <= j < i ==> paths_model(list@)[j] != path@,
        decreases list.len() - i,
    {
        if list[i] == *path {
            assert(paths_model(list@)[i as int] == path@);
            return true;
        }
        i = i + 1;
    }
    false
}

/// Follows one reference: the module that it leads to joins the list,
/// unless it is there already.
fn visit_reference(
    mods: &ModuleMap,
    aliases: &AliasMap,
    reference: &ModulePathBuf,
    visited: &mut Vec<ModulePathBuf>,
)
    ensures
        paths_model(final(visited)@) == match resolve(mods@.dom(), aliases@, reference@) {
            Some(to) => if paths_model(old(visited)@).contains(to) {
                paths_model(old(visited)@)
            } else {
                paths_model(old(visited)@).push(to)
            },
            None => paths_model(old(visited)@),
        },
{
    let path = canonical_path(aliases, reference);
    match owning_module(mods, path) {
        None => {},
        Some(module) => {
            if !holds_path(visited, &module) {
                let ghost before = paths_model(visited@);
                visited.push(module);
                assert(paths_model(visited@) =~= before.push(module@));
            }
        },
    }
}

/// The reference was followed: the module that it leads to, if any, is in
/// the list.
pub open spec fn followed(
    keys: Set<Seq<char>>,
    aliases: Map<Seq<char>, Seq<char>>,
    reference: Seq<char>,
    seen: Seq<Seq<char>>,
) -> bool {
    match resolve(keys, aliases, reference) {
        Some(to) => seen.contains(to),
        None => true,
    }
}

/// The list `after` is the list `before` with modules behind it that the
/// scope refers to.
pub open spec fn grown(
    keys: Set<Seq<char>>,
    node: NodeModel,
    before: Seq<Seq<char>>,
    after: Seq<Seq<char>>,
) -> bool {
    &&& before.len() <= after.len()
    &&& after.take(before.len() as int) == before
    &&& forall|j: int|
        before.len() <= j < after.len() ==> node_refers_to(keys, node, #[trigger] after[j])
    &&& before.no_duplicates() ==> after.no_duplicates()
}

/// Following one more reference of the scope keeps the list grown.
proof fn lemma_grown_step(
    keys: Set<Seq<char>>,
    node: NodeModel,
    before: Seq<Seq<char>>,
    seen: Seq<Seq<char>>,
    i: int,
)
    requires
        grown(keys, node, before, seen),
        0 <= i < node.accesses.len(),
    ensures
        grown(
            keys,
            node,
            before,
            match resolve(keys, aliases_of(node), node.accesses[i]) {
                Some(to) => if seen.contains(to) {
                    seen
                } else {
                    seen.push(to)
                },
                None => seen,
            },
        ),
{
    match resolve(keys, aliases_of(node), node.accesses[i]) {
        Some(to) => {
            if !seen.contains(to) {
                let after = seen.push(to);
                assert(after.take(before.len() as int) =~= seen.take(before.len() as int));
                assert(node_refers_to(keys, node, to));
                if before.no_duplicates() {
                    assert forall|i: int, j: int|
                        0 <= i < after.len() && 0 <= j < after.len() && i != j implies after[i]
                        != after[j] by {
                        if i < seen.len() && j < seen.len() {
                        } else if i < seen.len() {
                            assert(seen[i] != to);
                        } else {
                            assert(seen[j] != to);
                        }
                    }
                }
            }
        },
        None => {},
    }
}

/// A reference that was followed stays followed when the list grows, and
/// the reference whose module was just added is followed.
proof fn lemma_followed_stays(
    keys: Set<Seq<char>>,
    aliases: Map<Seq<char>, Seq<char>>,
    reference: Seq<char>,
    seen: Seq<Seq<char>>,
    after: Seq<Seq<char>>,
)
    requires
        seen.len() <= after.len(),
        after.take(seen.len() as int) == seen,
        followed(keys, aliases, reference, seen) || (resolve(keys, aliases, reference) matches Some(
            to,
        ) && after == seen.push(to)),
    ensures
        followed(keys, aliases, reference, after),
{
    match resolve(keys, aliases, reference) {
        Some(to) => {
            if seen.contains(to) {
                let k = choose|k: int| 0 <= k < seen.len() && seen[k] == to;
                assert(after.take(seen.len() as int)[k] == to);
                assert(after[k] == to);
            } else {
                assert(after[seen.len() as int] == to);
            }
        },
        None => {},
    }
}

/// Follows every reference of a scope.
fn visit_node(mods: &ModuleMap, node: &Node, visited: &mut Vec<ModulePathBuf>)
    ensures
        grown(mods@.dom(), node@, paths_model(old(visited)@), paths_model(final(visited)@)),
        forall|to: Seq<char>| #[trigger]
            node_refers_to(mods@.dom(), node@, to) ==> paths_model(final(visited)@).contains(to),
{
    let aliases = proc_mod(node);
    let ghost keys = mods@.dom();
    let ghost before = paths_model(visited@);
    let ghost accesses = node@.accesses;
    assert(before.take(before.len() as int) =~= before);
    let mut i: usize = 0;
    while i < node.accesses.len()
        invariant
            0 <= i <= node.accesses.len(),
            keys == mods@.dom(),
            accesses == node@.accesses,
            aliases@ == aliases_of(node@),
            grown(keys, node@, before, paths_model(visited@)),
            forall|k: int|
                0 <= k < i ==> followed(
                    keys,
                    aliases@,
                    #[trigger] accesses[k],
                    paths_model(visited@),
                ),
        decreases node.accesses.len() - i,
    {
        let ghost seen = paths_model(visited@);
        visit_reference(mods, &aliases, &node.accesses[i], visited);
        proof {
            let after = paths_model(visited@);
            assert(accesses[i as int] == node.accesses[i as int]@);
            lemma_grown_step(keys, node@, before, seen, i as int);
            assert(after.take(seen.len() as int) =~= seen);
            assert forall|k: int| 0 <= k < i + 1 implies followed(
                keys,
                aliases@,
                #[trigger] accesses[k],
                after,
            ) by {
                lemma_followed_stays(keys, aliases@, accesses[k], seen, after);
            }
        }
        i = i + 1;
    }
    proof {
        let after = paths_model(visited@);
        assert forall|to: Seq<char>| #[trigger] node_refers_to(keys, node@, to) implies after.contains(
            to,
        ) by {
            let k = choose|k: int|
                0 <= k < accesses.len() && resolve(keys, aliases_of(node@), #[trigger] accesses[k])
                    == Some(to);
            assert(followed(keys, aliases@, accesses[k], after));
        }
    }
}

/// The crate root is reachable.
pub proof fn lemma_crate_is_reachable(map: Map<Seq<char>, NodeModel>)
    ensures
        reachable(map, "crate"@),
{
    let chain = seq!["crate"@];
    assert(is_chain(map, chain));
    assert(chain.last() == "crate"@);
}

/// A module that a reachable module refers to is reachable.
pub proof fn lemma_reachable_step(map: Map<Seq<char>, NodeModel>, from: Seq<char>, to: Seq<char>)
    requires
        reachable(map, from),
        refers_to(map, from, to),
    ensures
        reachable(map, to),
{
    let chain = choose|chain: Seq<Seq<char>>| #[trigger] is_chain(map, chain) && chain.last() == from;
    let longer = chain.push(to);
    assert forall|i: int| 0 <= i < longer.len() - 1 implies #[trigger] is_link(map, longer, i) by {
        if i < chain.len() - 1 {
            assert(is_link(map, chain, i));
        }
    }
    assert(is_chain(map, longer));
    assert(longer.last() == to);
}

/// A module that no reachable module refers to is not reachable, unless it
/// is the crate root: the reachable modules are the least set that holds
/// the crate root and, with each module, the modules that it refers to.
pub proof fn lemma_unreferenced_is_unreached(map: Map<Seq<char>, NodeModel>, module: Seq<char>)
    requires
        module != "crate"@,
        forall|from: Seq<char>| reachable(map, from) ==> !#[trigger] refers_to(map, from, module),
    ensures
        !reachable(map, module),
{
    if reachable(map, module) {
        let chain = choose|chain: Seq<Seq<char>>| #[trigger]
            is_chain(map, chain) && chain.last() == module;
        let front = chain.drop_last();
        assert(chain.len() >= 2);
        assert forall|i: int| 0 <= i < front.len() - 1 implies #[trigger] is_link(
            map,
            front,
            i,
        ) by {
            assert(is_link(map, chain, i));
        }
        assert(is_chain(map, front));
        assert(reachable(map, front.last()));
        assert(is_link(map, chain, chain.len() - 2));
        assert(refers_to(map, front.last(), module));
    }
}

/// A module that is reachable and is not the crate root is a key of the
/// map.
pub proof fn lemma_reachable_is_key(map: Map<Seq<char>, NodeModel>, module: Seq<char>)
    requires
        reachable(map, module),
        module != "crate"@,
    ensures
        map.dom().contains(module),
{
    let chain = choose|chain: Seq<Seq<char>>| #[trigger] is_chain(map, chain) && chain.last() == module;
    assert(is_link(map, chain, chain.len() - 2));
}

/// Every module of a chain is in a list that holds the crate root and, with
/// each module, the modules that it refers to.
proof fn lemma_chain_is_seen(
    map: Map<Seq<char>, NodeModel>,
    seen: Seq<Seq<char>>,
    chain: Seq<Seq<char>>,
    i: int,
)
    requires
        is_chain(map, chain),
        0 <= i < chain.len(),
        seen.contains("crate"@),
        forall|j: int, to: Seq<char>|
            0 <= j < seen.len() && #[trigger] refers_to(map, seen[j], to) ==> seen.contains(to),
    ensures
        seen.contains(chain[i]),
    decreases i,
{
    if i > 0 {
        lemma_chain_is_seen(map, seen, chain, i - 1);
        assert(is_link(map, chain, i - 1));
        let j = choose|j: int| 0 <= j < seen.len() && seen[j] == chain[i - 1];
        assert(refers_to(map, seen[j], chain[i]));
    }
}

/// A list of keys without repetition is no longer than the number of keys.
proof fn lemma_seen_bound(seen: Seq<Seq<char>>, keys: Set<Seq<char>>)
    requires
        seen.no_duplicates(),
        keys.finite(),
        forall|j: int| 0 <= j < seen.len() ==> keys.contains(#[trigger] seen[j]),
    ensures
        seen.len() <= keys.len(),
{
    seen.unique_seq_to_set();
    assert(seen.to_set().subset_of(keys)) by {
        assert forall|m: Seq<char>| seen.to_set().contains(m) implies keys.contains(m) by {
            let k = choose|k: int| 0 <= k < seen.len() && seen[k] == m;
            assert(keys.contains(seen[k]));
        }
    }
    vstd::set_lib::lemma_len_subset(seen.to_set(), keys);
}

/// The modules that can be reached from the crate root: `crate` itself, and
/// every module that a reference of a reached module leads to. A reference
/// is a path that the scope of the module itself refers to; the name that it
/// starts with gives way to the path that the module's imports bind it to.
/// The list holds each reached module once, `crate` first. The map must hold
/// the crate root.
pub fn collect_reachablity(mods: &ModuleMap) -> (reached: Vec<ModulePathBuf>)
    requires
        mods@.dom().contains("crate"@),
    ensures
        forall|module: Seq<char>|
            paths_model(reached@).contains(module) <==> reachable(mods@, module),
        paths_model(reached@).no_duplicates(),
        reached@.len() > 0,
        reached@[0]@ == "crate"@,
        forall|j: int|
            0 <= j < reached@.len() ==> mods@.dom().contains(#[trigger] paths_model(reached@)[j]),
{
    let ghost map = mods@;
    let mut visited: Vec<ModulePathBuf> = Vec::with_capacity(mods.len());
    visited.push(ModulePathBuf::from_text("crate"));
    let mut head: usize = 0;
    proof {
        assert(paths_model(visited@) =~= seq!["crate"@]);
        lemma_crate_is_reachable(map);
    }
    while head < visited.len()
        invariant
            map == mods@,
            map.dom().finite(),
            0 <= head <= visited.len(),
            visited.len() > 0,
            paths_model(visited@)[0] == "crate"@,
            paths_model(visited@).no_duplicates(),
            forall|j: int|
                0 <= j < visited.len() ==> reachable(map, #[trigger] paths_model(visited@)[j]),
            forall|j: int|
                0 <= j < visited.len() ==> map.dom().contains(#[trigger] paths_model(visited@)[j]),
            forall|j: int, to: Seq<char>|
                0 <= j < head && #[trigger] refers_to(map, paths_model(visited@)[j], to)
                    ==> paths_model(visited@).contains(to),
        decreases map.dom().len() - head,
    {
        let ghost seen = paths_model(visited@);
        proof {
            lemma_seen_bound(seen, map.dom());
        }
        let found = mods.get(visited[head].as_str());
        match found {
            None => {},
            Some(node) => {
                visit_node(mods, node, &mut visited);
                proof {
                    let after = paths_model(visited@);
                    let from = seen[head as int];
                    assert(node@ == map[from]);
                    assert forall|j: int| 0 <= j < after.len() implies reachable(
                        map,
                        #[trigger] after[j],
                    ) && map.dom().contains(after[j]) by {
                        if j < seen.len() {
                            assert(after.take(seen.len() as int)[j] == seen[j]);
                        } else {
                            assert(node_refers_to(map.dom(), node@, after[j]));
                            lemma_reachable_step(map, from, after[j]);
                        }
                    }
                    assert(after[0] == after.take(seen.len() as int)[0]);
                    assert forall|j: int, to: Seq<char>|
                        0 <= j < head + 1 && #[trigger] refers_to(map, after[j], to) implies after.contains(
                        to,
                    ) by {
                        assert(after.take(seen.len() as int)[j] == seen[j]);
                        if j < head {
                            assert(seen.contains(to));
                            let k = choose|k: int| 0 <= k < seen.len() && seen[k] == to;
                            assert(after.take(seen.len() as int)[k] == to);
                        } else {
                            assert(node_refers_to(map.dom(), node@, to));
                        }
                    }
                }
            },
        }
        head = head + 1;
    }
    proof {
        let seen = paths_model(visited@);
        assert(seen.contains("crate"@)) by {
            assert(seen[0] == "crate"@);
        }
        assert forall|module: Seq<char>| seen.contains(module) <==> reachable(map, module) by {
            if seen.contains(module) {
                let k = choose|k: int| 0 <= k < seen.len() && seen[k] == module;
                assert(reachable(map, seen[k]));
            }
            if reachable(map, module) {
                let chain = choose|chain: Seq<Seq<char>>| #[trigger]
                    is_chain(map, chain) && chain.last() == module;
                lemma_chain_is_seen(map, seen, chain, chain.len() - 1);
            }
        }
    }
    visited
}

} // verus!
