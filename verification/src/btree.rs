//! A B+tree on pages: an index from strings to record identifiers.
//!
//! Leaves hold sorted entries and are chained from left to right. Internal
//! nodes hold separators and children. A node that outgrows its page is
//! split, and a split of the root adds a level. Removing a key does not
//! merge nodes.

use crate::bytes::le_bytes;
use crate::bytes::le_value;
use crate::bytes::overwrite;
use crate::bytes::read_u64;
use crate::bytes::write_u64;
use crate::bytes;
use crate::disk::PAGE_LIMIT;
use crate::disk::pages_of;
use crate::heap::RecordId;
use crate::node;
use crate::node::Item;
use crate::node::NONE;
use crate::node::Node;
use crate::node::NodeView;
use crate::node::copy_range;
use crate::node::items_view;
use crate::node::page_node;
use crate::pager::Action;
use crate::pager::ActionView;
use crate::pager::Image;
use crate::pager::Page;
use crate::pager::Pager;
use crate::pager::StorageError;
use crate::pager::actions_view;
use crate::pager::lemma_page_len;
use crate::pager::recovered;
use crate::pager::too_large;
use crate::pager::zero_page;
use crate::text;
use crate::text::Order;
use crate::text::compare_bytes;
use crate::text::lex_lt;
use crate::tree;
use crate::tree::Grown;
use crate::tree::SHORT_KEY;
use crate::tree::Tree;
use crate::tree::chained;
use crate::tree::child_index;
use crate::tree::grow_branch;
use crate::tree::grow_leaf;
use crate::tree::grown_children;
use crate::tree::grown_keys;
use crate::tree::leaf_for;
use crate::tree::root_insert;
use crate::tree::sorted;
use crate::tree::tree_insert;
use crate::tree::tree_remove;
use crate::tree::upsert;
use crate::tree::value_of;
use crate::tree::without;
use vstd::prelude::*;
use vstd::utf8::encode_utf8;
use vstd::utf8::valid_utf8;

verus! {

/// The page that holds the number of the root page.
pub const META_PAGE: u64 = 0;

/// The nodes on the pages of a store.
pub open spec fn nodes_of(store: Seq<Seq<u8>>) -> Seq<Option<NodeView>> {
    Seq::new(store.len(), |i: int| page_node(store[i]))
}

/// The number of the root page.
pub open spec fn root_of(store: Seq<Seq<u8>>) -> u64 {
    le_value(store[0].subrange(0, 8)) as u64
}

/// The store holds `tree` as an index.
pub open spec fn is_index(store: Seq<Seq<u8>>, tree: Tree) -> bool {
    &&& tree.stored(nodes_of(store))
    &&& tree.page_no() == root_of(store)
    &&& tree.separate()
    &&& !tree.pages().contains(META_PAGE)
    &&& tree.ordered(Seq::empty(), None)
    &&& chained(tree.leaves(), NONE)
    &&& forall|i: int|
        0 <= i < tree.entries().len() ==> valid_utf8((#[trigger] tree.entries()[i]).0)
}

/// The store holds an index.
pub open spec fn index_ok(store: Seq<Seq<u8>>) -> bool {
    exists|tree: Tree| is_index(store, tree)
}

/// The tree of the index in a store.
pub open spec fn index_tree(store: Seq<Seq<u8>>) -> Tree {
    choose|tree: Tree| is_index(store, tree)
}

/// What an index with these entries maps keys to.
pub open spec fn entries_map(entries: Seq<Item>) -> Map<Seq<char>, u64> {
    Map::new(
        |key: Seq<char>| value_of(entries, encode_utf8(key)) is Some,
        |key: Seq<char>| value_of(entries, encode_utf8(key))->0,
    )
}

/// What the index in a store maps keys to.
pub open spec fn index_map(store: Seq<Seq<u8>>) -> Map<Seq<char>, u64> {
    entries_map(index_tree(store).entries())
}

/// There is only one tree in a store.
pub proof fn lemma_index_tree(store: Seq<Seq<u8>>, tree: Tree)
    requires
        is_index(store, tree),
    ensures
        index_ok(store),
        index_tree(store) == tree,
{
    tree::lemma_stored_unique(index_tree(store), tree, nodes_of(store));
}

/// Rewriting one page changes one node.
proof fn lemma_nodes_update(store: Seq<Seq<u8>>, n: int, node: NodeView)
    requires
        0 <= n < store.len(),
        node.fits(),
    ensures
        nodes_of(store.update(n, node.page())) == nodes_of(store).update(n, Some(node)),
{
    node::law_node_round_trip(node);
    assert(nodes_of(store.update(n, node.page())) =~= nodes_of(store).update(n, Some(node)));
}

/// A new page holds no node.
proof fn lemma_nodes_push(store: Seq<Seq<u8>>)
    ensures
        nodes_of(store.push(zero_page())) == nodes_of(store).push(None),
{
    node::lemma_zero_page_has_no_node();
    assert(nodes_of(store.push(zero_page())) =~= nodes_of(store).push(None));
}

/// The keys of items.
pub open spec fn keys_of(items: Seq<Item>) -> Seq<Seq<u8>> {
    Seq::new(items.len(), |i: int| items[i].0)
}

proof fn lemma_branch_keys(page: u64, keys: Seq<Seq<u8>>, children: Seq<Tree>)
    ensures
        keys_of((Tree::Branch { page, keys, children }).node().items) == keys,
{
    assert(keys_of((Tree::Branch { page, keys, children }).node().items) =~= keys);
}

/// Searches sorted items for a key: whether it is there, and its place.
fn find_entry(items: &Vec<(Vec<u8>, u64)>, key: &[u8]) -> (result: (bool, usize))
    ensures
        result.1 <= items@.len(),
        result.0 ==> result.1 < items@.len(),
        sorted(items_view(items@)) ==> {
            let view = items_view(items@);
            let i = result.1 as int;
            &&& i > 0 ==> lex_lt(view[i - 1].0, key@)
            &&& i < view.len() ==> !lex_lt(view[i].0, key@)
            &&& result.0 == (i < view.len() && view[i].0 == key@)
        },
{
    let ghost view = items_view(items@);
    let mut low: usize = 0;
    let mut high: usize = items.len();
    while low < high
        invariant
            low <= high <= items@.len(),
            view == items_view(items@),
            sorted(view) ==> {
                &&& low > 0 ==> lex_lt(view[low - 1].0, key@)
                &&& high < view.len() ==> lex_lt(key@, view[high as int].0)
            },
        decreases high - low,
    {
        let mid: usize = low + (high - low) / 2;
        assert(view[mid as int].0 == items@[mid as int].0@);
        match compare_bytes(items[mid].0.as_slice(), key) {
            Order::Less => {
                low = mid + 1;
            },
            Order::Equal => {
                proof {
                    text::lemma_lex_irreflexive(key@);
                    if sorted(view) && mid > 0 {
                        assert(lex_lt(view[mid - 1].0, view[mid as int].0));
                    }
                }
                return (true, mid);
            },
            Order::Greater => {
                high = mid;
            },
        }
    }
    proof {
        if sorted(view) && low < view.len() {
            text::law_lex_strict_total_order(key@, view[low as int].0, key@);
        }
    }
    (false, low)
}

/// What a search finds is what the items hold.
proof fn lemma_find(items: Seq<Item>, key: Seq<u8>, found: bool, i: int)
    requires
        sorted(items),
        0 <= i <= items.len(),
        i > 0 ==> lex_lt(items[i - 1].0, key),
        i < items.len() ==> !lex_lt(items[i].0, key),
        found == (i < items.len() && items[i].0 == key),
    ensures
        value_of(items, key) == if found {
            Some(items[i].1)
        } else {
            None
        },
{
    if found {
        tree::lemma_value_at(items, i);
    } else if value_of(items, key) is Some {
        let j = choose|j: int| 0 <= j < items.len() && (#[trigger] items[j]).0 == key;
        tree::lemma_only_place(items, key, i, j);
    }
}

/// The child to descend into: the one before the first separator that is
/// greater than `key`.
fn find_child(items: &Vec<(Vec<u8>, u64)>, key: &[u8]) -> (i: usize)
    ensures
        i == child_index(keys_of(items_view(items@)), key@),
        i <= items@.len(),
{
    let ghost keys = keys_of(items_view(items@));
    let mut i: usize = 0;
    assert(keys.skip(0) =~= keys);
    while i < items.len()
        invariant
            i <= items@.len(),
            keys == keys_of(items_view(items@)),
            child_index(keys, key@) == i + child_index(keys.skip(i as int), key@),
        decreases items@.len() - i,
    {
        assert(keys.skip(i as int)[0] == items@[i as int].0@);
        assert(keys.skip(i as int).drop_first() =~= keys.skip(i + 1));
        match compare_bytes(key, items[i].0.as_slice()) {
            Order::Less => {
                return i;
            },
            _ => {},
        }
        i += 1;
    }
    assert(keys.skip(i as int).len() == 0);
    i
}

/// What becomes of a node that is written to its page: the node itself or,
/// if it does not fit, its two halves with the separator between them. The
/// right half goes to page `fresh`.
pub open spec fn split_node(node: NodeView, fresh: int) -> Result<
    (NodeView, Option<(Seq<u8>, NodeView)>),
    StorageError,
> {
    let mid = node.items.len() as int / 2;
    let (left, right) = if node.leaf {
        (
            NodeView { leaf: true, link: fresh as u64, items: node.items.take(mid) },
            NodeView { leaf: true, link: node.link, items: node.items.skip(mid) },
        )
    } else {
        (
            NodeView { leaf: false, link: node.link, items: node.items.take(mid) },
            NodeView {
                leaf: false,
                link: node.items[mid].1,
                items: node.items.skip(mid + 1),
            },
        )
    };
    if node.fits() {
        Ok((node, None))
    } else if !left.fits() || !right.fits() {
        Err(StorageError::PageOverflow)
    } else if fresh >= PAGE_LIMIT {
        Err(StorageError::PageOutOfRange)
    } else {
        Ok((left, Some((node.items[mid].0, right))))
    }
}

/// The store after the outcome of a split was written.
pub open spec fn split_store(
    store: Seq<Seq<u8>>,
    page_no: u64,
    left: NodeView,
    right: Option<(Seq<u8>, NodeView)>,
) -> Seq<Seq<u8>> {
    match right {
        None => store.update(page_no as int, left.page()),
        Some((_, right)) => store.push(zero_page()).update(page_no as int, left.page()).update(
            store.len() as int,
            right.page(),
        ),
    }
}

/// Splitting a node is the same for a tree and for the page of its topmost
/// node.
pub open spec fn split_agrees(
    split: Result<(NodeView, Option<(Seq<u8>, NodeView)>), StorageError>,
    grown: Result<Grown, StorageError>,
    page: u64,
    fresh: int,
) -> bool {
    match (split, grown) {
        (Ok((left, None)), Ok(grown)) => {
            &&& grown.left.node() == left
            &&& grown.left.page_no() == page
            &&& grown.right is None
            &&& grown.fresh == fresh
        },
        (Ok((left, Some((separator, right)))), Ok(grown)) => {
            &&& grown.left.node() == left
            &&& grown.left.page_no() == page
            &&& grown.right matches Some((key, tree))
            &&& key == separator
            &&& tree.node() == right
            &&& tree.page_no() == fresh
            &&& grown.fresh == fresh + 1
        },
        (Err(a), Err(b)) => a == b,
        _ => false,
    }
}

proof fn lemma_leaf_split_agrees(page: u64, next: u64, entries: Seq<Item>, fresh: int)
    requires
        0 <= fresh,
    ensures
        split_agrees(
            split_node((Tree::Leaf { page, next, entries }).node(), fresh),
            grow_leaf(page, next, entries, fresh),
            page,
            fresh,
        ),
{
}

proof fn lemma_branch_split_agrees(
    page: u64,
    keys: Seq<Seq<u8>>,
    children: Seq<Tree>,
    fresh: int,
)
    requires
        0 <= fresh,
        children.len() == keys.len() + 1,
    ensures
        split_agrees(
            split_node((Tree::Branch { page, keys, children }).node(), fresh),
            grow_branch(page, keys, children, fresh),
            page,
            fresh,
        ),
{
    let node = (Tree::Branch { page, keys, children }).node();
    if !node.fits() {
        assert(keys.len() > 0) by {
            if keys.len() == 0 {
                assert(node.items.len() == 0);
            }
        }
        let mid = keys.len() as int / 2;
        tree::lemma_cut_node(page, keys, children, mid, fresh as u64);
    }
}

proof fn lemma_nodes_split(
    store: Seq<Seq<u8>>,
    page_no: u64,
    left: NodeView,
    right: Option<(Seq<u8>, NodeView)>,
)
    requires
        page_no < store.len(),
        left.fits(),
        right matches Some((_, node)) ==> node.fits(),
    ensures
        nodes_of(split_store(store, page_no, left, right)) == match right {
            None => nodes_of(store).update(page_no as int, Some(left)),
            Some((_, node)) => nodes_of(store).push(None).update(page_no as int, Some(left)).update(
                store.len() as int,
                Some(node),
            ),
        },
{
    match right {
        None => {
            lemma_nodes_update(store, page_no as int, left);
        },
        Some((_, node)) => {
            let store1 = store.push(zero_page());
            let store2 = store1.update(page_no as int, left.page());
            lemma_nodes_push(store);
            lemma_nodes_update(store1, page_no as int, left);
            lemma_nodes_update(store2, store.len() as int, node);
        },
    }
}

/// A subtree and the bounds of its keys.
pub struct Part {
    pub tree: Tree,
    pub lo: Seq<u8>,
    pub hi: Option<Seq<u8>>,
}

impl Part {
    /// The subtree is stored from page `page_no` on and has at most `fuel`
    /// nodes.
    pub open spec fn is_at(self, store: Seq<Seq<u8>>, page_no: u64, fuel: u64) -> bool {
        &&& self.tree.stored(nodes_of(store))
        &&& self.tree.page_no() == page_no
        &&& self.tree.separate()
        &&& self.tree.ordered(self.lo, self.hi)
        &&& self.tree.pages().finite()
        &&& self.tree.pages().len() <= fuel
    }

    /// Child `i` of the subtree.
    pub open spec fn child(self, i: int) -> Part {
        Part {
            tree: self.tree->children[i],
            lo: tree::lower(self.tree->keys, self.lo, i),
            hi: tree::upper(self.tree->keys, self.hi, i),
        }
    }
}

/// What an insertion returns for the caller to link in.
pub open spec fn split_matches(split: Option<(Vec<u8>, u64)>, grown: Grown) -> bool {
    match (split, grown.right) {
        (None, None) => true,
        (Some((separator, page_no)), Some((key, tree))) => {
            &&& separator@ == key
            &&& page_no == tree.page_no()
        },
        _ => false,
    }
}

/// What became of `tree` is stored, and no other page has changed.
pub open spec fn grown_stored(
    tree: Tree,
    grown: Grown,
    store: Seq<Seq<u8>>,
    store2: Seq<Seq<u8>>,
) -> bool {
    &&& store2.len() == grown.fresh
    &&& store.len() <= store2.len()
    &&& grown.left.stored(nodes_of(store2))
    &&& grown.right matches Some((_, right)) ==> right.stored(nodes_of(store2))
    &&& forall|q: u64|
        q < store.len() && !tree.pages().contains(q) ==> #[trigger] store2[q as int]
            == store[q as int]
}

proof fn lemma_leaf_written(
    page: u64,
    next: u64,
    entries: Seq<Item>,
    key: Seq<u8>,
    value: u64,
    store: Seq<Seq<u8>>,
)
    requires
        page < store.len(),
        tree_insert(Tree::Leaf { page, next, entries }, key, value, store.len() as int) is Ok,
    ensures
        ({
            let tree = Tree::Leaf { page, next, entries };
            let grown = tree_insert(tree, key, value, store.len() as int)->Ok_0;
            let new = NodeView { leaf: true, link: next, items: upsert(entries, key, value) };
            let (left, right) = split_node(new, store.len() as int)->Ok_0;
            grown_stored(tree, grown, store, split_store(store, page, left, right))
        }),
{
    let tree = Tree::Leaf { page, next, entries };
    let new = NodeView { leaf: true, link: next, items: upsert(entries, key, value) };
    lemma_leaf_split_agrees(page, next, upsert(entries, key, value), store.len() as int);
    let (left, right) = split_node(new, store.len() as int)->Ok_0;
    lemma_nodes_split(store, page, left, right);
    tree::lemma_own_page(tree);
}

proof fn lemma_branch_written(
    tree: Tree,
    page: u64,
    keys: Seq<Seq<u8>>,
    children: Seq<Tree>,
    key: Seq<u8>,
    value: u64,
    store: Seq<Seq<u8>>,
    store1: Seq<Seq<u8>>,
)
    requires
        tree == (Tree::Branch { page, keys, children }),
        tree.separate(),
        tree.stored(nodes_of(store)),
        child_index(keys, key) < children.len(),
        tree_insert(children[child_index(keys, key) as int], key, value, store.len() as int) is Ok,
        ({
            let i = child_index(keys, key) as int;
            let grown = tree_insert(children[i], key, value, store.len() as int)->Ok_0;
            grown_stored(children[i], grown, store, store1)
        }),
    ensures
        ({
            let i = child_index(keys, key) as int;
            let grown = tree_insert(children[i], key, value, store.len() as int)->Ok_0;
            let new = (Tree::Branch {
                page,
                keys: grown_keys(keys, i, grown),
                children: grown_children(children, i, grown),
            }).node();
            let result = tree_insert(tree, key, value, store.len() as int);
            let split = split_node(new, store1.len() as int);
            &&& grown.left.page_no() == children[i].page_no()
            &&& page < store1.len()
            &&& split_agrees(split, result, page, store1.len() as int)
            &&& result matches Ok(whole) ==> {
                let (left, right) = split->Ok_0;
                grown_stored(tree, whole, store, split_store(store1, page, left, right))
            }
        }),
{
    let i = child_index(keys, key) as int;
    let fresh = store.len() as int;
    let grown = tree_insert(children[i], key, value, fresh)->Ok_0;
    let nodes = nodes_of(store);
    let nodes1 = nodes_of(store1);
    tree::lemma_stored_pages(tree, nodes);
    assert forall|q: u64| #[trigger] children[i].pages().contains(q) implies q < fresh by {
        assert(tree.pages().contains(q));
    }
    assert(children[i].separate());
    tree::lemma_insert_separate(children[i], key, value, fresh);
    tree::lemma_grown_children_separate(page, keys, children, i, grown, fresh);
    let keys2 = grown_keys(keys, i, grown);
    let children2 = grown_children(children, i, grown);
    let new_tree = Tree::Branch { page, keys: keys2, children: children2 };
    lemma_branch_split_agrees(page, keys2, children2, grown.fresh);
    let result = tree_insert(tree, key, value, fresh);
    if result is Ok {
        let whole = result->Ok_0;
        let (left, right) = split_node(new_tree.node(), grown.fresh)->Ok_0;
        let store2 = split_store(store1, page, left, right);
        let nodes2 = nodes_of(store2);
        lemma_nodes_split(store1, page, left, right);
        assert forall|q: u64| q < nodes.len() && !children[i].pages().contains(q) implies #[trigger]
            nodes1[q as int] == nodes[q as int] by {
            assert(store1[q as int] == store[q as int]);
        }
        tree::lemma_grown_children_stored(page, keys, children, i, grown, nodes, nodes1);
        assert forall|j: int, q: u64|
            0 <= j < children2.len() && #[trigger] children2[j].pages().contains(q) implies q
            < nodes2.len() && nodes2[q as int] == nodes1[q as int] by {
            assert(children2[j].stored(nodes1));
            tree::lemma_stored_pages(children2[j], nodes1);
            assert(!children2[j].pages().contains(page));
        }
        match whole.right {
            None => {
                tree::lemma_branch_stored(page, keys2, children2, nodes1, nodes2);
            },
            Some((separator, right_tree)) => {
                let mid = keys2.len() as int / 2;
                let left_children = children2.take(mid + 1);
                let right_children = children2.skip(mid + 1);
                assert forall|j: int, q: u64|
                    0 <= j < left_children.len() && #[trigger] left_children[j].pages().contains(
                        q,
                    ) implies q < nodes2.len() && nodes2[q as int] == nodes1[q as int] by {
                    assert(children2[j].pages().contains(q));
                }
                assert forall|j: int, q: u64|
                    0 <= j < right_children.len() && #[trigger] right_children[j].pages().contains(
                        q,
                    ) implies q < nodes2.len() && nodes2[q as int] == nodes1[q as int] by {
                    assert(children2[mid + 1 + j].pages().contains(q));
                }
                assert forall|j: int| 0 <= j < left_children.len() implies (
                #[trigger] left_children[j]).stored(nodes1) by {
                    assert(children2[j].stored(nodes1));
                }
                assert forall|j: int| 0 <= j < right_children.len() implies (
                #[trigger] right_children[j]).stored(nodes1) by {
                    assert(children2[mid + 1 + j].stored(nodes1));
                }
                tree::lemma_branch_stored(page, keys2.take(mid), left_children, nodes1, nodes2);
                tree::lemma_branch_stored(
                    grown.fresh as u64,
                    keys2.skip(mid + 1),
                    right_children,
                    nodes1,
                    nodes2,
                );
            },
        }
        assert forall|q: u64| q < store.len() && !tree.pages().contains(q) implies #[trigger]
            store2[q as int] == store[q as int] by {
            if children[i].pages().contains(q) {
                assert(tree.pages().contains(q));
            }
            assert(store1[q as int] == store[q as int]);
        }
    }
}

/// Writing `new` to page `page_no` completes the insertion into `tree`.
pub open spec fn completes(
    tree: Tree,
    key: Seq<u8>,
    value: u64,
    store: Seq<Seq<u8>>,
    store1: Seq<Seq<u8>>,
    new: NodeView,
) -> bool {
    let split = split_node(new, store1.len() as int);
    &&& tree.page_no() < store1.len()
    &&& match tree_insert(tree, key, value, store.len() as int) {
        Ok(grown) => {
            &&& split matches Ok((left, right))
            &&& match (right, grown.right) {
                (None, None) => true,
                (Some((separator, _)), Some((key, part))) => {
                    &&& separator == key
                    &&& part.page_no() == store1.len()
                },
                _ => false,
            }
            &&& grown_stored(tree, grown, store, split_store(store1, tree.page_no(), left, right))
        },
        Err(error) => {
            &&& split matches Err(reason)
            &&& reason == error
        },
    }
}

proof fn lemma_leaf_completes(
    part: Part,
    page_no: u64,
    fuel: u64,
    key: Seq<u8>,
    value: u64,
    store: Seq<Seq<u8>>,
    node: NodeView,
    i: int,
    new: NodeView,
)
    requires
        part.is_at(store, page_no, fuel),
        nodes_of(store)[page_no as int] == Some(node),
        node.leaf,
        0 <= i <= node.items.len(),
        sorted(node.items) ==> {
            &&& i > 0 ==> lex_lt(node.items[i - 1].0, key)
            &&& i < node.items.len() ==> !lex_lt(node.items[i].0, key)
        },
        new.leaf,
        new.link == node.link,
        new.items == (if i < node.items.len() && node.items[i].0 == key {
            node.items.update(i, (key, value))
        } else {
            node.items.insert(i, (key, value))
        }),
    ensures
        completes(part.tree, key, value, store, store, new),
{
    let entries = node.items;
    tree::lemma_place(entries, key, i);
    assert(new.items =~= upsert(entries, key, value));
    lemma_leaf_split_agrees(page_no, new.link, new.items, store.len() as int);
    if tree_insert(part.tree, key, value, store.len() as int) is Ok {
        lemma_leaf_written(page_no, new.link, entries, key, value, store);
    }
}

proof fn lemma_part_child(
    part: Part,
    page_no: u64,
    fuel: u64,
    key: Seq<u8>,
    store: Seq<Seq<u8>>,
    node: NodeView,
    i: int,
)
    requires
        part.is_at(store, page_no, fuel),
        nodes_of(store)[page_no as int] == Some(node),
        !node.leaf,
        i == child_index(keys_of(node.items), key),
        fuel > 0,
    ensures
        part.child(i).is_at(
            store,
            if i == 0 {
                node.link
            } else {
                node.items[i - 1].1
            },
            (fuel - 1) as u64,
        ),
{
    let (page, keys, children) = (part.tree.page_no(), part.tree->keys, part.tree->children);
    lemma_branch_keys(page, keys, children);
    tree::lemma_siblings(page, keys, children, part.lo, part.hi, key);
    tree::lemma_child_size(page, keys, children, i);
    assert(children[i].stored(nodes_of(store)));
    if i > 0 {
        assert(node.items[i - 1].1 == children[i].page_no());
    }
}

proof fn lemma_branch_completes(
    part: Part,
    page_no: u64,
    fuel: u64,
    key: Seq<u8>,
    value: u64,
    store: Seq<Seq<u8>>,
    store1: Seq<Seq<u8>>,
    node: NodeView,
    i: int,
    split: Option<(Vec<u8>, u64)>,
    new: NodeView,
)
    requires
        part.is_at(store, page_no, fuel),
        nodes_of(store)[page_no as int] == Some(node),
        !node.leaf,
        i == child_index(keys_of(node.items), key),
        tree_insert(part.child(i).tree, key, value, store.len() as int) matches Ok(grown)
            && split_matches(split, grown) && grown_stored(
            part.child(i).tree,
            grown,
            store,
            store1,
        ),
        !new.leaf,
        new.link == node.link,
        new.items == match split {
            Some((separator, child)) => node.items.insert(i, (separator@, child)),
            None => node.items,
        },
    ensures
        completes(part.tree, key, value, store, store1, new),
{
    let (page, keys, children) = (part.tree.page_no(), part.tree->keys, part.tree->children);
    lemma_branch_keys(page, keys, children);
    tree::lemma_siblings(page, keys, children, part.lo, part.hi, key);
    let grown = tree_insert(children[i], key, value, store.len() as int)->Ok_0;
    lemma_branch_written(part.tree, page, keys, children, key, value, store, store1);
    tree::lemma_grown_node(page, keys, children, i, grown);
    let new_tree = Tree::Branch {
        page,
        keys: grown_keys(keys, i, grown),
        children: grown_children(children, i, grown),
    };
    assert(new == new_tree.node());
}

/// Setting or removing a key in the entries sets or removes it in the map.
proof fn lemma_map_after_change(entries: Seq<Item>, key: Seq<char>, value: u64)
    requires
        sorted(entries),
    ensures
        entries_map(upsert(entries, encode_utf8(key), value)) == entries_map(entries).insert(
            key,
            value,
        ),
        entries_map(without(entries, encode_utf8(key))) == entries_map(entries).remove(key),
{
    let bytes = encode_utf8(key);
    assert forall|other: Seq<char>|
        {
            &&& value_of(upsert(entries, bytes, value), #[trigger] encode_utf8(other)) == if other
                == key {
                Some(value)
            } else {
                value_of(entries, encode_utf8(other))
            }
            &&& value_of(without(entries, bytes), encode_utf8(other)) == if other == key {
                None
            } else {
                value_of(entries, encode_utf8(other))
            }
        } by {
        tree::lemma_value_after_change(entries, bytes, value, encode_utf8(other));
        if encode_utf8(other) == bytes {
            text::lemma_utf8_injective(other, key);
        }
    }
    assert(entries_map(upsert(entries, bytes, value)) =~= entries_map(entries).insert(key, value));
    assert(entries_map(without(entries, bytes)) =~= entries_map(entries).remove(key));
}

/// A page that names the root.
pub open spec fn meta_page(root: u64) -> Seq<u8> {
    overwrite(zero_page(), 0, le_bytes(root as nat, 8))
}

proof fn lemma_meta_page(root: u64)
    ensures
        meta_page(root).len() == 4096,
        le_value(meta_page(root).subrange(0, 8)) == root,
{
    bytes::lemma_byte_ranges();
    bytes::law_le_round_trip(root as nat, 8);
    assert(meta_page(root).subrange(0, 8) =~= le_bytes(root as nat, 8));
}

/// The store after an insertion whose root was split, and the new root was
/// put in place.
pub open spec fn root_store(store: Seq<Seq<u8>>, root: NodeView) -> Seq<Seq<u8>> {
    store.push(zero_page()).update(store.len() as int, root.page()).update(
        0,
        meta_page(store.len() as u64),
    )
}

/// An insertion into the tree of an index gives an index again.
proof fn lemma_index_after_insert(
    store: Seq<Seq<u8>>,
    store1: Seq<Seq<u8>>,
    tree: Tree,
    key: Seq<char>,
    value: u64,
)
    requires
        is_index(store, tree),
        store.len() > 0,
        root_insert(tree, encode_utf8(key), value, store.len() as int) is Ok,
        grown_stored(
            tree,
            tree_insert(tree, encode_utf8(key), value, store.len() as int)->Ok_0,
            store,
            store1,
        ),
    ensures
        ({
            let (new, _) = root_insert(tree, encode_utf8(key), value, store.len() as int)->Ok_0;
            let store2 = match tree_insert(
                tree,
                encode_utf8(key),
                value,
                store.len() as int,
            )->Ok_0.right {
                None => store1,
                Some(_) => root_store(store1, new.node()),
            };
            &&& is_index(store2, new)
            &&& index_map(store2) == index_map(store).insert(key, value)
        }),
{
    let bytes = encode_utf8(key);
    let fresh = store.len() as int;
    let grown = tree_insert(tree, bytes, value, fresh)->Ok_0;
    let (new, next) = root_insert(tree, bytes, value, fresh)->Ok_0;
    let nodes = nodes_of(store);
    let nodes1 = nodes_of(store1);
    tree::lemma_stored_pages(tree, nodes);
    tree::law_root_insert(tree, bytes, value, fresh, NONE);
    tree::lemma_ordered_entries(tree, Seq::empty(), None);
    tree::lemma_changed_items(tree.entries(), bytes, value);
    lemma_map_after_change(tree.entries(), key, value);
    vstd::utf8::encode_utf8_valid_utf8(key);
    assert forall|i: int| 0 <= i < new.entries().len() implies valid_utf8(
        (#[trigger] new.entries()[i]).0,
    ) by {
        if new.entries()[i] != (bytes, value) {
            let j = tree.entries().index_of(new.entries()[i]);
            assert(valid_utf8(tree.entries()[j].0));
        }
    }
    assert(store1[META_PAGE as int] == store[META_PAGE as int]);
    match grown.right {
        None => {
            lemma_index_tree(store1, new);
        },
        Some((separator, right)) => {
            let store2 = root_store(store1, new.node());
            let nodes2 = nodes_of(store2);
            let children = seq![grown.left, right];
            lemma_meta_page(next as u64);
            lemma_meta_page(store1.len() as u64);
            lemma_nodes_push(store1);
            lemma_nodes_update(store1.push(zero_page()), store1.len() as int, new.node());
            node::law_node_round_trip(new.node());
            assert(store2[store1.len() as int] == new.node().page());
            assert(new == (Tree::Branch {
                page: new.page_no(),
                keys: seq![separator],
                children,
            }));
            tree::lemma_stored_pages(grown.left, nodes1);
            tree::lemma_stored_pages(right, nodes1);
            assert forall|i: int, q: u64|
                0 <= i < children.len() && #[trigger] children[i].pages().contains(q) implies q
                < nodes2.len() && nodes2[q as int] == nodes1[q as int] by {
                assert(new.pages().contains(q));
                assert(q != 0);
            }
            tree::lemma_branch_stored(
                new.page_no(),
                seq![separator],
                children,
                nodes1,
                nodes2,
            );
            lemma_index_tree(store2, new);
        },
    }
    lemma_index_tree(store, tree);
}

/// A removal from the tree of an index gives an index again.
proof fn lemma_index_after_remove(
    store: Seq<Seq<u8>>,
    tree: Tree,
    key: Seq<char>,
    page: u64,
    node: NodeView,
    new: NodeView,
)
    requires
        is_index(store, tree),
        store.len() > 0,
        leaf_for(tree, encode_utf8(key)) == (Tree::Leaf {
            page,
            next: node.link,
            entries: node.items,
        }),
        new.leaf,
        new.link == node.link,
        new.items == without(node.items, encode_utf8(key)),
        new.fits(),
    ensures
        page < store.len(),
        ({
            let store2 = store.update(page as int, new.page());
            let tree2 = tree_remove(tree, encode_utf8(key));
            &&& root_of(store2) == root_of(store)
            &&& is_index(store2, tree2)
            &&& index_tree(store2) == tree2
            &&& index_map(store2) == index_map(store).remove(key)
        }),
{
    let bytes = encode_utf8(key);
    let tree2 = tree_remove(tree, bytes);
    let nodes = nodes_of(store);
    tree::lemma_leaf_for(tree, bytes, Seq::empty(), None);
    tree::lemma_stored_pages(tree, nodes);
    tree::lemma_remove(tree, bytes, Seq::empty(), None);
    tree::lemma_ordered_entries(tree, Seq::empty(), None);
    tree::lemma_changed_items(tree.entries(), bytes, 0);
    lemma_nodes_update(store, page as int, new);
    let store2 = store.update(page as int, new.page());
    assert(new == tree_remove(leaf_for(tree, bytes), bytes).node());
    tree::lemma_remove_stored(tree, bytes, Seq::empty(), None, nodes, nodes_of(store2));
    lemma_map_after_change(tree.entries(), key, 0);
    assert forall|i: int| 0 <= i < tree2.entries().len() implies valid_utf8(
        (#[trigger] tree2.entries()[i]).0,
    ) by {
        let j = tree.entries().index_of(tree2.entries()[i]);
        assert(valid_utf8(tree.entries()[j].0));
    }
    lemma_index_tree(store2, tree2);
    lemma_index_tree(store, tree);
}

/// Without one of its items a node still fits in a page.
proof fn lemma_fits_without(items: Seq<Item>, i: int)
    requires
        0 <= i < items.len(),
    ensures
        node::items_size(items.remove(i)) <= node::items_size(items),
{
    let a = items.take(i);
    let b = items.skip(i);
    let c = items.skip(i + 1);
    node::lemma_items_size_add(a, b);
    node::lemma_items_size_add(a, c);
    assert(items =~= a + b);
    assert(items.remove(i) =~= a + c);
    assert(b.drop_first() =~= c);
}

/// The list of all keys of a map with their values, in the order of the
/// keys' bytes.
pub open spec fn lists(all: Seq<(String, RecordId)>, map: Map<Seq<char>, u64>) -> bool {
    &&& forall|i: int, j: int|
        0 <= i < j < all.len() ==> lex_lt(
            encode_utf8((#[trigger] all[i]).0@),
            encode_utf8((#[trigger] all[j]).0@),
        )
    &&& forall|i: int|
        0 <= i < all.len() ==> map.contains_key((#[trigger] all[i]).0@) && map[all[i].0@]
            == all[i].1.0
    &&& forall|key: Seq<char>| #[trigger]
        map.contains_key(key) ==> exists|i: int|
            0 <= i < all.len() && (#[trigger] all[i]).0@ == key
}

/// The strings of a scan are the entries.
pub open spec fn scanned(all: Seq<(String, RecordId)>, entries: Seq<Item>) -> bool {
    &&& all.len() == entries.len()
    &&& forall|i: int|
        0 <= i < all.len() ==> encode_utf8((#[trigger] all[i]).0@) == entries[i].0 && all[i].1.0
            == entries[i].1
}

proof fn lemma_scan_lists(all: Seq<(String, RecordId)>, entries: Seq<Item>)
    requires
        sorted(entries),
        scanned(all, entries),
    ensures
        lists(all, entries_map(entries)),
{
    let map = entries_map(entries);
    assert forall|i: int| 0 <= i < all.len() implies map.contains_key((#[trigger] all[i]).0@)
        && map[all[i].0@] == all[i].1.0 by {
        tree::lemma_value_at(entries, i);
    }
    assert forall|i: int, j: int| 0 <= i < j < all.len() implies lex_lt(
        encode_utf8((#[trigger] all[i]).0@),
        encode_utf8((#[trigger] all[j]).0@),
    ) by {
        assert(lex_lt(entries[i].0, entries[j].0));
    }
    assert forall|key: Seq<char>| #[trigger] map.contains_key(key) implies exists|i: int|
        0 <= i < all.len() && (#[trigger] all[i]).0@ == key by {
        let i = choose|i: int|
            0 <= i < entries.len() && (#[trigger] entries[i]).0 == encode_utf8(key);
        text::lemma_utf8_injective(all[i].0@, key);
        assert(all[i].0@ == key);
    }
}

/// Removing a key that is not there changes nothing.
proof fn lemma_unchanged(store: Seq<Seq<u8>>, tree: Tree, key: Seq<char>)
    requires
        is_index(store, tree),
        value_of(tree.entries(), encode_utf8(key)) is None,
    ensures
        tree_remove(tree, encode_utf8(key)) == tree,
        index_map(store).remove(key) == index_map(store),
{
    tree::lemma_remove_nothing(tree, encode_utf8(key), Seq::empty(), None);
    lemma_index_tree(store, tree);
    assert(index_map(store).remove(key) =~= index_map(store));
}

/// The keys of each leaf are strings.
proof fn lemma_leaf_keys_valid(tree: Tree, position: int)
    requires
        forall|i: int|
            0 <= i < tree.entries().len() ==> valid_utf8((#[trigger] tree.entries()[i]).0),
        0 <= position < tree.leaves().len(),
    ensures
        forall|i: int|
            0 <= i < tree.leaves()[position].entries.len() ==> valid_utf8(
                (#[trigger] tree.leaves()[position].entries[i]).0,
            ),
{
    let leaves = tree.leaves();
    let a = leaves.take(position);
    let b = leaves.skip(position);
    tree::lemma_entries_add(a, b);
    assert(leaves =~= a + b);
    let entries = leaves[position].entries;
    assert forall|i: int| 0 <= i < entries.len() implies valid_utf8((#[trigger] entries[i]).0) by {
        assert(tree.entries()[tree::entries_of(a).len() + i] == entries[i]);
    }
}

/// The tree of a new index: a leaf without entries behind the first page.
pub open spec fn empty_tree() -> Tree {
    Tree::Leaf { page: 1, next: NONE, entries: Seq::empty() }
}

proof fn lemma_empty_index(store: Seq<Seq<u8>>)
    requires
        store == seq![
            meta_page(1),
            (NodeView { leaf: true, link: NONE, items: Seq::empty() }).page(),
        ],
    ensures
        index_ok(store),
        root_of(store) == 1,
        index_tree(store) == empty_tree(),
        index_map(store) == Map::<Seq<char>, u64>::empty(),
{
    let node = NodeView { leaf: true, link: NONE, items: Seq::empty() };
    let tree = Tree::Leaf { page: 1, next: NONE, entries: Seq::empty() };
    lemma_meta_page(1);
    node::law_node_round_trip(node);
    reveal_with_fuel(tree::entries_of, 2);
    assert(tree.leaves().drop_first() =~= Seq::empty());
    assert(tree.entries() =~= Seq::empty());
    assert(is_index(store, tree));
    lemma_index_tree(store, tree);
    assert(index_map(store) =~= Map::empty());
}

/// A page that names the root.
fn new_meta_page(root: u64) -> (page: Page)
    ensures
        page@ == meta_page(root),
{
    broadcast use lemma_page_len;

    let mut page = Page::new();
    write_u64(page.as_bytes_mut(), 0, root);
    page
}

proof fn lemma_stored_fits(tree: Tree, store: Seq<Seq<u8>>)
    requires
        tree.stored(nodes_of(store)),
        forall|i: int| 0 <= i < store.len() ==> (#[trigger] store[i]).len() == 4096,
    ensures
        tree.fitting(),
    decreases tree,
{
    node::lemma_page_node_fits(store[tree.page_no() as int]);
    match tree {
        Tree::Leaf { .. } => {},
        Tree::Branch { keys, children, .. } => {
            assert forall|i: int| 0 <= i < children.len() implies (
            #[trigger] children[i]).fitting() by {
                assert(children[i].stored(nodes_of(store)));
                lemma_stored_fits(children[i], store);
            }
        },
    }
}

/// An index of keys of at most `SHORT_KEY` bytes takes another such key
/// without fail, as long as there is room for the pages on the way down and
/// a new root.
pub proof fn law_short_keys_are_taken(file: Seq<u8>, key: Seq<char>, value: u64)
    requires
        index_ok(pages_of(file)),
        index_tree(pages_of(file)).short(SHORT_KEY as nat),
        encode_utf8(key).len() <= SHORT_KEY,
        pages_of(file).len() + index_tree(pages_of(file)).depth(encode_utf8(key)) < PAGE_LIMIT,
    ensures
        root_insert(
            index_tree(pages_of(file)),
            encode_utf8(key),
            value,
            pages_of(file).len() as int,
        ) matches Ok((tree, _)) && tree.short(SHORT_KEY as nat),
{
    let store = pages_of(file);
    let tree = index_tree(store);
    lemma_stored_fits(tree, store);
    tree::law_short_keys_fit(tree, encode_utf8(key), value, store.len() as int);
}

/// A tree on `pages` pages takes `n` more keys of at most `SHORT_KEY` bytes.
pub open spec fn has_room(tree: Tree, pages: nat, n: nat) -> bool {
    &&& tree.short(SHORT_KEY as nat)
    &&& exists|h: nat| #[trigger] tree.at_most(h) && pages + n * (h + n + 1) < PAGE_LIMIT
}

/// A new index has room for more than ten million short keys.
pub proof fn law_new_index_has_room()
    ensures
        has_room(empty_tree(), 2, 10_000_000),
{
    assert(empty_tree().at_most(1));
}

/// An index that has room for short keys takes one without fail, and has room
/// for one less.
pub proof fn law_room_is_used_up(file: Seq<u8>, key: Seq<char>, value: u64, n: nat)
    requires
        index_ok(pages_of(file)),
        has_room(index_tree(pages_of(file)), pages_of(file).len(), n),
        encode_utf8(key).len() <= SHORT_KEY,
        n > 0,
    ensures
        root_insert(
            index_tree(pages_of(file)),
            encode_utf8(key),
            value,
            pages_of(file).len() as int,
        ) matches Ok((tree, next)) && has_room(tree, next as nat, (n - 1) as nat),
{
    let store = pages_of(file);
    let tree = index_tree(store);
    let h = choose|h: nat| #[trigger]
        tree.at_most(h) && store.len() + n * (h + n + 1) < PAGE_LIMIT;
    assert(n * (h + n + 1) >= h + n + 1) by (nonlinear_arith)
        requires
            n >= 1,
    ;
    assert((n - 1) * (h + n + 1) == n * (h + n + 1) - (h + n + 1)) by (nonlinear_arith);
    lemma_stored_fits(tree, store);
    tree::law_insertion_adds_few_pages(tree, encode_utf8(key), value, store.len() as int, h);
    tree::lemma_root_insert_grows(tree, encode_utf8(key), value, store.len() as int);
    let (new, next) = root_insert(tree, encode_utf8(key), value, store.len() as int)->Ok_0;
    assert(new.at_most(h + 1));
    assert(next + (n - 1) * ((h + 1) + (n - 1) + 1) < PAGE_LIMIT);
}

/// An index has as much room after a removal as before.
pub proof fn law_removal_keeps_room(tree: Tree, pages: nat, key: Seq<u8>, n: nat)
    requires
        has_room(tree, pages, n),
    ensures
        has_room(tree::tree_remove(tree, key), pages, n),
{
    let h = choose|h: nat| #[trigger]
        tree.at_most(h) && pages + n * (h + n + 1) < PAGE_LIMIT;
    tree::lemma_remove_keeps_short(tree, key, SHORT_KEY as nat, h);
    assert(tree::tree_remove(tree, key).at_most(h));
}

/// An index takes a new value for a key that it has without fail, and no page
/// more.
pub proof fn law_known_keys_are_taken(file: Seq<u8>, key: Seq<char>, value: u64)
    requires
        index_ok(pages_of(file)),
        index_map(pages_of(file)).contains_key(key),
    ensures
        root_insert(
            index_tree(pages_of(file)),
            encode_utf8(key),
            value,
            pages_of(file).len() as int,
        ) matches Ok((_, next)) && next == pages_of(file).len(),
{
    let store = pages_of(file);
    let tree = index_tree(store);
    lemma_stored_fits(tree, store);
    tree::law_replacing_always_fits(
        tree,
        encode_utf8(key),
        value,
        store.len() as int,
        Seq::empty(),
        None,
    );
}

/// An index over strings on pages of its own.
pub struct BTree {
    pager: Pager,
    root: u64,
}

impl BTree {
    /// The pager below.
    pub closed spec fn inner(&self) -> Pager {
        self.pager
    }

    /// The root page.
    pub closed spec fn root(&self) -> u64 {
        self.root
    }

    /// The pages of the index.
    pub open spec fn store(&self) -> Seq<Seq<u8>> {
        self.inner().store()
    }

    /// The pager is in order, and no transaction is open.
    pub open spec fn inv(&self) -> bool {
        &&& self.inner().inv()
        &&& !self.inner().in_txn()
        &&& self.inner().dense()
        &&& self.store().len() > 0
    }

    /// The pages hold an index, and the root page is the one that the first
    /// page names.
    pub open spec fn wf(&self) -> bool {
        &&& self.inv()
        &&& self.root() == root_of(self.store())
        &&& index_ok(self.store())
    }
}

impl View for BTree {
    type V = Map<Seq<char>, u64>;

    open spec fn view(&self) -> Map<Seq<char>, u64> {
        index_map(self.store())
    }
}

impl BTree {
    /// Reads the node on a page.
    fn read_node(&self, page_no: u64) -> (result: Result<Node, StorageError>)
        requires
            self.inner().inv(),
            self.inner().dense(),
        ensures
            match result {
                Ok(node) => {
                    &&& page_no < self.store().len()
                    &&& nodes_of(self.store())[page_no as int] == Some(node@)
                    &&& node@.fits()
                },
                Err(error) => {
                    &&& error == StorageError::UnexpectedEof || error == StorageError::CorruptPage
                    &&& page_no < self.store().len() ==> nodes_of(
                        self.store(),
                    )[page_no as int] is None
                },
            },
    {
        broadcast use lemma_page_len;

        proof {
            if page_no < self.store().len() {
                assert(self.inner().page(page_no as int) == Some(self.store()[page_no as int]));
            }
        }
        match self.pager.read_page(page_no) {
            Ok(page) => {
                proof {
                    self.pager.lemma_no_page_beyond(page_no as int);
                    assert(self.inner().page(page_no as int) == Some(
                        self.store()[page_no as int],
                    ));
                    node::lemma_page_node_fits(page@);
                }
                Node::decode(&page)
            },
            Err(error) => Err(error),
        }
    }

    /// Descends to the leaf that holds `key` if any does.
    fn find_leaf(&self, key: &[u8]) -> (result: Result<(u64, Node), StorageError>)
        requires
            self.inv(),
        ensures
            self.wf() ==> {
                &&& result matches Ok((page, node))
                &&& node.leaf
                &&& leaf_for(index_tree(self.store()), key@) == (Tree::Leaf {
                    page,
                    next: node@.link,
                    entries: node@.items,
                })
            },
            result matches Ok((page, node)) ==> {
                &&& node.leaf
                &&& page < self.store().len()
                &&& nodes_of(self.store())[page as int] == Some(node@)
                &&& node@.fits()
            },
            result matches Err(error) ==> error == StorageError::UnexpectedEof || error
                == StorageError::CorruptPage,
    {
        let ghost nodes = nodes_of(self.store());
        let ghost whole = index_tree(self.store());
        let ghost mut current = whole;
        let ghost mut lo: Seq<u8> = Seq::empty();
        let ghost mut hi: Option<Seq<u8>> = None;
        let mut page_no: u64 = self.root;
        let mut fuel: u64 = self.pager.page_count();
        proof {
            if self.wf() {
                tree::lemma_size(whole, nodes);
            }
        }
        while fuel > 0
            invariant
                self.inv(),
                nodes == nodes_of(self.store()),
                whole == index_tree(self.store()),
                self.wf() ==> {
                    &&& current.stored(nodes)
                    &&& current.separate()
                    &&& current.ordered(lo, hi)
                    &&& current.page_no() == page_no
                    &&& current.pages().finite()
                    &&& current.pages().len() <= fuel
                    &&& leaf_for(whole, key@) == leaf_for(current, key@)
                },
            decreases fuel,
        {
            let node = match self.read_node(page_no) {
                Ok(node) => node,
                Err(error) => {
                    return Err(error);
                },
            };
            if node.leaf {
                return Ok((page_no, node));
            }
            let i: usize = find_child(&node.items, key);
            proof {
                if self.wf() {
                    match current {
                        Tree::Branch { page, keys, children } => {
                            lemma_branch_keys(page, keys, children);
                            tree::lemma_siblings(page, keys, children, lo, hi, key@);
                            tree::lemma_child_size(page, keys, children, i as int);
                            assert(children[i as int].stored(nodes));
                            if i > 0 {
                                assert(node@.items[i - 1].1 == children[i as int].page_no());
                            }
                            lo = tree::lower(keys, lo, i as int);
                            hi = tree::upper(keys, hi, i as int);
                            current = children[i as int];
                        },
                        Tree::Leaf { .. } => {},
                    }
                }
            }
            page_no = if i == 0 {
                node.link
            } else {
                node.items[i - 1].1
            };
            fuel -= 1;
        }
        proof {
            if self.wf() {
                tree::lemma_own_page(current);
                assert(current.pages().len() == 0);
                assert(false);
            }
        }
        Err(StorageError::CorruptPage)
    }

    /// Looks up a single key.
    pub fn get(&self, key: &str) -> (result: Result<Option<RecordId>, StorageError>)
        requires
            self.inv(),
        ensures
            self.wf() ==> result == Ok::<Option<RecordId>, StorageError>(
                if self@.contains_key(key@) {
                    Some(RecordId(self@[key@]))
                } else {
                    None
                },
            ),
            result matches Err(error) ==> error == StorageError::UnexpectedEof || error
                == StorageError::CorruptPage,
    {
        let bytes = key.as_bytes();
        let (page_no, node) = match self.find_leaf(bytes) {
            Ok(found) => found,
            Err(error) => {
                return Err(error);
            },
        };
        let (found, i) = find_entry(&node.items, bytes);
        proof {
            if self.wf() {
                let whole = index_tree(self.store());
                tree::lemma_leaf_for(whole, bytes@, Seq::empty(), None);
                lemma_find(node@.items, bytes@, found, i as int);
            }
        }
        if found {
            Ok(Some(RecordId(node.items[i].1)))
        } else {
            Ok(None)
        }
    }

    /// Writes a node back to its page. If it does not fit any more, splits it
    /// in two and returns the separator and the page of the right half.
    fn write_node(&mut self, page_no: u64, node: Node) -> (result: Result<
        Option<(Vec<u8>, u64)>,
        StorageError,
    >)
        requires
            old(self).inner().inv(),
            old(self).inner().in_txn(),
            old(self).inner().dense(),
            page_no < old(self).store().len(),
        ensures
            final(self).inner().inv(),
            final(self).inner().in_txn(),
            final(self).inner().dense(),
            final(self).store().len() >= old(self).store().len(),
            final(self).inner().file() == old(self).inner().file(),
            final(self).inner().start_count() == old(self).inner().start_count(),
            final(self).inner().base() == old(self).inner().base(),
            final(self).inner().history() == old(self).inner().history(),
            final(self).root() == old(self).root(),
            match split_node(node@, old(self).store().len() as int) {
                Ok((left, right)) => {
                    &&& final(self).store() == split_store(
                        old(self).store(),
                        page_no,
                        left,
                        right,
                    )
                    &&& match (result, right) {
                        (Ok(None), None) => true,
                        (Ok(Some((key, new_page))), Some((separator, _))) => {
                            &&& key@ == separator
                            &&& new_page == old(self).store().len()
                        },
                        _ => false,
                    }
                },
                Err(error) => result == Err::<Option<(Vec<u8>, u64)>, StorageError>(error),
            },
    {
        let ghost whole = node@;
        proof {
            self.pager.lemma_inv();
        }
        if node.fits() {
            let page = node.encode();
            return match self.pager.write_page(page_no, &page) {
                Ok(()) => Ok(None),
                Err(error) => Err(error),
            };
        }
        let mut left = node;
        let mid: usize = left.items.len() / 2;
        proof {
            assert(whole.items.len() > 0) by {
                if whole.items.len() == 0 {
                    assert(node::items_size(whole.items) == 0);
                }
            }
        }
        let separator = copy_range(left.items[mid].0.as_slice(), 0, left.items[mid].0.len());
        assert(separator@ =~= whole.items[mid as int].0);
        let right = if left.leaf {
            let right_items = left.items.split_off(mid);
            assert(items_view(right_items@) =~= whole.items.skip(mid as int));
            Node { leaf: true, link: left.link, items: right_items }
        } else {
            let right_items = left.items.split_off(mid + 1);
            assert(items_view(right_items@) =~= whole.items.skip(mid + 1));
            let link: u64 = left.items[mid].1;
            left.items.truncate(mid);
            Node { leaf: false, link, items: right_items }
        };
        assert(items_view(left.items@) =~= whole.items.take(mid as int));
        if !left.fits() || !right.fits() {
            return Err(StorageError::PageOverflow);
        }
        let right_no: u64 = match self.pager.allocate_page() {
            Ok(right_no) => right_no,
            Err(error) => {
                return Err(error);
            },
        };
        if left.leaf {
            left.link = right_no;
        }
        let left_page = left.encode();
        match self.pager.write_page(page_no, &left_page) {
            Ok(()) => {},
            Err(error) => {
                return Err(error);
            },
        }
        let right_page = right.encode();
        match self.pager.write_page(right_no, &right_page) {
            Ok(()) => {},
            Err(error) => {
                return Err(error);
            },
        }
        Ok(Some((separator, right_no)))
    }

    /// Inserts into the subtree on page `page_no`. If its topmost node had to
    /// be split, returns the separator and the page of the right half for the
    /// caller to link in.
    fn insert_into(
        &mut self,
        page_no: u64,
        key: &[u8],
        rid: u64,
        fuel: u64,
        Ghost(part): Ghost<Part>,
    ) -> (result: Result<Option<(Vec<u8>, u64)>, StorageError>)
        requires
            old(self).inner().inv(),
            old(self).inner().in_txn(),
            old(self).inner().dense(),
        ensures
            final(self).inner().inv(),
            final(self).inner().in_txn(),
            final(self).inner().dense(),
            final(self).store().len() >= old(self).store().len(),
            final(self).inner().file() == old(self).inner().file(),
            final(self).inner().start_count() == old(self).inner().start_count(),
            final(self).inner().base() == old(self).inner().base(),
            final(self).inner().history() == old(self).inner().history(),
            final(self).root() == old(self).root(),
            part.is_at(old(self).store(), page_no, fuel) ==> match tree_insert(part.tree, key@, rid, old(self).store().len() as int) {
                Ok(grown) => {
                    &&& result matches Ok(split)
                    &&& split_matches(split, grown)
                    &&& grown_stored(part.tree, grown, old(self).store(), final(self).store())
                    &&& tree::in_range(key@, part.lo, part.hi) ==> tree::holds_also(
                        part.tree,
                        grown,
                        key@,
                        rid,
                        old(self).store().len() as int,
                    )
                },
                Err(error) => result == Err::<Option<(Vec<u8>, u64)>, StorageError>(error),
            },
        decreases fuel,
    {
        let ghost store0 = self.store();
        let ghost good = part.is_at(store0, page_no, fuel);
        proof {
            if good && tree::in_range(key@, part.lo, part.hi) && tree_insert(
                part.tree,
                key@,
                rid,
                store0.len() as int,
            ) is Ok {
                tree::lemma_stored_pages(part.tree, nodes_of(store0));
                tree::law_insertion_into_a_subtree(
                    part.tree,
                    key@,
                    rid,
                    store0.len() as int,
                    part.lo,
                    part.hi,
                );
            }
        }
        if fuel == 0 {
            proof {
                tree::lemma_own_page(part.tree);
            }
            return Err(StorageError::CorruptPage);
        }
        let mut node = match self.read_node(page_no) {
            Ok(node) => node,
            Err(error) => {
                return Err(error);
            },
        };
        let ghost node0 = node@;
        if node.leaf {
            let (found, i) = find_entry(&node.items, key);
            if found {
                let (same_key, _) = node.items.remove(i);
                node.items.insert(i, (same_key, rid));
                assert(node@.items =~= node0.items.update(i as int, (node0.items[i as int].0, rid)));
            } else {
                let new_key = copy_range(key, 0, key.len());
                assert(new_key@ =~= key@);
                node.items.insert(i, (new_key, rid));
                assert(node@.items =~= node0.items.insert(i as int, (key@, rid)));
            }
            proof {
                if good {
                    lemma_leaf_completes(
                        part,
                        page_no,
                        fuel,
                        key@,
                        rid,
                        store0,
                        node0,
                        i as int,
                        node@,
                    );
                }
            }
        } else {
            let i: usize = find_child(&node.items, key);
            let child_no: u64 = if i == 0 {
                node.link
            } else {
                node.items[i - 1].1
            };
            let ghost child = part.child(i as int);
            proof {
                if good {
                    lemma_part_child(part, page_no, fuel, key@, store0, node0, i as int);
                }
            }
            let split = match self.insert_into(child_no, key, rid, fuel - 1, Ghost(child)) {
                Ok(split) => split,
                Err(error) => {
                    proof {
                        if good {
                            tree::lemma_siblings(
                                part.tree.page_no(),
                                part.tree->keys,
                                part.tree->children,
                                part.lo,
                                part.hi,
                                key@,
                            );
                            lemma_branch_keys(
                                part.tree.page_no(),
                                part.tree->keys,
                                part.tree->children,
                            );
                        }
                    }
                    return Err(error);
                },
            };
            let ghost split0 = split;
            match split {
                Some((separator, new_child)) => {
                    node.items.insert(i, (separator, new_child));
                    assert(node@.items =~= node0.items.insert(i as int, (separator@, new_child)));
                },
                None => {},
            }
            proof {
                if good {
                    lemma_branch_completes(
                        part,
                        page_no,
                        fuel,
                        key@,
                        rid,
                        store0,
                        self.store(),
                        node0,
                        i as int,
                        split0,
                        node@,
                    );
                }
            }
        }
        self.write_node(page_no, node)
    }

    /// Puts a new root above the old one and the right half that was split
    /// off it, and returns its page.
    fn grow_root(&mut self, separator: Vec<u8>, right_no: u64) -> (result: Result<
        u64,
        StorageError,
    >)
        requires
            old(self).inner().inv(),
            old(self).inner().in_txn(),
            old(self).inner().dense(),
            old(self).store().len() > 0,
        ensures
            final(self).inner().inv(),
            final(self).inner().in_txn(),
            final(self).inner().dense(),
            final(self).inner().file() == old(self).inner().file(),
            final(self).inner().start_count() == old(self).inner().start_count(),
            final(self).inner().base() == old(self).inner().base(),
            final(self).inner().history() == old(self).inner().history(),
            final(self).root() == old(self).root(),
            ({
                let node = NodeView {
                    leaf: false,
                    link: old(self).root(),
                    items: seq![(separator@, right_no)],
                };
                match result {
                    Ok(page_no) => {
                        &&& node.fits()
                        &&& page_no == old(self).store().len()
                        &&& page_no < PAGE_LIMIT
                        &&& final(self).store() == root_store(old(self).store(), node)
                    },
                    Err(error) => {
                        &&& node.fits() ==> old(self).store().len() >= PAGE_LIMIT
                        &&& error == if node.fits() {
                            StorageError::PageOutOfRange
                        } else {
                            StorageError::PageOverflow
                        }
                    },
                }
            }),
    {
        proof {
            self.pager.lemma_inv();
        }
        let mut items: Vec<(Vec<u8>, u64)> = Vec::new();
        items.push((separator, right_no));
        let node = Node { leaf: false, link: self.root, items };
        assert(node@.items =~= seq![(separator@, right_no)]);
        if !node.fits() {
            return Err(StorageError::PageOverflow);
        }
        let page_no: u64 = match self.pager.allocate_page() {
            Ok(page_no) => page_no,
            Err(error) => {
                return Err(error);
            },
        };
        let page = node.encode();
        match self.pager.write_page(page_no, &page) {
            Ok(()) => {},
            Err(error) => {
                return Err(error);
            },
        }
        let meta = new_meta_page(page_no);
        match self.pager.write_page(META_PAGE, &meta) {
            Ok(()) => {},
            Err(error) => {
                return Err(error);
            },
        }
        Ok(page_no)
    }

    /// Sets the value of `key`, whether it is there already or not. All pages
    /// that change become durable together, or none does.
    pub fn insert(&mut self, key: &str, rid: RecordId) -> (result: Result<(), StorageError>)
        requires
            old(self).inv(),
        ensures
            final(self).inv(),
            final(self).inner().base() == old(self).inner().base(),
            match result {
                Ok(()) => final(self).inner().history() == old(self).inner().history().push(
                    final(self).inner().file(),
                ),
                Err(_) => {
                    &&& final(self).inner().history() == old(self).inner().history()
                    &&& final(self).store() == old(self).store()
                    &&& final(self)@ == old(self)@
                },
            },
            old(self).wf() ==> {
                &&& final(self).wf()
                &&& match root_insert(
                    index_tree(old(self).store()),
                    encode_utf8(key@),
                    rid.0,
                    old(self).store().len() as int,
                ) {
                    Ok((tree, next)) => {
                        &&& result is Ok
                        &&& index_tree(final(self).store()) == tree
                        &&& final(self).store().len() == next
                        &&& final(self)@ == old(self)@.insert(key@, rid.0)
                    },
                    Err(error) => result == Err::<(), StorageError>(error),
                }
            },
    {
        let ghost store0 = self.store();
        let ghost whole = index_tree(store0);
        let ghost part = Part { tree: whole, lo: Seq::empty(), hi: None };
        let ghost good = self.wf();
        let bytes = key.as_bytes();
        let ghost fresh = store0.len() as int;
        proof {
            self.pager.lemma_inv();
            if good {
                tree::lemma_size(whole, nodes_of(store0));
            }
        }
        self.pager.begin_transaction();
        let fuel: u64 = self.pager.page_count();
        let split = match self.insert_into(self.root, bytes, rid.0, fuel, Ghost(part)) {
            Ok(split) => split,
            Err(error) => {
                self.pager.rollback_transaction();
                return Err(error);
            },
        };
        let ghost store1 = self.store();
        match split {
            None => {
                proof {
                    if good {
                        assert(store1[0] == store0[0]);
                    }
                }
            },
            Some((separator, right_no)) => {
                proof {
                    if good {
                        let grown = tree_insert(whole, bytes@, rid.0, fresh)->Ok_0;
                        let root = Tree::Branch {
                            page: grown.fresh as u64,
                            keys: seq![separator@],
                            children: seq![grown.left, (grown.right->0).1],
                        };
                        tree::lemma_stored_pages(whole, nodes_of(store0));
                        tree::lemma_insert_separate(whole, bytes@, rid.0, fresh);
                        assert(root.node().items =~= seq![(separator@, right_no)]);
                    }
                }
                match self.grow_root(separator, right_no) {
                    Ok(new_root) => {
                        self.root = new_root;
                    },
                    Err(error) => {
                        self.pager.rollback_transaction();
                        return Err(error);
                    },
                }
            },
        }
        let ghost store2 = self.store();
        self.pager.commit_transaction();
        proof {
            assert(self.store() == store2);
            if good {
                assert(root_insert(whole, bytes@, rid.0, fresh) is Ok);
                lemma_index_after_insert(store0, store1, whole, key@, rid.0);
                let (new, _) = root_insert(whole, bytes@, rid.0, fresh)->Ok_0;
                assert(is_index(store2, new));
                lemma_index_tree(store2, new);
            }
        }
        Ok(())
    }

    /// Removes a key and returns its value. Nodes are not merged.
    pub fn delete(&mut self, key: &str) -> (result: Result<Option<RecordId>, StorageError>)
        requires
            old(self).inv(),
        ensures
            final(self).inv(),
            final(self).inner().base() == old(self).inner().base(),
            result is Err ==> final(self).store() == old(self).store() && final(self)@ == old(
                self,
            )@,
            match result {
                Ok(Some(_)) => final(self).inner().history()
                    == old(self).inner().history().push(final(self).inner().file()),
                _ => final(self).inner().history() == old(self).inner().history(),
            },
            old(self).wf() ==> {
                &&& final(self).wf()
                &&& result == Ok::<Option<RecordId>, StorageError>(
                    if old(self)@.contains_key(key@) {
                        Some(RecordId(old(self)@[key@]))
                    } else {
                        None
                    },
                )
                &&& final(self)@ == old(self)@.remove(key@)
                &&& index_tree(final(self).store()) == tree_remove(
                    index_tree(old(self).store()),
                    encode_utf8(key@),
                )
                &&& final(self).store().len() == old(self).store().len()
            },
    {
        let bytes = key.as_bytes();
        let (page_no, mut node) = match self.find_leaf(bytes) {
            Ok(found) => found,
            Err(error) => {
                return Err(error);
            },
        };
        let ghost store0 = self.store();
        let ghost whole = index_tree(store0);
        let ghost node0 = node@;
        let ghost good = self.wf();
        let (found, i) = find_entry(&node.items, bytes);
        proof {
            self.pager.lemma_inv();
            if good {
                tree::lemma_leaf_for(whole, bytes@, Seq::empty(), None);
                lemma_find(node0.items, bytes@, found, i as int);
                tree::lemma_place(node0.items, bytes@, i as int);
            }
        }
        if !found {
            proof {
                if good {
                    tree::lemma_nothing_to_remove(node0.items, bytes@);
                    lemma_unchanged(store0, whole, key@);
                }
            }
            return Ok(None);
        }
        let (_, rid) = node.items.remove(i);
        proof {
            lemma_fits_without(node0.items, i as int);
            assert(node@.items =~= node0.items.remove(i as int));
            if good {
                assert(node@.items =~= without(node0.items, bytes@));
                lemma_index_after_remove(store0, whole, key@, page_no, node0, node@);
            }
        }
        let page = node.encode();
        match self.pager.write_page(page_no, &page) {
            Ok(()) => Ok(Some(RecordId(rid))),
            Err(error) => Err(error),
        }
    }

    /// Descends to the leftmost leaf and returns its page.
    fn first_leaf(&self) -> (result: Result<u64, StorageError>)
        requires
            self.inv(),
        ensures
            self.wf() ==> {
                &&& index_tree(self.store()).leaves().len() > 0
                &&& result == Ok::<u64, StorageError>(
                    index_tree(self.store()).leaves()[0].page,
                )
            },
            result matches Err(error) ==> error == StorageError::UnexpectedEof || error
                == StorageError::CorruptPage,
    {
        let ghost nodes = nodes_of(self.store());
        let ghost whole = index_tree(self.store());
        let ghost mut current = whole;
        let ghost mut lo: Seq<u8> = Seq::empty();
        let ghost mut hi: Option<Seq<u8>> = None;
        let mut page_no: u64 = self.root;
        let mut fuel: u64 = self.pager.page_count();
        proof {
            if self.wf() {
                tree::lemma_size(whole, nodes);
                tree::lemma_ordered_entries(whole, lo, hi);
            }
        }
        while fuel > 0
            invariant
                self.inv(),
                nodes == nodes_of(self.store()),
                whole == index_tree(self.store()),
                self.wf() ==> {
                    &&& current.stored(nodes)
                    &&& current.separate()
                    &&& current.ordered(lo, hi)
                    &&& current.page_no() == page_no
                    &&& current.pages().finite()
                    &&& current.pages().len() <= fuel
                    &&& whole.leaves().len() > 0
                    &&& current.leaves().len() > 0
                    &&& current.leaves()[0] == whole.leaves()[0]
                },
            decreases fuel,
        {
            let node = match self.read_node(page_no) {
                Ok(node) => node,
                Err(error) => {
                    return Err(error);
                },
            };
            if node.leaf {
                return Ok(page_no);
            }
            proof {
                if self.wf() {
                    let (page, keys, children) = (
                        current.page_no(),
                        current->keys,
                        current->children,
                    );
                    tree::lemma_leftmost(page, keys, children, lo, hi);
                    tree::lemma_child_size(page, keys, children, 0);
                    assert(children[0].stored(nodes));
                    lo = tree::lower(keys, lo, 0);
                    hi = tree::upper(keys, hi, 0);
                    current = children[0];
                }
            }
            page_no = node.link;
            fuel -= 1;
        }
        proof {
            if self.wf() {
                tree::lemma_own_page(current);
                assert(current.pages().len() == 0);
                assert(false);
            }
        }
        Err(StorageError::CorruptPage)
    }

    /// All keys with their values, in the order of the keys' bytes: from the
    /// leftmost leaf along the chain of leaves.
    pub fn scan_all(&self) -> (result: Result<Vec<(String, RecordId)>, StorageError>)
        requires
            self.inv(),
        ensures
            self.wf() ==> {
                &&& result matches Ok(all)
                &&& lists(all@, self@)
                &&& scanned(all@, index_tree(self.store()).entries())
            },
            result matches Err(error) ==> error == StorageError::UnexpectedEof || error
                == StorageError::CorruptPage,
    {
        let ghost nodes = nodes_of(self.store());
        let ghost whole = index_tree(self.store());
        let ghost leaves = whole.leaves();
        let mut page_no: u64 = match self.first_leaf() {
            Ok(page_no) => page_no,
            Err(error) => {
                return Err(error);
            },
        };
        let mut all: Vec<(String, RecordId)> = Vec::new();
        let mut fuel: u64 = self.pager.page_count();
        let ghost mut position: int = 0;
        proof {
            if self.wf() {
                tree::lemma_leaves(whole, nodes);
                tree::lemma_leaf_count(leaves, nodes);
                tree::lemma_ordered_entries(whole, Seq::empty(), None);
                assert(leaves.take(0) =~= Seq::empty());
            }
        }
        while fuel > 0
            invariant
                self.inv(),
                nodes == nodes_of(self.store()),
                whole == index_tree(self.store()),
                leaves == whole.leaves(),
                self.wf() ==> {
                    &&& tree::leaves_stored(leaves, nodes)
                    &&& sorted(whole.entries())
                    &&& 0 <= position < leaves.len()
                    &&& page_no == leaves[position].page
                    &&& leaves.len() - position <= fuel
                    &&& scanned(all@, tree::entries_of(leaves.take(position)))
                },
            decreases fuel,
        {
            let node = match self.read_node(page_no) {
                Ok(node) => node,
                Err(error) => {
                    return Err(error);
                },
            };
            let ghost before = all@;
            proof {
                if self.wf() {
                    assert(leaves[position].page < nodes.len());
                    lemma_leaf_keys_valid(whole, position);
                    let entries = leaves[position].entries;
                    assert(entries == items_view(node.items@));
                    assert forall|j: int| 0 <= j < node.items@.len() implies valid_utf8(
                        (#[trigger] node.items@[j]).0@,
                    ) by {
                        assert(valid_utf8(entries[j].0));
                    }
                }
            }
            if !node.leaf {
                return Err(StorageError::CorruptPage);
            }
            let mut i: usize = 0;
            while i < node.items.len()
                invariant
                    i <= node.items@.len(),
                    all@.len() == before.len() + i,
                    forall|j: int| 0 <= j < before.len() ==> #[trigger] all@[j] == before[j],
                    self.wf() ==> forall|j: int|
                        0 <= j < node.items@.len() ==> valid_utf8(
                            (#[trigger] node.items@[j]).0@,
                        ),
                    forall|j: int|
                        0 <= j < i ==> encode_utf8((#[trigger] all@[before.len() + j]).0@)
                            == node.items@[j].0@ && all@[before.len() + j].1.0 == node.items@[j].1,
                decreases node.items@.len() - i,
            {
                let bytes = copy_range(node.items[i].0.as_slice(), 0, node.items[i].0.len());
                let rid: u64 = node.items[i].1;
                assert(bytes@ =~= node.items@[i as int].0@);
                let key = match text::string_from_utf8(bytes) {
                    Some(key) => key,
                    None => {
                        return Err(StorageError::CorruptPage);
                    },
                };
                proof {
                    vstd::utf8::decode_utf8_encode_utf8(bytes@);
                }
                all.push((key, RecordId(rid)));
                i += 1;
            }
            proof {
                if self.wf() {
                    let head = leaves.take(position);
                    let more = leaves.take(position + 1);
                    tree::lemma_entries_add(head, seq![leaves[position]]);
                    assert(more =~= head + seq![leaves[position]]);
                    reveal_with_fuel(tree::entries_of, 2);
                    assert(seq![leaves[position]].drop_first() =~= Seq::empty());
                    let entries = leaves[position].entries;
                    assert(tree::entries_of(seq![leaves[position]]) =~= entries);
                    let sofar = tree::entries_of(more);
                    assert(entries == items_view(node.items@));
                    assert forall|j: int| 0 <= j < all@.len() implies encode_utf8(
                        (#[trigger] all@[j]).0@,
                    ) == sofar[j].0 && all@[j].1.0 == sofar[j].1 by {
                        if j >= before.len() {
                            let k = j - before.len();
                            assert(all@[before.len() + k] == all@[j]);
                        }
                    }
                    assert(scanned(all@, sofar));
                    assert(leaves[position].next == node@.link);
                }
            }
            if node.link == NONE {
                proof {
                    if self.wf() {
                        if position + 1 < leaves.len() {
                            assert(leaves[position + 1].page < nodes.len());
                        }
                        assert(leaves.take(position + 1) =~= leaves);
                        lemma_scan_lists(all@, whole.entries());
                    }
                }
                return Ok(all);
            }
            page_no = node.link;
            fuel -= 1;
            proof {
                position = position + 1;
            }
        }
        Err(StorageError::CorruptPage)
    }

    /// Asks for the index to be brought to physical storage.
    pub fn flush(&mut self)
        requires
            old(self).inv(),
        ensures
            final(self).inv(),
            final(self).root() == old(self).root(),
            final(self).inner().same_contents(&old(self).inner()),
            final(self).store() == old(self).store(),
            final(self)@ == old(self)@,
            final(self).inner().actions() == old(self).inner().actions().push(
                ActionView::SyncFile,
            ),
            final(self).inner().base() == old(self).inner().base(),
            final(self).inner().history() == old(self).inner().history(),
    {
        self.pager.flush();
        proof {
            self.pager.lemma_same_contents(&old(self).pager);
        }
    }

    /// Hands over the actions that are still to be performed on the files.
    pub fn take_actions(&mut self) -> (actions: Vec<Action>)
        requires
            old(self).inv(),
        ensures
            final(self).inv(),
            final(self).root() == old(self).root(),
            final(self).inner().same_contents(&old(self).inner()),
            final(self).store() == old(self).store(),
            final(self)@ == old(self)@,
            actions_view(actions@) == old(self).inner().actions(),
            final(self).inner().actions() == Seq::<ActionView>::empty(),
            final(self).inner().base() == (Image {
                file: old(self).inner().file(),
                log: Seq::empty(),
            }),
            final(self).inner().history() == seq![old(self).inner().file()],
    {
        proof {
            self.pager.lemma_inv();
        }
        let actions = self.pager.take_actions();
        proof {
            self.pager.lemma_same_contents(&old(self).pager);
        }
        actions
    }

    /// Whether the tree is a single leaf.
    pub fn root_is_leaf(&self) -> (result: Result<bool, StorageError>)
        requires
            self.inv(),
        ensures
            self.wf() ==> result == Ok::<bool, StorageError>(
                index_tree(self.store()) is Leaf,
            ),
            result matches Err(error) ==> error == StorageError::UnexpectedEof || error
                == StorageError::CorruptPage,
    {
        match self.read_node(self.root) {
            Ok(node) => Ok(node.leaf),
            Err(error) => Err(error),
        }
    }

    /// Takes over the contents of the main file and of the log. An empty file
    /// becomes an empty index. Fails if a page has no place in a file.
    pub fn open(file: &[u8], log: Vec<u8>) -> (result: Result<Self, StorageError>)
        ensures
            match result {
                Ok(tree) => {
                    let image = Image { file: file@, log: log@ };
                    let store = pages_of(recovered(image));
                    &&& !too_large(image)
                    &&& tree.inv()
                    &&& tree.root() == root_of(tree.store())
                    &&& tree.inner().base() == image
                    &&& store.len() > 0 ==> {
                        &&& tree.store() == store
                        &&& tree.inner().history() == seq![recovered(image)]
                    }
                    &&& store.len() == 0 ==> {
                        &&& tree.wf()
                        &&& tree@ == Map::<Seq<char>, u64>::empty()
                        &&& tree.store().len() == 2
                        &&& tree.root() == 1
                        &&& index_tree(tree.store()) == empty_tree()
                        &&& tree.inner().history() == seq![
                            recovered(image),
                            tree.inner().file(),
                        ]
                    }
                },
                Err(error) => {
                    &&& too_large(Image { file: file@, log: log@ })
                    &&& error == StorageError::PageOutOfRange
                },
            },
    {
        let mut pager = match Pager::open(file, log) {
            Ok(pager) => pager,
            Err(error) => {
                return Err(error);
            },
        };
        proof {
            pager.lemma_inv();
        }
        let ghost file0 = pager.file();
        if pager.page_count() == 0 {
            pager.begin_transaction();
            let meta_no: u64 = match pager.allocate_page() {
                Ok(page_no) => page_no,
                Err(error) => {
                    return Err(error);
                },
            };
            let root_no: u64 = match pager.allocate_page() {
                Ok(page_no) => page_no,
                Err(error) => {
                    return Err(error);
                },
            };
            let meta = new_meta_page(root_no);
            match pager.write_page(meta_no, &meta) {
                Ok(()) => {},
                Err(error) => {
                    return Err(error);
                },
            }
            let empty_root = Node { leaf: true, link: NONE, items: Vec::new() };
            assert(empty_root@.items =~= Seq::empty());
            let root_page = empty_root.encode();
            match pager.write_page(root_no, &root_page) {
                Ok(()) => {},
                Err(error) => {
                    return Err(error);
                },
            }
            let ghost store = pager.store();
            pager.commit_transaction();
            proof {
                assert(pager.store() == store);
                assert(store =~= seq![meta_page(1), empty_root@.page()]);
                lemma_empty_index(store);
            }
            let tree = BTree { pager, root: root_no };
            return Ok(tree);
        }
        let root: u64 = match pager.read_page(META_PAGE) {
            Ok(meta) => {
                proof {
                    assert(pager.page(0) == Some(pager.store()[0]));
                    broadcast use lemma_page_len;
                }
                read_u64(meta.as_bytes(), 0)
            },
            Err(error) => {
                assert(pager.page(0) == Some(pager.store()[0]));
                return Err(error);
            },
        };
        Ok(BTree { pager, root })
    }

    /// The index takes a new value for a key that it has without fail.
    pub proof fn lemma_known_key_is_taken(&self, key: Seq<char>, value: u64)
        requires
            self.wf(),
            self@.contains_key(key),
        ensures
            root_insert(
                index_tree(self.store()),
                encode_utf8(key),
                value,
                self.store().len() as int,
            ) matches Ok((_, next)) && next == self.store().len(),
    {
        law_known_keys_are_taken(self.pager.total(), key, value);
    }
}

/// A scan lists every key of the index once, with its value, in the order of
/// the keys' bytes.
pub proof fn law_scans_are_complete(
    all: Seq<(String, RecordId)>,
    map: Map<Seq<char>, u64>,
    key: Seq<char>,
    i: int,
    j: int,
)
    requires
        lists(all, map),
    ensures
        0 <= i < all.len() ==> map.contains_key(all[i].0@) && map[all[i].0@] == all[i].1.0,
        0 <= i < j < all.len() ==> lex_lt(encode_utf8(all[i].0@), encode_utf8(all[j].0@)),
        map.contains_key(key) <==> exists|k: int|
            0 <= k < all.len() && (#[trigger] all[k]).0@ == key,
{
}

/// The number of the root page stands in the first eight bytes of the first
/// page.
pub proof fn law_place_of_the_root(store: Seq<Seq<u8>>, root: u64)
    requires
        store.len() > 0,
        store[0].len() == 4096,
    ensures
        root_of(store) == le_value(store[0].subrange(0, 8)),
        meta_page(root) == le_bytes(root as nat, 8) + Seq::new(4088, |i: int| 0u8),
{
    bytes::lemma_byte_ranges();
    bytes::law_le_bytes_of_value(store[0].subrange(0, 8));
    bytes::lemma_le_bytes_len(root as nat, 8);
    assert(meta_page(root) =~= le_bytes(root as nat, 8) + Seq::new(4088, |i: int| 0u8));
}

} // verus!
