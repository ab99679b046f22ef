//! The index as a mathematical tree, apart from the pages that hold it.

use crate::disk;
use crate::disk::PAGE_LIMIT;
use crate::disk::pages_below;
use crate::node;
use crate::node::Item;
use crate::node::MAX_BODY;
use crate::node::NodeView;
use crate::node::items_size;
use crate::pager::StorageError;
use crate::text;
use crate::text::lex_lt;
use vstd::prelude::*;

verus! {

/// A B+tree. Every node knows the page it is on.
pub enum Tree {
    /// Sorted entries, and the page of the leaf to the right.
    Leaf { page: u64, next: u64, entries: Seq<Item> },
    /// Separators with one more child than there are separators.
    Branch { page: u64, keys: Seq<Seq<u8>>, children: Seq<Tree> },
}

/// One leaf of a tree.
pub struct LeafView {
    pub page: u64,
    pub next: u64,
    pub entries: Seq<Item>,
}

impl Tree {
    /// The page of the topmost node.
    pub open spec fn page_no(self) -> u64 {
        match self {
            Tree::Leaf { page, .. } => page,
            Tree::Branch { page, .. } => page,
        }
    }

    /// The topmost node.
    pub open spec fn node(self) -> NodeView {
        match self {
            Tree::Leaf { next, entries, .. } => NodeView {
                leaf: true,
                link: next,
                items: entries,
            },
            Tree::Branch { keys, children, .. } => NodeView {
                leaf: false,
                link: children[0].page_no(),
                items: Seq::new(keys.len(), |i: int| (keys[i], children[i + 1].page_no())),
            },
        }
    }

    /// The pages of all nodes.
    pub open spec fn pages(self) -> Set<u64>
        decreases self,
    {
        match self {
            Tree::Leaf { page, .. } => set![page],
            Tree::Branch { page, children, .. } => Set::new(
                |q: u64|
                    q == page || exists|i: int|
                        0 <= i < children.len() && (#[trigger] children[i]).pages().contains(q),
            ),
        }
    }

    /// A branch has one more child than it has separators, and no two nodes
    /// share a page.
    pub open spec fn separate(self) -> bool
        decreases self,
    {
        match self {
            Tree::Leaf { .. } => true,
            Tree::Branch { page, keys, children } => {
                &&& children.len() == keys.len() + 1
                &&& forall|i: int|
                    0 <= i < children.len() ==> (#[trigger] children[i]).separate()
                        && !children[i].pages().contains(page)
                &&& forall|i: int, j: int|
                    0 <= i < j < children.len() ==> (#[trigger] children[i]).pages().disjoint(
                        (#[trigger] children[j]).pages(),
                    )
            },
        }
    }

    /// The nodes that are stored on pages include all nodes of this tree.
    pub open spec fn stored(self, nodes: Seq<Option<NodeView>>) -> bool
        decreases self,
    {
        &&& self.page_no() < nodes.len()
        &&& nodes[self.page_no() as int] == Some(self.node())
        &&& match self {
            Tree::Leaf { .. } => true,
            Tree::Branch { keys, children, .. } => {
                &&& children.len() == keys.len() + 1
                &&& forall|i: int|
                    0 <= i < children.len() ==> (#[trigger] children[i]).stored(nodes)
            },
        }
    }

    /// The leaves from left to right.
    pub open spec fn leaves(self) -> Seq<LeafView>
        decreases self,
    {
        match self {
            Tree::Leaf { page, next, entries } => seq![LeafView { page, next, entries }],
            Tree::Branch { children, .. } => forest_leaves(children),
        }
    }

    /// The entries of all leaves.
    pub open spec fn entries(self) -> Seq<Item> {
        entries_of(self.leaves())
    }

    /// Every key lies between `lo` and `hi`, entries and separators are
    /// sorted, and each child holds what its separators promise.
    pub open spec fn ordered(self, lo: Seq<u8>, hi: Option<Seq<u8>>) -> bool
        decreases self,
    {
        match self {
            Tree::Leaf { entries, .. } => {
                &&& sorted(entries)
                &&& forall|i: int|
                    0 <= i < entries.len() ==> in_range((#[trigger] entries[i]).0, lo, hi)
            },
            Tree::Branch { keys, children, .. } => {
                &&& separators(keys, lo, hi)
                &&& children.len() == keys.len() + 1
                &&& forall|i: int|
                    0 <= i < children.len() ==> (#[trigger] children[i]).ordered(
                        lower(keys, lo, i),
                        upper(keys, hi, i),
                    )
            },
        }
    }
}

impl Tree {
    /// No key is longer than `n` bytes.
    pub open spec fn short(self, n: nat) -> bool
        decreases self,
    {
        match self {
            Tree::Leaf { entries, .. } => short_items(entries, n),
            Tree::Branch { keys, children, .. } => {
                &&& forall|i: int| 0 <= i < keys.len() ==> (#[trigger] keys[i]).len() <= n
                &&& forall|i: int| 0 <= i < children.len() ==> (#[trigger] children[i]).short(n)
            },
        }
    }

    /// Every node fits in a page.
    pub open spec fn fitting(self) -> bool
        decreases self,
    {
        &&& self.node().fits()
        &&& match self {
            Tree::Leaf { .. } => true,
            Tree::Branch { children, .. } => forall|i: int|
                0 <= i < children.len() ==> (#[trigger] children[i]).fitting(),
        }
    }

    /// No way down leads through more than `h` nodes.
    pub open spec fn at_most(self, h: nat) -> bool
        decreases self,
    {
        &&& h > 0
        &&& match self {
            Tree::Leaf { .. } => true,
            Tree::Branch { children, .. } => forall|i: int|
                0 <= i < children.len() ==> (#[trigger] children[i]).at_most((h - 1) as nat),
        }
    }

    /// The number of nodes on the way down to the leaf for `key`.
    pub open spec fn depth(self, key: Seq<u8>) -> nat
        decreases self,
    {
        match self {
            Tree::Leaf { .. } => 1,
            Tree::Branch { keys, children, .. } => {
                let i = child_index(keys, key) as int;
                if i < children.len() {
                    1 + children[i].depth(key)
                } else {
                    1
                }
            },
        }
    }
}

/// No key is longer than `n` bytes.
pub open spec fn short_items(items: Seq<Item>, n: nat) -> bool {
    forall|i: int| 0 <= i < items.len() ==> (#[trigger] items[i]).0.len() <= n
}

/// The leaves of several trees from left to right.
pub open spec fn forest_leaves(trees: Seq<Tree>) -> Seq<LeafView>
    decreases trees,
{
    if trees.len() == 0 {
        Seq::empty()
    } else {
        trees[0].leaves() + forest_leaves(trees.drop_first())
    }
}

/// The entries of several leaves.
pub open spec fn entries_of(leaves: Seq<LeafView>) -> Seq<Item>
    decreases leaves.len(),
{
    if leaves.len() == 0 {
        Seq::empty()
    } else {
        leaves[0].entries + entries_of(leaves.drop_first())
    }
}

/// Each leaf names the next one, and the last names `end`.
pub open spec fn chained(leaves: Seq<LeafView>, end: u64) -> bool {
    forall|i: int|
        0 <= i < leaves.len() ==> #[trigger] leaves[i].next == (if i + 1 < leaves.len() {
            leaves[i + 1].page
        } else {
            end
        })
}

/// The keys of the items are in strictly ascending order.
pub open spec fn sorted(items: Seq<Item>) -> bool {
    forall|i: int, j: int|
        0 <= i < j < items.len() ==> lex_lt((#[trigger] items[i]).0, (#[trigger] items[j]).0)
}

/// `key` is not before `lo`, and before `hi` if there is one.
pub open spec fn in_range(key: Seq<u8>, lo: Seq<u8>, hi: Option<Seq<u8>>) -> bool {
    !lex_lt(key, lo) && under(key, hi)
}

/// `key` is before `hi` if there is one.
pub open spec fn under(key: Seq<u8>, hi: Option<Seq<u8>>) -> bool {
    hi matches Some(h) ==> lex_lt(key, h)
}

/// Separators in strictly ascending order, all between `lo` and `hi`.
pub open spec fn separators(keys: Seq<Seq<u8>>, lo: Seq<u8>, hi: Option<Seq<u8>>) -> bool {
    &&& forall|i: int, j: int|
        0 <= i < j < keys.len() ==> lex_lt(#[trigger] keys[i], #[trigger] keys[j])
    &&& forall|i: int|
        0 <= i < keys.len() ==> lex_lt(lo, #[trigger] keys[i]) && under(keys[i], hi)
}

/// The lower bound of child `i`.
pub open spec fn lower(keys: Seq<Seq<u8>>, lo: Seq<u8>, i: int) -> Seq<u8> {
    if i == 0 {
        lo
    } else {
        keys[i - 1]
    }
}

/// The upper bound of child `i`.
pub open spec fn upper(keys: Seq<Seq<u8>>, hi: Option<Seq<u8>>, i: int) -> Option<Seq<u8>> {
    if i == keys.len() {
        hi
    } else {
        Some(keys[i])
    }
}

/// The child to descend into: the one before the first separator that is
/// greater than `key`.
pub open spec fn child_index(keys: Seq<Seq<u8>>, key: Seq<u8>) -> nat
    decreases keys.len(),
{
    if keys.len() == 0 || lex_lt(key, keys[0]) {
        0
    } else {
        1 + child_index(keys.drop_first(), key)
    }
}

/// The items whose keys are before `key`.
pub open spec fn before(items: Seq<Item>, key: Seq<u8>) -> Seq<Item> {
    items.filter(|item: Item| lex_lt(item.0, key))
}

/// The items whose keys are after `key`.
pub open spec fn after(items: Seq<Item>, key: Seq<u8>) -> Seq<Item> {
    items.filter(|item: Item| lex_lt(key, item.0))
}

/// The items with `key` set to `value`.
pub open spec fn upsert(items: Seq<Item>, key: Seq<u8>, value: u64) -> Seq<Item> {
    before(items, key).push((key, value)) + after(items, key)
}

/// The items without `key`.
pub open spec fn without(items: Seq<Item>, key: Seq<u8>) -> Seq<Item> {
    before(items, key) + after(items, key)
}

/// The value of `key` in sorted items.
pub open spec fn value_of(items: Seq<Item>, key: Seq<u8>) -> Option<u64> {
    if exists|i: int| 0 <= i < items.len() && (#[trigger] items[i]).0 == key {
        let i = choose|i: int| 0 <= i < items.len() && (#[trigger] items[i]).0 == key;
        Some(items[i].1)
    } else {
        None
    }
}

/// A tree after an insertion: the tree in the place of the old one and, if
/// the topmost node was split, the separator and the tree to the right.
pub struct Grown {
    pub left: Tree,
    pub right: Option<(Seq<u8>, Tree)>,
    /// The number of the first page that is still unused.
    pub fresh: int,
}

/// A leaf with these entries, or two leaves with one half each if they do
/// not fit in a page.
pub open spec fn grow_leaf(page: u64, next: u64, entries: Seq<Item>, fresh: int) -> Result<
    Grown,
    StorageError,
> {
    let whole = Tree::Leaf { page, next, entries };
    let mid = entries.len() as int / 2;
    let left = Tree::Leaf { page, next: fresh as u64, entries: entries.take(mid) };
    let right = Tree::Leaf { page: fresh as u64, next, entries: entries.skip(mid) };
    if whole.node().fits() {
        Ok(Grown { left: whole, right: None, fresh })
    } else if !left.node().fits() || !right.node().fits() {
        Err(StorageError::PageOverflow)
    } else if fresh >= PAGE_LIMIT {
        Err(StorageError::PageOutOfRange)
    } else {
        Ok(Grown { left, right: Some((entries[mid].0, right)), fresh: fresh + 1 })
    }
}

/// An internal node with these separators and children, or two if they do
/// not fit in a page; the separator in the middle moves up.
pub open spec fn grow_branch(
    page: u64,
    keys: Seq<Seq<u8>>,
    children: Seq<Tree>,
    fresh: int,
) -> Result<Grown, StorageError> {
    let whole = Tree::Branch { page, keys, children };
    let mid = keys.len() as int / 2;
    let left = Tree::Branch { page, keys: keys.take(mid), children: children.take(mid + 1) };
    let right = Tree::Branch {
        page: fresh as u64,
        keys: keys.skip(mid + 1),
        children: children.skip(mid + 1),
    };
    if whole.node().fits() {
        Ok(Grown { left: whole, right: None, fresh })
    } else if !left.node().fits() || !right.node().fits() {
        Err(StorageError::PageOverflow)
    } else if fresh >= PAGE_LIMIT {
        Err(StorageError::PageOutOfRange)
    } else {
        Ok(Grown { left, right: Some((keys[mid], right)), fresh: fresh + 1 })
    }
}

/// The separators after child `i` was replaced by what became of it.
pub open spec fn grown_keys(keys: Seq<Seq<u8>>, i: int, grown: Grown) -> Seq<Seq<u8>> {
    match grown.right {
        Some((key, _)) => keys.insert(i, key),
        None => keys,
    }
}

/// The children after child `i` was replaced by what became of it.
pub open spec fn grown_children(children: Seq<Tree>, i: int, grown: Grown) -> Seq<Tree> {
    match grown.right {
        Some((_, tree)) => children.update(i, grown.left).insert(i + 1, tree),
        None => children.update(i, grown.left),
    }
}

/// The tree after `key` was set to `value`. New pages are numbered from
/// `fresh` on.
pub open spec fn tree_insert(tree: Tree, key: Seq<u8>, value: u64, fresh: int) -> Result<
    Grown,
    StorageError,
>
    decreases tree,
{
    match tree {
        Tree::Leaf { page, next, entries } => grow_leaf(
            page,
            next,
            upsert(entries, key, value),
            fresh,
        ),
        Tree::Branch { page, keys, children } => {
            let i = child_index(keys, key) as int;
            if i >= children.len() {
                Err(StorageError::CorruptPage)
            } else {
                match tree_insert(children[i], key, value, fresh) {
                    Ok(grown) => grow_branch(
                        page,
                        grown_keys(keys, i, grown),
                        grown_children(children, i, grown),
                        grown.fresh,
                    ),
                    Err(error) => Err(error),
                }
            }
        },
    }
}

/// The tree after `key` was set to `value`, with a new root above it if the
/// old root was split.
pub open spec fn root_insert(tree: Tree, key: Seq<u8>, value: u64, fresh: int) -> Result<
    (Tree, int),
    StorageError,
> {
    match tree_insert(tree, key, value, fresh) {
        Ok(grown) => match grown.right {
            None => Ok((grown.left, grown.fresh)),
            Some((separator, right)) => {
                let root = Tree::Branch {
                    page: grown.fresh as u64,
                    keys: seq![separator],
                    children: seq![grown.left, right],
                };
                if !root.node().fits() {
                    Err(StorageError::PageOverflow)
                } else if grown.fresh >= PAGE_LIMIT {
                    Err(StorageError::PageOutOfRange)
                } else {
                    Ok((root, grown.fresh + 1))
                }
            },
        },
        Err(error) => Err(error),
    }
}

/// The tree after `key` was removed from its leaf.
pub open spec fn tree_remove(tree: Tree, key: Seq<u8>) -> Tree
    decreases tree,
{
    match tree {
        Tree::Leaf { page, next, entries } => Tree::Leaf {
            page,
            next,
            entries: without(entries, key),
        },
        Tree::Branch { page, keys, children } => {
            let i = child_index(keys, key) as int;
            if i >= children.len() {
                tree
            } else {
                Tree::Branch {
                    page,
                    keys,
                    children: children.update(i, tree_remove(children[i], key)),
                }
            }
        },
    }
}

pub proof fn lemma_filter_add(a: Seq<Item>, b: Seq<Item>, key: Seq<u8>)
    ensures
        before(a + b, key) == before(a, key) + before(b, key),
        after(a + b, key) == after(a, key) + after(b, key),
{
    Seq::filter_distributes_over_add(a, b, |item: Item| lex_lt(item.0, key));
    Seq::filter_distributes_over_add(a, b, |item: Item| lex_lt(key, item.0));
}

/// Items that are all before a key.
pub proof fn lemma_all_before(items: Seq<Item>, key: Seq<u8>)
    requires
        forall|i: int| 0 <= i < items.len() ==> lex_lt((#[trigger] items[i]).0, key),
    ensures
        before(items, key) == items,
        after(items, key) == Seq::<Item>::empty(),
    decreases items.len(),
{
    reveal(Seq::filter);
    if items.len() > 0 {
        let init = items.drop_last();
        assert forall|i: int| 0 <= i < init.len() implies lex_lt((#[trigger] init[i]).0, key) by {
            assert(init[i] == items[i]);
        }
        lemma_all_before(init, key);
        text::law_lex_strict_total_order(items.last().0, key, key);
        assert(init.push(items.last()) =~= items);
    } else {
        assert(items =~= Seq::empty());
    }
}

/// Items that are all after a key.
pub proof fn lemma_all_after(items: Seq<Item>, key: Seq<u8>)
    requires
        forall|i: int| 0 <= i < items.len() ==> lex_lt(key, (#[trigger] items[i]).0),
    ensures
        before(items, key) == Seq::<Item>::empty(),
        after(items, key) == items,
    decreases items.len(),
{
    reveal(Seq::filter);
    if items.len() > 0 {
        let init = items.drop_last();
        assert forall|i: int| 0 <= i < init.len() implies lex_lt(key, (#[trigger] init[i]).0) by {
            assert(init[i] == items[i]);
        }
        lemma_all_after(init, key);
        text::law_lex_strict_total_order(items.last().0, key, key);
        assert(init.push(items.last()) =~= items);
    } else {
        assert(items =~= Seq::empty());
    }
}

/// Setting or removing a key leaves alone what is before and after.
pub proof fn lemma_change_middle(
    a: Seq<Item>,
    b: Seq<Item>,
    c: Seq<Item>,
    key: Seq<u8>,
    value: u64,
)
    requires
        forall|i: int| 0 <= i < a.len() ==> lex_lt((#[trigger] a[i]).0, key),
        forall|i: int| 0 <= i < c.len() ==> lex_lt(key, (#[trigger] c[i]).0),
    ensures
        upsert(a + b + c, key, value) == a + upsert(b, key, value) + c,
        without(a + b + c, key) == a + without(b, key) + c,
{
    lemma_filter_add(a + b, c, key);
    lemma_filter_add(a, b, key);
    lemma_all_before(a, key);
    lemma_all_after(c, key);
    assert(upsert(a + b + c, key, value) =~= a + upsert(b, key, value) + c);
    assert(without(a + b + c, key) =~= a + without(b, key) + c);
}

/// An item is neither before nor after its own key.
proof fn lemma_neither(item: Item)
    ensures
        before(seq![item], item.0) == Seq::<Item>::empty(),
        after(seq![item], item.0) == Seq::<Item>::empty(),
{
    reveal_with_fuel(Seq::filter, 2);
    text::lemma_lex_irreflexive(item.0);
    assert(seq![item].drop_last() =~= Seq::empty());
    assert(before(seq![item], item.0) =~= Seq::empty());
    assert(after(seq![item], item.0) =~= Seq::empty());
}

/// In sorted items, the place of a key splits them into what is before and
/// what is after.
pub proof fn lemma_place(items: Seq<Item>, key: Seq<u8>, i: int)
    requires
        sorted(items),
        0 <= i <= items.len(),
        i > 0 ==> lex_lt(items[i - 1].0, key),
        i < items.len() ==> !lex_lt(items[i].0, key),
    ensures
        before(items, key) == items.take(i),
        i < items.len() && items[i].0 == key ==> after(items, key) == items.skip(i + 1),
        i == items.len() || items[i].0 != key ==> after(items, key) == items.skip(i),
{
    let head = items.take(i);
    let tail = items.skip(i);
    assert(items =~= head + tail);
    assert forall|j: int| 0 <= j < head.len() implies lex_lt((#[trigger] head[j]).0, key) by {
        assert(head[j] == items[j]);
        if j < i - 1 {
            text::lemma_lex_transitive(items[j].0, items[i - 1].0, key);
        }
    }
    lemma_filter_add(head, tail, key);
    lemma_all_before(head, key);
    if i < items.len() {
        text::lemma_lex_total(items[i].0, key);
        if items[i].0 == key {
            let single = seq![items[i]];
            let rest = items.skip(i + 1);
            assert(tail =~= single + rest);
            lemma_filter_add(single, rest, key);
            lemma_neither(items[i]);
            lemma_all_after(rest, key);
            assert(before(items, key) =~= head);
            assert(after(items, key) =~= rest);
        } else {
            assert forall|j: int| 0 <= j < tail.len() implies lex_lt(
                key,
                (#[trigger] tail[j]).0,
            ) by {
                if j > 0 {
                    text::lemma_lex_transitive(key, items[i].0, items[i + j].0);
                }
            }
            lemma_all_after(tail, key);
            assert(before(items, key) =~= head);
            assert(after(items, key) =~= tail);
        }
    } else {
        assert(tail =~= Seq::empty());
        lemma_all_after(tail, key);
        assert(before(items, key) =~= head);
        assert(after(items, key) =~= tail);
    }
}

pub proof fn lemma_child_index(keys: Seq<Seq<u8>>, key: Seq<u8>)
    ensures
        child_index(keys, key) <= keys.len(),
        forall|j: int| 0 <= j < child_index(keys, key) ==> !lex_lt(key, #[trigger] keys[j]),
        child_index(keys, key) < keys.len() ==> lex_lt(key, keys[child_index(keys, key) as int]),
    decreases keys.len(),
{
    if keys.len() > 0 && !lex_lt(key, keys[0]) {
        let rest = keys.drop_first();
        lemma_child_index(rest, key);
        assert forall|j: int| 0 <= j < child_index(keys, key) implies !lex_lt(
            key,
            #[trigger] keys[j],
        ) by {
            if j > 0 {
                assert(rest[j - 1] == keys[j]);
            }
        }
    }
}

pub proof fn lemma_entries_add(a: Seq<LeafView>, b: Seq<LeafView>)
    ensures
        entries_of(a + b) == entries_of(a) + entries_of(b),
    decreases a.len(),
{
    if a.len() == 0 {
        assert(a + b =~= b);
        assert(entries_of(a) + entries_of(b) =~= entries_of(b));
    } else {
        lemma_entries_add(a.drop_first(), b);
        assert((a + b).drop_first() =~= a.drop_first() + b);
        assert(entries_of(a + b) =~= entries_of(a) + entries_of(b));
    }
}

pub proof fn lemma_leaves_add(a: Seq<Tree>, b: Seq<Tree>)
    ensures
        forest_leaves(a + b) == forest_leaves(a) + forest_leaves(b),
    decreases a.len(),
{
    if a.len() == 0 {
        assert(a + b =~= b);
        assert(forest_leaves(a) + forest_leaves(b) =~= forest_leaves(b));
    } else {
        lemma_leaves_add(a.drop_first(), b);
        assert((a + b).drop_first() =~= a.drop_first() + b);
        assert(forest_leaves(a + b) =~= forest_leaves(a) + forest_leaves(b));
    }
}

pub proof fn lemma_one_tree(tree: Tree)
    ensures
        forest_leaves(seq![tree]) == tree.leaves(),
{
    reveal_with_fuel(forest_leaves, 2);
    assert(seq![tree].drop_first() =~= Seq::empty());
    assert(forest_leaves(seq![tree]) =~= tree.leaves());
}

/// The leaves around child `i`.
pub proof fn lemma_leaves_at(trees: Seq<Tree>, i: int)
    requires
        0 <= i < trees.len(),
    ensures
        forest_leaves(trees) == forest_leaves(trees.take(i)) + trees[i].leaves() + forest_leaves(
            trees.skip(i + 1),
        ),
{
    lemma_leaves_add(trees.take(i), seq![trees[i]]);
    lemma_leaves_add(trees.take(i) + seq![trees[i]], trees.skip(i + 1));
    lemma_one_tree(trees[i]);
    assert(trees =~= trees.take(i) + seq![trees[i]] + trees.skip(i + 1));
}

/// A node that is ordered can be cut at a separator.
pub proof fn lemma_cut_ordered(
    page: u64,
    keys: Seq<Seq<u8>>,
    children: Seq<Tree>,
    lo: Seq<u8>,
    hi: Option<Seq<u8>>,
    mid: int,
    other: u64,
)
    requires
        (Tree::Branch { page, keys, children }).ordered(lo, hi),
        0 <= mid < keys.len(),
    ensures
        (Tree::Branch {
            page,
            keys: keys.take(mid),
            children: children.take(mid + 1),
        }).ordered(lo, Some(keys[mid])),
        (Tree::Branch {
            page: other,
            keys: keys.skip(mid + 1),
            children: children.skip(mid + 1),
        }).ordered(keys[mid], hi),
{
    let left_keys = keys.take(mid);
    let left = children.take(mid + 1);
    let right_keys = keys.skip(mid + 1);
    let right = children.skip(mid + 1);
    assert forall|i: int| 0 <= i < left.len() implies (#[trigger] left[i]).ordered(
        lower(left_keys, lo, i),
        upper(left_keys, Some(keys[mid]), i),
    ) by {
        assert(children[i].ordered(lower(keys, lo, i), upper(keys, hi, i)));
    }
    assert forall|i: int| 0 <= i < right.len() implies (#[trigger] right[i]).ordered(
        lower(right_keys, keys[mid], i),
        upper(right_keys, hi, i),
    ) by {
        let j = i + mid + 1;
        assert(children[j].ordered(lower(keys, lo, j), upper(keys, hi, j)));
    }
    assert(separators(left_keys, lo, Some(keys[mid])));
    assert(separators(right_keys, keys[mid], hi));
}

/// All entries of an ordered tree are sorted and lie between its bounds.
pub proof fn lemma_ordered_entries(tree: Tree, lo: Seq<u8>, hi: Option<Seq<u8>>)
    requires
        tree.ordered(lo, hi),
    ensures
        sorted(tree.entries()),
        forall|i: int|
            0 <= i < tree.entries().len() ==> in_range((#[trigger] tree.entries()[i]).0, lo, hi),
        tree.leaves().len() > 0,
    decreases tree,
{
    match tree {
        Tree::Leaf { page, next, entries } => {
            reveal_with_fuel(entries_of, 2);
            assert(tree.leaves().drop_first() =~= Seq::empty());
            assert(tree.entries() =~= entries);
        },
        Tree::Branch { page, keys, children } => {
            lemma_ordered_forest(page, keys, children, lo, hi);
        },
    }
}

proof fn lemma_ordered_forest(
    page: u64,
    keys: Seq<Seq<u8>>,
    children: Seq<Tree>,
    lo: Seq<u8>,
    hi: Option<Seq<u8>>,
)
    requires
        (Tree::Branch { page, keys, children }).ordered(lo, hi),
    ensures
        ({
            let entries = entries_of(forest_leaves(children));
            &&& sorted(entries)
            &&& forall|i: int|
                0 <= i < entries.len() ==> in_range((#[trigger] entries[i]).0, lo, hi)
            &&& forest_leaves(children).len() > 0
        }),
    decreases children,
{
    let first = children[0];
    assert(first.ordered(lower(keys, lo, 0), upper(keys, hi, 0)));
    lemma_ordered_entries(first, lower(keys, lo, 0), upper(keys, hi, 0));
    let rest = children.drop_first();
    lemma_entries_add(first.leaves(), forest_leaves(rest));
    let entries = entries_of(forest_leaves(children));
    let a = first.entries();
    let b = entries_of(forest_leaves(rest));
    assert(entries == a + b);
    if keys.len() == 0 {
        assert(rest =~= Seq::empty());
        assert(b =~= Seq::empty());
        assert(entries =~= a);
    } else {
        lemma_cut_ordered(page, keys, children, lo, hi, 0, page);
        assert(children.skip(1) =~= rest);
        lemma_ordered_forest(page, keys.skip(1), rest, keys[0], hi);
        assert forall|i: int, j: int| 0 <= i < j < entries.len() implies lex_lt(
            (#[trigger] entries[i]).0,
            (#[trigger] entries[j]).0,
        ) by {
            if i < a.len() && j >= a.len() {
                assert(entries[i] == a[i]);
                assert(entries[j] == b[j - a.len()]);
                text::lemma_lt_le(a[i].0, keys[0], b[j - a.len()].0);
            } else if j < a.len() {
                assert(entries[i] == a[i]);
                assert(entries[j] == a[j]);
            } else {
                assert(entries[i] == b[i - a.len()]);
                assert(entries[j] == b[j - a.len()]);
            }
        }
        assert forall|i: int| 0 <= i < entries.len() implies in_range(
            (#[trigger] entries[i]).0,
            lo,
            hi,
        ) by {
            if i < a.len() {
                assert(entries[i] == a[i]);
                if hi is Some {
                    text::lemma_lex_transitive(a[i].0, keys[0], hi->0);
                }
            } else {
                let k = b[i - a.len()].0;
                assert(entries[i].0 == k);
                assert(lex_lt(lo, keys[0]));
                if lex_lt(k, lo) {
                    text::lemma_lex_transitive(k, lo, keys[0]);
                }
            }
        }
    }
}

/// What the other children hold is before or after `key`.
pub proof fn lemma_siblings(
    page: u64,
    keys: Seq<Seq<u8>>,
    children: Seq<Tree>,
    lo: Seq<u8>,
    hi: Option<Seq<u8>>,
    key: Seq<u8>,
)
    requires
        (Tree::Branch { page, keys, children }).ordered(lo, hi),
    ensures
        ({
            let i = child_index(keys, key) as int;
            let left = entries_of(forest_leaves(children.take(i)));
            let right = entries_of(forest_leaves(children.skip(i + 1)));
            &&& i < children.len()
            &&& forall|j: int| 0 <= j < left.len() ==> lex_lt((#[trigger] left[j]).0, key)
            &&& forall|j: int| 0 <= j < right.len() ==> lex_lt(key, (#[trigger] right[j]).0)
            &&& children[i].ordered(lower(keys, lo, i), upper(keys, hi, i))
            &&& in_range(key, lo, hi) ==> in_range(key, lower(keys, lo, i), upper(keys, hi, i))
        }),
{
    let i = child_index(keys, key) as int;
    lemma_child_index(keys, key);
    assert(children[i].ordered(lower(keys, lo, i), upper(keys, hi, i)));
    let left = entries_of(forest_leaves(children.take(i)));
    let right = entries_of(forest_leaves(children.skip(i + 1)));
    if i > 0 {
        lemma_cut_ordered(page, keys, children, lo, hi, i - 1, page);
        lemma_ordered_forest(page, keys.take(i - 1), children.take(i), lo, Some(keys[i - 1]));
        assert forall|j: int| 0 <= j < left.len() implies lex_lt((#[trigger] left[j]).0, key) by {
            text::lemma_lt_le(left[j].0, keys[i - 1], key);
        }
    } else {
        assert(children.take(i) =~= Seq::empty());
    }
    if i < keys.len() {
        lemma_cut_ordered(page, keys, children, lo, hi, i, page);
        lemma_ordered_forest(page, keys.skip(i + 1), children.skip(i + 1), keys[i], hi);
        assert forall|j: int| 0 <= j < right.len() implies lex_lt(key, (#[trigger] right[j]).0) by {
            text::lemma_lt_le(key, keys[i], right[j].0);
        }
    } else {
        assert(children.skip(i + 1) =~= Seq::empty());
    }
}

/// Only at its place can a key be found.
pub proof fn lemma_only_place(items: Seq<Item>, key: Seq<u8>, i: int, j: int)
    requires
        sorted(items),
        0 <= i <= items.len(),
        i > 0 ==> lex_lt(items[i - 1].0, key),
        i < items.len() ==> !lex_lt(items[i].0, key),
        0 <= j < items.len(),
        items[j].0 == key,
    ensures
        j == i,
{
    text::lemma_lex_irreflexive(key);
    if j < i {
        if j < i - 1 {
            text::lemma_lex_transitive(items[j].0, items[i - 1].0, key);
        }
    } else if j > i {
        assert(lex_lt(items[i].0, items[j].0));
    }
}

/// The place of a key in sorted items.
pub proof fn lemma_find_place(items: Seq<Item>, key: Seq<u8>) -> (i: int)
    requires
        sorted(items),
    ensures
        0 <= i <= items.len(),
        i > 0 ==> lex_lt(items[i - 1].0, key),
        i < items.len() ==> !lex_lt(items[i].0, key),
    decreases items.len(),
{
    if items.len() == 0 || lex_lt(items.last().0, key) {
        items.len() as int
    } else {
        lemma_find_place(items.drop_last(), key)
    }
}

/// Setting a key keeps items sorted and between their bounds, and so does
/// removing one.
pub proof fn lemma_change_sorted(
    items: Seq<Item>,
    key: Seq<u8>,
    value: u64,
    lo: Seq<u8>,
    hi: Option<Seq<u8>>,
)
    requires
        sorted(items),
        forall|i: int| 0 <= i < items.len() ==> in_range((#[trigger] items[i]).0, lo, hi),
    ensures
        in_range(key, lo, hi) ==> {
            let new = upsert(items, key, value);
            sorted(new) && forall|i: int|
                0 <= i < new.len() ==> in_range((#[trigger] new[i]).0, lo, hi)
        },
        ({
            let new = without(items, key);
            sorted(new) && forall|i: int|
                0 <= i < new.len() ==> in_range((#[trigger] new[i]).0, lo, hi)
        }),
{
    let i = lemma_find_place(items, key);
    lemma_place(items, key, i);
    let found = i < items.len() && items[i].0 == key;
    let skipped = if found {
        i + 1
    } else {
        i
    };
    let new = upsert(items, key, value);
    assert forall|a: int, b: int| 0 <= a < b < new.len() implies lex_lt(
        (#[trigger] new[a]).0,
        (#[trigger] new[b]).0,
    ) by {
        let a2 = if a <= i {
            a
        } else {
            a - i - 1 + skipped
        };
        let b2 = if b <= i {
            b
        } else {
            b - i - 1 + skipped
        };
        if a < i && b == i {
            if a < i - 1 {
                text::lemma_lex_transitive(items[a].0, items[i - 1].0, key);
            }
        } else if a == i {
            assert(new[b] == items[b2]);
            if !found {
                text::lemma_lex_total(items[i].0, key);
                if b2 > i {
                    text::lemma_lex_transitive(key, items[i].0, items[b2].0);
                }
            }
        } else {
            assert(new[a] == items[a2]);
            assert(new[b] == items[b2]);
        }
    }
    let rest = without(items, key);
    assert forall|a: int, b: int| 0 <= a < b < rest.len() implies lex_lt(
        (#[trigger] rest[a]).0,
        (#[trigger] rest[b]).0,
    ) by {
        let a2 = if a < i {
            a
        } else {
            a - i + skipped
        };
        let b2 = if b < i {
            b
        } else {
            b - i + skipped
        };
        assert(rest[a] == items[a2]);
        assert(rest[b] == items[b2]);
    }
}

/// What became of an ordered tree is ordered.
pub open spec fn grown_ordered(grown: Grown, lo: Seq<u8>, hi: Option<Seq<u8>>) -> bool {
    match grown.right {
        None => grown.left.ordered(lo, hi),
        Some((key, right)) => {
            &&& lex_lt(lo, key)
            &&& under(key, hi)
            &&& grown.left.ordered(lo, Some(key))
            &&& right.ordered(key, hi)
        },
    }
}

/// The leaves of what became of a tree.
pub open spec fn grown_leaves(grown: Grown) -> Seq<LeafView> {
    match grown.right {
        None => grown.left.leaves(),
        Some((_, right)) => grown.left.leaves() + right.leaves(),
    }
}

/// `new` can stand in the chain of leaves where `old` stood.
pub open spec fn replaces(old_leaves: Seq<LeafView>, new: Seq<LeafView>) -> bool {
    &&& old_leaves.len() > 0
    &&& new.len() > 0
    &&& new[0].page == old_leaves[0].page
    &&& forall|end: u64| #[trigger] chained(old_leaves, end) ==> chained(new, end)
}

proof fn lemma_grow_leaf(
    page: u64,
    next: u64,
    entries: Seq<Item>,
    fresh: int,
    lo: Seq<u8>,
    hi: Option<Seq<u8>>,
)
    requires
        sorted(entries),
        forall|i: int| 0 <= i < entries.len() ==> in_range((#[trigger] entries[i]).0, lo, hi),
        0 <= fresh,
        grow_leaf(page, next, entries, fresh) is Ok,
    ensures
        ({
            let grown = grow_leaf(page, next, entries, fresh)->Ok_0;
            &&& grown_ordered(grown, lo, hi)
            &&& entries_of(grown_leaves(grown)) == entries
            &&& grown_leaves(grown).len() > 0
            &&& grown_leaves(grown)[0].page == page
            &&& chained(grown_leaves(grown), next)
        }),
{
    let grown = grow_leaf(page, next, entries, fresh)->Ok_0;
    let leaves = grown_leaves(grown);
    reveal_with_fuel(entries_of, 3);
    match grown.right {
        None => {
            assert(leaves.drop_first() =~= Seq::empty());
            assert(entries_of(leaves) =~= entries);
        },
        Some((key, right)) => {
            let mid = entries.len() as int / 2;
            if mid == 0 {
                assert(entries.skip(0) =~= entries);
            }
            text::lemma_le_lt(lo, entries[0].0, key);
            let a = entries.take(mid);
            let b = entries.skip(mid);
            assert(leaves[0].entries == a);
            assert(leaves[1].entries == b);
            assert(leaves.drop_first().drop_first() =~= Seq::empty());
            assert(leaves.drop_first()[0].entries == b);
            assert(entries_of(leaves) =~= a + b);
            assert(a + b =~= entries);
            assert forall|i: int| 0 <= i < a.len() implies in_range(
                (#[trigger] a[i]).0,
                lo,
                Some(key),
            ) by {
                assert(a[i] == entries[i]);
            }
            assert forall|i: int| 0 <= i < b.len() implies in_range(
                (#[trigger] b[i]).0,
                key,
                hi,
            ) by {
                assert(b[i] == entries[mid + i]);
                text::lemma_lex_irreflexive(key);
                if i > 0 {
                    text::law_lex_strict_total_order(key, b[i].0, key);
                }
            }
        },
    }
}

proof fn lemma_grow_branch(
    page: u64,
    keys: Seq<Seq<u8>>,
    children: Seq<Tree>,
    fresh: int,
    lo: Seq<u8>,
    hi: Option<Seq<u8>>,
)
    requires
        (Tree::Branch { page, keys, children }).ordered(lo, hi),
        grow_branch(page, keys, children, fresh) is Ok,
    ensures
        ({
            let grown = grow_branch(page, keys, children, fresh)->Ok_0;
            &&& grown_ordered(grown, lo, hi)
            &&& grown_leaves(grown) == forest_leaves(children)
        }),
{
    let whole = Tree::Branch { page, keys, children };
    let grown = grow_branch(page, keys, children, fresh)->Ok_0;
    match grown.right {
        None => {},
        Some((key, right)) => {
            let mid = keys.len() as int / 2;
            assert(keys.len() > 0) by {
                if keys.len() == 0 {
                    assert(whole.node().items.len() == 0);
                }
            }
            lemma_cut_ordered(page, keys, children, lo, hi, mid, fresh as u64);
            lemma_leaves_add(children.take(mid + 1), children.skip(mid + 1));
            assert(children =~= children.take(mid + 1) + children.skip(mid + 1));
        },
    }
}

/// A node is still ordered after a child was replaced by what became of it.
proof fn lemma_grown_node_ordered(
    page: u64,
    keys: Seq<Seq<u8>>,
    children: Seq<Tree>,
    lo: Seq<u8>,
    hi: Option<Seq<u8>>,
    i: int,
    grown: Grown,
)
    requires
        (Tree::Branch { page, keys, children }).ordered(lo, hi),
        0 <= i < children.len(),
        grown_ordered(grown, lower(keys, lo, i), upper(keys, hi, i)),
    ensures
        (Tree::Branch {
            page,
            keys: grown_keys(keys, i, grown),
            children: grown_children(children, i, grown),
        }).ordered(lo, hi),
{
    let keys2 = grown_keys(keys, i, grown);
    let children2 = grown_children(children, i, grown);
    match grown.right {
        None => {
            assert forall|j: int| 0 <= j < children2.len() implies (#[trigger] children2[j]).ordered(
                lower(keys2, lo, j),
                upper(keys2, hi, j),
            ) by {
                assert(children[j].ordered(lower(keys, lo, j), upper(keys, hi, j)));
            }
        },
        Some((key, right)) => {
            assert(lex_lt(lo, key)) by {
                if i > 0 {
                    text::lemma_lex_transitive(lo, keys[i - 1], key);
                }
            }
            assert(under(key, hi)) by {
                if i < keys.len() && hi is Some {
                    text::lemma_lex_transitive(key, keys[i], hi->0);
                }
            }
            assert forall|a: int, b: int| 0 <= a < b < keys2.len() implies lex_lt(
                #[trigger] keys2[a],
                #[trigger] keys2[b],
            ) by {
                if a < i && b == i {
                    if a < i - 1 {
                        text::lemma_lex_transitive(keys[a], keys[i - 1], key);
                    }
                } else if a == i {
                    assert(keys2[b] == keys[b - 1]);
                    if b - 1 > i {
                        text::lemma_lex_transitive(key, keys[i], keys[b - 1]);
                    }
                } else {
                    let a2 = if a < i {
                        a
                    } else {
                        a - 1
                    };
                    let b2 = if b < i {
                        b
                    } else {
                        b - 1
                    };
                    assert(keys2[a] == keys[a2]);
                    assert(keys2[b] == keys[b2]);
                }
            }
            assert forall|a: int| 0 <= a < keys2.len() implies lex_lt(lo, #[trigger] keys2[a])
                && under(keys2[a], hi) by {
                if a != i {
                    let a2 = if a < i {
                        a
                    } else {
                        a - 1
                    };
                    assert(keys2[a] == keys[a2]);
                }
            }
            assert forall|j: int| 0 <= j < children2.len() implies (#[trigger] children2[j]).ordered(
                lower(keys2, lo, j),
                upper(keys2, hi, j),
            ) by {
                if j < i {
                    assert(children2[j] == children[j]);
                    assert(children[j].ordered(lower(keys, lo, j), upper(keys, hi, j)));
                } else if j > i + 1 {
                    assert(children2[j] == children[j - 1]);
                    assert(children[j - 1].ordered(lower(keys, lo, j - 1), upper(keys, hi, j - 1)));
                }
            }
        },
    }
}

proof fn lemma_grown_leaves(children: Seq<Tree>, i: int, grown: Grown)
    requires
        0 <= i < children.len(),
    ensures
        forest_leaves(grown_children(children, i, grown)) == forest_leaves(children.take(i))
            + grown_leaves(grown) + forest_leaves(children.skip(i + 1)),
{
    let a = children.take(i);
    let c = children.skip(i + 1);
    let new = grown_children(children, i, grown);
    match grown.right {
        None => {
            assert(new =~= a + seq![grown.left] + c);
            lemma_leaves_add(a + seq![grown.left], c);
            lemma_leaves_add(a, seq![grown.left]);
            lemma_one_tree(grown.left);
        },
        Some((_, right)) => {
            assert(new =~= a + seq![grown.left] + seq![right] + c);
            lemma_leaves_add(a + seq![grown.left] + seq![right], c);
            lemma_leaves_add(a + seq![grown.left], seq![right]);
            lemma_leaves_add(a, seq![grown.left]);
            lemma_one_tree(grown.left);
            lemma_one_tree(right);
            assert(forest_leaves(new) =~= forest_leaves(a) + grown_leaves(grown) + forest_leaves(
                c,
            ));
        },
    }
}

proof fn lemma_replace_in_chain(
    a: Seq<LeafView>,
    b: Seq<LeafView>,
    new: Seq<LeafView>,
    c: Seq<LeafView>,
)
    requires
        replaces(b, new),
    ensures
        replaces(a + b + c, a + new + c),
{
    let whole = a + b + c;
    let whole2 = a + new + c;
    if a.len() > 0 {
        assert(whole2[0] == whole[0]);
    } else {
        assert(whole[0] == b[0]);
        assert(whole2[0] == new[0]);
    }
    assert forall|end: u64| #[trigger] chained(whole, end) implies chained(whole2, end) by {
        let inner = if c.len() > 0 {
            c[0].page
        } else {
            end
        };
        assert(chained(b, inner)) by {
            assert forall|i: int| 0 <= i < b.len() implies #[trigger] b[i].next == (if i + 1
                < b.len() {
                b[i + 1].page
            } else {
                inner
            }) by {
                assert(whole[a.len() + i] == b[i]);
                if i + 1 < b.len() {
                    assert(whole[a.len() + i + 1] == b[i + 1]);
                } else if c.len() > 0 {
                    assert(whole[a.len() + i + 1] == c[0]);
                }
            }
        }
        assert(chained(new, inner));
        assert forall|i: int| 0 <= i < whole2.len() implies #[trigger] whole2[i].next == (if i + 1
            < whole2.len() {
            whole2[i + 1].page
        } else {
            end
        }) by {
            let m = (a.len() + new.len()) as int;
            let shift = b.len() - new.len();
            if i < a.len() {
                assert(whole[i] == a[i]);
                if i + 1 < a.len() {
                    assert(whole[i + 1] == a[i + 1]);
                } else {
                    assert(whole[i + 1] == b[0]);
                    assert(whole2[i + 1] == new[0]);
                }
            } else if i < m {
                assert(whole2[i] == new[i - a.len()]);
                if i + 1 < m {
                    assert(whole2[i + 1] == new[i + 1 - a.len()]);
                } else if c.len() > 0 {
                    assert(whole2[i + 1] == c[0]);
                }
            } else {
                assert(whole2[i] == c[i - m]);
                assert(whole[i + shift] == c[i - m]);
                if i + 1 < whole2.len() {
                    assert(whole2[i + 1] == c[i + 1 - m]);
                    assert(whole[i + shift + 1] == c[i + 1 - m]);
                }
            }
        }
    }
}

/// An insertion keeps the tree ordered and its leaves chained, and sets the
/// key in the entries.
pub proof fn lemma_insert(
    tree: Tree,
    key: Seq<u8>,
    value: u64,
    fresh: int,
    lo: Seq<u8>,
    hi: Option<Seq<u8>>,
)
    requires
        tree.ordered(lo, hi),
        in_range(key, lo, hi),
        0 <= fresh,
        tree_insert(tree, key, value, fresh) is Ok,
    ensures
        ({
            let grown = tree_insert(tree, key, value, fresh)->Ok_0;
            &&& grown_ordered(grown, lo, hi)
            &&& entries_of(grown_leaves(grown)) == upsert(tree.entries(), key, value)
            &&& replaces(tree.leaves(), grown_leaves(grown))
            &&& fresh <= grown.fresh
        }),
    decreases tree,
{
    let result = tree_insert(tree, key, value, fresh)->Ok_0;
    match tree {
        Tree::Leaf { page, next, entries } => {
            lemma_change_sorted(entries, key, value, lo, hi);
            lemma_grow_leaf(page, next, upsert(entries, key, value), fresh, lo, hi);
            lemma_ordered_entries(tree, lo, hi);
            reveal_with_fuel(entries_of, 2);
            assert(tree.leaves().drop_first() =~= Seq::empty());
            assert(tree.entries() =~= entries);
            assert forall|end: u64| #[trigger] chained(tree.leaves(), end) implies chained(
                grown_leaves(result),
                end,
            ) by {
                assert(tree.leaves()[0].next == end);
            }
        },
        Tree::Branch { page, keys, children } => {
            let i = child_index(keys, key) as int;
            lemma_siblings(page, keys, children, lo, hi, key);
            let grown = tree_insert(children[i], key, value, fresh)->Ok_0;
            lemma_insert(
                children[i],
                key,
                value,
                fresh,
                lower(keys, lo, i),
                upper(keys, hi, i),
            );
            lemma_grown_node_ordered(page, keys, children, lo, hi, i, grown);
            let children2 = grown_children(children, i, grown);
            lemma_grow_branch(page, grown_keys(keys, i, grown), children2, grown.fresh, lo, hi);
            let a = forest_leaves(children.take(i));
            let b = children[i].leaves();
            let c = forest_leaves(children.skip(i + 1));
            lemma_leaves_at(children, i);
            lemma_grown_leaves(children, i, grown);
            lemma_replace_in_chain(a, b, grown_leaves(grown), c);
            lemma_entries_add(a + b, c);
            lemma_entries_add(a, b);
            lemma_entries_add(a + grown_leaves(grown), c);
            lemma_entries_add(a, grown_leaves(grown));
            lemma_change_middle(entries_of(a), entries_of(b), entries_of(c), key, value);
        },
    }
}

pub proof fn lemma_own_page(tree: Tree)
    ensures
        tree.pages().contains(tree.page_no()),
{
}

/// A tree stays stored as long as its own pages stay as they are.
pub proof fn lemma_stored_elsewhere(
    tree: Tree,
    nodes: Seq<Option<NodeView>>,
    nodes2: Seq<Option<NodeView>>,
)
    requires
        tree.stored(nodes),
        forall|q: u64| #[trigger]
            tree.pages().contains(q) ==> q < nodes2.len() && nodes2[q as int] == nodes[q as int],
    ensures
        tree.stored(nodes2),
    decreases tree,
{
    lemma_own_page(tree);
    match tree {
        Tree::Leaf { .. } => {},
        Tree::Branch { page, keys, children } => {
            assert forall|i: int| 0 <= i < children.len() implies (#[trigger] children[i]).stored(
                nodes2,
            ) by {
                assert forall|q: u64| #[trigger] children[i].pages().contains(q) implies q
                    < nodes2.len() && nodes2[q as int] == nodes[q as int] by {
                    assert(tree.pages().contains(q));
                }
                lemma_stored_elsewhere(children[i], nodes, nodes2);
            }
        },
    }
}

/// The pages of a stored tree exist.
pub proof fn lemma_stored_pages(tree: Tree, nodes: Seq<Option<NodeView>>)
    requires
        tree.stored(nodes),
    ensures
        forall|q: u64| #[trigger] tree.pages().contains(q) ==> q < nodes.len(),
    decreases tree,
{
    match tree {
        Tree::Leaf { .. } => {},
        Tree::Branch { page, keys, children } => {
            assert forall|q: u64| #[trigger] tree.pages().contains(q) implies q < nodes.len() by {
                if q != page {
                    let i = choose|i: int|
                        0 <= i < children.len() && (#[trigger] children[i]).pages().contains(q);
                    lemma_stored_pages(children[i], nodes);
                }
            }
        },
    }
}

/// What is stored under a page number determines the tree.
pub proof fn lemma_stored_unique(a: Tree, b: Tree, nodes: Seq<Option<NodeView>>)
    requires
        a.stored(nodes),
        b.stored(nodes),
        a.page_no() == b.page_no(),
    ensures
        a == b,
    decreases a,
{
    assert(a.node() == b.node());
    match (a, b) {
        (
            Tree::Branch { page, keys, children },
            Tree::Branch { page: page2, keys: keys2, children: children2 },
        ) => {
            let items = a.node().items;
            let items2 = b.node().items;
            assert(items == items2);
            assert(items.len() == keys.len());
            assert(items2.len() == keys2.len());
            assert forall|i: int| 0 <= i < keys.len() implies keys[i] == keys2[i] by {
                assert(items[i].0 == items2[i].0);
            }
            assert(keys =~= keys2);
            assert forall|i: int| 0 <= i < children.len() implies children[i] == children2[i] by {
                assert(children[i].stored(nodes));
                assert(children2[i].stored(nodes));
                if i > 0 {
                    assert(items[i - 1].1 == items2[i - 1].1);
                }
                lemma_stored_unique(children[i], children2[i], nodes);
            }
            assert(children =~= children2);
        },
        _ => {},
    }
}

/// A stored tree has no more nodes than there are pages.
pub proof fn lemma_size(tree: Tree, nodes: Seq<Option<NodeView>>)
    requires
        tree.stored(nodes),
        nodes.len() <= u64::MAX,
    ensures
        tree.pages().finite(),
        tree.pages().len() <= nodes.len(),
{
    lemma_stored_pages(tree, nodes);
    disk::lemma_pages_below(nodes.len() as int);
    assert(tree.pages().subset_of(pages_below(nodes.len() as int)));
    vstd::set_lib::lemma_len_subset(tree.pages(), pages_below(nodes.len() as int));
}

/// A child has fewer nodes than its parent.
pub proof fn lemma_child_size(page: u64, keys: Seq<Seq<u8>>, children: Seq<Tree>, i: int)
    requires
        (Tree::Branch { page, keys, children }).separate(),
        (Tree::Branch { page, keys, children }).pages().finite(),
        0 <= i < children.len(),
    ensures
        children[i].pages().finite(),
        children[i].pages().len() < (Tree::Branch { page, keys, children }).pages().len(),
        children[i].separate(),
{
    let all = (Tree::Branch { page, keys, children }).pages();
    let part = children[i].pages();
    assert(part.subset_of(all.remove(page))) by {
        assert forall|q: u64| part.contains(q) implies all.remove(page).contains(q) by {
            assert(children[i].pages().contains(q));
        }
    }
    vstd::set_lib::lemma_len_subset(part, all.remove(page));
}

/// What became of a tree has pages of its own: those of the tree and new
/// ones from `fresh` on.
pub open spec fn grown_separate(tree: Tree, grown: Grown, fresh: int) -> bool {
    &&& grown.left.page_no() == tree.page_no()
    &&& grown.left.separate()
    &&& fresh <= grown.fresh
    &&& grown.fresh == fresh || grown.fresh <= PAGE_LIMIT
    &&& forall|q: u64| #[trigger]
        grown.left.pages().contains(q) ==> tree.pages().contains(q) || fresh <= q < grown.fresh
    &&& grown.right matches Some((_, right)) ==> {
        &&& right.separate()
        &&& right.page_no() < PAGE_LIMIT
        &&& grown.left.pages().disjoint(right.pages())
        &&& forall|q: u64| #[trigger]
            right.pages().contains(q) ==> tree.pages().contains(q) || fresh <= q < grown.fresh
    }
}

pub proof fn lemma_grown_children_separate(
    page: u64,
    keys: Seq<Seq<u8>>,
    children: Seq<Tree>,
    i: int,
    grown: Grown,
    fresh: int,
)
    requires
        (Tree::Branch { page, keys, children }).separate(),
        forall|q: u64| #[trigger]
            (Tree::Branch { page, keys, children }).pages().contains(q) ==> q < fresh,
        0 <= i < children.len(),
        grown_separate(children[i], grown, fresh),
    ensures
        ({
            let new = Tree::Branch {
                page,
                keys: grown_keys(keys, i, grown),
                children: grown_children(children, i, grown),
            };
            &&& new.separate()
            &&& forall|q: u64| #[trigger]
                new.pages().contains(q) ==> (Tree::Branch {
                    page,
                    keys,
                    children,
                }).pages().contains(q) || fresh <= q < grown.fresh
        }),
{
    let tree = Tree::Branch { page, keys, children };
    let new = grown_children(children, i, grown);
    // Where each of the new children comes from.
    let origin = |j: int|
        if j <= i || grown.right is None {
            j
        } else {
            j - 1
        };
    assert forall|j: int| 0 <= j < new.len() implies {
        &&& (#[trigger] new[j]).separate()
        &&& forall|q: u64| #[trigger]
            new[j].pages().contains(q) ==> children[origin(j)].pages().contains(q) || (origin(j)
                == i && fresh <= q < grown.fresh)
    } by {
        let from = origin(j);
        assert(children[from].separate());
        if j < i {
            assert(new[j] == children[j]);
        } else if j == i {
            assert(new[j] == grown.left);
        } else if grown.right is Some && j == i + 1 {
            assert(new[j] == (grown.right->0).1);
        } else {
            assert(new[j] == children[from]);
        }
    }
    assert(tree.pages().contains(page));
    assert forall|j: int| 0 <= j < new.len() implies !(#[trigger] new[j]).pages().contains(
        page,
    ) by {
        assert(!children[origin(j)].pages().contains(page));
    }
    assert forall|a: int, b: int| 0 <= a < b < new.len() implies (
    #[trigger] new[a]).pages().disjoint((#[trigger] new[b]).pages()) by {
        let oa = origin(a);
        let ob = origin(b);
        if oa == ob {
            assert(new[a] == grown.left);
            assert(new[b] == (grown.right->0).1);
        } else {
            assert(children[oa].pages().disjoint(children[ob].pages()));
            assert forall|q: u64| new[a].pages().contains(q) implies !new[b].pages().contains(
                q,
            ) by {
                if children[oa].pages().contains(q) {
                    assert(tree.pages().contains(q));
                }
                if children[ob].pages().contains(q) {
                    assert(tree.pages().contains(q));
                }
            }
        }
    }
    let result = Tree::Branch { page, keys: grown_keys(keys, i, grown), children: new };
    assert forall|q: u64| #[trigger] result.pages().contains(q) implies tree.pages().contains(q)
        || fresh <= q < grown.fresh by {
        if q != page {
            let j = choose|j: int| 0 <= j < new.len() && (#[trigger] new[j]).pages().contains(q);
            if children[origin(j)].pages().contains(q) {
                assert(tree.pages().contains(q));
            }
        }
    }
}

/// An insertion puts no two nodes on one page.
pub proof fn lemma_insert_separate(tree: Tree, key: Seq<u8>, value: u64, fresh: int)
    requires
        tree.separate(),
        forall|q: u64| #[trigger] tree.pages().contains(q) ==> q < fresh,
        tree_insert(tree, key, value, fresh) is Ok,
    ensures
        grown_separate(tree, tree_insert(tree, key, value, fresh)->Ok_0, fresh),
    decreases tree,
{
    let result = tree_insert(tree, key, value, fresh)->Ok_0;
    lemma_own_page(tree);
    match tree {
        Tree::Leaf { page, next, entries } => {
            lemma_own_page(result.left);
        },
        Tree::Branch { page, keys, children } => {
            let i = child_index(keys, key) as int;
            let grown = tree_insert(children[i], key, value, fresh)->Ok_0;
            assert forall|q: u64| #[trigger] children[i].pages().contains(q) implies q < fresh by {
                assert(tree.pages().contains(q));
            }
            assert(children[i].separate());
            lemma_insert_separate(children[i], key, value, fresh);
            lemma_grown_children_separate(page, keys, children, i, grown, fresh);
            let keys2 = grown_keys(keys, i, grown);
            let children2 = grown_children(children, i, grown);
            let whole = Tree::Branch { page, keys: keys2, children: children2 };
            match result.right {
                None => {},
                Some((_, right)) => {
                    lemma_cut_separate(whole, page, keys2, children2, grown.fresh);
                },
            }
        },
    }
}

proof fn lemma_cut_separate(
    whole: Tree,
    page: u64,
    keys: Seq<Seq<u8>>,
    children: Seq<Tree>,
    fresh: int,
)
    requires
        whole == (Tree::Branch { page, keys, children }),
        whole.separate(),
        forall|q: u64| #[trigger] whole.pages().contains(q) ==> q < fresh,
        fresh < PAGE_LIMIT,
        grow_branch(page, keys, children, fresh) is Ok,
        grow_branch(page, keys, children, fresh)->Ok_0.right is Some,
    ensures
        grown_separate(whole, grow_branch(page, keys, children, fresh)->Ok_0, fresh),
{
    let grown = grow_branch(page, keys, children, fresh)->Ok_0;
    let mid = keys.len() as int / 2;
    let left = children.take(mid + 1);
    let right = children.skip(mid + 1);
    let right_tree = (grown.right->0).1;
    lemma_own_page(whole);
    assert forall|j: int| 0 <= j < left.len() implies (#[trigger] left[j]) == children[j] by {
    }
    assert forall|j: int| 0 <= j < right.len() implies (#[trigger] right[j]) == children[j + mid
        + 1] by {
    }
    assert forall|j: int, q: u64|
        0 <= j < children.len() && #[trigger] children[j].pages().contains(q) implies
        whole.pages().contains(q) && q != page by {
        assert(!children[j].pages().contains(page));
    }
    assert forall|q: u64| #[trigger] grown.left.pages().contains(q) implies whole.pages().contains(
        q,
    ) by {
        if q != page {
            let j = choose|j: int| 0 <= j < left.len() && (#[trigger] left[j]).pages().contains(q);
            assert(children[j].pages().contains(q));
        }
    }
    assert forall|q: u64| #[trigger] right_tree.pages().contains(q) implies q == fresh
        || whole.pages().contains(q) && !grown.left.pages().contains(q) by {
        if q != fresh {
            let j = choose|j: int|
                0 <= j < right.len() && (#[trigger] right[j]).pages().contains(q);
            assert(children[j + mid + 1].pages().contains(q));
            if grown.left.pages().contains(q) {
                let k = choose|k: int|
                    0 <= k < left.len() && (#[trigger] left[k]).pages().contains(q);
                assert(children[k].pages().disjoint(children[j + mid + 1].pages()));
            }
        }
    }
    assert(grown.left.separate());
    assert forall|j: int| 0 <= j < right.len() implies (#[trigger] right[j]).separate()
        && !right[j].pages().contains(fresh as u64) by {
        assert(children[j + mid + 1].separate());
        if right[j].pages().contains(fresh as u64) {
            assert(children[j + mid + 1].pages().contains(fresh as u64));
        }
    }
    assert(right_tree.separate());
    assert(grown.left.pages().disjoint(right_tree.pages()));
}

pub proof fn lemma_value_at(items: Seq<Item>, i: int)
    requires
        sorted(items),
        0 <= i < items.len(),
    ensures
        value_of(items, items[i].0) == Some(items[i].1),
{
    let key = items[i].0;
    let j = choose|j: int| 0 <= j < items.len() && (#[trigger] items[j]).0 == key;
    text::lemma_lex_irreflexive(key);
    assert(j == i);
}

/// A value is looked up in the part that can hold the key.
pub proof fn lemma_value_in_middle(a: Seq<Item>, b: Seq<Item>, c: Seq<Item>, key: Seq<u8>)
    requires
        sorted(a + b + c),
        forall|i: int| 0 <= i < a.len() ==> lex_lt((#[trigger] a[i]).0, key),
        forall|i: int| 0 <= i < c.len() ==> lex_lt(key, (#[trigger] c[i]).0),
    ensures
        sorted(b),
        value_of(a + b + c, key) == value_of(b, key),
{
    let all = a + b + c;
    text::lemma_lex_irreflexive(key);
    assert forall|i: int, j: int| 0 <= i < j < b.len() implies lex_lt(
        (#[trigger] b[i]).0,
        (#[trigger] b[j]).0,
    ) by {
        assert(all[a.len() + i] == b[i]);
        assert(all[a.len() + j] == b[j]);
    }
    if value_of(all, key) is Some {
        let i = choose|i: int| 0 <= i < all.len() && (#[trigger] all[i]).0 == key;
        if i < a.len() {
            assert(all[i] == a[i]);
        } else if i >= a.len() + b.len() {
            assert(all[i] == c[i - a.len() - b.len()]);
        }
        assert(b[i - a.len()] == all[i]);
        lemma_value_at(b, i - a.len());
    } else if value_of(b, key) is Some {
        let i = choose|i: int| 0 <= i < b.len() && (#[trigger] b[i]).0 == key;
        assert(all[a.len() + i] == b[i]);
    }
}

/// What is looked up after a key was set or removed.
pub proof fn lemma_value_after_change(items: Seq<Item>, key: Seq<u8>, value: u64, other: Seq<u8>)
    requires
        sorted(items),
    ensures
        value_of(upsert(items, key, value), other) == if other == key {
            Some(value)
        } else {
            value_of(items, other)
        },
        value_of(without(items, key), other) == if other == key {
            None
        } else {
            value_of(items, other)
        },
{
    let i = lemma_find_place(items, key);
    lemma_place(items, key, i);
    let skipped = if i < items.len() && items[i].0 == key {
        i + 1
    } else {
        i
    };
    let new = upsert(items, key, value);
    let rest = without(items, key);
    lemma_bounded(items);
    lemma_change_sorted(items, key, value, Seq::empty(), None);
    assert(new[i] == (key, value));
    lemma_value_at(new, i);
    if other != key {
        if value_of(items, other) is Some {
            let j = choose|j: int| 0 <= j < items.len() && (#[trigger] items[j]).0 == other;
            lemma_value_at(items, j);
            if j < i {
                assert(new[j] == items[j]);
                assert(rest[j] == items[j]);
                lemma_value_at(new, j);
                lemma_value_at(rest, j);
            } else {
                assert(new[j - skipped + i + 1] == items[j]);
                assert(rest[j - skipped + i] == items[j]);
                lemma_value_at(new, j - skipped + i + 1);
                lemma_value_at(rest, j - skipped + i);
            }
        } else {
            if value_of(new, other) is Some {
                let j = choose|j: int| 0 <= j < new.len() && (#[trigger] new[j]).0 == other;
                if j < i {
                    assert(new[j] == items[j]);
                } else if j > i {
                    assert(new[j] == items[j - i - 1 + skipped]);
                }
            }
            if value_of(rest, other) is Some {
                let j = choose|j: int| 0 <= j < rest.len() && (#[trigger] rest[j]).0 == other;
                if j < i {
                    assert(rest[j] == items[j]);
                } else {
                    assert(rest[j] == items[j - i + skipped]);
                }
            }
        }
    } else if value_of(rest, key) is Some {
        let j = choose|j: int| 0 <= j < rest.len() && (#[trigger] rest[j]).0 == key;
        let from = if j < i {
            j
        } else {
            j - i + skipped
        };
        assert(rest[j] == items[from]);
        lemma_only_place(items, key, i, from);
    }
}

/// Every key lies between the empty key and no upper bound.
pub proof fn lemma_bounded(items: Seq<Item>)
    ensures
        forall|i: int|
            0 <= i < items.len() ==> in_range((#[trigger] items[i]).0, Seq::empty(), None),
{
}

/// Where the key is not, there is nothing to remove.
pub proof fn lemma_nothing_to_remove(items: Seq<Item>, key: Seq<u8>)
    requires
        sorted(items),
        value_of(items, key) is None,
    ensures
        without(items, key) == items,
{
    let i = lemma_find_place(items, key);
    lemma_place(items, key, i);
    assert(without(items, key) =~= items.take(i) + items.skip(i));
    assert(items.take(i) + items.skip(i) =~= items);
}

/// A lookup descends into one child.
pub proof fn lemma_value_in_child(
    page: u64,
    keys: Seq<Seq<u8>>,
    children: Seq<Tree>,
    lo: Seq<u8>,
    hi: Option<Seq<u8>>,
    key: Seq<u8>,
)
    requires
        (Tree::Branch { page, keys, children }).ordered(lo, hi),
    ensures
        child_index(keys, key) < children.len(),
        children[child_index(keys, key) as int].ordered(
            lower(keys, lo, child_index(keys, key) as int),
            upper(keys, hi, child_index(keys, key) as int),
        ),
        value_of((Tree::Branch { page, keys, children }).entries(), key) == value_of(
            children[child_index(keys, key) as int].entries(),
            key,
        ),
{
    let tree = Tree::Branch { page, keys, children };
    let i = child_index(keys, key) as int;
    lemma_siblings(page, keys, children, lo, hi, key);
    lemma_ordered_entries(tree, lo, hi);
    lemma_leaves_at(children, i);
    let a = forest_leaves(children.take(i));
    let b = children[i].leaves();
    let c = forest_leaves(children.skip(i + 1));
    lemma_entries_add(a + b, c);
    lemma_entries_add(a, b);
    lemma_value_in_middle(entries_of(a), entries_of(b), entries_of(c), key);
}

/// A removal keeps the tree ordered, its leaves chained and its pages, and
/// takes the key out of the entries.
pub proof fn lemma_remove(tree: Tree, key: Seq<u8>, lo: Seq<u8>, hi: Option<Seq<u8>>)
    requires
        tree.ordered(lo, hi),
        tree.separate(),
    ensures
        tree_remove(tree, key).ordered(lo, hi),
        tree_remove(tree, key).separate(),
        tree_remove(tree, key).page_no() == tree.page_no(),
        tree_remove(tree, key).pages() == tree.pages(),
        tree_remove(tree, key).entries() == without(tree.entries(), key),
        replaces(tree.leaves(), tree_remove(tree, key).leaves()),
    decreases tree,
{
    let result = tree_remove(tree, key);
    match tree {
        Tree::Leaf { page, next, entries } => {
            lemma_change_sorted(entries, key, 0, lo, hi);
            reveal_with_fuel(entries_of, 2);
            assert(tree.leaves().drop_first() =~= Seq::empty());
            assert(result.leaves().drop_first() =~= Seq::empty());
            assert(tree.entries() =~= entries);
            assert(result.entries() =~= without(entries, key));
            assert forall|end: u64| #[trigger] chained(tree.leaves(), end) implies chained(
                result.leaves(),
                end,
            ) by {
                assert(tree.leaves()[0].next == end);
            }
        },
        Tree::Branch { page, keys, children } => {
            let i = child_index(keys, key) as int;
            lemma_siblings(page, keys, children, lo, hi, key);
            let child = tree_remove(children[i], key);
            assert(children[i].separate());
            lemma_remove(children[i], key, lower(keys, lo, i), upper(keys, hi, i));
            let fresh = 0x1_0000_0000_0000_0000;
            let grown = Grown { left: child, right: None, fresh };
            lemma_grown_node_ordered(page, keys, children, lo, hi, i, grown);
            lemma_grown_children_separate(page, keys, children, i, grown, fresh);
            let children2 = children.update(i, child);
            assert(children2 == grown_children(children, i, grown));
            assert(result.pages() =~= tree.pages()) by {
                assert forall|q: u64| tree.pages().contains(q) implies result.pages().contains(
                    q,
                ) by {
                    if q != page {
                        let j = choose|j: int|
                            0 <= j < children.len() && (#[trigger] children[j]).pages().contains(q);
                        assert(children2[j].pages().contains(q));
                    }
                }
            }
            let a = forest_leaves(children.take(i));
            let b = children[i].leaves();
            let c = forest_leaves(children.skip(i + 1));
            lemma_leaves_at(children, i);
            lemma_grown_leaves(children, i, grown);
            lemma_replace_in_chain(a, b, child.leaves(), c);
            lemma_entries_add(a + b, c);
            lemma_entries_add(a, b);
            lemma_entries_add(a + child.leaves(), c);
            lemma_entries_add(a, child.leaves());
            lemma_change_middle(entries_of(a), entries_of(b), entries_of(c), key, 0);
        },
    }
}

/// What sorted items map keys to.
pub open spec fn key_map(items: Seq<Item>) -> Map<Seq<u8>, u64> {
    Map::new(
        |key: Seq<u8>| value_of(items, key) is Some,
        |key: Seq<u8>| value_of(items, key)->0,
    )
}

/// Every leaf holds an entry.
pub open spec fn without_empty(leaves: Seq<LeafView>) -> bool {
    forall|i: int| 0 <= i < leaves.len() ==> (#[trigger] leaves[i]).entries.len() > 0
}

/// What became of `tree` holds the same keys with `key` set to `value`. If the
/// topmost node was split, the right half begins on a new page, the halves
/// share no page and no key, and the separator lies between them. Neither half
/// is empty, unless leaves of a larger tree were empty before.
pub open spec fn holds_also(
    tree: Tree,
    grown: Grown,
    key: Seq<u8>,
    value: u64,
    fresh: int,
) -> bool {
    let whole = key_map(tree.entries()).insert(key, value);
    let left = key_map(grown.left.entries());
    &&& grown.left.page_no() == tree.page_no()
    &&& match grown.right {
        None => left == whole,
        Some((separator, tree2)) => {
            let right = key_map(tree2.entries());
            &&& fresh <= tree2.page_no() < grown.fresh
            &&& grown.left.pages().disjoint(tree2.pages())
            &&& left.dom().disjoint(right.dom())
            &&& left.union_prefer_right(right) == whole
            &&& forall|k: Seq<u8>| #[trigger] left.contains_key(k) ==> lex_lt(k, separator)
            &&& forall|k: Seq<u8>| #[trigger] right.contains_key(k) ==> !lex_lt(k, separator)
            &&& tree is Leaf || without_empty(tree.leaves()) ==> {
                &&& grown.left.entries().len() > 0
                &&& tree2.entries().len() > 0
                &&& without_empty(grown.left.leaves())
                &&& without_empty(tree2.leaves())
            }
        },
    }
}

/// Setting a key leaves no leaf empty that was not.
proof fn lemma_none_emptied(
    tree: Tree,
    key: Seq<u8>,
    value: u64,
    fresh: int,
    lo: Seq<u8>,
    hi: Option<Seq<u8>>,
)
    requires
        tree.ordered(lo, hi),
        in_range(key, lo, hi),
        0 <= fresh,
        tree_insert(tree, key, value, fresh) is Ok,
        tree is Leaf || without_empty(tree.leaves()),
    ensures
        without_empty(grown_leaves(tree_insert(tree, key, value, fresh)->Ok_0)),
    decreases tree,
{
    let result = tree_insert(tree, key, value, fresh)->Ok_0;
    match tree {
        Tree::Leaf { page, next, entries } => {
            let changed = upsert(entries, key, value);
            if changed.len() < 2 {
                assert(changed.skip(changed.len() as int / 2) =~= changed);
            }
        },
        Tree::Branch { page, keys, children } => {
            let i = child_index(keys, key) as int;
            lemma_siblings(page, keys, children, lo, hi, key);
            let grown = tree_insert(children[i], key, value, fresh)->Ok_0;
            let a = forest_leaves(children.take(i));
            let b = children[i].leaves();
            let c = forest_leaves(children.skip(i + 1));
            lemma_leaves_at(children, i);
            let leaves = a + b + c;
            assert(tree.leaves() =~= leaves);
            assert forall|j: int| 0 <= j < b.len() implies (#[trigger] b[j]).entries.len()
                > 0 by {
                assert(leaves[a.len() + j] == b[j]);
            }
            lemma_none_emptied(
                children[i],
                key,
                value,
                fresh,
                lower(keys, lo, i),
                upper(keys, hi, i),
            );
            lemma_insert(children[i], key, value, fresh, lower(keys, lo, i), upper(keys, hi, i));
            lemma_grown_node_ordered(page, keys, children, lo, hi, i, grown);
            let children2 = grown_children(children, i, grown);
            lemma_grow_branch(page, grown_keys(keys, i, grown), children2, grown.fresh, lo, hi);
            lemma_grown_leaves(children, i, grown);
            let g = grown_leaves(grown);
            let new = a + g + c;
            assert forall|j: int| 0 <= j < new.len() implies (#[trigger] new[j]).entries.len()
                > 0 by {
                if j < a.len() {
                    assert(leaves[j] == new[j]);
                } else if j < a.len() + g.len() {
                    assert(g[j - a.len()] == new[j]);
                } else {
                    assert(leaves[j - g.len() + b.len()] == new[j]);
                }
            }
        },
    }
}

/// Leaves of which the first holds an entry hold entries.
proof fn lemma_some_entries(leaves: Seq<LeafView>)
    requires
        leaves.len() > 0,
        leaves[0].entries.len() > 0,
    ensures
        entries_of(leaves).len() > 0,
{
}

/// What two trees map keys to, one after the other.
proof fn lemma_key_map_add(a: Seq<Item>, b: Seq<Item>)
    requires
        sorted(a + b),
    ensures
        key_map(a).dom().disjoint(key_map(b).dom()),
        key_map(a).union_prefer_right(key_map(b)) == key_map(a + b),
{
    let all = a + b;
    assert forall|i: int| 0 <= i < a.len() implies all[i] == #[trigger] a[i] by {
    }
    assert forall|i: int| 0 <= i < b.len() implies all[a.len() + i] == #[trigger] b[i] by {
    }
    assert(sorted(a)) by {
        assert forall|i: int, j: int| 0 <= i < j < a.len() implies lex_lt(
            (#[trigger] a[i]).0,
            (#[trigger] a[j]).0,
        ) by {
            assert(lex_lt(all[i].0, all[j].0));
        }
    }
    assert(sorted(b)) by {
        assert forall|i: int, j: int| 0 <= i < j < b.len() implies lex_lt(
            (#[trigger] b[i]).0,
            (#[trigger] b[j]).0,
        ) by {
            assert(lex_lt(all[a.len() + i].0, all[a.len() + j].0));
        }
    }
    assert forall|k: Seq<u8>| !(key_map(a).dom().contains(k) && key_map(b).dom().contains(k)) by {
        lemma_value_in_two(a, b, k);
    }
    let both = key_map(a).union_prefer_right(key_map(b));
    assert forall|k: Seq<u8>| both.dom().contains(k) == key_map(all).dom().contains(k) && (
    both.dom().contains(k) ==> both[k] == key_map(all)[k]) by {
        lemma_value_in_two(a, b, k);
    }
    assert(both =~= key_map(all));
}

/// A key is looked up in the one of two lists that holds it.
proof fn lemma_value_in_two(a: Seq<Item>, b: Seq<Item>, key: Seq<u8>)
    requires
        sorted(a + b),
        sorted(a),
        sorted(b),
    ensures
        value_of(a, key) is None || value_of(b, key) is None,
        value_of(a + b, key) == match value_of(b, key) {
            Some(v) => Some(v),
            None => value_of(a, key),
        },
{
    let all = a + b;
    text::lemma_lex_irreflexive(key);
    if value_of(a, key) is Some {
        let i = choose|i: int| 0 <= i < a.len() && (#[trigger] a[i]).0 == key;
        assert(all[i] == a[i]);
        lemma_value_at(all, i);
        if value_of(b, key) is Some {
            let j = choose|j: int| 0 <= j < b.len() && (#[trigger] b[j]).0 == key;
            assert(all[a.len() + j] == b[j]);
            assert(lex_lt(all[i].0, all[a.len() + j].0));
        }
    } else if value_of(b, key) is Some {
        let j = choose|j: int| 0 <= j < b.len() && (#[trigger] b[j]).0 == key;
        assert(all[a.len() + j] == b[j]);
        lemma_value_at(all, a.len() + j);
    } else if value_of(all, key) is Some {
        let i = choose|i: int| 0 <= i < all.len() && (#[trigger] all[i]).0 == key;
        if i < a.len() {
            assert(a[i] == all[i]);
        } else {
            assert(b[i - a.len()] == all[i]);
        }
    }
}

/// Inserting into a subtree sets the key in it. If its topmost node is split,
/// the two halves together hold all keys: those before the separator stay, the
/// others are on a new page.
pub proof fn law_insertion_into_a_subtree(
    tree: Tree,
    key: Seq<u8>,
    value: u64,
    fresh: int,
    lo: Seq<u8>,
    hi: Option<Seq<u8>>,
)
    requires
        tree.ordered(lo, hi),
        in_range(key, lo, hi),
        tree.separate(),
        forall|q: u64| #[trigger] tree.pages().contains(q) ==> q < fresh,
        0 <= fresh,
        tree_insert(tree, key, value, fresh) is Ok,
    ensures
        holds_also(tree, tree_insert(tree, key, value, fresh)->Ok_0, key, value, fresh),
{
    let grown = tree_insert(tree, key, value, fresh)->Ok_0;
    let items = tree.entries();
    let whole = key_map(items).insert(key, value);
    lemma_insert(tree, key, value, fresh, lo, hi);
    lemma_insert_separate(tree, key, value, fresh);
    lemma_ordered_entries(tree, lo, hi);
    assert(key_map(upsert(items, key, value)) =~= whole) by {
        assert forall|k: Seq<u8>| #[trigger] value_of(upsert(items, key, value), k) == if k
            == key {
            Some(value)
        } else {
            value_of(items, k)
        } by {
            lemma_value_after_change(items, key, value, k);
        }
    }
    match grown.right {
        None => {},
        Some((separator, right)) => {
            let a = grown.left.entries();
            let b = right.entries();
            lemma_entries_add(grown.left.leaves(), right.leaves());
            lemma_ordered_entries(grown.left, lo, Some(separator));
            lemma_ordered_entries(right, separator, hi);
            lemma_bounded(items);
            lemma_change_sorted(items, key, value, Seq::empty(), None);
            lemma_key_map_add(a, b);
            assert forall|k: Seq<u8>| #[trigger] key_map(a).contains_key(k) implies lex_lt(
                k,
                separator,
            ) by {
                let i = choose|i: int| 0 <= i < a.len() && (#[trigger] a[i]).0 == k;
            }
            assert forall|k: Seq<u8>| #[trigger] key_map(b).contains_key(k) implies !lex_lt(
                k,
                separator,
            ) by {
                let i = choose|i: int| 0 <= i < b.len() && (#[trigger] b[i]).0 == k;
            }
            match tree {
                Tree::Leaf { .. } => {},
                Tree::Branch { keys, children, .. } => {
                    let i = child_index(keys, key) as int;
                    lemma_siblings(tree->Branch_page, keys, children, lo, hi, key);
                    lemma_insert(
                        children[i],
                        key,
                        value,
                        fresh,
                        lower(keys, lo, i),
                        upper(keys, hi, i),
                    );
                },
            }
            if tree is Leaf || without_empty(tree.leaves()) {
                lemma_none_emptied(tree, key, value, fresh, lo, hi);
                let all = grown_leaves(grown);
                let n = grown.left.leaves().len();
                assert forall|i: int| 0 <= i < n implies (
                #[trigger] grown.left.leaves()[i]).entries.len() > 0 by {
                    assert(all[i] == grown.left.leaves()[i]);
                }
                assert forall|i: int| 0 <= i < right.leaves().len() implies (
                #[trigger] right.leaves()[i]).entries.len() > 0 by {
                    assert(all[n + i] == right.leaves()[i]);
                }
                lemma_some_entries(grown.left.leaves());
                lemma_some_entries(right.leaves());
            }
        },
    }
}

/// An insertion at the root gives a tree that holds the same entries with
/// `key` set to `value`, whatever was split on the way.
pub proof fn law_root_insert(tree: Tree, key: Seq<u8>, value: u64, fresh: int, end: u64)
    requires
        tree.ordered(Seq::empty(), None),
        tree.separate(),
        chained(tree.leaves(), end),
        forall|q: u64| #[trigger] tree.pages().contains(q) ==> q < fresh,
        0 <= fresh,
        root_insert(tree, key, value, fresh) is Ok,
    ensures
        ({
            let (new, next) = root_insert(tree, key, value, fresh)->Ok_0;
            &&& new.ordered(Seq::empty(), None)
            &&& new.separate()
            &&& chained(new.leaves(), end)
            &&& new.entries() == upsert(tree.entries(), key, value)
            &&& fresh <= next
            &&& next == fresh || next <= PAGE_LIMIT
            &&& forall|q: u64| #[trigger]
                new.pages().contains(q) ==> tree.pages().contains(q) || fresh <= q < next
        }),
{
    let grown = tree_insert(tree, key, value, fresh)->Ok_0;
    let (new, next) = root_insert(tree, key, value, fresh)->Ok_0;
    lemma_insert(tree, key, value, fresh, Seq::empty(), None);
    lemma_insert_separate(tree, key, value, fresh);
    match grown.right {
        None => {},
        Some((separator, right)) => {
            let children = seq![grown.left, right];
            let keys = seq![separator];
            assert(new == (Tree::Branch { page: grown.fresh as u64, keys, children }));
            assert(children.drop_first() =~= seq![right]);
            lemma_one_tree(right);
            assert(new.leaves() =~= grown.left.leaves() + right.leaves());
            assert forall|i: int| 0 <= i < children.len() implies (#[trigger] children[i]).ordered(
                lower(keys, Seq::empty(), i),
                upper(keys, None, i),
            ) by {
            }
            assert(new.separate());
            assert forall|q: u64| #[trigger] new.pages().contains(q) implies tree.pages().contains(
                q,
            ) || fresh <= q < next by {
                if q != grown.fresh {
                    let i = choose|i: int|
                        0 <= i < children.len() && (#[trigger] children[i]).pages().contains(q);
                    assert(children[i] == grown.left || children[i] == right);
                }
            }
        },
    }
}

/// The leaf that a lookup of `key` ends at.
pub open spec fn leaf_for(tree: Tree, key: Seq<u8>) -> Tree
    decreases tree,
{
    match tree {
        Tree::Leaf { .. } => tree,
        Tree::Branch { keys, children, .. } => {
            let i = child_index(keys, key) as int;
            if i < children.len() {
                leaf_for(children[i], key)
            } else {
                tree
            }
        },
    }
}

/// A lookup finds in its leaf what the tree holds.
pub proof fn lemma_leaf_for(tree: Tree, key: Seq<u8>, lo: Seq<u8>, hi: Option<Seq<u8>>)
    requires
        tree.ordered(lo, hi),
    ensures
        leaf_for(tree, key) matches Tree::Leaf { page, next, entries } && {
            &&& sorted(entries)
            &&& value_of(tree.entries(), key) == value_of(entries, key)
            &&& tree.pages().contains(page)
        },
    decreases tree,
{
    match tree {
        Tree::Leaf { page, next, entries } => {
            reveal_with_fuel(entries_of, 2);
            assert(tree.leaves().drop_first() =~= Seq::empty());
            assert(tree.entries() =~= entries);
        },
        Tree::Branch { page, keys, children } => {
            let i = child_index(keys, key) as int;
            lemma_value_in_child(page, keys, children, lo, hi, key);
            lemma_leaf_for(children[i], key, lower(keys, lo, i), upper(keys, hi, i));
            let leaf_page = leaf_for(tree, key).page_no();
            assert(children[i].pages().contains(leaf_page));
        },
    }
}

/// After the leaf of `key` was rewritten without it, the smaller tree is
/// stored.
pub proof fn lemma_remove_stored(
    tree: Tree,
    key: Seq<u8>,
    lo: Seq<u8>,
    hi: Option<Seq<u8>>,
    nodes: Seq<Option<NodeView>>,
    nodes2: Seq<Option<NodeView>>,
)
    requires
        tree.ordered(lo, hi),
        tree.separate(),
        tree.stored(nodes),
        nodes2.len() == nodes.len(),
        nodes2[leaf_for(tree, key).page_no() as int] == Some(
            tree_remove(leaf_for(tree, key), key).node(),
        ),
        forall|q: u64|
            q < nodes.len() && q != leaf_for(tree, key).page_no() ==> #[trigger] nodes2[q as int]
                == nodes[q as int],
    ensures
        tree_remove(tree, key).stored(nodes2),
    decreases tree,
{
    match tree {
        Tree::Leaf { page, next, entries } => {},
        Tree::Branch { page, keys, children } => {
            let i = child_index(keys, key) as int;
            lemma_siblings(page, keys, children, lo, hi, key);
            lemma_leaf_for(children[i], key, lower(keys, lo, i), upper(keys, hi, i));
            let leaf = leaf_for(tree, key);
            let result = tree_remove(tree, key);
            let children2 = children.update(i, tree_remove(children[i], key));
            assert(children[i].separate());
            assert(children[i].stored(nodes));
            lemma_remove(children[i], key, lower(keys, lo, i), upper(keys, hi, i));
            lemma_remove_stored(
                children[i],
                key,
                lower(keys, lo, i),
                upper(keys, hi, i),
                nodes,
                nodes2,
            );
            assert(leaf.page_no() != page);
            assert forall|j: int| 0 <= j < children2.len() implies (#[trigger] children2[j]).stored(
                nodes2,
            ) by {
                if j != i {
                    assert(children[j].stored(nodes));
                    lemma_stored_pages(children[j], nodes);
                    assert(children[j].pages().disjoint(children[i].pages()));
                    lemma_stored_elsewhere(children[j], nodes, nodes2);
                }
            }
            assert(result.node() =~= tree.node());
        },
    }
}

/// A branch is stored once its own page and its children are.
pub proof fn lemma_branch_stored(
    page: u64,
    keys: Seq<Seq<u8>>,
    children: Seq<Tree>,
    nodes: Seq<Option<NodeView>>,
    nodes2: Seq<Option<NodeView>>,
)
    requires
        children.len() == keys.len() + 1,
        page < nodes2.len(),
        nodes2[page as int] == Some((Tree::Branch { page, keys, children }).node()),
        forall|i: int| 0 <= i < children.len() ==> (#[trigger] children[i]).stored(nodes),
        forall|i: int, q: u64|
            0 <= i < children.len() && #[trigger] children[i].pages().contains(q) ==> q
                < nodes2.len() && nodes2[q as int] == nodes[q as int],
    ensures
        (Tree::Branch { page, keys, children }).stored(nodes2),
{
    assert forall|i: int| 0 <= i < children.len() implies (#[trigger] children[i]).stored(
        nodes2,
    ) by {
        lemma_stored_elsewhere(children[i], nodes, nodes2);
    }
}

/// After an insertion into child `i`, all children are stored.
pub proof fn lemma_grown_children_stored(
    page: u64,
    keys: Seq<Seq<u8>>,
    children: Seq<Tree>,
    i: int,
    grown: Grown,
    nodes: Seq<Option<NodeView>>,
    nodes2: Seq<Option<NodeView>>,
)
    requires
        (Tree::Branch { page, keys, children }).separate(),
        (Tree::Branch { page, keys, children }).stored(nodes),
        0 <= i < children.len(),
        grown.left.stored(nodes2),
        grown.right matches Some((_, right)) ==> right.stored(nodes2),
        nodes.len() <= nodes2.len(),
        forall|q: u64|
            q < nodes.len() && !children[i].pages().contains(q) ==> #[trigger] nodes2[q as int]
                == nodes[q as int],
    ensures
        forall|j: int|
            0 <= j < grown_children(children, i, grown).len() ==> (#[trigger] grown_children(
                children,
                i,
                grown,
            )[j]).stored(nodes2),
{
    let new = grown_children(children, i, grown);
    assert forall|j: int| 0 <= j < children.len() && j != i implies (#[trigger] children[j]).stored(
        nodes2,
    ) by {
        assert(children[j].stored(nodes));
        lemma_stored_pages(children[j], nodes);
        assert(children[j].pages().disjoint(children[i].pages()));
        lemma_stored_elsewhere(children[j], nodes, nodes2);
    }
    assert forall|j: int| 0 <= j < new.len() implies (#[trigger] new[j]).stored(nodes2) by {
        if j < i {
            assert(new[j] == children[j]);
        } else if j == i {
            assert(new[j] == grown.left);
        } else if grown.right is Some {
            if j > i + 1 {
                assert(new[j] == children[j - 1]);
            }
        } else {
            assert(new[j] == children[j]);
        }
    }
}

/// The node of a branch after child `i` was replaced by what became of it.
pub proof fn lemma_grown_node(
    page: u64,
    keys: Seq<Seq<u8>>,
    children: Seq<Tree>,
    i: int,
    grown: Grown,
)
    requires
        children.len() == keys.len() + 1,
        0 <= i < children.len(),
        grown.left.page_no() == children[i].page_no(),
    ensures
        ({
            let node = (Tree::Branch { page, keys, children }).node();
            let new = (Tree::Branch {
                page,
                keys: grown_keys(keys, i, grown),
                children: grown_children(children, i, grown),
            }).node();
            &&& new.link == node.link
            &&& new.items == match grown.right {
                Some((key, right)) => node.items.insert(i, (key, right.page_no())),
                None => node.items,
            }
        }),
{
    let node = (Tree::Branch { page, keys, children }).node();
    let keys2 = grown_keys(keys, i, grown);
    let children2 = grown_children(children, i, grown);
    let new = (Tree::Branch { page, keys: keys2, children: children2 }).node();
    match grown.right {
        Some((key, right)) => {
            assert(new.items =~= node.items.insert(i, (key, right.page_no())));
        },
        None => {
            assert(new.items =~= node.items);
        },
    }
}

/// The nodes of the two halves of a branch.
pub proof fn lemma_cut_node(
    page: u64,
    keys: Seq<Seq<u8>>,
    children: Seq<Tree>,
    mid: int,
    other: u64,
)
    requires
        children.len() == keys.len() + 1,
        0 <= mid < keys.len(),
    ensures
        ({
            let node = (Tree::Branch { page, keys, children }).node();
            let left = (Tree::Branch {
                page,
                keys: keys.take(mid),
                children: children.take(mid + 1),
            }).node();
            let right = (Tree::Branch {
                page: other,
                keys: keys.skip(mid + 1),
                children: children.skip(mid + 1),
            }).node();
            &&& left.link == node.link
            &&& left.items == node.items.take(mid)
            &&& node.items[mid].0 == keys[mid]
            &&& right.link == node.items[mid].1
            &&& right.items == node.items.skip(mid + 1)
        }),
{
    let node = (Tree::Branch { page, keys, children }).node();
    let left = (Tree::Branch {
        page,
        keys: keys.take(mid),
        children: children.take(mid + 1),
    }).node();
    let right = (Tree::Branch {
        page: other,
        keys: keys.skip(mid + 1),
        children: children.skip(mid + 1),
    }).node();
    assert(left.items =~= node.items.take(mid));
    assert(right.items =~= node.items.skip(mid + 1));
}

/// Every leaf has a page of its own, and it is stored there.
pub proof fn lemma_leaves(tree: Tree, nodes: Seq<Option<NodeView>>)
    requires
        tree.separate(),
        tree.stored(nodes),
    ensures
        leaves_stored(tree.leaves(), nodes),
        forall|i: int|
            0 <= i < tree.leaves().len() ==> tree.pages().contains(
                #[trigger] tree.leaves()[i].page,
            ),
    decreases tree,
{
    match tree {
        Tree::Leaf { .. } => {},
        Tree::Branch { page, keys, children } => {
            lemma_forest_leaves(children, nodes);
            let leaves = tree.leaves();
            assert forall|i: int| 0 <= i < leaves.len() implies tree.pages().contains(
                #[trigger] leaves[i].page,
            ) by {
                let j = choose|j: int|
                    0 <= j < children.len() && (#[trigger] children[j]).pages().contains(
                        leaves[i].page,
                    );
                assert(children[j].pages().contains(leaves[i].page));
            }
        },
    }
}

/// The leaves are on different pages, and each is stored on its page.
pub open spec fn leaves_stored(leaves: Seq<LeafView>, nodes: Seq<Option<NodeView>>) -> bool {
    &&& forall|i: int|
        0 <= i < leaves.len() ==> {
            &&& #[trigger] leaves[i].page < nodes.len()
            &&& nodes[leaves[i].page as int] == Some(
                NodeView { leaf: true, link: leaves[i].next, items: leaves[i].entries },
            )
        }
    &&& forall|i: int, j: int|
        0 <= i < j < leaves.len() ==> #[trigger] leaves[i].page != #[trigger] leaves[j].page
}

proof fn lemma_forest_leaves(children: Seq<Tree>, nodes: Seq<Option<NodeView>>)
    requires
        forall|i: int|
            0 <= i < children.len() ==> (#[trigger] children[i]).separate()
                && children[i].stored(nodes),
        forall|i: int, j: int|
            0 <= i < j < children.len() ==> (#[trigger] children[i]).pages().disjoint(
                (#[trigger] children[j]).pages(),
            ),
    ensures
        leaves_stored(forest_leaves(children), nodes),
        forall|i: int|
            0 <= i < forest_leaves(children).len() ==> exists|j: int|
                0 <= j < children.len() && (#[trigger] children[j]).pages().contains(
                    #[trigger] forest_leaves(children)[i].page,
                ),
    decreases children,
{
    if children.len() > 0 {
        let rest = children.drop_first();
        let first = children[0].leaves();
        let others = forest_leaves(rest);
        assert forall|i: int| 0 <= i < rest.len() implies (#[trigger] rest[i]).separate()
            && rest[i].stored(nodes) by {
            assert(rest[i] == children[i + 1]);
        }
        assert forall|i: int, j: int| 0 <= i < j < rest.len() implies (
        #[trigger] rest[i]).pages().disjoint((#[trigger] rest[j]).pages()) by {
            assert(children[i + 1].pages().disjoint(children[j + 1].pages()));
        }
        lemma_leaves(children[0], nodes);
        lemma_forest_leaves(rest, nodes);
        let all = forest_leaves(children);
        assert forall|i: int| 0 <= i < all.len() implies exists|j: int|
            0 <= j < children.len() && (#[trigger] children[j]).pages().contains(
                #[trigger] all[i].page,
            ) by {
            if i < first.len() {
                assert(all[i] == first[i]);
                assert(children[0].pages().contains(first[i].page));
            } else {
                assert(all[i] == others[i - first.len()]);
                let j = choose|j: int|
                    0 <= j < rest.len() && (#[trigger] rest[j]).pages().contains(
                        others[i - first.len()].page,
                    );
                assert(children[j + 1].pages().contains(all[i].page));
            }
        }
        assert forall|i: int, j: int| 0 <= i < j < all.len() implies #[trigger] all[i].page
            != #[trigger] all[j].page by {
            if j < first.len() {
                assert(all[i] == first[i] && all[j] == first[j]);
            } else if i >= first.len() {
                assert(all[i] == others[i - first.len()]);
                assert(all[j] == others[j - first.len()]);
            } else {
                assert(all[i] == first[i]);
                assert(all[j] == others[j - first.len()]);
                let k = choose|k: int|
                    0 <= k < rest.len() && (#[trigger] rest[k]).pages().contains(
                        others[j - first.len()].page,
                    );
                assert(children[0].pages().disjoint(children[k + 1].pages()));
                assert(children[0].pages().contains(first[i].page));
            }
        }
        assert forall|i: int| 0 <= i < all.len() implies {
            &&& #[trigger] all[i].page < nodes.len()
            &&& nodes[all[i].page as int] == Some(
                NodeView { leaf: true, link: all[i].next, items: all[i].entries },
            )
        } by {
            if i < first.len() {
                assert(all[i] == first[i]);
                assert(first[i].page < nodes.len());
            } else {
                assert(all[i] == others[i - first.len()]);
                assert(others[i - first.len()].page < nodes.len());
            }
        }
    }
}

/// There are no more leaves than pages.
pub proof fn lemma_leaf_count(leaves: Seq<LeafView>, nodes: Seq<Option<NodeView>>)
    requires
        leaves_stored(leaves, nodes),
        nodes.len() <= u64::MAX,
    ensures
        leaves.len() <= nodes.len(),
{
    let pages = Seq::new(leaves.len(), |i: int| leaves[i].page);
    assert(pages.no_duplicates()) by {
        assert forall|i: int, j: int|
            0 <= i < pages.len() && 0 <= j < pages.len() && i != j implies pages[i] != pages[j] by {
            if i < j {
                assert(leaves[i].page != leaves[j].page);
            } else {
                assert(leaves[j].page != leaves[i].page);
            }
        }
    }
    assert forall|i: int| 0 <= i < pages.len() implies #[trigger] pages[i] < nodes.len() by {
        assert(leaves[i].page < nodes.len());
    }
    disk::lemma_distinct_pages(pages, nodes.len() as int);
}

/// The leftmost leaf is below the leftmost child.
pub proof fn lemma_leftmost(page: u64, keys: Seq<Seq<u8>>, children: Seq<Tree>, lo: Seq<u8>, hi: Option<Seq<u8>>)
    requires
        (Tree::Branch { page, keys, children }).ordered(lo, hi),
    ensures
        children[0].ordered(lower(keys, lo, 0), upper(keys, hi, 0)),
        children[0].leaves().len() > 0,
        (Tree::Branch { page, keys, children }).leaves()[0] == children[0].leaves()[0],
{
    assert(children[0].ordered(lower(keys, lo, 0), upper(keys, hi, 0)));
    lemma_ordered_entries(children[0], lower(keys, lo, 0), upper(keys, hi, 0));
}

/// The entries after a key was set are the old ones and the new one.
pub proof fn lemma_changed_items(items: Seq<Item>, key: Seq<u8>, value: u64)
    requires
        sorted(items),
    ensures
        forall|i: int|
            0 <= i < upsert(items, key, value).len() ==> (#[trigger] upsert(items, key, value)[i])
                == (key, value) || items.contains(upsert(items, key, value)[i]),
        forall|i: int|
            0 <= i < without(items, key).len() ==> items.contains(
                #[trigger] without(items, key)[i],
            ),
{
    let i = lemma_find_place(items, key);
    lemma_place(items, key, i);
    let skipped = if i < items.len() && items[i].0 == key {
        i + 1
    } else {
        i
    };
    let new = upsert(items, key, value);
    assert forall|j: int| 0 <= j < new.len() implies (#[trigger] new[j]) == (key, value)
        || items.contains(new[j]) by {
        if j < i {
            assert(new[j] == items[j]);
        } else if j > i {
            assert(new[j] == items[j - i - 1 + skipped]);
        }
    }
    let rest = without(items, key);
    assert forall|j: int| 0 <= j < rest.len() implies items.contains(#[trigger] rest[j]) by {
        if j < i {
            assert(rest[j] == items[j]);
        } else {
            assert(rest[j] == items[j - i + skipped]);
        }
    }
}

/// Removing a key that is not in the tree changes nothing.
pub proof fn lemma_remove_nothing(tree: Tree, key: Seq<u8>, lo: Seq<u8>, hi: Option<Seq<u8>>)
    requires
        tree.ordered(lo, hi),
        value_of(tree.entries(), key) is None,
    ensures
        tree_remove(tree, key) == tree,
    decreases tree,
{
    match tree {
        Tree::Leaf { page, next, entries } => {
            reveal_with_fuel(entries_of, 2);
            assert(tree.leaves().drop_first() =~= Seq::empty());
            assert(tree.entries() =~= entries);
            lemma_nothing_to_remove(entries, key);
        },
        Tree::Branch { page, keys, children } => {
            let i = child_index(keys, key) as int;
            lemma_value_in_child(page, keys, children, lo, hi, key);
            lemma_remove_nothing(children[i], key, lower(keys, lo, i), upper(keys, hi, i));
            assert(children.update(i, children[i]) =~= children);
        },
    }
}

/// Keys of at most this many bytes never make a page overflow.
pub const SHORT_KEY: usize = 190;

proof fn lemma_short_size(items: Seq<Item>)
    requires
        short_items(items, SHORT_KEY as nat),
    ensures
        10 * items.len() <= items_size(items) <= 200 * items.len(),
    decreases items.len(),
{
    if items.len() > 0 {
        let rest = items.drop_first();
        assert forall|i: int| 0 <= i < rest.len() implies (#[trigger] rest[i]).0.len()
            <= SHORT_KEY by {
            assert(rest[i] == items[i + 1]);
        }
        lemma_short_size(rest);
    }
}

/// The sizes of the parts around item `i`.
proof fn lemma_size_around(items: Seq<Item>, i: int)
    requires
        0 <= i < items.len(),
    ensures
        items_size(items) == items_size(items.take(i)) + 10 + items[i].0.len() + items_size(
            items.skip(i + 1),
        ),
        items_size(items.skip(i)) == 10 + items[i].0.len() + items_size(items.skip(i + 1)),
{
    node::lemma_items_size_add(items.take(i), items.skip(i));
    assert(items =~= items.take(i) + items.skip(i));
    assert(items.skip(i).drop_first() =~= items.skip(i + 1));
}

proof fn lemma_inserted_size(items: Seq<Item>, i: int, item: Item)
    requires
        0 <= i <= items.len(),
    ensures
        items_size(items.insert(i, item)) == items_size(items) + 10 + item.0.len(),
{
    let new = items.insert(i, item);
    lemma_size_around(new, i);
    assert(new.take(i) =~= items.take(i));
    assert(new.skip(i + 1) =~= items.skip(i));
    node::lemma_items_size_add(items.take(i), items.skip(i));
    assert(items =~= items.take(i) + items.skip(i));
}

proof fn lemma_short_leaf(page: u64, next: u64, entries: Seq<Item>, key: Seq<u8>, value: u64, fresh: int)
    requires
        sorted(entries),
        short_items(entries, SHORT_KEY as nat),
        items_size(entries) <= MAX_BODY,
        key.len() <= SHORT_KEY,
        0 <= fresh < PAGE_LIMIT,
    ensures
        grow_leaf(page, next, upsert(entries, key, value), fresh) matches Ok(grown) && {
            &&& grown.left.short(SHORT_KEY as nat)
            &&& grown.left.fitting()
            &&& grown.fresh <= fresh + 1
            &&& grown.right matches Some((separator, right)) ==> {
                &&& separator.len() <= SHORT_KEY
                &&& right.short(SHORT_KEY as nat)
                &&& right.fitting()
            }
        },
{
    let new = upsert(entries, key, value);
    let i = lemma_find_place(entries, key);
    lemma_place(entries, key, i);
    if i < entries.len() && entries[i].0 == key {
        lemma_size_around(entries, i);
        lemma_size_around(new, i);
        assert(new.take(i) =~= entries.take(i));
        assert(new.skip(i + 1) =~= entries.skip(i + 1));
    } else {
        assert(new =~= entries.insert(i, (key, value)));
        lemma_inserted_size(entries, i, (key, value));
    }
    assert(items_size(new) <= items_size(entries) + 200);
    lemma_changed_items(entries, key, value);
    assert forall|j: int| 0 <= j < new.len() implies (#[trigger] new[j]).0.len() <= SHORT_KEY by {
        if new[j] != (key, value) {
            let k = entries.index_of(new[j]);
            assert(entries[k].0.len() <= SHORT_KEY);
        }
    }
    let mid = new.len() as int / 2;
    let a = new.take(mid);
    let b = new.skip(mid);
    assert(new =~= a + b);
    node::lemma_items_size_add(a, b);
    lemma_short_size(a);
    lemma_short_size(b);
    lemma_short_size(new);
}

proof fn lemma_short_branch(page: u64, keys: Seq<Seq<u8>>, children: Seq<Tree>, fresh: int)
    requires
        children.len() == keys.len() + 1,
        (Tree::Branch { page, keys, children }).short(SHORT_KEY as nat),
        (Tree::Branch { page, keys, children }).node().body_size() <= MAX_BODY + 200,
        forall|i: int| 0 <= i < children.len() ==> (#[trigger] children[i]).fitting(),
        0 <= fresh < PAGE_LIMIT,
    ensures
        grow_branch(page, keys, children, fresh) matches Ok(grown) && {
            &&& grown.left.short(SHORT_KEY as nat)
            &&& grown.left.fitting()
            &&& grown.fresh <= fresh + 1
            &&& grown.right matches Some((separator, right)) ==> {
                &&& separator.len() <= SHORT_KEY
                &&& right.short(SHORT_KEY as nat)
                &&& right.fitting()
            }
        },
{
    let whole = Tree::Branch { page, keys, children };
    let items = whole.node().items;
    assert forall|i: int| 0 <= i < items.len() implies (#[trigger] items[i]).0.len() <= SHORT_KEY by {
        assert(keys[i].len() <= SHORT_KEY);
    }
    if !whole.node().fits() {
        let mid = keys.len() as int / 2;
        assert(keys.len() > 0) by {
            if keys.len() == 0 {
                assert(items.len() == 0);
            }
        }
        lemma_cut_node(page, keys, children, mid, fresh as u64);
        lemma_size_around(items, mid);
        let a = items.take(mid);
        let b = items.skip(mid + 1);
        lemma_short_size(a);
        lemma_short_size(b);
        let left = children.take(mid + 1);
        let right = children.skip(mid + 1);
        assert forall|i: int| 0 <= i < left.len() implies (#[trigger] left[i]).fitting()
            && left[i].short(SHORT_KEY as nat) by {
            assert(children[i].fitting());
        }
        assert forall|i: int| 0 <= i < right.len() implies (#[trigger] right[i]).fitting()
            && right[i].short(SHORT_KEY as nat) by {
            assert(children[mid + 1 + i].fitting());
        }
    }
}

proof fn lemma_short_insert(
    tree: Tree,
    key: Seq<u8>,
    value: u64,
    fresh: int,
    lo: Seq<u8>,
    hi: Option<Seq<u8>>,
)
    requires
        tree.ordered(lo, hi),
        in_range(key, lo, hi),
        tree.short(SHORT_KEY as nat),
        tree.fitting(),
        key.len() <= SHORT_KEY,
        0 <= fresh,
        fresh + tree.depth(key) <= PAGE_LIMIT,
    ensures
        tree_insert(tree, key, value, fresh) matches Ok(grown) && {
            &&& grown.left.short(SHORT_KEY as nat)
            &&& grown.left.fitting()
            &&& grown.left.page_no() == tree.page_no()
            &&& grown.fresh <= fresh + tree.depth(key)
            &&& grown.right matches Some((separator, right)) ==> {
                &&& separator.len() <= SHORT_KEY
                &&& right.short(SHORT_KEY as nat)
                &&& right.fitting()
            }
        },
    decreases tree,
{
    match tree {
        Tree::Leaf { page, next, entries } => {
            lemma_short_leaf(page, next, entries, key, value, fresh);
        },
        Tree::Branch { page, keys, children } => {
            let i = child_index(keys, key) as int;
            lemma_siblings(page, keys, children, lo, hi, key);
            assert(children[i].short(SHORT_KEY as nat));
            assert(children[i].fitting());
            lemma_short_insert(
                children[i],
                key,
                value,
                fresh,
                lower(keys, lo, i),
                upper(keys, hi, i),
            );
            let grown = tree_insert(children[i], key, value, fresh)->Ok_0;
            lemma_insert(
                children[i],
                key,
                value,
                fresh,
                lower(keys, lo, i),
                upper(keys, hi, i),
            );
            let keys2 = grown_keys(keys, i, grown);
            let children2 = grown_children(children, i, grown);
            let new = Tree::Branch { page, keys: keys2, children: children2 };
            lemma_grown_node(page, keys, children, i, grown);
            if grown.right is Some {
                let (separator, right) = grown.right->0;
                lemma_inserted_size(tree.node().items, i, (separator, right.page_no()));
            }
            assert forall|j: int| 0 <= j < keys2.len() implies (#[trigger] keys2[j]).len()
                <= SHORT_KEY by {
                if grown.right is Some && j > i {
                    assert(keys2[j] == keys[j - 1]);
                }
            }
            assert forall|j: int| 0 <= j < children2.len() implies (#[trigger] children2[j]).short(
                SHORT_KEY as nat,
            ) && children2[j].fitting() by {
                if grown.right is Some && j > i + 1 {
                    assert(children2[j] == children[j - 1]);
                } else if j != i && !(grown.right is Some && j == i + 1) {
                    assert(children2[j] == children[j]);
                }
            }
            lemma_short_branch(page, keys2, children2, grown.fresh);
        },
    }
}

/// An insertion of a key of at most `SHORT_KEY` bytes into a tree of such
/// keys never overflows a page.
pub proof fn law_short_keys_fit(tree: Tree, key: Seq<u8>, value: u64, fresh: int)
    requires
        tree.ordered(Seq::empty(), None),
        tree.short(SHORT_KEY as nat),
        tree.fitting(),
        key.len() <= SHORT_KEY,
        0 <= fresh,
        fresh + tree.depth(key) < PAGE_LIMIT,
    ensures
        root_insert(tree, key, value, fresh) matches Ok((new, _)) && {
            &&& new.short(SHORT_KEY as nat)
            &&& new.fitting()
        },
{
    lemma_short_insert(tree, key, value, fresh, Seq::empty(), None);
    let grown = tree_insert(tree, key, value, fresh)->Ok_0;
    match grown.right {
        None => {},
        Some((separator, right)) => {
            let children = seq![grown.left, right];
            let root = Tree::Branch {
                page: grown.fresh as u64,
                keys: seq![separator],
                children,
            };
            assert(root.node().items.drop_first() =~= Seq::empty());
            reveal_with_fuel(items_size, 2);
            assert forall|i: int| 0 <= i < children.len() implies (#[trigger] children[i]).short(
                SHORT_KEY as nat,
            ) && children[i].fitting() by {
            }
        },
    }
}

/// Setting a key that is there already changes no node's size, so nothing is
/// split.
pub proof fn law_replacing_always_fits(
    tree: Tree,
    key: Seq<u8>,
    value: u64,
    fresh: int,
    lo: Seq<u8>,
    hi: Option<Seq<u8>>,
)
    requires
        tree.ordered(lo, hi),
        tree.fitting(),
        value_of(tree.entries(), key) is Some,
    ensures
        tree_insert(tree, key, value, fresh) matches Ok(grown) && {
            &&& grown.right is None
            &&& grown.fresh == fresh
            &&& grown.left.page_no() == tree.page_no()
        },
        root_insert(tree, key, value, fresh) matches Ok((_, next)) && next == fresh,
    decreases tree,
{
    match tree {
        Tree::Leaf { page, next, entries } => {
            reveal_with_fuel(entries_of, 2);
            assert(tree.leaves().drop_first() =~= Seq::empty());
            assert(tree.entries() =~= entries);
            let new = upsert(entries, key, value);
            let i = lemma_find_place(entries, key);
            lemma_place(entries, key, i);
            let j = choose|j: int| 0 <= j < entries.len() && (#[trigger] entries[j]).0 == key;
            lemma_only_place(entries, key, i, j);
            lemma_size_around(entries, i);
            lemma_size_around(new, i);
            assert(new.take(i) =~= entries.take(i));
            assert(new.skip(i + 1) =~= entries.skip(i + 1));
        },
        Tree::Branch { page, keys, children } => {
            let i = child_index(keys, key) as int;
            lemma_value_in_child(page, keys, children, lo, hi, key);
            assert(children[i].fitting());
            law_replacing_always_fits(
                children[i],
                key,
                value,
                fresh,
                lower(keys, lo, i),
                upper(keys, hi, i),
            );
            let grown = tree_insert(children[i], key, value, fresh)->Ok_0;
            lemma_grown_node(page, keys, children, i, grown);
        },
    }
}

/// The way down to a leaf is not longer than the longest one.
pub proof fn lemma_depth(tree: Tree, key: Seq<u8>, h: nat)
    requires
        tree.at_most(h),
    ensures
        tree.depth(key) <= h,
    decreases tree,
{
    match tree {
        Tree::Leaf { .. } => {},
        Tree::Branch { keys, children, .. } => {
            let i = child_index(keys, key) as int;
            if i < children.len() {
                lemma_depth(children[i], key, (h - 1) as nat);
            }
        },
    }
}

/// A longer way down is allowed too.
proof fn lemma_at_most_more(tree: Tree, h: nat)
    requires
        tree.at_most(h),
    ensures
        tree.at_most(h + 1),
    decreases tree,
{
    match tree {
        Tree::Leaf { .. } => {},
        Tree::Branch { children, .. } => {
            assert forall|i: int| 0 <= i < children.len() implies (#[trigger] children[i]).at_most(
                h,
            ) by {
                lemma_at_most_more(children[i], (h - 1) as nat);
            }
        },
    }
}

/// Insertion into a tree below the root makes no way down longer.
proof fn lemma_at_most_insert(
    tree: Tree,
    key: Seq<u8>,
    value: u64,
    fresh: int,
    h: nat,
    lo: Seq<u8>,
    hi: Option<Seq<u8>>,
)
    requires
        tree.ordered(lo, hi),
        in_range(key, lo, hi),
        tree.at_most(h),
        tree_insert(tree, key, value, fresh) is Ok,
    ensures
        ({
            let grown = tree_insert(tree, key, value, fresh)->Ok_0;
            &&& grown.left.at_most(h)
            &&& grown.right matches Some((_, right)) ==> right.at_most(h)
        }),
    decreases tree,
{
    match tree {
        Tree::Leaf { .. } => {},
        Tree::Branch { page, keys, children } => {
            let i = child_index(keys, key) as int;
            let less = (h - 1) as nat;
            lemma_siblings(page, keys, children, lo, hi, key);
            assert(children[i].at_most(less));
            lemma_at_most_insert(
                children[i],
                key,
                value,
                fresh,
                less,
                lower(keys, lo, i),
                upper(keys, hi, i),
            );
            let grown = tree_insert(children[i], key, value, fresh)->Ok_0;
            let keys2 = grown_keys(keys, i, grown);
            let children2 = grown_children(children, i, grown);
            let mid = keys2.len() as int / 2;
            assert forall|j: int| 0 <= j < children2.len() implies (
            #[trigger] children2[j]).at_most(less) by {
                if grown.right is Some && j > i + 1 {
                    assert(children2[j] == children[j - 1]);
                } else if j != i && !(grown.right is Some && j == i + 1) {
                    assert(children2[j] == children[j]);
                }
            }
            let first = children2.take(mid + 1);
            let second = children2.skip(mid + 1);
            assert(children2.len() == keys2.len() + 1);
            assert forall|j: int| 0 <= j < first.len() implies (#[trigger] first[j]).at_most(
                less,
            ) by {
                assert(first[j] == children2[j]);
            }
            assert forall|j: int| 0 <= j < second.len() implies (#[trigger] second[j]).at_most(
                less,
            ) by {
                assert(second[j] == children2[j + mid + 1]);
            }
        },
    }
}

/// An insertion takes at most one page for each node on the way down and one
/// for a new root, which makes the ways down longer by one node.
pub proof fn law_insertion_adds_few_pages(
    tree: Tree,
    key: Seq<u8>,
    value: u64,
    fresh: int,
    h: nat,
)
    requires
        tree.ordered(Seq::empty(), None),
        tree.short(SHORT_KEY as nat),
        tree.fitting(),
        tree.at_most(h),
        key.len() <= SHORT_KEY,
        0 <= fresh,
        fresh + h < PAGE_LIMIT,
    ensures
        root_insert(tree, key, value, fresh) matches Ok((new, next)) && {
            &&& new.short(SHORT_KEY as nat)
            &&& new.at_most(h + 1)
            &&& next <= fresh + h + 1
        },
{
    lemma_depth(tree, key, h);
    law_short_keys_fit(tree, key, value, fresh);
    lemma_short_insert(tree, key, value, fresh, Seq::empty(), None);
    lemma_at_most_insert(tree, key, value, fresh, h, Seq::empty(), None);
    let grown = tree_insert(tree, key, value, fresh)->Ok_0;
    lemma_at_most_more(grown.left, h);
    match grown.right {
        None => {},
        Some((separator, right)) => {
            let children = seq![grown.left, right];
            assert forall|i: int| 0 <= i < children.len() implies (#[trigger] children[i]).at_most(
                h,
            ) by {
            }
        },
    }
}

/// Removal makes no key and no way down longer.
pub proof fn lemma_remove_keeps_short(tree: Tree, key: Seq<u8>, n: nat, h: nat)
    ensures
        tree.short(n) ==> tree_remove(tree, key).short(n),
        tree.at_most(h) ==> tree_remove(tree, key).at_most(h),
    decreases tree,
{
    match tree {
        Tree::Leaf { entries, .. } => {
            let rest = without(entries, key);
            if tree.short(n) {
                assert forall|i: int| 0 <= i < rest.len() implies (#[trigger] rest[i]).0.len()
                    <= n by {
                    lemma_without_member(entries, key, i);
                }
            }
        },
        Tree::Branch { keys, children, .. } => {
            let i = child_index(keys, key) as int;
            if i < children.len() {
                lemma_remove_keeps_short(children[i], key, n, (h - 1) as nat);
            }
        },
    }
}

proof fn lemma_without_member(entries: Seq<Item>, key: Seq<u8>, i: int)
    requires
        0 <= i < without(entries, key).len(),
    ensures
        exists|j: int| 0 <= j < entries.len() && #[trigger] entries[j] == without(entries, key)[i],
{
    let rest = without(entries, key);
    let item = rest[i];
    if i < before(entries, key).len() {
        assert(before(entries, key)[i] == item);
        assert(before(entries, key).contains(item));
        entries.lemma_filter_contains_rev(|item: Item| lex_lt(item.0, key), item);
    } else {
        assert(after(entries, key)[i - before(entries, key).len()] == item);
        assert(after(entries, key).contains(item));
        entries.lemma_filter_contains_rev(|item: Item| lex_lt(key, item.0), item);
    }
    assert(entries.contains(item));
}

/// No page is given back by an insertion.
pub proof fn lemma_root_insert_grows(tree: Tree, key: Seq<u8>, value: u64, fresh: int)
    ensures
        root_insert(tree, key, value, fresh) matches Ok((_, next)) ==> fresh <= next,
{
    lemma_tree_insert_grows(tree, key, value, fresh);
}

proof fn lemma_tree_insert_grows(tree: Tree, key: Seq<u8>, value: u64, fresh: int)
    ensures
        tree_insert(tree, key, value, fresh) matches Ok(grown) ==> fresh <= grown.fresh,
    decreases tree,
{
    match tree {
        Tree::Leaf { .. } => {},
        Tree::Branch { keys, children, .. } => {
            let i = child_index(keys, key) as int;
            if i < children.len() {
                lemma_tree_insert_grows(children[i], key, value, fresh);
            }
        },
    }
}

/// When a leaf takes a key: as long as its entries fit in a page it stays one
/// leaf; otherwise its two halves must fit, and there must be a page for the
/// second one. It is refused in no other case.
pub proof fn law_when_a_leaf_splits(
    page: u64,
    next: u64,
    entries: Seq<Item>,
    key: Seq<u8>,
    value: u64,
    fresh: int,
)
    ensures
        ({
            let all = upsert(entries, key, value);
            let mid = all.len() as int / 2;
            let result = tree_insert(Tree::Leaf { page, next, entries }, key, value, fresh);
            let fits = items_size(all) <= 4085;
            let halves_fit = items_size(all.take(mid)) <= 4085 && items_size(all.skip(mid))
                <= 4085;
            &&& fits ==> result == Ok::<Grown, StorageError>(
                Grown { left: Tree::Leaf { page, next, entries: all }, right: None, fresh },
            )
            &&& !fits && halves_fit && fresh < 0x8_0000_0000_0000 ==> (result matches Ok(grown)
                && grown.right is Some)
            &&& !fits && !halves_fit ==> result == Err::<Grown, StorageError>(
                StorageError::PageOverflow,
            )
            &&& !fits && halves_fit && fresh >= 0x8_0000_0000_0000 ==> result == Err::<
                Grown,
                StorageError,
            >(StorageError::PageOutOfRange)
        }),
{
}

} // verus!
