//! The nodes of the index and their layout on a page.
//!
//! A page starts with a tag, the number of keys and the number of the next
//! leaf. The body of a leaf is a list of keys with their values; the body of
//! an internal node is its leftmost child, followed by a list of separators,
//! each with the child to the right of it.

use crate::bytes;
use crate::bytes::le_bytes;
use crate::bytes::le_value;
use crate::bytes::overwrite;
use crate::bytes::push_le;
use crate::bytes::read_u16;
use crate::bytes::read_u64;
use crate::pager::Page;
use crate::pager::StorageError;
use crate::pager::lemma_page_len;
use crate::pager::zero_page;
use vstd::prelude::*;

verus! {

/// Stands for "no page".
pub const NONE: u64 = 0xffff_ffff_ffff_ffff;

/// The tag of a leaf.
pub const LEAF_TAG: u8 = 1;

/// The tag of an internal node.
pub const INTERNAL_TAG: u8 = 2;

/// The size of tag, count and next leaf. Internal nodes leave the next leaf
/// at `NONE` to keep the header the same for both kinds.
pub const HEADER_SIZE: usize = 11;

/// What is left of a page behind the header.
pub const MAX_BODY: usize = 4085;

/// A key with the number that belongs to it.
pub type Item = (Seq<u8>, u64);

/// The contents of one node. `link` is the next leaf of a leaf and the
/// leftmost child of an internal node.
#[verifier::ext_equal]
pub struct NodeView {
    pub leaf: bool,
    pub link: u64,
    pub items: Seq<Item>,
}

/// A key of at most 65535 bytes behind its length, then the number.
pub open spec fn item_bytes(item: Item) -> Seq<u8> {
    le_bytes(item.0.len(), 2) + item.0 + le_bytes(item.1 as nat, 8)
}

/// The items one after the other.
pub open spec fn items_bytes(items: Seq<Item>) -> Seq<u8>
    decreases items.len(),
{
    if items.len() == 0 {
        Seq::empty()
    } else {
        item_bytes(items[0]) + items_bytes(items.drop_first())
    }
}

/// The number of bytes that the items take.
pub open spec fn items_size(items: Seq<Item>) -> nat
    decreases items.len(),
{
    if items.len() == 0 {
        0
    } else {
        10 + items[0].0.len() + items_size(items.drop_first())
    }
}

impl NodeView {
    /// The number of bytes of the body.
    pub open spec fn body_size(self) -> nat {
        if self.leaf {
            items_size(self.items)
        } else {
            8 + items_size(self.items)
        }
    }

    /// Whether the node fits in a page.
    pub open spec fn fits(self) -> bool {
        self.body_size() <= MAX_BODY
    }

    /// The bytes of the node.
    pub open spec fn bytes(self) -> Seq<u8> {
        let count = le_bytes(self.items.len(), 2);
        if self.leaf {
            seq![LEAF_TAG] + count + le_bytes(self.link as nat, 8) + items_bytes(self.items)
        } else {
            seq![INTERNAL_TAG] + count + le_bytes(NONE as nat, 8) + le_bytes(self.link as nat, 8)
                + items_bytes(self.items)
        }
    }

    /// The page that holds the node.
    pub open spec fn page(self) -> Seq<u8> {
        overwrite(zero_page(), 0, self.bytes())
    }
}

/// The `count` items that start at `offset`, if they lie inside the page.
pub open spec fn parse_items(page: Seq<u8>, offset: int, count: nat) -> Option<Seq<Item>>
    decreases count,
{
    if count == 0 {
        Some(Seq::empty())
    } else if offset + 2 > page.len() {
        None
    } else {
        let end = offset + 2 + le_value(page.subrange(offset, offset + 2));
        if end + 8 > page.len() {
            None
        } else {
            let item = (
                page.subrange(offset + 2, end),
                le_value(page.subrange(end, end + 8)) as u64,
            );
            match parse_items(page, end + 8, (count - 1) as nat) {
                Some(rest) => Some(seq![item] + rest),
                None => None,
            }
        }
    }
}

/// The node on a page, if there is one.
pub open spec fn page_node(page: Seq<u8>) -> Option<NodeView> {
    let count = le_value(page.subrange(1, 3));
    if page[0] == LEAF_TAG {
        let link = le_value(page.subrange(3, 11)) as u64;
        match parse_items(page, 11, count) {
            Some(items) => Some(NodeView { leaf: true, link, items }),
            None => None,
        }
    } else if page[0] == INTERNAL_TAG {
        let link = le_value(page.subrange(11, 19)) as u64;
        match parse_items(page, 19, count) {
            Some(items) => Some(NodeView { leaf: false, link, items }),
            None => None,
        }
    } else {
        None
    }
}

pub proof fn lemma_items_size(items: Seq<Item>)
    ensures
        items_bytes(items).len() == items_size(items),
        10 * items.len() <= items_size(items),
    decreases items.len(),
{
    if items.len() > 0 {
        bytes::lemma_le_bytes_len(items[0].0.len(), 2);
        bytes::lemma_le_bytes_len(items[0].1 as nat, 8);
        lemma_items_size(items.drop_first());
    }
}

/// The sizes of two lists add up.
pub proof fn lemma_items_size_add(a: Seq<Item>, b: Seq<Item>)
    ensures
        items_size(a + b) == items_size(a) + items_size(b),
    decreases a.len(),
{
    if a.len() == 0 {
        assert(a + b =~= b);
    } else {
        lemma_items_size_add(a.drop_first(), b);
        assert((a + b).drop_first() =~= a.drop_first() + b);
    }
}

/// Items that were written at `offset` are read back.
proof fn lemma_parse_items(page: Seq<u8>, offset: int, items: Seq<Item>)
    requires
        0 <= offset,
        offset + items_size(items) <= page.len(),
        items_size(items) <= MAX_BODY,
        page.subrange(offset, offset + items_size(items)) == items_bytes(items),
    ensures
        parse_items(page, offset, items.len()) == Some(items),
    decreases items.len(),
{
    lemma_items_size(items);
    if items.len() == 0 {
        assert(items =~= Seq::empty());
    } else {
        let rest = items.drop_first();
        let (key, value) = items[0];
        let head = le_bytes(key.len(), 2);
        let tail = le_bytes(value as nat, 8);
        let written = page.subrange(offset, offset + items_size(items));
        bytes::lemma_byte_ranges();
        bytes::law_le_round_trip(key.len(), 2);
        bytes::law_le_round_trip(value as nat, 8);
        lemma_items_size(rest);
        let end = offset + 2 + key.len();
        assert(page.subrange(offset, offset + 2) =~= written.subrange(0, 2));
        assert(written.subrange(0, 2) =~= head);
        assert(page.subrange(offset + 2, end) =~= written.subrange(2, 2 + key.len() as int));
        assert(written.subrange(2, 2 + key.len() as int) =~= key);
        assert(page.subrange(end, end + 8) =~= written.subrange(
            2 + key.len() as int,
            10 + key.len() as int,
        ));
        assert(written.subrange(2 + key.len() as int, 10 + key.len() as int) =~= tail);
        assert(page.subrange(end + 8, end + 8 + items_size(rest)) =~= written.subrange(
            10 + key.len() as int,
            written.len() as int,
        ));
        assert(written.subrange(10 + key.len() as int, written.len() as int) =~= items_bytes(
            rest,
        ));
        lemma_parse_items(page, end + 8, rest);
        assert(seq![items[0]] + rest =~= items);
    }
}

/// A node that fits in a page is read back from the page that holds it.
pub proof fn law_node_round_trip(node: NodeView)
    requires
        node.fits(),
    ensures
        node.page().len() == 4096,
        page_node(node.page()) == Some(node),
{
    let page = node.page();
    let all = node.bytes();
    let count = le_bytes(node.items.len(), 2);
    let link = le_bytes(node.link as nat, 8);
    let none = le_bytes(NONE as nat, 8);
    let body = items_bytes(node.items);
    lemma_items_size(node.items);
    bytes::lemma_byte_ranges();
    bytes::law_le_round_trip(node.items.len(), 2);
    bytes::law_le_round_trip(node.link as nat, 8);
    bytes::law_le_round_trip(NONE as nat, 8);
    assert(page.subrange(1, 3) =~= all.subrange(1, 3));
    assert(all.subrange(1, 3) =~= count);
    assert(page[0] == all[0]);
    if node.leaf {
        assert(page.subrange(3, 11) =~= all.subrange(3, 11));
        assert(all.subrange(3, 11) =~= link);
        assert(page.subrange(11, 11 + body.len() as int) =~= all.subrange(
            11,
            11 + body.len() as int,
        ));
        assert(all.subrange(11, 11 + body.len() as int) =~= body);
        lemma_parse_items(page, 11, node.items);
    } else {
        assert(page.subrange(11, 19) =~= all.subrange(11, 19));
        assert(all.subrange(11, 19) =~= link);
        assert(page.subrange(19, 19 + body.len() as int) =~= all.subrange(
            19,
            19 + body.len() as int,
        ));
        assert(all.subrange(19, 19 + body.len() as int) =~= body);
        lemma_parse_items(page, 19, node.items);
    }
}

proof fn lemma_parsed_size(page: Seq<u8>, offset: int, count: nat)
    requires
        0 <= offset,
    ensures
        parse_items(page, offset, count) matches Some(items) ==> {
            &&& items.len() == count
            &&& count > 0 ==> offset + items_size(items) <= page.len()
        },
    decreases count,
{
    if count > 0 && offset + 2 <= page.len() {
        let end = offset + 2 + le_value(page.subrange(offset, offset + 2));
        if end + 8 <= page.len() {
            lemma_parsed_size(page, end + 8, (count - 1) as nat);
            match parse_items(page, end + 8, (count - 1) as nat) {
                Some(rest) => {
                    let item = (
                        page.subrange(offset + 2, end),
                        le_value(page.subrange(end, end + 8)) as u64,
                    );
                    assert((seq![item] + rest).drop_first() =~= rest);
                },
                None => {},
            }
        }
    }
}

/// A node that was read from a page fits in one.
pub proof fn lemma_page_node_fits(page: Seq<u8>)
    requires
        page.len() == 4096,
    ensures
        page_node(page) matches Some(node) ==> node.fits(),
{
    lemma_parsed_size(page, 11, le_value(page.subrange(1, 3)));
    lemma_parsed_size(page, 19, le_value(page.subrange(1, 3)));
}

/// An unused page holds no node.
pub proof fn lemma_zero_page_has_no_node()
    ensures
        page_node(zero_page()) is None,
{
}

/// A node of the index, read from a page or about to be written to one.
pub struct Node {
    pub leaf: bool,
    pub link: u64,
    pub items: Vec<(Vec<u8>, u64)>,
}

/// The items of a node, the keys as sequences.
pub open spec fn items_view(items: Seq<(Vec<u8>, u64)>) -> Seq<Item> {
    Seq::new(items.len(), |i: int| (items[i].0@, items[i].1))
}

impl View for Node {
    type V = NodeView;

    open spec fn view(&self) -> NodeView {
        NodeView { leaf: self.leaf, link: self.link, items: items_view(self.items@) }
    }
}

impl Node {
    /// Whether the node fits in a page.
    pub fn fits(&self) -> (fits: bool)
        ensures
            fits == self@.fits(),
    {
        let ghost items = items_view(self.items@);
        let mut left: usize = if self.leaf {
            MAX_BODY
        } else {
            MAX_BODY - 8
        };
        let mut i: usize = 0;
        assert(items.skip(0) =~= items);
        while i < self.items.len()
            invariant
                i <= self.items@.len(),
                left <= MAX_BODY,
                items == items_view(self.items@),
                self@.fits() == (items_size(items.skip(i as int)) <= left),
            decreases self.items@.len() - i,
        {
            let key_len: usize = self.items[i].0.len();
            proof {
                assert(items.skip(i as int).drop_first() =~= items.skip(i + 1));
                assert(items.skip(i as int)[0] == items[i as int]);
            }
            if left < 10 || left - 10 < key_len {
                return false;
            }
            left = left - 10 - key_len;
            i += 1;
        }
        assert(items.skip(i as int) =~= Seq::empty());
        true
    }

    /// Writes the node to a page.
    pub fn encode(&self) -> (page: Page)
        requires
            self@.fits(),
        ensures
            page@ == self@.page(),
    {
        broadcast use lemma_page_len;

        let ghost items = items_view(self.items@);
        let mut bytes: Vec<u8> = Vec::new();
        proof {
            lemma_items_size(items);
        }
        bytes.push(if self.leaf {
            LEAF_TAG
        } else {
            INTERNAL_TAG
        });
        push_le(&mut bytes, self.items.len() as u64, 2);
        push_le(
            &mut bytes,
            if self.leaf {
                self.link
            } else {
                NONE
            },
            8,
        );
        if !self.leaf {
            push_le(&mut bytes, self.link, 8);
        }
        let mut i: usize = 0;
        proof {
            assert(items.skip(0) =~= items);
            assert(bytes@ + items_bytes(items.skip(0)) =~= self@.bytes());
        }
        while i < self.items.len()
            invariant
                i <= self.items@.len(),
                items == items_view(self.items@),
                bytes@ + items_bytes(items.skip(i as int)) == self@.bytes(),
            decreases self.items@.len() - i,
        {
            let ghost before = bytes@;
            let ghost rest = items_bytes(items.skip(i + 1));
            let key = &self.items[i].0;
            let value: u64 = self.items[i].1;
            push_le(&mut bytes, key.len() as u64, 2);
            bytes.extend_from_slice(key.as_slice());
            push_le(&mut bytes, value, 8);
            proof {
                assert(items.skip(i as int).drop_first() =~= items.skip(i + 1));
                assert(items.skip(i as int)[0] == items[i as int]);
                assert(bytes@ =~= before + item_bytes(items[i as int]));
                assert(before + (item_bytes(items[i as int]) + rest) =~= bytes@ + rest);
            }
            i += 1;
        }
        proof {
            assert(items.skip(i as int) =~= Seq::empty());
            assert(bytes@ =~= self@.bytes());
            bytes::lemma_le_bytes_len(items.len(), 2);
            bytes::lemma_le_bytes_len(self.link as nat, 8);
            bytes::lemma_le_bytes_len(NONE as nat, 8);
        }
        let mut page = Page::new();
        bytes::copy_into(page.as_bytes_mut(), 0, bytes.as_slice());
        page
    }

    /// Reads the node on a page.
    pub fn decode(page: &Page) -> (result: Result<Node, StorageError>)
        ensures
            match result {
                Ok(node) => page_node(page@) == Some(node@),
                Err(error) => {
                    &&& error == StorageError::CorruptPage
                    &&& page_node(page@) is None
                },
            },
    {
        broadcast use lemma_page_len;

        let buf = page.as_bytes();
        let tag: u8 = buf[0];
        let count: usize = read_u16(buf, 1) as usize;
        if tag != LEAF_TAG && tag != INTERNAL_TAG {
            return Err(StorageError::CorruptPage);
        }
        let leaf = tag == LEAF_TAG;
        let link: u64 = if leaf {
            read_u64(buf, 3)
        } else {
            read_u64(buf, 11)
        };
        let start: usize = if leaf {
            HEADER_SIZE
        } else {
            HEADER_SIZE + 8
        };
        let mut offset: usize = start;
        let mut items: Vec<(Vec<u8>, u64)> = Vec::new();
        let mut i: usize = 0;
        proof {
            let all = parse_items(page@, start as int, count as nat);
            assert(items_view(items@) =~= Seq::empty());
            if all is Some {
                assert(items_view(items@) + all->0 =~= all->0);
            }
        }
        while i < count
            invariant
                i <= count,
                offset <= 4096,
                buf@ == page@,
                buf@.len() == 4096,
                page_node(page@) == (match parse_items(page@, start as int, count as nat) {
                    Some(items) => Some(NodeView { leaf, link, items }),
                    None => None,
                }),
                parse_items(page@, start as int, count as nat) == (match parse_items(
                    page@,
                    offset as int,
                    (count - i) as nat,
                ) {
                    Some(rest) => Some(items_view(items@) + rest),
                    None => None,
                }),
            ensures
                i == count,
                parse_items(page@, start as int, count as nat) == Some(items_view(items@)),
            decreases count - i,
        {
            if offset + 2 > 4096 {
                return Err(StorageError::CorruptPage);
            }
            let key_len: usize = read_u16(buf, offset) as usize;
            let end: usize = offset + 2 + key_len;
            if end + 8 > 4096 {
                return Err(StorageError::CorruptPage);
            }
            let key = copy_range(buf, offset + 2, end);
            let value: u64 = read_u64(buf, end);
            let ghost before = items_view(items@);
            items.push((key, value));
            proof {
                let item = (key@, value);
                assert(items_view(items@) =~= before.push(item));
                match parse_items(page@, end + 8, (count - i - 1) as nat) {
                    Some(rest) => {
                        assert(before + (seq![item] + rest) =~= items_view(items@) + rest);
                    },
                    None => {},
                }
            }
            offset = end + 8;
            i += 1;
            proof {
                if i == count {
                    assert(items_view(items@) + Seq::<Item>::empty() =~= items_view(items@));
                }
            }
        }
        Ok(Node { leaf, link, items })
    }
}

/// A copy of the bytes from `start` up to `end`.
pub fn copy_range(buf: &[u8], start: usize, end: usize) -> (bytes: Vec<u8>)
    requires
        start <= end <= buf@.len(),
    ensures
        bytes@ == buf@.subrange(start as int, end as int),
{
    let mut bytes: Vec<u8> = Vec::new();
    let mut i: usize = start;
    while i < end
        invariant
            start <= i <= end <= buf@.len(),
            bytes@ == buf@.subrange(start as int, i as int),
        decreases end - i,
    {
        bytes.push(buf[i]);
        i += 1;
        assert(bytes@ =~= buf@.subrange(start as int, i as int));
    }
    bytes
}

/// An entry takes as many bytes as its key has and ten more, and a node fits in
/// a page if its entries and, in an internal node, eight more bytes take at
/// most 4085.
pub proof fn law_size_of_nodes(node: NodeView, item: Item, a: Seq<Item>, b: Seq<Item>)
    ensures
        items_size(seq![item]) == item.0.len() + 10,
        items_size(a + b) == items_size(a) + items_size(b),
        node.fits() <==> items_size(node.items) + (if node.leaf {
            0int
        } else {
            8
        }) <= 4085,
{
    assert(seq![item].drop_first() =~= Seq::empty());
    reveal_with_fuel(items_size, 2);
    lemma_items_size_add(a, b);
}

/// The bytes of a node: a tag, the number of entries, the next leaf or, in an
/// internal node, nothing and the leftmost child, and then the entries: the
/// length of the key, the key and the number that belongs to it.
pub proof fn law_layout_of_nodes(node: NodeView)
    ensures
        ({
            let entries = Seq::new(
                node.items.len(),
                |i: int|
                    le_bytes(node.items[i].0.len(), 2) + node.items[i].0 + le_bytes(
                        node.items[i].1 as nat,
                        8,
                    ),
            ).flatten();
            &&& node.leaf ==> node.bytes() == seq![1u8] + le_bytes(node.items.len(), 2) + le_bytes(
                node.link as nat,
                8,
            ) + entries
            &&& !node.leaf ==> node.bytes() == seq![2u8] + le_bytes(node.items.len(), 2) + le_bytes(
                0xffff_ffff_ffff_ffff,
                8,
            ) + le_bytes(node.link as nat, 8) + entries
        }),
{
    lemma_items_flat(node.items);
}

proof fn lemma_items_flat(items: Seq<Item>)
    ensures
        items_bytes(items) == Seq::new(
            items.len(),
            |i: int|
                le_bytes(items[i].0.len(), 2) + items[i].0 + le_bytes(items[i].1 as nat, 8),
        ).flatten(),
    decreases items.len(),
{
    let parts = Seq::new(
        items.len(),
        |i: int| le_bytes(items[i].0.len(), 2) + items[i].0 + le_bytes(items[i].1 as nat, 8),
    );
    if items.len() > 0 {
        let rest = items.drop_first();
        lemma_items_flat(rest);
        assert(parts.drop_first() =~= Seq::new(
            rest.len(),
            |i: int| le_bytes(rest[i].0.len(), 2) + rest[i].0 + le_bytes(rest[i].1 as nat, 8),
        ));
    }
}

/// A page holds a node exactly if it begins with the bytes of the node. In an
/// internal node the eight bytes behind the number of entries do not count.
pub proof fn law_node_on_a_page(page: Seq<u8>, node: NodeView)
    requires
        page.len() == 4096,
    ensures
        node.leaf ==> (page_node(page) == Some(node) <==> node.fits() && page.take(
            11 + items_size(node.items) as int,
        ) == node.bytes()),
        !node.leaf ==> (page_node(page) == Some(node) <==> node.fits() && page.take(3)
            + le_bytes(0xffff_ffff_ffff_ffff, 8) + page.subrange(
            11,
            19 + items_size(node.items) as int,
        ) == node.bytes()),
        page_node(page) is Some ==> page[0] == 1 || page[0] == 2,
{
    let offset: int = if node.leaf {
        11
    } else {
        19
    };
    let n = items_size(node.items) as int;
    let count = page.subrange(1, 3);
    let link = page.subrange(offset - 8, offset);
    bytes::lemma_byte_ranges();
    bytes::law_le_bytes_of_value(count);
    bytes::law_le_bytes_of_value(link);
    bytes::lemma_le_bytes_len(node.items.len(), 2);
    bytes::lemma_le_bytes_len(node.link as nat, 8);
    bytes::lemma_le_bytes_len(NONE as nat, 8);
    lemma_items_size(node.items);
    let bytes = node.bytes();
    let start = if node.leaf {
        page.take(11 + n)
    } else {
        page.take(3) + le_bytes(0xffff_ffff_ffff_ffff, 8) + page.subrange(11, 19 + n)
    };
    if page_node(page) == Some(node) {
        lemma_items_of_page(page, offset, le_value(count));
        assert(start =~= bytes);
    }
    if node.fits() && start == bytes {
        assert(page[0] == start[0]);
        assert(count =~= start.subrange(1, 3));
        assert(bytes.subrange(1, 3) =~= le_bytes(node.items.len(), 2));
        assert(link =~= start.subrange(offset - 8, offset));
        assert(bytes.subrange(offset - 8, offset) =~= le_bytes(node.link as nat, 8));
        bytes::law_le_round_trip(node.items.len(), 2);
        bytes::law_le_round_trip(node.link as nat, 8);
        assert(page.subrange(offset, offset + n) =~= start.subrange(offset, offset + n));
        assert(bytes.subrange(offset, offset + n) =~= items_bytes(node.items));
        lemma_parse_items(page, offset, node.items);
    }
}

/// Items that are read from a page are the bytes that stand there.
proof fn lemma_items_of_page(page: Seq<u8>, offset: int, count: nat)
    requires
        0 <= offset <= page.len(),
        parse_items(page, offset, count) is Some,
    ensures
        ({
            let items = parse_items(page, offset, count)->0;
            &&& items.len() == count
            &&& offset + items_size(items) <= page.len()
            &&& page.subrange(offset, offset + items_size(items)) == items_bytes(items)
        }),
    decreases count,
{
    let items = parse_items(page, offset, count)->0;
    lemma_items_size(items);
    if count == 0 {
        assert(page.subrange(offset, offset) =~= Seq::empty());
    } else {
        let head = page.subrange(offset, offset + 2);
        let end = offset + 2 + le_value(head);
        let key = page.subrange(offset + 2, end);
        let tail = page.subrange(end, end + 8);
        bytes::lemma_byte_ranges();
        bytes::law_le_bytes_of_value(head);
        bytes::law_le_bytes_of_value(tail);
        lemma_items_of_page(page, end + 8, (count - 1) as nat);
        let rest = parse_items(page, end + 8, (count - 1) as nat)->0;
        assert(items.drop_first() =~= rest);
        assert(items[0] == (key, le_value(tail) as u64));
        assert(page.subrange(offset, offset + items_size(items)) =~= head + key + tail
            + page.subrange(end + 8, end + 8 + items_size(rest)));
    }
}

} // verus!
