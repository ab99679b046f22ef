//! A collection of documents: a file for the documents, and an index from
//! their identifiers to where they are stored.

use crate::btree;
use crate::btree::BTree;
use crate::btree::index_tree;
use crate::btree::scanned;
use crate::bytes;
use crate::chain;
use crate::chain::chunk_count;
use crate::chain::counter_of;
use crate::chain::heap_ok;
use crate::chain::insert_record;
use crate::chain::record;
use crate::chain::with_counter;
use crate::disk::PAGE_LIMIT;
use crate::disk::pages_of;
use crate::document;
use crate::document::Document;
use crate::document::DocumentView;
use crate::document::Value;
use crate::document::ValueView;
use crate::document::doc_get;
use crate::document::doc_insert;
use crate::document::proper;
use crate::encoding;
use crate::encoding::DecodeError;
use crate::encoding::document_bytes;
use crate::encoding::document_of;
use crate::encoding::small;
use crate::heap::HeapFile;
use crate::heap::RecordId;
use crate::heap::stored_document;
use crate::journal;
use crate::journal::FileAction;
use crate::journal::FileActionView;
use crate::journal::Images;
use crate::journal::covered;
use crate::journal::file_actions_view;
use crate::journal::files_may_crash_to;
use crate::journal::on_heap;
use crate::journal::on_index;
use crate::journal::perform_steps;
use crate::journal::with_heap;
use crate::journal::with_index;
use crate::node::Item;
use crate::pager::Action;
use crate::pager::ActionView;
use crate::pager::Image;
use crate::pager::Pager;
use crate::pager::StorageError;
use crate::pager::actions_view;
use crate::pager::recovered;
use crate::pager::too_large;
use crate::query;
use crate::query::satisfies;
use crate::recovery;
use crate::text;
use crate::text::lex_lt;
use crate::tree;
use crate::tree::SHORT_KEY;
use crate::tree::Tree;
use crate::tree::root_insert;
use vstd::arithmetic::power::pow;
use vstd::prelude::*;
use vstd::utf8::decode_utf8;
use vstd::utf8::encode_utf8;
use vstd::utf8::valid_utf8;

verus! {

broadcast use Value::lemma_view;

/// The character of a hexadecimal digit.
pub open spec fn hex_char(digit: nat) -> char {
    if digit < 10 {
        ('0' as nat + digit) as char
    } else {
        ('a' as nat + digit - 10) as char
    }
}

/// The last `digits` hexadecimal digits of a number.
pub open spec fn hex(n: nat, digits: nat) -> Seq<char>
    decreases digits,
{
    if digits == 0 {
        Seq::empty()
    } else {
        hex(n / 16, (digits - 1) as nat).push(hex_char(n % 16))
    }
}

/// The identifier that a document brings with it.
pub open spec fn given_id(doc: DocumentView) -> Option<Seq<char>> {
    match doc_get(doc, "_id"@) {
        Some(ValueView::Str(id)) => Some(id),
        _ => None,
    }
}

/// The identifier under which a document is stored when the counter is at
/// `counter`.
pub open spec fn id_for(doc: DocumentView, counter: u64) -> Seq<char> {
    match given_id(doc) {
        Some(id) => id,
        None => hex(counter as nat, 16),
    }
}

/// The document with its identifier.
pub open spec fn with_id(doc: DocumentView, id: Seq<char>) -> DocumentView {
    doc_insert(doc, "_id"@, ValueView::Str(id))
}

/// The document as it is stored.
pub open spec fn document_for(doc: DocumentView, counter: u64) -> DocumentView {
    match given_id(doc) {
        Some(_) => doc,
        None => with_id(doc, hex(counter as nat, 16)),
    }
}

/// The pages where the records of an index begin.
pub open spec fn live_pages(map: Map<Seq<char>, u64>) -> Set<u64> {
    Set::new(|p: u64| exists|id: Seq<char>| #[trigger] map.contains_key(id) && map[id] == p)
}

/// No two identifiers lead to the same record.
pub open spec fn one_to_one(map: Map<Seq<char>, u64>) -> bool {
    forall|a: Seq<char>, b: Seq<char>|
        #![trigger map.contains_key(a), map.contains_key(b)]
        map.contains_key(a) && map.contains_key(b) && a != b ==> map[a] != map[b]
}

/// The records of an index are all there, each on its own pages.
pub open spec fn consistent(store: Seq<Seq<u8>>, map: Map<Seq<char>, u64>) -> bool {
    heap_ok(store, live_pages(map)) && one_to_one(map)
}

/// The bytes that are stored under each identifier.
pub open spec fn contents(store: Seq<Seq<u8>>, map: Map<Seq<char>, u64>) -> Map<
    Seq<char>,
    Seq<u8>,
> {
    Map::new(
        |id: Seq<char>| map.contains_key(id),
        |id: Seq<char>| record(store, map[id])->Ok_0,
    )
}

/// The first number from `counter` on of which the identifier is not in the
/// index, or the largest number if there is none.
pub open spec fn first_unused(map: Map<Seq<char>, u64>, counter: u64) -> u64
    decreases u64::MAX - counter,
{
    if counter < u64::MAX && map.contains_key(hex(counter as nat, 16)) {
        first_unused(map, (counter + 1) as u64)
    } else {
        counter
    }
}

/// Where the counter is once the identifier of `number` was generated.
pub open spec fn number_after(number: u64) -> u64 {
    if number == u64::MAX {
        number
    } else {
        (number + 1) as u64
    }
}

/// The file of documents with another counter.
pub open spec fn renumbered(store: Seq<Seq<u8>>, counter: u64) -> Seq<Seq<u8>> {
    store.update(0, with_counter(store[0], counter))
}

/// The two files hold these documents.
pub open spec fn holds(
    files: (Seq<u8>, Seq<u8>),
    documents: Map<Seq<char>, Seq<u8>>,
) -> bool {
    let store = pages_of(files.0);
    let index = pages_of(files.1);
    &&& btree::index_ok(index)
    &&& consistent(store, btree::index_map(index))
    &&& contents(store, btree::index_map(index)) == documents
}

/// Each of the two files is empty, or one without documents.
pub open spec fn without_documents(files: (Seq<u8>, Seq<u8>)) -> bool {
    let store = pages_of(files.0);
    let index = pages_of(files.1);
    &&& store.len() == 0 || heap_ok(store, Set::empty())
    &&& index.len() == 0 || {
        &&& btree::index_ok(index)
        &&& btree::index_map(index) == Map::<Seq<char>, u64>::empty()
    }
}

/// The trail goes on from `earlier` with files that hold the documents `a` or
/// the documents `b`.
pub open spec fn goes_through(
    earlier: Seq<(Seq<u8>, Seq<u8>)>,
    trail: Seq<(Seq<u8>, Seq<u8>)>,
    a: Map<Seq<char>, Seq<u8>>,
    b: Map<Seq<char>, Seq<u8>>,
) -> bool {
    &&& earlier.len() <= trail.len()
    &&& trail.take(earlier.len() as int) == earlier
    &&& forall|i: int|
        earlier.len() <= i < trail.len() ==> holds(#[trigger] trail[i], a) || holds(trail[i], b)
}

proof fn lemma_goes_nowhere(
    trail: Seq<(Seq<u8>, Seq<u8>)>,
    a: Map<Seq<char>, Seq<u8>>,
    b: Map<Seq<char>, Seq<u8>>,
)
    ensures
        goes_through(trail, trail, a, b),
{
    assert(trail.take(trail.len() as int) =~= trail);
}

proof fn lemma_goes_on(
    earlier: Seq<(Seq<u8>, Seq<u8>)>,
    trail: Seq<(Seq<u8>, Seq<u8>)>,
    files: (Seq<u8>, Seq<u8>),
    a: Map<Seq<char>, Seq<u8>>,
    b: Map<Seq<char>, Seq<u8>>,
)
    requires
        goes_through(earlier, trail, a, b),
        holds(files, a) || holds(files, b),
    ensures
        goes_through(earlier, trail.push(files), a, b),
{
    assert(trail.push(files).take(earlier.len() as int) =~= trail.take(earlier.len() as int));
}

/// A generated identifier is a new one: those of all smaller numbers, from the
/// counter on, are taken, and its own is not.
pub proof fn law_generated_id_is_unused(map: Map<Seq<char>, u64>, counter: u64)
    ensures
        counter <= first_unused(map, counter),
        first_unused(map, counter) < u64::MAX ==> !map.contains_key(
            hex(first_unused(map, counter) as nat, 16),
        ),
        forall|n: u64|
            counter <= n < first_unused(map, counter) ==> map.contains_key(
                #[trigger] hex(n as nat, 16),
            ),
    decreases u64::MAX - counter,
{
    if counter < u64::MAX && map.contains_key(hex(counter as nat, 16)) {
        law_generated_id_is_unused(map, (counter + 1) as u64);
    }
}

/// The documents of a list of entries, up to the first that cannot be read.
pub open spec fn collect(store: Seq<Seq<u8>>, entries: Seq<Item>) -> Result<
    Seq<DocumentView>,
    StorageError,
>
    decreases entries.len(),
{
    if entries.len() == 0 {
        Ok(Seq::empty())
    } else {
        match collect(store, entries.drop_last()) {
            Ok(docs) => match stored_document(store, entries.last().1) {
                Ok(doc) => Ok(docs.push(doc)),
                Err(error) => Err(error),
            },
            Err(error) => Err(error),
        }
    }
}

/// What documents are, as a list.
pub open spec fn documents_view(docs: Seq<Document>) -> Seq<DocumentView> {
    Seq::new(docs.len(), |i: int| docs[i].view())
}

proof fn lemma_hex_char(a: nat, b: nat)
    requires
        a < 16,
        b < 16,
        hex_char(a) == hex_char(b),
    ensures
        a == b,
{
}

/// Different counters give different identifiers.
pub proof fn law_generated_ids_differ(a: u64, b: u64)
    requires
        hex(a as nat, 16) == hex(b as nat, 16),
    ensures
        a == b,
{
    lemma_hex_injective(a as nat, b as nat, 16);
    lemma_power16();
}

/// 16 to the power `digits`.
pub open spec fn hex_range(digits: nat) -> nat
    decreases digits,
{
    if digits == 0 {
        1
    } else {
        16 * hex_range((digits - 1) as nat)
    }
}

proof fn lemma_power16()
    ensures
        hex_range(16) == 0x1_0000_0000_0000_0000,
{
    reveal_with_fuel(hex_range, 17);
}

proof fn lemma_hex_injective(a: nat, b: nat, digits: nat)
    requires
        hex(a, digits) == hex(b, digits),
    ensures
        a < hex_range(digits) && b < hex_range(digits) ==> a == b,
    decreases digits,
{
    if digits > 0 {
        let x = hex(a, digits);
        let y = hex(b, digits);
        assert(x.last() == hex_char(a % 16));
        assert(y.last() == hex_char(b % 16));
        lemma_hex_char(a % 16, b % 16);
        assert(x.drop_last() =~= hex(a / 16, (digits - 1) as nat));
        assert(y.drop_last() =~= hex(b / 16, (digits - 1) as nat));
        lemma_hex_injective(a / 16, b / 16, (digits - 1) as nat);
    }
}

/// The bytes of hexadecimal digits.
proof fn lemma_hex_bytes(n: nat, digits: nat)
    ensures
        hex(n, digits).len() == digits,
        vstd::utf8::is_ascii_chars(hex(n, digits)),
        encode_utf8(hex(n, digits)).len() == digits,
        digits > 0 ==> encode_utf8(hex(n, digits)) == encode_utf8(
            hex(n / 16, (digits - 1) as nat),
        ).push(hex_char(n % 16) as u8),
    decreases digits,
{
    if digits == 0 {
        assert(vstd::utf8::is_ascii_chars(hex(n, digits)));
    } else {
        let rest = hex(n / 16, (digits - 1) as nat);
        lemma_hex_bytes(n / 16, (digits - 1) as nat);
        vstd::utf8::is_ascii_chars_encode_utf8(rest);
        vstd::utf8::is_ascii_chars_encode_utf8(hex(n, digits));
        assert(encode_utf8(hex(n, digits)) =~= encode_utf8(rest).push(hex_char(n % 16) as u8));
    }
}

/// One more byte on each side of a comparison.
proof fn lemma_lex_push(a: Seq<u8>, b: Seq<u8>, x: u8, y: u8)
    requires
        a.len() == b.len(),
    ensures
        lex_lt(a, b) ==> lex_lt(a.push(x), b.push(y)),
        a == b && x < y ==> lex_lt(a.push(x), b.push(y)),
    decreases a.len(),
{
    if a.len() > 0 {
        assert(a.push(x).drop_first() =~= a.drop_first().push(x));
        assert(b.push(y).drop_first() =~= b.drop_first().push(y));
        lemma_lex_push(a.drop_first(), b.drop_first(), x, y);
    }
}

proof fn lemma_hex_order(a: nat, b: nat, digits: nat)
    requires
        a < b < hex_range(digits),
    ensures
        lex_lt(encode_utf8(hex(a, digits)), encode_utf8(hex(b, digits))),
    decreases digits,
{
    if digits > 0 {
        lemma_hex_bytes(a, digits);
        lemma_hex_bytes(b, digits);
        lemma_hex_bytes(a / 16, (digits - 1) as nat);
        lemma_hex_bytes(b / 16, (digits - 1) as nat);
        lemma_lex_push(
            encode_utf8(hex(a / 16, (digits - 1) as nat)),
            encode_utf8(hex(b / 16, (digits - 1) as nat)),
            hex_char(a % 16) as u8,
            hex_char(b % 16) as u8,
        );
        if a / 16 < b / 16 {
            lemma_hex_order(a / 16, b / 16, (digits - 1) as nat);
        }
    }
}

/// Generated identifiers are in the order in which they were generated, and
/// each has 16 bytes.
pub proof fn law_generated_ids_in_order(a: u64, b: u64)
    requires
        a < b,
    ensures
        lex_lt(encode_utf8(hex(a as nat, 16)), encode_utf8(hex(b as nat, 16))),
        encode_utf8(hex(a as nat, 16)).len() == 16,
        encode_utf8(hex(b as nat, 16)).len() == 16,
{
    lemma_power16();
    lemma_hex_order(a as nat, b as nat, 16);
    lemma_hex_bytes(a as nat, 16);
    lemma_hex_bytes(b as nat, 16);
}

/// A new record that no identifier leads to yet harms nothing, and once an
/// identifier leads to it, it is what is stored under that identifier.
pub proof fn law_orphan_is_harmless(
    store: Seq<Seq<u8>>,
    map: Map<Seq<char>, u64>,
    bytes: Seq<u8>,
    id: Seq<char>,
)
    requires
        consistent(store, map),
        store.len() <= PAGE_LIMIT,
        insert_record(store, bytes) is Ok,
    ensures
        ({
            let (new, p) = insert_record(store, bytes)->Ok_0;
            &&& consistent(new, map)
            &&& contents(new, map) == contents(store, map)
            &&& consistent(new, map.insert(id, p))
            &&& contents(new, map.insert(id, p)) == contents(store, map).insert(id, bytes)
        }),
{
    let (new, p) = insert_record(store, bytes)->Ok_0;
    let live = live_pages(map);
    chain::law_insert_record(store, live, bytes);
    lemma_linked(store, new, map, p, id, bytes);
    chain::lemma_fewer_records(new, live.insert(p), live);
    assert forall|k: Seq<char>| #[trigger] map.contains_key(k) implies record(new, map[k])
        == record(store, map[k]) by {
        assert(live.contains(map[k]));
    }
    assert(contents(new, map) =~= contents(store, map));
}

/// The identifier `id` leads to a new record, the others to what they led to.
proof fn lemma_linked(
    store: Seq<Seq<u8>>,
    new: Seq<Seq<u8>>,
    map: Map<Seq<char>, u64>,
    p: u64,
    id: Seq<char>,
    bytes: Seq<u8>,
)
    requires
        one_to_one(map),
        !live_pages(map).contains(p),
        heap_ok(new, live_pages(map).insert(p)),
        record(new, p) == Ok::<Seq<u8>, StorageError>(bytes),
        forall|q: u64| #[trigger]
            live_pages(map).contains(q) ==> record(new, q) == record(store, q),
    ensures
        consistent(new, map.insert(id, p)),
        contents(new, map.insert(id, p)) == contents(store, map).insert(id, bytes),
{
    let live = live_pages(map);
    let linked = map.insert(id, p);
    assert forall|k: Seq<char>| #[trigger] map.contains_key(k) implies live.contains(
        map[k],
    ) by {
    }
    assert(live_pages(linked).subset_of(live.insert(p))) by {
        assert forall|q: u64| live_pages(linked).contains(q) implies live.insert(p).contains(
            q,
        ) by {
            let k = choose|k: Seq<char>| #[trigger] linked.contains_key(k) && linked[k] == q;
            if k != id {
                assert(map.contains_key(k));
            }
        }
    }
    chain::lemma_fewer_records(new, live.insert(p), live_pages(linked));
    assert forall|a: Seq<char>, b: Seq<char>|
        #![trigger linked.contains_key(a), linked.contains_key(b)]
        linked.contains_key(a) && linked.contains_key(b) && a != b implies linked[a]
        != linked[b] by {
        if a != id {
            assert(map.contains_key(a));
        }
        if b != id {
            assert(map.contains_key(b));
        }
    }
    assert(contents(new, linked) =~= contents(store, map).insert(id, bytes)) by {
        assert forall|k: Seq<char>| k != id && #[trigger] map.contains_key(k) implies record(
            new,
            map[k],
        ) == record(store, map[k]) by {
            assert(live.contains(map[k]));
        }
    }
}

/// A record that no identifier leads to can be removed: nothing else changes.
pub proof fn law_unlinked_record_is_removed(
    store: Seq<Seq<u8>>,
    live: Set<u64>,
    map: Map<Seq<char>, u64>,
    p: u64,
)
    requires
        heap_ok(store, live),
        store.len() <= PAGE_LIMIT,
        live.contains(p),
        live_pages(map).subset_of(live.remove(p)),
        one_to_one(map),
    ensures
        chain::free_chain(store, p, store.len()) matches Ok(new) && {
            &&& new.len() == store.len()
            &&& consistent(new, map)
            &&& contents(new, map) == contents(store, map)
            &&& counter_of(new) == counter_of(store)
        },
{
    chain::law_delete_record(store, live, p);
    let new = chain::free_chain(store, p, store.len())->Ok_0;
    chain::lemma_fewer_records(new, live.remove(p), live_pages(map));
    assert forall|k: Seq<char>| #[trigger] map.contains_key(k) implies record(new, map[k])
        == record(store, map[k]) by {
        assert(live_pages(map).contains(map[k]));
        assert(live.remove(p).contains(map[k]));
    }
    assert(contents(new, map) =~= contents(store, map));
}

/// Without an identifier, its record is one that no identifier leads to, and
/// the other documents are still there.
pub proof fn law_removed_id_unlinks(
    store: Seq<Seq<u8>>,
    map: Map<Seq<char>, u64>,
    id: Seq<char>,
)
    requires
        consistent(store, map),
        store.len() <= PAGE_LIMIT,
        map.contains_key(id),
    ensures
        consistent(store, map.remove(id)),
        contents(store, map.remove(id)) == contents(store, map).remove(id),
        live_pages(map).contains(map[id]),
        live_pages(map.remove(id)).subset_of(live_pages(map).remove(map[id])),
{
    let live = live_pages(map);
    let rest = map.remove(id);
    assert forall|q: u64| live_pages(rest).contains(q) implies live.remove(map[id]).contains(q) by {
        let k = choose|k: Seq<char>| #[trigger] rest.contains_key(k) && rest[k] == q;
        assert(map.contains_key(k) && map[k] == q);
    }
    assert forall|a: Seq<char>, b: Seq<char>|
        #![trigger rest.contains_key(a), rest.contains_key(b)]
        rest.contains_key(a) && rest.contains_key(b) && a != b implies rest[a] != rest[b] by {
        assert(map.contains_key(a) && map.contains_key(b));
    }
    chain::lemma_fewer_records(store, live, live_pages(rest));
    assert(contents(store, rest) =~= contents(store, map).remove(id));
}

/// Once an identifier leads to a new record, none leads to its old one.
proof fn lemma_relinked(map: Map<Seq<char>, u64>, id: Seq<char>, p: u64)
    requires
        one_to_one(map),
        map.contains_key(id),
        !live_pages(map).contains(p),
    ensures
        live_pages(map).contains(map[id]),
        live_pages(map.insert(id, p)).subset_of(live_pages(map).insert(p).remove(map[id])),
{
    let live = live_pages(map);
    let linked = map.insert(id, p);
    assert(live.contains(map[id]));
    assert forall|q: u64| live_pages(linked).contains(q) implies live.insert(p).remove(
        map[id],
    ).contains(q) by {
        let k = choose|k: Seq<char>| #[trigger] linked.contains_key(k) && linked[k] == q;
        if k != id {
            assert(map.contains_key(k) && map[k] == q);
        }
    }
}

/// The counter can be set again and again.
proof fn lemma_renumbered(store: Seq<Seq<u8>>, a: u64, b: u64)
    requires
        chain::full(store),
        store.len() > 0,
    ensures
        counter_of(renumbered(store, a)) == a,
        renumbered(renumbered(store, a), b) == renumbered(store, b),
        renumbered(store, counter_of(store)) == store,
{
    let page = store[0];
    chain::lemma_page_fields(page, a, Seq::empty());
    bytes::lemma_byte_ranges();
    bytes::lemma_le_bytes_len(a as nat, 8);
    bytes::lemma_le_bytes_len(b as nat, 8);
    assert(with_counter(with_counter(page, a), b) =~= with_counter(page, b));
    assert(renumbered(renumbered(store, a), b) =~= renumbered(store, b));
    let own = page.subrange(8, 16);
    bytes::law_le_bytes_of_value(own);
    assert(with_counter(page, counter_of(store)) =~= page) by {
        assert(bytes::le_bytes(counter_of(store) as nat, 8) == own);
    }
    assert(renumbered(store, counter_of(store)) =~= store);
}

/// Counting up keeps the records.
pub proof fn law_counting_keeps_documents(store: Seq<Seq<u8>>, map: Map<Seq<char>, u64>, counter: u64)
    requires
        consistent(store, map),
        store.len() <= PAGE_LIMIT,
    ensures
        ({
            let new = renumbered(store, counter);
            &&& consistent(new, map)
            &&& contents(new, map) == contents(store, map)
            &&& counter_of(new) == counter
            &&& chain::free_list(new) == chain::free_list(store)
            &&& new.len() == store.len()
        }),
{
    let new = renumbered(store, counter);
    chain::law_counting_keeps_records(store, live_pages(map), counter);
    assert forall|k: Seq<char>| #[trigger] map.contains_key(k) implies record(new, map[k])
        == record(store, map[k]) by {
        assert(live_pages(map).contains(map[k]));
    }
    assert(contents(new, map) =~= contents(store, map));
}

/// The last hexadecimal digits of a number.
fn push_hex(id: &mut String, n: u64, digits: usize)
    ensures
        final(id)@ == old(id)@ + hex(n as nat, digits as nat),
    decreases digits,
{
    let ghost before = id@;
    if digits > 0 {
        push_hex(id, n / 16, digits - 1);
        let digit: u8 = (n % 16) as u8;
        let c: char = if digit < 10 {
            (48u8 + digit) as char
        } else {
            (87u8 + digit) as char
        };
        assert(c == hex_char(n as nat % 16));
        text::push_char(id, c);
    }
    assert(id@ =~= before + hex(n as nat, digits as nat));
}

/// Where some entries cannot be read, more cannot either.
proof fn lemma_collect_fails(store: Seq<Seq<u8>>, entries: Seq<Item>, n: int)
    requires
        0 <= n <= entries.len(),
        collect(store, entries.take(n)) is Err,
    ensures
        collect(store, entries) == collect(store, entries.take(n)),
    decreases entries.len(),
{
    if n == entries.len() {
        assert(entries.take(n) =~= entries);
    } else {
        let init = entries.drop_last();
        assert(init.take(n) =~= entries.take(n));
        lemma_collect_fails(store, init, n);
    }
}

/// The documents that satisfy a query.
fn keep_matching(docs: Vec<Document>, filter: &Document) -> (kept: Vec<Document>)
    ensures
        documents_view(kept@) == documents_view(docs@).filter(
            |doc: DocumentView| satisfies(doc, filter.view()),
        ),
{
    let ghost all = documents_view(docs@);
    let ghost wanted = |doc: DocumentView| satisfies(doc, filter.view());
    let mut kept: Vec<Document> = Vec::new();
    proof {
        reveal(Seq::filter);
        assert(all.take(0).filter(wanted) =~= Seq::empty());
        assert(documents_view(kept@) =~= Seq::empty());
    }
    for doc in it: docs
        invariant
            documents_view(it.seq()) == all,
            wanted == |doc: DocumentView| satisfies(doc, filter.view()),
            documents_view(kept@) == all.take(it.index() as int).filter(wanted),
    {
        let ghost sofar = documents_view(kept@);
        proof {
            reveal(Seq::filter);
            let more = all.take(it.index() + 1);
            assert(more.drop_last() =~= all.take(it.index() as int));
            assert(more.last() == all[it.index() as int]);
        }
        if query::matches(&doc, filter) {
            kept.push(doc);
            assert(documents_view(kept@) =~= sofar.push(doc.view()));
        }
    }
    assert(all.take(all.len() as int) =~= all);
    kept
}

/// Lines up actions on the file of documents behind others.
fn line_up_heap(queue: &mut Vec<FileAction>, actions: Vec<Action>)
    ensures
        file_actions_view(final(queue)@) == file_actions_view(old(queue)@) + on_heap(
            actions_view(actions@),
        ),
{
    let ghost before = file_actions_view(queue@);
    let ghost all = actions_view(actions@);
    assert(file_actions_view(queue@) =~= before + on_heap(all.take(0)));
    for action in it: actions
        invariant
            actions_view(it.seq()) == all,
            file_actions_view(queue@) == before + on_heap(all.take(it.index() as int)),
    {
        let ghost sofar = file_actions_view(queue@);
        assert(action@ == all[it.index() as int]);
        queue.push(FileAction::Heap(action));
        proof {
            assert(file_actions_view(queue@) =~= sofar.push(FileActionView::Heap(action@)));
            assert(on_heap(all.take(it.index() + 1)) =~= on_heap(
                all.take(it.index() as int),
            ).push(FileActionView::Heap(action@)));
            assert(file_actions_view(queue@) =~= before + on_heap(all.take(it.index() + 1)));
        }
    }
    assert(all.take(all.len() as int) =~= all);
}

/// Lines up actions on the index behind others.
fn line_up_index(queue: &mut Vec<FileAction>, actions: Vec<Action>)
    ensures
        file_actions_view(final(queue)@) == file_actions_view(old(queue)@) + on_index(
            actions_view(actions@),
        ),
{
    let ghost before = file_actions_view(queue@);
    let ghost all = actions_view(actions@);
    assert(file_actions_view(queue@) =~= before + on_index(all.take(0)));
    for action in it: actions
        invariant
            actions_view(it.seq()) == all,
            file_actions_view(queue@) == before + on_index(all.take(it.index() as int)),
    {
        let ghost sofar = file_actions_view(queue@);
        assert(action@ == all[it.index() as int]);
        queue.push(FileAction::Index(action));
        proof {
            assert(file_actions_view(queue@) =~= sofar.push(FileActionView::Index(action@)));
            assert(on_index(all.take(it.index() + 1)) =~= on_index(
                all.take(it.index() as int),
            ).push(FileActionView::Index(action@)));
            assert(file_actions_view(queue@) =~= before + on_index(all.take(it.index() + 1)));
        }
    }
    assert(all.take(all.len() as int) =~= all);
}

/// The pager has handed over all its actions.
pub open spec fn drained(pager: Pager) -> bool {
    &&& pager.actions() == Seq::<ActionView>::empty()
    &&& pager.base() == (Image { file: pager.file(), log: Seq::empty() })
    &&& pager.history() == seq![pager.file()]
}

/// The files of these two hold the documents that the index leads to.
proof fn lemma_pair_holds(heap: HeapFile, index: BTree)
    requires
        heap.inv(),
        index.wf(),
        consistent(heap.store(), index@),
    ensures
        holds((heap.inner().file(), index.inner().file()), contents(heap.store(), index@)),
{
    heap.inner().lemma_inv();
    index.inner().lemma_inv();
}

/// A collection of documents.
pub struct Collection {
    heap: HeapFile,
    index: BTree,
    queue: Vec<FileAction>,
    base: Ghost<Images>,
    trail: Ghost<Seq<(Seq<u8>, Seq<u8>)>>,
}

impl Collection {
    /// The file of documents.
    pub closed spec fn heap(&self) -> HeapFile {
        self.heap
    }

    /// The index of identifiers.
    pub closed spec fn index(&self) -> BTree {
        self.index
    }

    /// The actions that are still to be performed on the files, in order.
    pub closed spec fn actions(&self) -> Seq<FileActionView> {
        file_actions_view(self.queue@)
    }

    /// The files before these actions.
    pub closed spec fn base(&self) -> Images {
        self.base@
    }

    /// The contents of the two files, one pair after each change since `base`.
    pub closed spec fn trail(&self) -> Seq<(Seq<u8>, Seq<u8>)> {
        self.trail@
    }

    /// The two files as they are to be.
    pub open spec fn files(&self) -> Images {
        Images {
            heap: Image { file: self.heap().inner().file(), log: Seq::empty() },
            index: Image { file: self.index().inner().file(), log: Seq::empty() },
        }
    }

    /// The actions in the queue lead to the files on which the two parts go on
    /// working, and a crash on the way leaves files of the trail.
    spec fn queued(&self) -> bool {
        &&& perform_steps(self.base(), self.actions()) == (Images {
            heap: self.heap().inner().base(),
            index: self.index().inner().base(),
        })
        &&& self.trail().len() > 0
        &&& self.trail().last() == (
            recovered(self.heap().inner().base()),
            recovered(self.index().inner().base()),
        )
        &&& covered(self.base(), self.actions(), self.trail())
    }

    /// All actions of both parts are in the queue.
    pub closed spec fn lined_up(&self) -> bool {
        &&& self.queued()
        &&& drained(self.heap().inner())
        &&& drained(self.index().inner())
    }

    /// Both files are in order.
    pub open spec fn inv(&self) -> bool {
        self.heap().inv() && self.index().inv() && self.lined_up()
    }

    /// The actions lead to the files as they are to be, and whatever a crash
    /// leaves, recovery finds a pair of files of the trail.
    pub proof fn lemma_lined_up(&self)
        requires
            self.inv(),
        ensures
            perform_steps(self.base(), self.actions()) == self.files(),
            covered(self.base(), self.actions(), self.trail()),
            self.trail().len() > 0,
            self.trail().last() == (self.heap().inner().file(), self.index().inner().file()),
    {
        recovery::lemma_uncommitted(self.heap().inner().file(), Seq::empty());
        recovery::lemma_uncommitted(self.index().inner().file(), Seq::empty());
    }

    /// The index is one, and the records that it leads to are there.
    pub open spec fn wf(&self) -> bool {
        &&& self.inv()
        &&& self.index().wf()
        &&& consistent(self.heap().store(), self.index()@)
    }

    /// The counter of generated identifiers.
    pub open spec fn counter(&self) -> u64 {
        counter_of(self.heap().store())
    }

    /// The number of the next generated identifier: the first from the counter
    /// on of which the identifier is not in the index.
    pub open spec fn number(&self) -> u64 {
        first_unused(self.index()@, self.counter())
    }

    /// The file of documents once an identifier for `doc` was generated, if
    /// one is needed.
    pub open spec fn counted(&self, doc: DocumentView) -> Seq<Seq<u8>> {
        if given_id(doc) is Some {
            self.heap().store()
        } else {
            renumbered(self.heap().store(), number_after(self.number()))
        }
    }

    /// Whether a document can be added, and why not: there are no more
    /// identifiers, no more pages, or no room for the identifier in the
    /// index. With the tree of the index and its number of pages afterwards.
    pub open spec fn insert_outcome(&self, doc: DocumentView) -> Result<
        (Tree, int),
        StorageError,
    > {
        let number = self.number();
        if given_id(doc) is None && number == u64::MAX {
            Err(StorageError::CounterExhausted)
        } else {
            match insert_record(
                self.counted(doc),
                document_bytes(document_for(doc, number)),
            ) {
                Ok((_, p)) => root_insert(
                    index_tree(self.index().store()),
                    encode_utf8(id_for(doc, number)),
                    p,
                    self.index().store().len() as int,
                ),
                Err(error) => Err(error),
            }
        }
    }

    /// The file of documents after an attempt to add `doc`.
    pub open spec fn heap_after_insert(&self, doc: DocumentView) -> Seq<Seq<u8>> {
        let number = self.number();
        if given_id(doc) is None && number == u64::MAX {
            self.counted(doc)
        } else {
            match insert_record(
                self.counted(doc),
                document_bytes(document_for(doc, number)),
            ) {
                Ok((store, _)) => store,
                Err(_) => self.counted(doc),
            }
        }
    }

    /// The document under `id`: where the index leads to.
    pub open spec fn lookup(&self, id: Seq<char>) -> Result<Option<DocumentView>, StorageError> {
        if self.index()@.contains_key(id) {
            match stored_document(self.heap().store(), self.index()@[id]) {
                Ok(doc) => Ok(Some(doc)),
                Err(error) => Err(error),
            }
        } else {
            Ok(None)
        }
    }

    /// The file of documents without the record of `id`.
    pub open spec fn freed(&self, id: Seq<char>) -> Result<Seq<Seq<u8>>, StorageError> {
        chain::free_chain(
            self.heap().store(),
            self.index()@[id],
            self.heap().store().len(),
        )
    }

    /// The file of documents with `doc` as the new document of `id`, beside
    /// the old one, and the page where its record begins.
    pub open spec fn renewed(&self, id: Seq<char>, doc: DocumentView) -> Result<
        (Seq<Seq<u8>>, u64),
        StorageError,
    > {
        insert_record(self.heap().store(), document_bytes(with_id(doc, id)))
    }

    /// All actions were handed over.
    pub open spec fn settled(&self) -> bool {
        &&& self.actions() == Seq::<FileActionView>::empty()
        &&& self.base() == self.files()
        &&& self.trail() == seq![(self.heap().inner().file(), self.index().inner().file())]
    }

    /// All documents in the order of their identifiers, or why one of them
    /// cannot be read.
    pub open spec fn documents(&self) -> Result<Seq<DocumentView>, StorageError> {
        collect(self.heap().store(), index_tree(self.index().store()).entries())
    }
}

impl View for Collection {
    type V = Map<Seq<char>, Seq<u8>>;

    /// The bytes of each document by its identifier.
    open spec fn view(&self) -> Map<Seq<char>, Seq<u8>> {
        contents(self.heap().store(), self.index()@)
    }
}

/// The two pairs of files that make up a collection.
pub struct Files<'a> {
    pub heap_file: &'a [u8],
    pub heap_log: Vec<u8>,
    pub index_file: &'a [u8],
    pub index_log: Vec<u8>,
}

impl Collection {
    /// Lines up the actions on the file of documents.
    fn line_up_heap(&mut self)
        requires
            old(self).queued(),
            old(self).heap().inv(),
            old(self).heap().inner().history()[0] == recovered(old(self).heap().inner().base()),
        ensures
            final(self).queued(),
            final(self).heap().inv(),
            drained(final(self).heap().inner()),
            final(self).heap().inner().file() == old(self).heap().inner().file(),
            final(self).heap().store() == old(self).heap().store(),
            final(self).index() == old(self).index(),
            final(self).base() == old(self).base(),
            final(self).actions() == old(self).actions() + on_heap(
                old(self).heap().inner().actions(),
            ),
            final(self).trail() == old(self).trail() + with_index(
                old(self).heap().inner().history().skip(1),
                recovered(old(self).index().inner().base()),
            ),
    {
        let ghost before = *self;
        proof {
            self.heap.inner().lemma_inv();
            let actions = self.heap.inner().actions();
            let history = self.heap.inner().history();
            journal::lemma_heap_covered(
                self.base(),
                self.actions(),
                self.trail(),
                actions,
                history,
            );
            journal::lemma_steps_add(self.base(), self.actions(), on_heap(actions));
            journal::lemma_steps_on_one(perform_steps(self.base(), self.actions()), actions);
            recovery::lemma_uncommitted(self.heap.inner().file(), Seq::empty());
        }
        let actions = self.heap.take_actions();
        line_up_heap(&mut self.queue, actions);
        self.trail = Ghost(
            before.trail() + with_index(
                before.heap().inner().history().skip(1),
                recovered(before.index().inner().base()),
            ),
        );
    }

    /// Lines up the actions on the index.
    fn line_up_index(&mut self)
        requires
            old(self).queued(),
            old(self).index().inv(),
            old(self).index().inner().history()[0] == recovered(
                old(self).index().inner().base(),
            ),
        ensures
            final(self).queued(),
            final(self).index().inv(),
            drained(final(self).index().inner()),
            final(self).index().inner().file() == old(self).index().inner().file(),
            final(self).index().store() == old(self).index().store(),
            final(self).index().root() == old(self).index().root(),
            final(self).heap() == old(self).heap(),
            final(self).base() == old(self).base(),
            final(self).actions() == old(self).actions() + on_index(
                old(self).index().inner().actions(),
            ),
            final(self).trail() == old(self).trail() + with_heap(
                recovered(old(self).heap().inner().base()),
                old(self).index().inner().history().skip(1),
            ),
    {
        let ghost before = *self;
        proof {
            self.index.inner().lemma_inv();
            let actions = self.index.inner().actions();
            let history = self.index.inner().history();
            journal::lemma_index_covered(
                self.base(),
                self.actions(),
                self.trail(),
                actions,
                history,
            );
            journal::lemma_steps_add(self.base(), self.actions(), on_index(actions));
            journal::lemma_steps_on_one(perform_steps(self.base(), self.actions()), actions);
            recovery::lemma_uncommitted(self.index.inner().file(), Seq::empty());
        }
        let actions = self.index.take_actions();
        line_up_index(&mut self.queue, actions);
        self.trail = Ghost(
            before.trail() + with_heap(
                recovered(before.heap().inner().base()),
                before.index().inner().history().skip(1),
            ),
        );
    }

    /// Takes over the contents of the files. Empty files become an empty
    /// collection, and so do the files that a crash on the way leaves. Fails if a page has no place in a file.
    pub fn open(files: Files<'_>) -> (result: Result<Self, StorageError>)
        ensures
            ({
                let heap = Image { file: files.heap_file@, log: files.heap_log@ };
                let index = Image { file: files.index_file@, log: files.index_log@ };
                match result {
                    Ok(collection) => {
                        let heap_store = pages_of(recovered(heap));
                        let index_store = pages_of(recovered(index));
                        &&& !too_large(heap)
                        &&& !too_large(index)
                        &&& collection.inv()
                        &&& collection.base() == (Images { heap, index })
                        &&& collection.trail()[0] == (recovered(heap), recovered(index))
                        &&& collection.index().root() == btree::root_of(
                            collection.index().store(),
                        )
                        &&& if heap_store.len() > 0 {
                            collection.heap().store() == heap_store
                        } else {
                            &&& heap_ok(collection.heap().store(), Set::empty())
                            &&& collection.heap().store().len() == 1
                            &&& collection.counter() == 0
                        }
                        &&& if index_store.len() > 0 {
                            collection.index().store() == index_store
                        } else {
                            &&& collection.index().wf()
                            &&& collection.index()@ == Map::<Seq<char>, u64>::empty()
                            &&& collection.index().store().len() == 2
                            &&& collection.index().root() == 1
                            &&& index_tree(collection.index().store()) == btree::empty_tree()
                        }
                        &&& heap_store.len() > 0 && index_store.len() > 0
                            ==> collection.trail().len() == 1
                        &&& without_documents((recovered(heap), recovered(index))) ==> {
                            &&& collection.wf()
                            &&& collection@ == Map::<Seq<char>, Seq<u8>>::empty()
                            &&& forall|i: int|
                                0 <= i < collection.trail().len() ==> without_documents(
                                    #[trigger] collection.trail()[i],
                                )
                        }
                    },
                    Err(error) => {
                        &&& too_large(heap) || too_large(index)
                        &&& error == StorageError::PageOutOfRange
                    },
                }
            }),
    {
        let ghost base = Images {
            heap: Image { file: files.heap_file@, log: files.heap_log@ },
            index: Image { file: files.index_file@, log: files.index_log@ },
        };
        let heap = match HeapFile::open(files.heap_file, files.heap_log) {
            Ok(heap) => heap,
            Err(error) => {
                return Err(error);
            },
        };
        let index = match BTree::open(files.index_file, files.index_log) {
            Ok(index) => index,
            Err(error) => {
                return Err(error);
            },
        };
        let ghost found = (recovered(base.heap), recovered(base.index));
        let mut collection = Collection {
            heap,
            index,
            queue: Vec::new(),
            base: Ghost(base),
            trail: Ghost(Seq::empty().push(found)),
        };
        proof {
            assert(collection.actions() =~= Seq::empty());
            assert forall|out: Images| #[trigger]
                files_may_crash_to(base, collection.actions(), out) implies collection.trail().contains(
                (recovered(out.heap), recovered(out.index)),
            ) by {
                assert(collection.trail()[0] == found);
            }
        }
        let ghost opened = collection;
        collection.line_up_heap();
        collection.line_up_index();
        proof {
            let new_heap = (collection.heap().inner().file(), found.1);
            let new_index = (collection.heap().inner().file(), collection.index().inner().file());
            recovery::lemma_uncommitted(collection.heap().inner().file(), Seq::empty());
            collection.heap.inner().lemma_inv();
            collection.index.inner().lemma_inv();
            assert forall|i: int| 0 <= i < collection.trail().len() implies ({
                ||| #[trigger] collection.trail()[i] == found
                ||| collection.trail()[i] == new_heap && opened.heap().inner().history().len() == 2
                ||| collection.trail()[i] == new_index
            }) by {
            }
            if collection.index()@ == Map::<Seq<char>, u64>::empty() {
                assert(live_pages(collection.index()@) =~= Set::empty());
                assert(collection@ =~= Map::empty());
            }
        }
        Ok(collection)
    }

    /// Counts on to the first number of which the identifier is not in the
    /// index, and returns that identifier.
    fn generate_id(&mut self) -> (result: Result<String, StorageError>)
        requires
            old(self).inv(),
        ensures
            final(self).inv(),
            final(self).index() == old(self).index(),
            final(self).base() == old(self).base(),
            old(self).index().wf() ==> {
                let number = old(self).number();
                &&& final(self).heap().store() == renumbered(
                    old(self).heap().store(),
                    number_after(number),
                )
                &&& match result {
                    Ok(id) => number < u64::MAX && id@ == hex(number as nat, 16),
                    Err(error) => number == u64::MAX && error == StorageError::CounterExhausted,
                }
            },
            old(self).wf() ==> {
                &&& final(self).wf()
                &&& final(self)@ == old(self)@
                &&& goes_through(old(self).trail(), final(self).trail(), old(self)@, old(self)@)
            },
    {
        let ghost before = *self;
        let ghost store0 = self.heap.store();
        let ghost good = self.wf();
        proof {
            self.heap.lemma_store();
            lemma_renumbered(store0, self.counter(), 0);
            lemma_goes_nowhere(self.trail(), self@, self@);
        }
        loop
            invariant
                self.inv(),
                before == *old(self),
                store0 == before.heap().store(),
                chain::full(store0),
                0 < store0.len() <= PAGE_LIMIT,
                good == before.wf(),
                self.index() == before.index(),
                self.base() == before.base(),
                self.heap().store() == renumbered(store0, self.counter()),
                before.index().wf() ==> first_unused(before.index()@, self.counter())
                    == before.number(),
                good ==> self.wf() && self@ == before@,
                good ==> goes_through(before.trail(), self.trail(), before@, before@),
            decreases u64::MAX - self.counter(),
        {
            let ghost middle = *self;
            let next = self.heap.next_counter_value();
            proof {
                recovery::lemma_uncommitted(middle.heap().inner().file(), Seq::empty());
                recovery::lemma_uncommitted(middle.index().inner().file(), Seq::empty());
            }
            let ghost history = self.heap.inner().history();
            self.line_up_heap();
            let count: u64 = match next {
                Ok(count) => count,
                Err(error) => {
                    assert(self.trail() =~= middle.trail());
                    return Err(error);
                },
            };
            proof {
                lemma_renumbered(store0, count, (count + 1) as u64);
                lemma_renumbered(store0, (count + 1) as u64, 0);
                let files = (self.heap.inner().file(), self.index.inner().file());
                assert(self.trail() =~= middle.trail().push(files));
                if good {
                    law_counting_keeps_documents(
                        middle.heap().store(),
                        middle.index()@,
                        (count + 1) as u64,
                    );
                    lemma_pair_holds(self.heap, self.index);
                    lemma_goes_on(before.trail(), middle.trail(), files, before@, before@);
                }
            }
            let mut id = String::new();
            push_hex(&mut id, count, 16);
            assert(id@ =~= hex(count as nat, 16));
            match self.index.get(id.as_str()) {
                Ok(Some(_)) => {},
                Ok(None) => {
                    return Ok(id);
                },
                Err(error) => {
                    return Err(error);
                },
            }
        }
    }

    /// Adds a document. One without a string `_id` gets the next generated
    /// one that is not taken. Returns the identifier. A document that was
    /// stored under a given identifier before is replaced.
    pub fn insert(&mut self, doc: Document) -> (result: Result<String, StorageError>)
        requires
            old(self).inv(),
        ensures
            final(self).inv(),
            final(self).base() == old(self).base(),
            old(self).wf() ==> {
                let number = old(self).number();
                let id = id_for(doc.view(), number);
                let bytes = document_bytes(document_for(doc.view(), number));
                &&& final(self).wf()
                &&& match old(self).insert_outcome(doc.view()) {
                    Ok(_) => {
                        &&& result matches Ok(used)
                        &&& used@ == id
                        &&& final(self)@ == old(self)@.insert(id, bytes)
                        &&& given_id(doc.view()) is None ==> {
                            &&& !old(self)@.contains_key(used@)
                            &&& old(self)@.submap_of(final(self)@)
                        }
                        &&& proper(ValueView::Document(doc.view())) && small(
                            ValueView::Document(document_for(doc.view(), number)),
                        ) ==> (document_of(final(self)@[used@]) matches Ok(fetched) && if doc_get(
                            doc.view(),
                            "_id"@,
                        ) == Some(ValueView::Str(used@)) {
                            fetched == doc.view()
                        } else {
                            is_labelled_copy(fetched, doc.view(), used@)
                        })
                    },
                    Err(error) => {
                        &&& result matches Err(reason)
                        &&& reason == error
                        &&& final(self)@ == old(self)@
                    },
                }
                &&& final(self).counter() == if given_id(doc.view()) is None {
                    number_after(number)
                } else {
                    old(self).counter()
                }
                &&& goes_through(
                    old(self).trail(),
                    final(self).trail(),
                    old(self)@,
                    final(self)@,
                )
            },
            old(self).index().wf() ==> {
                let number = old(self).number();
                let id = id_for(doc.view(), number);
                let bytes = document_bytes(document_for(doc.view(), number));
                &&& final(self).index().wf()
                &&& final(self).heap().store() == old(self).heap_after_insert(doc.view())
                &&& match old(self).insert_outcome(doc.view()) {
                    Ok((tree, pages)) => {
                        &&& result matches Ok(used)
                        &&& used@ == id
                        &&& insert_record(old(self).counted(doc.view()), bytes) matches Ok((_, p))
                        &&& final(self).index()@ == old(self).index()@.insert(id, p)
                        &&& index_tree(final(self).index().store()) == tree
                        &&& final(self).index().store().len() == pages
                    },
                    Err(error) => {
                        &&& result matches Err(reason)
                        &&& reason == error
                        &&& final(self).index().store() == old(self).index().store()
                        &&& final(self).index()@ == old(self).index()@
                    },
                }
            },
    {
        let ghost before = *self;
        let ghost map0 = self.index@;
        let ghost good = self.wf();
        let ghost number = self.number();
        let ghost view0 = doc.view();
        let mut doc = doc;
        proof {
            if proper(ValueView::Document(view0)) && small(
                ValueView::Document(document_for(view0, number)),
            ) {
                law_added_document_is_read_back(view0, number);
            }
            law_added_document_keeps_its_fields(view0, number);
            self.heap.lemma_store();
            lemma_renumbered(self.heap.store(), number_after(number), 0);
            lemma_goes_nowhere(self.trail(), self@, self@);
            law_generated_id_is_unused(map0, self.counter());
        }
        let given: Option<String> = match doc.get("_id") {
            Some(Value::Str(existing)) => Some(existing.clone()),
            _ => None,
        };
        let id: String = match given {
            Some(existing) => existing,
            None => {
                let generated = match self.generate_id() {
                    Ok(generated) => generated,
                    Err(error) => {
                        return Err(error);
                    },
                };
                doc.insert("_id", generated.clone());
                generated
            },
        };
        let ghost middle = *self;
        let ghost heap1 = self.heap.store();
        let ghost bytes = document_bytes(doc.view());
        proof {
            if before.index().wf() {
                assert(doc.view() == document_for(view0, number));
                assert(id@ == id_for(view0, number));
                assert(heap1 == before.counted(view0));
            }
            self.heap.lemma_store();
            recovery::lemma_uncommitted(self.heap.inner().file(), Seq::empty());
            recovery::lemma_uncommitted(self.index.inner().file(), Seq::empty());
            if good {
                if insert_record(heap1, bytes) is Ok {
                    law_orphan_is_harmless(heap1, map0, bytes, id@);
                }
                chain::law_insert_record(heap1, live_pages(map0), bytes);
            }
        }
        let inserted = self.heap.insert(&doc);
        self.line_up_heap();
        let record_id: RecordId = match inserted {
            Ok(record_id) => record_id,
            Err(error) => {
                assert(self.trail() =~= middle.trail());
                return Err(error);
            },
        };
        let ghost stored = *self;
        proof {
            let files = (self.heap.inner().file(), self.index.inner().file());
            assert(self.trail() =~= middle.trail().push(files));
            recovery::lemma_uncommitted(self.heap.inner().file(), Seq::empty());
            if good {
                lemma_pair_holds(self.heap, self.index);
                lemma_goes_on(before.trail(), middle.trail(), files, before@, before@);
            }
        }
        let linked = self.index.insert(id.as_str(), record_id);
        self.line_up_index();
        match linked {
            Ok(()) => {
                proof {
                    let files = (self.heap.inner().file(), self.index.inner().file());
                    assert(self.trail() =~= stored.trail().push(files));
                    if good {
                        lemma_pair_holds(self.heap, self.index);
                        lemma_goes_on(before.trail(), stored.trail(), files, before@, self@);
                    }
                }
                Ok(id)
            },
            Err(error) => {
                assert(self.trail() =~= stored.trail());
                Err(error)
            },
        }
    }

    /// Fetches a document by its identifier: first the index, then the file.
    pub fn find_by_id(&self, id: &str) -> (result: Result<Option<Document>, StorageError>)
        requires
            self.inv(),
        ensures
            self.wf() ==> if self@.contains_key(id@) {
                match document_of(self@[id@]) {
                    Ok(doc) => {
                        &&& result matches Ok(Some(found))
                        &&& found.view() == doc
                    },
                    Err(error) => {
                        &&& result matches Err(reason)
                        &&& reason == StorageError::InvalidData(error)
                    },
                }
            } else {
                result matches Ok(None)
            },
            self.index().wf() ==> match self.lookup(id@) {
                Ok(Some(doc)) => {
                    &&& result matches Ok(Some(found))
                    &&& found.view() == doc
                },
                Ok(None) => result matches Ok(None),
                Err(error) => {
                    &&& result matches Err(reason)
                    &&& reason == error
                },
            },
    {
        match self.index.get(id) {
            Ok(Some(record_id)) => {
                proof {
                    if self.wf() {
                        self.lemma_record_of(id@);
                    }
                }
                match self.heap.get(record_id) {
                    Ok(doc) => Ok(Some(doc)),
                    Err(error) => Err(error),
                }
            },
            Ok(None) => Ok(None),
            Err(error) => Err(error),
        }
    }

    /// The record of an identifier can be read.
    proof fn lemma_record_of(&self, id: Seq<char>)
        requires
            self.wf(),
            self.index()@.contains_key(id),
        ensures
            record(self.heap().store(), self.index()@[id]) == Ok::<Seq<u8>, StorageError>(
                self@[id],
            ),
    {
        let p = self.index()@[id];
        self.heap.lemma_store();
        assert(live_pages(self.index()@).contains(p));
        assert(chain::is_chain(self.heap().store(), p));
        chain::lemma_record(self.heap().store(), p);
    }

    /// Replaces the document that is stored under `id`, which becomes the
    /// `_id` of the new one. Returns whether there was one. The new document
    /// is stored before the old one is removed. Fails if there is no room for
    /// it beside the old one.
    pub fn update_by_id(&mut self, id: &str, new_doc: Document) -> (result: Result<
        bool,
        StorageError,
    >)
        requires
            old(self).inv(),
        ensures
            final(self).inv(),
            final(self).base() == old(self).base(),
            old(self).wf() ==> {
                let bytes = document_bytes(with_id(new_doc.view(), id@));
                &&& final(self).wf()
                &&& final(self).counter() == old(self).counter()
                &&& if !old(self)@.contains_key(id@) {
                    &&& result == Ok::<bool, StorageError>(false)
                    &&& final(self)@ == old(self)@
                } else {
                    match old(self).renewed(id@, new_doc.view()) {
                        Ok((store, _)) => {
                            &&& result == Ok::<bool, StorageError>(true)
                            &&& final(self)@ == old(self)@.insert(id@, bytes)
                            &&& final(self).heap().store().len() == store.len()
                            &&& proper(ValueView::Document(new_doc.view())) && small(
                                ValueView::Document(with_id(new_doc.view(), id@)),
                            ) ==> (document_of(final(self)@[id@]) matches Ok(fetched)
                                && is_labelled_copy(fetched, new_doc.view(), id@))
                        },
                        Err(error) => {
                            &&& result == Err::<bool, StorageError>(error)
                            &&& error == StorageError::PageOutOfRange
                            &&& final(self)@ == old(self)@
                        },
                    }
                }
                &&& goes_through(
                    old(self).trail(),
                    final(self).trail(),
                    old(self)@,
                    final(self)@,
                )
            },
            old(self).index().wf() ==> {
                let tree = index_tree(old(self).index().store());
                &&& final(self).index().wf()
                &&& final(self).index().store().len() == old(self).index().store().len()
                &&& if !old(self).index()@.contains_key(id@) {
                    &&& result == Ok::<bool, StorageError>(false)
                    &&& final(self).heap().store() == old(self).heap().store()
                    &&& final(self).index().store() == old(self).index().store()
                    &&& final(self).index()@ == old(self).index()@
                } else {
                    match old(self).renewed(id@, new_doc.view()) {
                        Ok((store, p)) => {
                            &&& final(self).index()@ == old(self).index()@.insert(id@, p)
                            &&& root_insert(
                                tree,
                                encode_utf8(id@),
                                p,
                                old(self).index().store().len() as int,
                            ) matches Ok((new_tree, _))
                            &&& index_tree(final(self).index().store()) == new_tree
                            &&& match chain::free_chain(
                                store,
                                old(self).index()@[id@],
                                store.len(),
                            ) {
                                Ok(freed) => {
                                    &&& result == Ok::<bool, StorageError>(true)
                                    &&& final(self).heap().store() == freed
                                },
                                Err(error) => {
                                    &&& result == Err::<bool, StorageError>(error)
                                    &&& final(self).heap().store() == store
                                },
                            }
                        },
                        Err(error) => {
                            &&& result == Err::<bool, StorageError>(error)
                            &&& final(self).heap().store() == old(self).heap().store()
                            &&& final(self).index().store() == old(self).index().store()
                            &&& final(self).index()@ == old(self).index()@
                        },
                    }
                }
            },
    {
        let ghost before = *self;
        let ghost heap0 = self.heap.store();
        let ghost map0 = self.index@;
        let ghost good = self.wf();
        proof {
            lemma_goes_nowhere(self.trail(), self@, self@);
        }
        let old_record_id: RecordId = match self.index.get(id) {
            Ok(Some(record_id)) => record_id,
            Ok(None) => {
                return Ok(false);
            },
            Err(error) => {
                return Err(error);
            },
        };
        let mut new_doc = new_doc;
        proof {
            if proper(ValueView::Document(new_doc.view())) && small(
                ValueView::Document(with_id(new_doc.view(), id@)),
            ) {
                law_new_document_is_read_back(new_doc.view(), id@);
            }
            law_new_document_keeps_its_fields(new_doc.view(), id@);
        }
        new_doc.insert("_id", Value::Str(id.to_owned()));
        let ghost bytes = document_bytes(new_doc.view());
        proof {
            self.heap.lemma_store();
            recovery::lemma_uncommitted(self.heap.inner().file(), Seq::empty());
            recovery::lemma_uncommitted(self.index.inner().file(), Seq::empty());
            if good {
                if insert_record(heap0, bytes) is Ok {
                    law_orphan_is_harmless(heap0, map0, bytes, id@);
                }
                chain::law_insert_record(heap0, live_pages(map0), bytes);
            }
        }
        let inserted = self.heap.insert(&new_doc);
        self.line_up_heap();
        let new_record_id: RecordId = match inserted {
            Ok(record_id) => record_id,
            Err(error) => {
                assert(self.trail() =~= before.trail());
                return Err(error);
            },
        };
        let ghost stored = *self;
        let ghost heap1 = self.heap.store();
        proof {
            let files = (self.heap.inner().file(), self.index.inner().file());
            assert(self.trail() =~= before.trail().push(files));
            recovery::lemma_uncommitted(self.heap.inner().file(), Seq::empty());
            if good {
                lemma_pair_holds(self.heap, self.index);
                lemma_goes_on(before.trail(), before.trail(), files, before@, before@);
            }
            if before.index().wf() {
                self.index.lemma_known_key_is_taken(id@, new_record_id.0);
            }
        }
        let linked = self.index.insert(id, new_record_id);
        self.line_up_index();
        match linked {
            Ok(()) => {},
            Err(error) => {
                assert(self.trail() =~= stored.trail());
                return Err(error);
            },
        }
        let ghost renewed = *self;
        proof {
            let files = (self.heap.inner().file(), self.index.inner().file());
            assert(self.trail() =~= stored.trail().push(files));
            recovery::lemma_uncommitted(self.index.inner().file(), Seq::empty());
            self.heap.lemma_store();
            if good {
                lemma_pair_holds(self.heap, self.index);
                lemma_goes_on(before.trail(), stored.trail(), files, before@, self@);
                lemma_relinked(map0, id@, new_record_id.0);
                law_unlinked_record_is_removed(
                    heap1,
                    live_pages(map0).insert(new_record_id.0),
                    self.index@,
                    map0[id@],
                );
            }
        }
        let removed = self.heap.delete(old_record_id);
        self.line_up_heap();
        match removed {
            Ok(()) => {
                proof {
                    let files = (self.heap.inner().file(), self.index.inner().file());
                    assert(self.trail() =~= renewed.trail().push(files));
                    if good {
                        lemma_pair_holds(self.heap, self.index);
                        lemma_goes_on(before.trail(), renewed.trail(), files, before@, self@);
                    }
                }
                Ok(true)
            },
            Err(error) => {
                assert(self.trail() =~= renewed.trail());
                Err(error)
            },
        }
    }

    /// Removes the document that is stored under `id`. Returns whether there
    /// was one. The identifier is removed before the document.
    pub fn delete_by_id(&mut self, id: &str) -> (result: Result<bool, StorageError>)
        requires
            old(self).inv(),
        ensures
            final(self).inv(),
            final(self).base() == old(self).base(),
            old(self).wf() ==> {
                &&& final(self).wf()
                &&& final(self).counter() == old(self).counter()
                &&& final(self).heap().store().len() == old(self).heap().store().len()
                &&& result == Ok::<bool, StorageError>(old(self)@.contains_key(id@))
                &&& final(self)@ == old(self)@.remove(id@)
                &&& goes_through(
                    old(self).trail(),
                    final(self).trail(),
                    old(self)@,
                    final(self)@,
                )
            },
            old(self).index().wf() ==> {
                &&& final(self).index().wf()
                &&& final(self).index()@ == old(self).index()@.remove(id@)
                &&& final(self).index().store().len() == old(self).index().store().len()
                &&& if !old(self).index()@.contains_key(id@) {
                    &&& result == Ok::<bool, StorageError>(false)
                    &&& final(self).heap().store() == old(self).heap().store()
                    &&& final(self).index().store() == old(self).index().store()
                } else {
                    &&& index_tree(final(self).index().store()) == tree::tree_remove(
                        index_tree(old(self).index().store()),
                        encode_utf8(id@),
                    )
                    &&& match old(self).freed(id@) {
                        Ok(store) => {
                            &&& result == Ok::<bool, StorageError>(true)
                            &&& final(self).heap().store() == store
                        },
                        Err(error) => {
                            &&& result == Err::<bool, StorageError>(error)
                            &&& final(self).heap().store() == old(self).heap().store()
                        },
                    }
                }
            },
    {
        let ghost before = *self;
        let ghost heap0 = self.heap.store();
        let ghost map0 = self.index@;
        let ghost good = self.wf();
        proof {
            self.heap.lemma_store();
            lemma_goes_nowhere(self.trail(), self@, self@);
            recovery::lemma_uncommitted(self.heap.inner().file(), Seq::empty());
            recovery::lemma_uncommitted(self.index.inner().file(), Seq::empty());
        }
        let record_id: RecordId = match self.index.get(id) {
            Ok(Some(record_id)) => record_id,
            Ok(None) => {
                assert(self.index().wf() ==> map0.remove(id@) =~= map0);
                assert(self.wf() ==> self@.remove(id@) =~= self@);
                return Ok(false);
            },
            Err(error) => {
                return Err(error);
            },
        };
        proof {
            if good {
                law_removed_id_unlinks(heap0, map0, id@);
                law_unlinked_record_is_removed(
                    heap0,
                    live_pages(map0),
                    map0.remove(id@),
                    map0[id@],
                );
            }
        }
        let unlinked = self.index.delete(id);
        self.line_up_index();
        match unlinked {
            Ok(_) => {},
            Err(error) => {
                assert(self.trail() =~= before.trail());
                return Err(error);
            },
        }
        let ghost middle = *self;
        proof {
            let files = (self.heap.inner().file(), self.index.inner().file());
            recovery::lemma_uncommitted(self.index.inner().file(), Seq::empty());
            if good {
                assert(self.trail() =~= before.trail().push(files));
                lemma_pair_holds(self.heap, self.index);
                lemma_goes_on(before.trail(), before.trail(), files, before@, self@);
            }
        }
        let removed = self.heap.delete(record_id);
        self.line_up_heap();
        match removed {
            Ok(()) => {
                proof {
                    let files = (self.heap.inner().file(), self.index.inner().file());
                    assert(self.trail() =~= middle.trail().push(files));
                    if good {
                        lemma_pair_holds(self.heap, self.index);
                        lemma_goes_on(before.trail(), middle.trail(), files, before@, self@);
                    }
                }
                Ok(true)
            },
            Err(error) => Err(error),
        }
    }

    /// All documents, in the order of their identifiers.
    pub fn all(&self) -> (result: Result<Vec<Document>, StorageError>)
        requires
            self.inv(),
        ensures
            self.index().wf() ==> match self.documents() {
                Ok(docs) => {
                    &&& result matches Ok(found)
                    &&& documents_view(found@) == docs
                },
                Err(error) => {
                    &&& result matches Err(reason)
                    &&& reason == error
                },
            },
    {
        let scan = match self.index.scan_all() {
            Ok(scan) => scan,
            Err(error) => {
                return Err(error);
            },
        };
        let ghost entries = index_tree(self.index.store()).entries();
        let ghost store = self.heap.store();
        let mut docs: Vec<Document> = Vec::new();
        let mut i: usize = 0;
        proof {
            assert(documents_view(docs@) =~= Seq::empty());
            assert(entries.take(0) =~= Seq::empty());
        }
        while i < scan.len()
            invariant
                self.inv(),
                i <= scan@.len(),
                store == self.heap.store(),
                entries == index_tree(self.index.store()).entries(),
                self.index().wf() ==> scanned(scan@, entries),
                self.index().wf() ==> collect(store, entries.take(i as int)) == Ok::<
                    Seq<DocumentView>,
                    StorageError,
                >(documents_view(docs@)),
            decreases scan@.len() - i,
        {
            let record_id: RecordId = scan[i].1;
            proof {
                if self.index().wf() {
                    let more = entries.take(i + 1);
                    assert(more.drop_last() =~= entries.take(i as int));
                    assert(more.last() == entries[i as int]);
                    assert(scan@[i as int].1.0 == entries[i as int].1);
                }
            }
            match self.heap.get(record_id) {
                Ok(doc) => {
                    let ghost before = documents_view(docs@);
                    docs.push(doc);
                    assert(documents_view(docs@) =~= before.push(doc.view()));
                },
                Err(error) => {
                    proof {
                        if self.index().wf() {
                            lemma_collect_fails(store, entries, i + 1);
                        }
                    }
                    return Err(error);
                },
            }
            i += 1;
        }
        assert(self.index().wf() ==> entries.take(i as int) =~= entries);
        Ok(docs)
    }

    /// All documents that satisfy a query, in the order of their identifiers.
    pub fn find(&self, filter: &Document) -> (result: Result<Vec<Document>, StorageError>)
        requires
            self.inv(),
        ensures
            self.index().wf() ==> match self.documents() {
                Ok(docs) => {
                    &&& result matches Ok(found)
                    &&& documents_view(found@) == docs.filter(
                        |doc: DocumentView| satisfies(doc, filter.view()),
                    )
                },
                Err(error) => {
                    &&& result matches Err(reason)
                    &&& reason == error
                },
            },
    {
        let docs = match self.all() {
            Ok(docs) => docs,
            Err(error) => {
                return Err(error);
            },
        };
        Ok(keep_matching(docs, filter))
    }

    /// Asks for both files to be brought to physical storage.
    pub fn flush(&mut self)
        requires
            old(self).inv(),
        ensures
            final(self).inv(),
            final(self)@ == old(self)@,
            final(self).counter() == old(self).counter(),
            final(self).heap().store() == old(self).heap().store(),
            final(self).index().store() == old(self).index().store(),
            final(self).files() == old(self).files(),
            final(self).base() == old(self).base(),
            final(self).trail() == old(self).trail(),
            old(self).wf() ==> final(self).wf(),
            final(self).actions() == old(self).actions().push(
                FileActionView::Heap(ActionView::SyncFile),
            ).push(FileActionView::Index(ActionView::SyncFile)),
    {
        let ghost before = *self;
        proof {
            recovery::lemma_uncommitted(self.heap.inner().file(), Seq::empty());
            recovery::lemma_uncommitted(self.index.inner().file(), Seq::empty());
        }
        self.heap.flush();
        self.line_up_heap();
        self.index.flush();
        self.line_up_index();
        assert(self.trail() =~= before.trail());
        assert(self.actions() =~= before.actions().push(
            FileActionView::Heap(ActionView::SyncFile),
        ).push(FileActionView::Index(ActionView::SyncFile)));
    }

    /// Hands over the actions that are still to be performed on the files, in
    /// the order in which they are to be performed.
    pub fn take_actions(&mut self) -> (actions: Vec<FileAction>)
        requires
            old(self).inv(),
        ensures
            final(self).inv(),
            final(self)@ == old(self)@,
            final(self).counter() == old(self).counter(),
            old(self).wf() ==> final(self).wf(),
            final(self).heap() == old(self).heap(),
            final(self).index() == old(self).index(),
            file_actions_view(actions@) == old(self).actions(),
            perform_steps(old(self).base(), old(self).actions()) == final(self).files(),
            final(self).settled(),
    {
        let ghost before = *self;
        let mut actions: Vec<FileAction> = Vec::new();
        actions.append(&mut self.queue);
        let ghost files = (self.heap.inner().file(), self.index.inner().file());
        self.base = Ghost(self.files());
        self.trail = Ghost(Seq::empty().push(files));
        proof {
            before.lemma_lined_up();
            recovery::lemma_uncommitted(files.0, Seq::empty());
            recovery::lemma_uncommitted(files.1, Seq::empty());
            assert(file_actions_view(actions@) =~= before.actions());
            assert(self.actions() =~= Seq::empty());
            assert(self.trail() =~= seq![files]);
            assert(self.trail()[0] == files);
        }
        actions
    }
}

/// A document that was added is read back as it was, with its identifier in
/// the field `_id`. Its names must not repeat, and its lengths must fit in 32
/// bits.
pub proof fn law_added_document_is_read_back(doc: DocumentView, counter: u64)
    requires
        proper(ValueView::Document(doc)),
        small(ValueView::Document(document_for(doc, counter))),
    ensures
        document_of(document_bytes(document_for(doc, counter))) == Ok::<
            DocumentView,
            DecodeError,
        >(document_for(doc, counter)),
        doc_get(document_for(doc, counter), "_id"@) == Some(
            ValueView::Str(id_for(doc, counter)),
        ),
{
    let id = hex(counter as nat, 16);
    let whole = document_for(doc, counter);
    document::law_names_stay_distinct(doc, "_id"@, ValueView::Str(id));
    document::law_insert(doc, "_id"@, ValueView::Str(id), "_id"@);
    encoding::law_document_round_trip(whole, Seq::empty());
    assert(document_bytes(whole) + Seq::<u8>::empty() =~= document_bytes(whole));
}

/// A document that was put in the place of another is read back as it was,
/// with the identifier in the field `_id`.
pub proof fn law_new_document_is_read_back(doc: DocumentView, id: Seq<char>)
    requires
        proper(ValueView::Document(doc)),
        small(ValueView::Document(with_id(doc, id))),
    ensures
        document_of(document_bytes(with_id(doc, id))) == Ok::<DocumentView, DecodeError>(
            with_id(doc, id),
        ),
        doc_get(with_id(doc, id), "_id"@) == Some(ValueView::Str(id)),
{
    let whole = with_id(doc, id);
    document::law_names_stay_distinct(doc, "_id"@, ValueView::Str(id));
    document::law_insert(doc, "_id"@, ValueView::Str(id), "_id"@);
    encoding::law_document_round_trip(whole, Seq::empty());
    assert(document_bytes(whole) + Seq::<u8>::empty() =~= document_bytes(whole));
}

/// Identifiers in the order of their bytes, each of them once.
pub open spec fn in_order(ids: Seq<Seq<char>>, map: Map<Seq<char>, Seq<u8>>) -> bool {
    &&& forall|i: int, j: int|
        0 <= i < j < ids.len() ==> lex_lt(
            encode_utf8(#[trigger] ids[i]),
            encode_utf8(#[trigger] ids[j]),
        )
    &&& forall|i: int| 0 <= i < ids.len() ==> map.contains_key(#[trigger] ids[i])
    &&& forall|id: Seq<char>| #[trigger] map.contains_key(id) ==> ids.contains(id)
}

/// Listing a collection gives every document once, in the order of the
/// identifiers. It fails only if one of them cannot be decoded. Where every
/// document carries its identifier, it does not fail, and the documents are in
/// the order of their fields `_id`.
pub proof fn law_documents_in_order(collection: Collection) -> (ids: Seq<Seq<char>>)
    requires
        collection.wf(),
    ensures
        in_order(ids, collection@),
        match collection.documents() {
            Ok(docs) => {
                &&& docs.len() == ids.len()
                &&& forall|i: int|
                    0 <= i < ids.len() ==> document_of(collection@[#[trigger] ids[i]]) == Ok::<
                        DocumentView,
                        DecodeError,
                    >(docs[i])
            },
            Err(_) => exists|i: int|
                0 <= i < ids.len() && document_of(collection@[#[trigger] ids[i]]) is Err,
        },
        labelled(collection@) ==> {
            &&& collection.documents() matches Ok(docs)
            &&& forall|i: int|
                0 <= i < ids.len() ==> given_id(#[trigger] docs[i]) == Some(ids[i])
        },
{
    let store = collection.heap().store();
    let tree = index_tree(collection.index().store());
    let entries = tree.entries();
    let ids = Seq::new(entries.len(), |i: int| decode_utf8(entries[i].0));
    let map = collection.index()@;
    tree::lemma_ordered_entries(tree, Seq::empty(), None);
    assert forall|i: int| 0 <= i < ids.len() implies encode_utf8(#[trigger] ids[i]) == entries[i].0
        && map.contains_key(ids[i]) && map[ids[i]] == entries[i].1 by {
        assert(valid_utf8(entries[i].0));
        vstd::utf8::decode_utf8_encode_utf8(entries[i].0);
        tree::lemma_value_at(entries, i);
    }
    assert forall|i: int, j: int| 0 <= i < j < ids.len() implies lex_lt(
        encode_utf8(#[trigger] ids[i]),
        encode_utf8(#[trigger] ids[j]),
    ) by {
        assert(lex_lt(entries[i].0, entries[j].0));
    }
    assert forall|id: Seq<char>| #[trigger] collection@.contains_key(id) implies ids.contains(
        id,
    ) by {
        let i = choose|i: int|
            0 <= i < entries.len() && (#[trigger] entries[i]).0 == encode_utf8(id);
        text::lemma_utf8_injective(ids[i], id);
        assert(ids[i] == id);
    }
    assert forall|i: int| 0 <= i < ids.len() implies stored_document(
        store,
        (#[trigger] entries[i]).1,
    ) == (match document_of(collection@[ids[i]]) {
        Ok(doc) => Ok::<DocumentView, StorageError>(doc),
        Err(error) => Err(StorageError::InvalidData(error)),
    }) by {
        assert(map.contains_key(ids[i]));
        collection.lemma_record_of(ids[i]);
    }
    lemma_collected(store, entries);
    match collection.documents() {
        Ok(docs) => {
            assert forall|i: int| 0 <= i < ids.len() implies document_of(
                collection@[#[trigger] ids[i]],
            ) == Ok::<DocumentView, DecodeError>(docs[i]) by {
                assert(stored_document(store, entries[i].1) == Ok::<DocumentView, StorageError>(
                    docs[i],
                ));
            }
        },
        Err(_) => {
            let i = choose|i: int|
                0 <= i < entries.len() && stored_document(
                    store,
                    (#[trigger] entries[i]).1,
                ) is Err;
            assert(document_of(collection@[ids[i]]) is Err);
        },
    }
    if labelled(collection@) {
        assert forall|i: int| 0 <= i < ids.len() implies collection@.contains_key(
            #[trigger] ids[i],
        ) by {
        }
        let docs = collection.documents()->Ok_0;
        assert forall|i: int| 0 <= i < ids.len() implies given_id(#[trigger] docs[i]) == Some(
            ids[i],
        ) by {
            assert(document_of(collection@[ids[i]]) == Ok::<DocumentView, DecodeError>(docs[i]));
        }
    }
    ids
}

proof fn lemma_collected(store: Seq<Seq<u8>>, entries: Seq<Item>)
    ensures
        match collect(store, entries) {
            Ok(docs) => {
                &&& docs.len() == entries.len()
                &&& forall|i: int|
                    0 <= i < entries.len() ==> stored_document(store, (#[trigger] entries[i]).1)
                        == Ok::<DocumentView, StorageError>(docs[i])
            },
            Err(_) => exists|i: int|
                0 <= i < entries.len() && stored_document(
                    store,
                    (#[trigger] entries[i]).1,
                ) is Err,
        },
    decreases entries.len(),
{
    if entries.len() > 0 {
        let init = entries.drop_last();
        lemma_collected(store, init);
        match collect(store, init) {
            Ok(docs) => {
                assert forall|i: int| 0 <= i < init.len() implies stored_document(
                    store,
                    (#[trigger] entries[i]).1,
                ) == Ok::<DocumentView, StorageError>(docs[i]) by {
                    assert(init[i] == entries[i]);
                }
                assert(entries[entries.len() - 1] == entries.last());
            },
            Err(_) => {
                let i = choose|i: int|
                    0 <= i < init.len() && stored_document(store, (#[trigger] init[i]).1) is Err;
                assert(stored_document(store, entries[i].1) is Err);
            },
        }
    }
}

/// A collection that is opened from the files of another, once all actions
/// on them are performed, holds the same documents.
pub proof fn law_reopening_keeps_documents(before: Collection, after: Collection)
    requires
        before.wf(),
        after.inv(),
        after.index().root() == btree::root_of(after.index().store()),
        after.heap().store() == pages_of(
            recovered(Image { file: before.heap().inner().file(), log: Seq::empty() }),
        ),
        after.index().store() == pages_of(
            recovered(Image { file: before.index().inner().file(), log: Seq::empty() }),
        ),
    ensures
        after.wf(),
        after@ == before@,
        after.counter() == before.counter(),
        after.documents() == before.documents(),
{
    before.heap().inner().lemma_inv();
    before.index().inner().lemma_inv();
    recovery::lemma_uncommitted(before.heap().inner().file(), Seq::empty());
    recovery::lemma_uncommitted(before.index().inner().file(), Seq::empty());
}

/// Whatever a crash leaves of the files of a collection, recovery finds files
/// that hold the documents from before the last operation or those from after
/// it, or files from before its actions: no operation is half done.
pub proof fn law_interrupted_operation(before: Collection, after: Collection, out: Images)
    requires
        before.wf(),
        after.wf(),
        goes_through(before.trail(), after.trail(), before@, after@),
        files_may_crash_to(after.base(), after.actions(), out),
    ensures
        ({
            let files = (recovered(out.heap), recovered(out.index));
            &&& before.trail().contains(files) || holds(files, before@) || holds(files, after@)
            &&& before.settled() ==> holds(files, before@) || holds(files, after@)
        }),
{
    let files = (recovered(out.heap), recovered(out.index));
    let trail = after.trail();
    after.lemma_lined_up();
    lemma_pair_holds(before.heap(), before.index());
    let i = choose|i: int| 0 <= i < trail.len() && trail[i] == files;
    if i < before.trail().len() {
        assert(trail.take(before.trail().len() as int)[i] == trail[i]);
        assert(before.trail()[i] == files);
    }
}

/// If opening a new collection is cut short by a crash, recovery finds files
/// from which a new collection is opened again.
pub proof fn law_interrupted_opening(collection: Collection, out: Images)
    requires
        collection.inv(),
        forall|i: int|
            0 <= i < collection.trail().len() ==> without_documents(
                #[trigger] collection.trail()[i],
            ),
        files_may_crash_to(collection.base(), collection.actions(), out),
    ensures
        without_documents((recovered(out.heap), recovered(out.index))),
{
    collection.lemma_lined_up();
    let files = (recovered(out.heap), recovered(out.index));
    let i = choose|i: int|
        0 <= i < collection.trail().len() && collection.trail()[i] == files;
    assert(without_documents(collection.trail()[i]));
}

/// A collection that is opened from files that hold some documents holds
/// these documents.
pub proof fn law_files_are_opened(
    files: (Seq<u8>, Seq<u8>),
    documents: Map<Seq<char>, Seq<u8>>,
    collection: Collection,
)
    requires
        holds(files, documents),
        collection.inv(),
        collection.index().root() == btree::root_of(collection.index().store()),
        collection.heap().store() == pages_of(files.0),
        collection.index().store() == pages_of(files.1),
    ensures
        collection.wf(),
        collection@ == documents,
{
}

/// There is room for `n` more identifiers that are not too long, and for
/// `pages` more pages of documents.
pub open spec fn has_room(collection: Collection, n: nat, pages: nat) -> bool {
    &&& btree::has_room(
        index_tree(collection.index().store()),
        collection.index().store().len(),
        n,
    )
    &&& collection.heap().store().len() + pages <= PAGE_LIMIT
}

/// A new collection has room for ten million documents, and for as many pages
/// as a file can have.
pub proof fn law_new_collection_has_room(collection: Collection)
    requires
        collection.heap().store().len() == 1,
        collection.index().store().len() == 2,
        index_tree(collection.index().store()) == btree::empty_tree(),
    ensures
        has_room(collection, 10_000_000, (PAGE_LIMIT - 1) as nat),
{
    btree::law_new_index_has_room();
}

/// A collection that has room takes a document whose identifier is not too
/// long, and has room for one less, and for no fewer pages than those that
/// the document did not take.
pub proof fn law_room_is_used_up(collection: Collection, doc: DocumentView, n: nat, pages: nat)
    requires
        collection.wf(),
        has_room(collection, n, pages),
        n > 0,
        given_id(doc) is Some || collection.number() < u64::MAX,
        encode_utf8(id_for(doc, collection.number())).len() <= SHORT_KEY,
        chunk_count(document_bytes(document_for(doc, collection.number())).len()) <= pages,
    ensures
        ({
            let taken = chunk_count(
                document_bytes(document_for(doc, collection.number())).len(),
            );
            &&& collection.insert_outcome(doc) matches Ok((tree, index_pages))
            &&& btree::has_room(tree, index_pages as nat, (n - 1) as nat)
            &&& collection.heap_after_insert(doc).len() + pages - taken <= PAGE_LIMIT
        }),
{
    let number = collection.number();
    let store = collection.heap().store();
    let map = collection.index()@;
    let bytes = document_bytes(document_for(doc, number));
    collection.heap().lemma_store();
    law_counting_keeps_documents(store, map, number_after(number));
    let counted = collection.counted(doc);
    chain::law_insert_record(counted, live_pages(map), bytes);
    let (_, p) = insert_record(counted, bytes)->Ok_0;
    collection.index().inner().lemma_inv();
    btree::law_room_is_used_up(
        collection.index().inner().total(),
        id_for(doc, number),
        p,
        n,
    );
}

/// A generated identifier is not too long.
pub proof fn law_generated_ids_are_short(number: u64)
    ensures
        encode_utf8(hex(number as nat, 16)).len() == 16,
        16 <= SHORT_KEY,
{
    lemma_hex_bytes(number as nat, 16);
}

/// A document can be replaced if and only if there is room for the pages of
/// the new one beside those of the old one: free pages, or pages by which the
/// file can grow.
pub proof fn law_replacing_takes_room(collection: Collection, id: Seq<char>, doc: DocumentView)
    requires
        collection.wf(),
    ensures
        ({
            let store = collection.heap().store();
            let taken = chunk_count(document_bytes(with_id(doc, id)).len());
            let free = chain::free_list(store).len();
            collection.renewed(id, doc) is Ok <==> taken <= free || store.len() + taken
                <= PAGE_LIMIT + free
        }),
{
    collection.heap().lemma_store();
    chain::law_insert_record(
        collection.heap().store(),
        live_pages(collection.index()@),
        document_bytes(with_id(doc, id)),
    );
}

/// Every document carries the identifier under which it is stored in its
/// field `_id`.
pub open spec fn labelled(documents: Map<Seq<char>, Seq<u8>>) -> bool {
    forall|id: Seq<char>| #[trigger]
        documents.contains_key(id) ==> {
            &&& document_of(documents[id]) matches Ok(doc)
            &&& given_id(doc) == Some(id)
        }
}

/// Adding a document keeps every document labelled. Its names must not
/// repeat, and its lengths must fit in 32 bits.
pub proof fn law_added_document_is_labelled(
    documents: Map<Seq<char>, Seq<u8>>,
    doc: DocumentView,
    number: u64,
)
    requires
        labelled(documents),
        proper(ValueView::Document(doc)),
        small(ValueView::Document(document_for(doc, number))),
    ensures
        labelled(documents.insert(id_for(doc, number), document_bytes(document_for(doc, number)))),
{
    law_added_document_is_read_back(doc, number);
    let more = documents.insert(id_for(doc, number), document_bytes(document_for(doc, number)));
    assert forall|id: Seq<char>| #[trigger] more.contains_key(id) implies {
        &&& document_of(more[id]) matches Ok(doc)
        &&& given_id(doc) == Some(id)
    } by {
        if id != id_for(doc, number) {
            assert(documents.contains_key(id));
        }
    }
}

/// Replacing a document keeps every document labelled.
pub proof fn law_new_document_is_labelled(
    documents: Map<Seq<char>, Seq<u8>>,
    doc: DocumentView,
    id: Seq<char>,
)
    requires
        labelled(documents),
        proper(ValueView::Document(doc)),
        small(ValueView::Document(with_id(doc, id))),
    ensures
        labelled(documents.insert(id, document_bytes(with_id(doc, id)))),
{
    law_new_document_is_read_back(doc, id);
    let more = documents.insert(id, document_bytes(with_id(doc, id)));
    assert forall|k: Seq<char>| #[trigger] more.contains_key(k) implies {
        &&& document_of(more[k]) matches Ok(doc)
        &&& given_id(doc) == Some(k)
    } by {
        if k != id {
            assert(documents.contains_key(k));
        }
    }
}

/// Removing a document keeps every other document labelled.
pub proof fn law_removal_keeps_labels(documents: Map<Seq<char>, Seq<u8>>, id: Seq<char>)
    requires
        labelled(documents),
    ensures
        labelled(documents.remove(id)),
{
    assert forall|k: Seq<char>| #[trigger] documents.remove(id).contains_key(k) implies {
        &&& document_of(documents.remove(id)[k]) matches Ok(doc)
        &&& given_id(doc) == Some(k)
    } by {
        assert(documents.contains_key(k));
    }
}

/// `whole` is the document with the identifier: it has the same fields in the
/// same order with the same values, but for the field `_id`, which holds the
/// identifier. Where there was no such field, it comes last.
pub open spec fn is_labelled_copy(
    whole: DocumentView,
    doc: DocumentView,
    id: Seq<char>,
) -> bool {
    &&& doc_get(whole, "_id"@) == Some(ValueView::Str(id))
    &&& forall|name: Seq<char>|
        name != "_id"@ ==> #[trigger] doc_get(whole, name) == doc_get(doc, name)
    &&& doc.len() <= whole.len() <= doc.len() + 1
    &&& whole.len() == doc.len() <==> exists|i: int|
        0 <= i < doc.len() && (#[trigger] doc[i]).0 == "_id"@
    &&& forall|i: int| 0 <= i < doc.len() ==> (#[trigger] whole[i]).0 == doc[i].0
    &&& forall|i: int|
        0 <= i < doc.len() && doc[i].0 != "_id"@ ==> (#[trigger] whole[i]).1 == doc[i].1
}

/// A document that is put in the place of another keeps all its fields but
/// `_id`, their order and their values, and gets the identifier as its `_id`.
pub proof fn law_new_document_keeps_its_fields(doc: DocumentView, id: Seq<char>)
    ensures
        is_labelled_copy(with_id(doc, id), doc, id),
{
    let whole = with_id(doc, id);
    let value = ValueView::Str(id);
    let k = document::first_field(doc, "_id"@);
    document::lemma_first_field_place(doc, "_id"@);
    document::lemma_first_field(doc, "_id"@, k, value);
    document::law_insert(doc, "_id"@, value, "_id"@);
    document::law_get(doc, "_id"@);
    assert forall|name: Seq<char>| name != "_id"@ implies #[trigger] doc_get(whole, name)
        == doc_get(doc, name) by {
        document::law_insert(doc, "_id"@, value, name);
    }
    if k < doc.len() {
        assert(doc[k].0 == "_id"@);
    }
}

/// What is fetched after a document was replaced: the document that was handed
/// in, with the identifier. Its names must not repeat, and its lengths must fit
/// in 32 bits.
pub proof fn law_replaced_document_is_fetched(
    before: Collection,
    after: Collection,
    id: Seq<char>,
    doc: DocumentView,
) -> (fetched: DocumentView)
    requires
        before@.contains_key(id),
        after@ == before@.insert(id, document_bytes(with_id(doc, id))),
        proper(ValueView::Document(doc)),
        small(ValueView::Document(with_id(doc, id))),
    ensures
        document_of(after@[id]) == Ok::<DocumentView, DecodeError>(fetched),
        is_labelled_copy(fetched, doc, id),
        forall|other: Seq<char>|
            other != id ==> after@.contains_key(other) == before@.contains_key(other)
                && #[trigger] after@[other] == before@[other],
{
    law_new_document_is_read_back(doc, id);
    law_new_document_keeps_its_fields(doc, id);
    with_id(doc, id)
}

/// A document with a string as its `_id` is stored under it as it is. Any other
/// document gets the identifier of the number, and keeps all its other fields.
pub proof fn law_added_document_keeps_its_fields(doc: DocumentView, number: u64)
    ensures
        forall|id: Seq<char>|
            doc_get(doc, "_id"@) == Some(ValueView::Str(id)) ==> #[trigger] id_for(doc, number)
                == id && document_for(doc, number) == doc && given_id(doc) == Some(id),
        !(doc_get(doc, "_id"@) matches Some(ValueView::Str(_))) ==> {
            &&& given_id(doc) is None
            &&& id_for(doc, number) == hex(number as nat, 16)
            &&& is_labelled_copy(document_for(doc, number), doc, hex(number as nat, 16))
        },
{
    law_new_document_keeps_its_fields(doc, hex(number as nat, 16));
}

/// A generated identifier consists of the sixteen hexadecimal digits of its
/// number, the most significant one first, with small letters.
pub proof fn law_digits_of_generated_ids(number: u64, i: int)
    requires
        0 <= i < 16,
    ensures
        hex(number as nat, 16).len() == 16,
        ({
            let digit = (number as int / pow(16, (15 - i) as nat)) % 16;
            hex(number as nat, 16)[i] == seq![
                '0',
                '1',
                '2',
                '3',
                '4',
                '5',
                '6',
                '7',
                '8',
                '9',
                'a',
                'b',
                'c',
                'd',
                'e',
                'f',
            ][digit]
        }),
{
    lemma_hex_digit(number as nat, 16, i);
}

proof fn lemma_hex_digit(n: nat, digits: nat, i: int)
    requires
        0 <= i < digits,
    ensures
        hex(n, digits).len() == digits,
        hex(n, digits)[i] == hex_char(
            ((n as int / pow(16, (digits - 1 - i) as nat)) % 16) as nat,
        ),
    decreases digits,
{
    lemma_hex_bytes(n, digits);
    if i == digits - 1 {
        vstd::arithmetic::power::lemma_pow0(16);
    } else {
        let less = (digits - 1) as nat;
        let k = (less - 1 - i) as nat;
        lemma_hex_digit(n / 16, less, i);
        vstd::arithmetic::power::lemma_pow_positive(16, k);
        vstd::arithmetic::power::lemma_pow_adds(16, 1, k);
        vstd::arithmetic::power::lemma_pow1(16);
        vstd::arithmetic::div_mod::lemma_div_denominator(n as int, 16, pow(16, k));
        assert(hex(n, digits)[i] == hex(n / 16, less)[i]);
    }
}

/// The counter goes on right behind the number of the identifier that was
/// generated.
pub proof fn law_numbers_are_counted_one_by_one(number: u64)
    requires
        number < u64::MAX,
    ensures
        number_after(number) == number + 1,
{
}

/// What is listed: the documents that the identifiers lead to, in the order of
/// the index, each of them once. Where one of them cannot be read, there is no
/// list, and the first of them says why.
pub proof fn law_listed_documents(store: Seq<Seq<u8>>, item: Item, a: Seq<Item>, b: Seq<Item>)
    ensures
        collect(store, seq![item]) == match stored_document(store, item.1) {
            Ok(doc) => Ok::<Seq<DocumentView>, StorageError>(seq![doc]),
            Err(error) => Err(error),
        },
        collect(store, a) is Err ==> collect(store, a + b) == collect(store, a),
        collect(store, a) is Ok && collect(store, b) is Err ==> collect(store, a + b) == collect(
            store,
            b,
        ),
        collect(store, Seq::empty()) == Ok::<Seq<DocumentView>, StorageError>(Seq::empty()),
        collect(store, a) matches Ok(x) ==> (collect(store, b) matches Ok(y) ==> collect(
            store,
            a + b,
        ) == Ok::<Seq<DocumentView>, StorageError>(x + y)),
    decreases b.len(),
{
    assert(seq![item].drop_last() =~= Seq::empty());
    assert(Seq::<DocumentView>::empty().push(stored_document(store, item.1)->Ok_0) =~= seq![
        stored_document(store, item.1)->Ok_0,
    ]);
    reveal_with_fuel(collect, 2);
    if b.len() == 0 {
        assert(a + b =~= a);
        assert(collect(store, a) matches Ok(x) ==> x + Seq::<DocumentView>::empty() =~= x);
    } else {
        law_listed_documents(store, item, a, b.drop_last());
        assert((a + b).drop_last() =~= a + b.drop_last());
        assert((a + b).last() == b.last());
        match (collect(store, a), collect(store, b.drop_last()), stored_document(store, b.last().1)) {
            (Ok(x), Ok(y), Ok(doc)) => {
                assert((x + y).push(doc) =~= x + y.push(doc));
            },
            _ => {},
        }
    }
}

/// A list of documents is what each of them is, place by place.
pub proof fn law_listed_places(docs: Seq<Document>, i: int)
    ensures
        documents_view(docs).len() == docs.len(),
        0 <= i < docs.len() ==> documents_view(docs)[i] == docs[i].view(),
{
}

/// What is stored in a collection: for each identifier of the index the bytes
/// of the record that it leads to, and nothing else.
pub proof fn law_stored_documents(collection: Collection, id: Seq<char>)
    requires
        collection.wf(),
    ensures
        collection@.contains_key(id) <==> collection.index()@.contains_key(id),
        collection@.contains_key(id) ==> record(
            collection.heap().store(),
            collection.index()@[id],
        ) == Ok::<Seq<u8>, StorageError>(collection@[id]),
{
    if collection.index()@.contains_key(id) {
        collection.lemma_record_of(id);
    }
}

} // verus!
