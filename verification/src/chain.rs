//! Chains of pages, and the list of free pages, as they lie in a file.
//!
//! The first page holds the head of the list of free pages and a counter. A
//! page of a chain holds the number of the next page, the number of bytes on
//! this page, and the bytes. A free page holds the number of the next free
//! page.

use crate::bytes;
use crate::bytes::le_bytes;
use crate::bytes::le_value;
use crate::bytes::overwrite;
use crate::disk;
use crate::disk::PAGE_LIMIT;
use crate::node::NONE;
use crate::pager::StorageError;
use crate::pager::zero_page;
use vstd::prelude::*;

verus! {

/// The size of next page and length.
pub const CHAIN_HEADER_SIZE: usize = 12;

/// How many bytes of a chain fit on one page.
pub const CHAIN_PAYLOAD_CAPACITY: usize = 4084;

/// The page that a page names first: the next of a chain or of the list of
/// free pages, or the head of that list.
pub open spec fn next_of(page: Seq<u8>) -> u64 {
    le_value(page.subrange(0, 8)) as u64
}

/// The number of bytes that a page of a chain says it holds.
pub open spec fn length_of(page: Seq<u8>) -> nat {
    le_value(page.subrange(8, 12))
}

/// The bytes on a page of a chain.
pub open spec fn payload_of(page: Seq<u8>) -> Seq<u8> {
    page.subrange(12, 12 + length_of(page) as int)
}

/// The counter on the first page.
pub open spec fn counter_of(store: Seq<Seq<u8>>) -> u64 {
    le_value(store[0].subrange(8, 16)) as u64
}

/// A page of a chain.
pub open spec fn chain_page(next: u64, chunk: Seq<u8>) -> Seq<u8> {
    overwrite(
        overwrite(
            overwrite(zero_page(), 0, le_bytes(next as nat, 8)),
            8,
            le_bytes(chunk.len(), 4),
        ),
        12,
        chunk,
    )
}

/// A page that names `next` first and is the same otherwise.
pub open spec fn with_next(page: Seq<u8>, next: u64) -> Seq<u8> {
    overwrite(page, 0, le_bytes(next as nat, 8))
}

/// The first page with another counter.
pub open spec fn with_counter(page: Seq<u8>, counter: u64) -> Seq<u8> {
    overwrite(page, 8, le_bytes(counter as nat, 8))
}

/// All pages are full pages.
pub open spec fn full(store: Seq<Seq<u8>>) -> bool {
    forall|i: int| 0 <= i < store.len() ==> (#[trigger] store[i]).len() == 4096
}

/// The bytes of the chain that starts at page `p`, if it ends after at most
/// `fuel` pages.
pub open spec fn read_chain(store: Seq<Seq<u8>>, p: u64, fuel: nat) -> Result<
    Seq<u8>,
    StorageError,
>
    decreases fuel,
{
    if fuel == 0 {
        Err(StorageError::CorruptPage)
    } else if p >= store.len() {
        Err(StorageError::UnexpectedEof)
    } else {
        let page = store[p as int];
        if length_of(page) > CHAIN_PAYLOAD_CAPACITY {
            Err(StorageError::CorruptPage)
        } else if next_of(page) == NONE {
            Ok(payload_of(page))
        } else {
            match read_chain(store, next_of(page), (fuel - 1) as nat) {
                Ok(rest) => Ok(payload_of(page) + rest),
                Err(error) => Err(error),
            }
        }
    }
}

/// The bytes of a record. A chain that is longer than the file has no end.
pub open spec fn record(store: Seq<Seq<u8>>, p: u64) -> Result<Seq<u8>, StorageError> {
    read_chain(store, p, store.len())
}

/// The store after page `p` became the first of the free pages.
pub open spec fn free_one(store: Seq<Seq<u8>>, p: u64) -> Seq<Seq<u8>> {
    store.update(p as int, with_next(zero_page(), next_of(store[0]))).update(
        0,
        with_next(store[0], p),
    )
}

/// The store after all pages of the chain that starts at page `p` were
/// freed, if it ends after at most `fuel` pages.
pub open spec fn free_chain(store: Seq<Seq<u8>>, p: u64, fuel: nat) -> Result<
    Seq<Seq<u8>>,
    StorageError,
>
    decreases fuel,
{
    if fuel == 0 {
        Err(StorageError::CorruptPage)
    } else if p >= store.len() {
        Err(StorageError::UnexpectedEof)
    } else {
        let next = next_of(store[p as int]);
        let freed = free_one(store, p);
        if next == NONE {
            Ok(freed)
        } else {
            free_chain(freed, next, (fuel - 1) as nat)
        }
    }
}

/// A page to write to, and the store without it: the first of the free pages
/// or, if there is none, a new one.
pub open spec fn take_one(store: Seq<Seq<u8>>) -> Result<(Seq<Seq<u8>>, u64), StorageError> {
    let head = next_of(store[0]);
    if head == NONE {
        if store.len() >= PAGE_LIMIT {
            Err(StorageError::PageOutOfRange)
        } else {
            Ok((store.push(zero_page()), store.len() as u64))
        }
    } else if head >= store.len() {
        Err(StorageError::UnexpectedEof)
    } else {
        Ok((store.update(0, with_next(store[0], next_of(store[head as int]))), head))
    }
}

/// `n` pages to write to, and the store without them.
pub open spec fn take_pages(store: Seq<Seq<u8>>, n: nat) -> Result<
    (Seq<Seq<u8>>, Seq<u64>),
    StorageError,
>
    decreases n,
{
    if n == 0 {
        Ok((store, Seq::empty()))
    } else {
        match take_pages(store, (n - 1) as nat) {
            Ok((less, pages)) => match take_one(less) {
                Ok((rest, p)) => Ok((rest, pages.push(p))),
                Err(error) => Err(error),
            },
            Err(error) => Err(error),
        }
    }
}

/// How many pages a record of `len` bytes takes. An empty one takes a page
/// too.
pub open spec fn chunk_count(len: nat) -> nat {
    if len == 0 {
        1
    } else {
        (len + 4083) / 4084
    }
}

/// The bytes on page `i` of a record.
pub open spec fn chunk(bytes: Seq<u8>, i: int) -> Seq<u8> {
    bytes.subrange(
        4084 * i,
        if 4084 * (i + 1) < bytes.len() {
            4084 * (i + 1)
        } else {
            bytes.len() as int
        },
    )
}

/// The page behind page `i` of a list.
pub open spec fn page_after(pages: Seq<u64>, i: int) -> u64 {
    if i + 1 < pages.len() {
        pages[i + 1]
    } else {
        NONE
    }
}

/// The store after the first `n` of `pages` were written with `bytes`.
pub open spec fn write_chain(
    store: Seq<Seq<u8>>,
    pages: Seq<u64>,
    bytes: Seq<u8>,
    n: nat,
) -> Seq<Seq<u8>>
    decreases n,
{
    if n == 0 {
        store
    } else {
        let i = n - 1;
        write_chain(store, pages, bytes, i as nat).update(
            pages[i] as int,
            chain_page(page_after(pages, i), chunk(bytes, i)),
        )
    }
}

/// The store with `bytes` as a new record, and the page where it begins.
pub open spec fn insert_record(store: Seq<Seq<u8>>, bytes: Seq<u8>) -> Result<
    (Seq<Seq<u8>>, u64),
    StorageError,
> {
    match take_pages(store, chunk_count(bytes.len())) {
        Ok((rest, pages)) => Ok((write_chain(rest, pages, bytes, pages.len()), pages[0])),
        Err(error) => Err(error),
    }
}

/// From page `p` on, the pages name each other in the order of `list`, and
/// the last one names none.
pub open spec fn is_list(store: Seq<Seq<u8>>, p: u64, list: Seq<u64>) -> bool
    decreases list.len(),
{
    if list.len() == 0 {
        p == NONE
    } else {
        &&& p == list[0]
        &&& p != NONE
        &&& p < store.len()
        &&& is_list(store, next_of(store[p as int]), list.drop_first())
    }
}

/// The list of pages from page `p` on.
pub open spec fn list_from(store: Seq<Seq<u8>>, p: u64) -> Seq<u64> {
    choose|list: Seq<u64>| is_list(store, p, list)
}

/// The list of free pages.
pub open spec fn free_list(store: Seq<Seq<u8>>) -> Seq<u64> {
    list_from(store, next_of(store[0]))
}

/// The bytes on several pages, one after the other.
pub open spec fn payloads(store: Seq<Seq<u8>>, list: Seq<u64>) -> Seq<u8>
    decreases list.len(),
{
    if list.len() == 0 {
        Seq::empty()
    } else {
        payload_of(store[list[0] as int]) + payloads(store, list.drop_first())
    }
}

/// Page `p` begins a chain that ends, and every page of it holds as much as
/// it says.
pub open spec fn is_chain(store: Seq<Seq<u8>>, p: u64) -> bool {
    let list = list_from(store, p);
    &&& p != NONE
    &&& is_list(store, p, list)
    &&& !list.contains(0)
    &&& forall|i: int|
        0 <= i < list.len() ==> length_of(store[#[trigger] list[i] as int])
            <= CHAIN_PAYLOAD_CAPACITY
}

/// No page of a list holds bytes.
pub open spec fn without_bytes(store: Seq<Seq<u8>>, list: Seq<u64>) -> bool {
    forall|i: int| 0 <= i < list.len() ==> length_of(store[#[trigger] list[i] as int]) == 0
}

/// The list of free pages ends and does not lead through the first page, and
/// free pages hold no bytes.
pub open spec fn free_ok(store: Seq<Seq<u8>>) -> bool {
    &&& store.len() > 0
    &&& full(store)
    &&& is_list(store, next_of(store[0]), free_list(store))
    &&& !free_list(store).contains(0)
    &&& without_bytes(store, free_list(store))
}

/// No page is in both lists.
pub open spec fn apart(a: Seq<u64>, b: Seq<u64>) -> bool {
    forall|p: u64| #[trigger] a.contains(p) ==> !b.contains(p)
}

/// The store holds the records that begin at the pages `live`: their chains
/// end, and neither they nor the free pages nor the first page share a page.
pub open spec fn heap_ok(store: Seq<Seq<u8>>, live: Set<u64>) -> bool {
    &&& free_ok(store)
    &&& forall|p: u64| #[trigger] live.contains(p) ==> is_chain(store, p)
    &&& forall|p: u64| #[trigger]
        live.contains(p) ==> apart(list_from(store, p), free_list(store))
    &&& forall|p: u64, q: u64|
        #![trigger live.contains(p), live.contains(q)]
        live.contains(p) && live.contains(q) && p != q ==> apart(
            list_from(store, p),
            list_from(store, q),
        )
}

/// `pages` exist and are not used for anything: not the first page, not
/// free, and in no chain of `live`.
pub open spec fn reserved(store: Seq<Seq<u8>>, live: Set<u64>, pages: Seq<u64>) -> bool {
    &&& pages.no_duplicates()
    &&& !pages.contains(0)
    &&& forall|i: int| 0 <= i < pages.len() ==> #[trigger] pages[i] < store.len()
    &&& apart(pages, free_list(store))
    &&& forall|p: u64| #[trigger] live.contains(p) ==> apart(pages, list_from(store, p))
}

pub proof fn lemma_list_unique(store: Seq<Seq<u8>>, p: u64, a: Seq<u64>, b: Seq<u64>)
    requires
        is_list(store, p, a),
        is_list(store, p, b),
    ensures
        a == b,
    decreases a.len(),
{
    if a.len() == 0 {
        assert(a =~= b);
    } else {
        lemma_list_unique(store, next_of(store[p as int]), a.drop_first(), b.drop_first());
        assert(a =~= seq![a[0]] + a.drop_first());
        assert(b =~= seq![b[0]] + b.drop_first());
    }
}

/// There is only one list from a page on.
pub proof fn lemma_list_from(store: Seq<Seq<u8>>, p: u64, list: Seq<u64>)
    requires
        is_list(store, p, list),
    ensures
        list_from(store, p) == list,
{
    lemma_list_unique(store, p, list, list_from(store, p));
}

/// The end of a list is a list.
pub proof fn lemma_list_suffix(store: Seq<Seq<u8>>, p: u64, list: Seq<u64>, i: int)
    requires
        is_list(store, p, list),
        0 <= i < list.len(),
    ensures
        is_list(store, list[i], list.skip(i)),
        list[i] < store.len(),
    decreases i,
{
    if i == 0 {
        assert(list.skip(0) =~= list);
    } else {
        let rest = list.drop_first();
        lemma_list_suffix(store, next_of(store[p as int]), rest, i - 1);
        assert(rest.skip(i - 1) =~= list.skip(i));
    }
}

/// A list that ends leads to no page twice.
pub proof fn lemma_list_distinct(store: Seq<Seq<u8>>, p: u64, list: Seq<u64>)
    requires
        is_list(store, p, list),
        store.len() <= u64::MAX,
    ensures
        list.no_duplicates(),
        list.len() <= store.len(),
        forall|i: int| 0 <= i < list.len() ==> #[trigger] list[i] < store.len(),
{
    assert forall|i: int| 0 <= i < list.len() implies #[trigger] list[i] < store.len() by {
        lemma_list_suffix(store, p, list, i);
    }
    assert forall|i: int, j: int|
        0 <= i < list.len() && 0 <= j < list.len() && i != j implies list[i] != list[j] by {
        lemma_list_suffix(store, p, list, i);
        lemma_list_suffix(store, p, list, j);
        if list[i] == list[j] {
            lemma_list_unique(store, list[i], list.skip(i), list.skip(j));
            assert(list.skip(i).len() == list.skip(j).len());
        }
    }
    disk::lemma_distinct_pages(list, store.len() as int);
}

/// A list stays as long as its pages name the same pages.
pub proof fn lemma_list_stays(
    store: Seq<Seq<u8>>,
    store2: Seq<Seq<u8>>,
    p: u64,
    list: Seq<u64>,
)
    requires
        is_list(store, p, list),
        store.len() <= store2.len(),
        forall|i: int|
            0 <= i < list.len() ==> next_of(store2[#[trigger] list[i] as int]) == next_of(
                store[list[i] as int],
            ),
    ensures
        is_list(store2, p, list),
        list_from(store2, p) == list,
    decreases list.len(),
{
    if list.len() > 0 {
        let rest = list.drop_first();
        assert forall|i: int| 0 <= i < rest.len() implies next_of(
            store2[#[trigger] rest[i] as int],
        ) == next_of(store[rest[i] as int]) by {
            assert(rest[i] == list[i + 1]);
        }
        assert(next_of(store2[list[0] as int]) == next_of(store[list[0] as int]));
        lemma_list_stays(store, store2, next_of(store[p as int]), rest);
    }
    lemma_list_from(store2, p, list);
}

proof fn lemma_payloads_stay(store: Seq<Seq<u8>>, store2: Seq<Seq<u8>>, list: Seq<u64>)
    requires
        forall|i: int|
            0 <= i < list.len() ==> store2[#[trigger] list[i] as int] == store[list[i] as int],
    ensures
        payloads(store2, list) == payloads(store, list),
    decreases list.len(),
{
    if list.len() > 0 {
        let rest = list.drop_first();
        assert forall|i: int| 0 <= i < rest.len() implies store2[#[trigger] rest[i] as int]
            == store[rest[i] as int] by {
            assert(rest[i] == list[i + 1]);
        }
        assert(store2[list[0] as int] == store[list[0] as int]);
        lemma_payloads_stay(store, store2, rest);
    }
}

proof fn lemma_read_list(store: Seq<Seq<u8>>, p: u64, list: Seq<u64>, fuel: nat)
    requires
        is_list(store, p, list),
        list.len() > 0,
        forall|i: int|
            0 <= i < list.len() ==> length_of(store[#[trigger] list[i] as int])
                <= CHAIN_PAYLOAD_CAPACITY,
        list.len() <= fuel,
    ensures
        read_chain(store, p, fuel) == Ok::<Seq<u8>, StorageError>(payloads(store, list)),
    decreases list.len(),
{
    let rest = list.drop_first();
    let next = next_of(store[p as int]);
    assert(length_of(store[list[0] as int]) <= CHAIN_PAYLOAD_CAPACITY);
    reveal_with_fuel(is_list, 2);
    if rest.len() == 0 {
        assert(payloads(store, rest) =~= Seq::empty());
        assert(payloads(store, list) =~= payload_of(store[p as int]));
    } else {
        assert forall|i: int| 0 <= i < rest.len() implies length_of(
            store[#[trigger] rest[i] as int],
        ) <= CHAIN_PAYLOAD_CAPACITY by {
            assert(rest[i] == list[i + 1]);
        }
        lemma_read_list(store, next, rest, (fuel - 1) as nat);
    }
}

/// A chain is read as the bytes on its pages.
pub proof fn lemma_record(store: Seq<Seq<u8>>, p: u64)
    requires
        is_chain(store, p),
        store.len() <= u64::MAX,
    ensures
        record(store, p) == Ok::<Seq<u8>, StorageError>(payloads(store, list_from(store, p))),
        list_from(store, p).len() > 0,
        list_from(store, p)[0] == p,
{
    let list = list_from(store, p);
    lemma_list_distinct(store, p, list);
    lemma_read_list(store, p, list, store.len());
}

/// A record stays as long as its pages stay as they are.
pub proof fn lemma_record_stays(store: Seq<Seq<u8>>, store2: Seq<Seq<u8>>, p: u64)
    requires
        is_chain(store, p),
        store.len() <= store2.len() <= u64::MAX,
        forall|q: u64| #[trigger]
            list_from(store, p).contains(q) ==> store2[q as int] == store[q as int],
    ensures
        is_chain(store2, p),
        list_from(store2, p) == list_from(store, p),
        record(store2, p) == record(store, p),
{
    let list = list_from(store, p);
    assert forall|i: int| 0 <= i < list.len() implies store2[#[trigger] list[i] as int]
        == store[list[i] as int] by {
        assert(list.contains(list[i]));
    }
    lemma_list_stays(store, store2, p, list);
    lemma_payloads_stay(store, store2, list);
    lemma_record(store, p);
    assert forall|i: int| 0 <= i < list.len() implies length_of(
        store2[#[trigger] list[i] as int],
    ) <= CHAIN_PAYLOAD_CAPACITY by {
        assert(length_of(store[list[i] as int]) <= CHAIN_PAYLOAD_CAPACITY);
    }
    lemma_record(store2, p);
}

/// What is read from pages that were written.
pub proof fn lemma_page_fields(page: Seq<u8>, next: u64, bytes: Seq<u8>)
    requires
        page.len() == 4096,
        bytes.len() <= CHAIN_PAYLOAD_CAPACITY,
    ensures
        next_of(with_next(page, next)) == next,
        with_next(page, next).len() == 4096,
        with_next(page, next).subrange(8, 16) == page.subrange(8, 16),
        next_of(chain_page(next, bytes)) == next,
        length_of(chain_page(next, bytes)) == bytes.len(),
        payload_of(chain_page(next, bytes)) == bytes,
        chain_page(next, bytes).len() == 4096,
        next_of(with_counter(page, next)) == next_of(page),
        with_counter(page, next).len() == 4096,
        le_value(with_counter(page, next).subrange(8, 16)) == next,
{
    bytes::lemma_byte_ranges();
    bytes::law_le_round_trip(next as nat, 8);
    bytes::law_le_round_trip(bytes.len(), 4);
    assert(with_next(page, next).subrange(0, 8) =~= le_bytes(next as nat, 8));
    assert(with_next(page, next).subrange(8, 16) =~= page.subrange(8, 16));
    assert(chain_page(next, bytes).subrange(0, 8) =~= le_bytes(next as nat, 8));
    assert(chain_page(next, bytes).subrange(8, 12) =~= le_bytes(bytes.len(), 4));
    assert(chain_page(next, bytes).subrange(12, 12 + bytes.len() as int) =~= bytes);
    assert(with_counter(page, next).subrange(0, 8) =~= page.subrange(0, 8));
    assert(with_counter(page, next).subrange(8, 16) =~= le_bytes(next as nat, 8));
}

/// Records, counter and lists of pages of `live` are the same in both stores.
pub open spec fn same_records(store: Seq<Seq<u8>>, store2: Seq<Seq<u8>>, live: Set<u64>) -> bool {
    &&& counter_of(store2) == counter_of(store)
    &&& forall|p: u64| #[trigger]
        live.contains(p) ==> list_from(store2, p) == list_from(store, p) && record(store2, p)
            == record(store, p)
}

/// Changing pages outside the chains of `live` keeps their records.
proof fn lemma_heap_stays(
    store: Seq<Seq<u8>>,
    store2: Seq<Seq<u8>>,
    live: Set<u64>,
    free: Seq<u64>,
)
    requires
        heap_ok(store, live),
        store.len() <= store2.len() <= u64::MAX,
        full(store2),
        is_list(store2, next_of(store2[0]), free),
        !free.contains(0),
        without_bytes(store2, free),
        forall|p: u64| #[trigger] live.contains(p) ==> apart(list_from(store, p), free),
        store2[0].subrange(8, 16) == store[0].subrange(8, 16),
        forall|p: u64, q: u64|
            #![trigger live.contains(p), list_from(store, p).contains(q)]
            live.contains(p) && list_from(store, p).contains(q) ==> store2[q as int]
                == store[q as int],
    ensures
        heap_ok(store2, live),
        free_list(store2) == free,
        same_records(store, store2, live),
{
    lemma_list_from(store2, next_of(store2[0]), free);
    assert forall|p: u64| #[trigger] live.contains(p) implies is_chain(store2, p) && list_from(
        store2,
        p,
    ) == list_from(store, p) && record(store2, p) == record(store, p) by {
        lemma_record_stays(store, store2, p);
    }
}

/// Taking a page keeps the records.
pub proof fn lemma_take_one(store: Seq<Seq<u8>>, live: Set<u64>, pages: Seq<u64>)
    requires
        heap_ok(store, live),
        reserved(store, live, pages),
        store.len() <= PAGE_LIMIT,
    ensures
        take_one(store) is Ok <==> store.len() < PAGE_LIMIT || free_list(store).len() > 0,
        take_one(store) matches Err(error) ==> error == StorageError::PageOutOfRange,
        take_one(store) matches Ok((rest, p)) ==> {
            &&& heap_ok(rest, live)
            &&& reserved(rest, live, pages.push(p))
            &&& same_records(store, rest, live)
            &&& rest.len() <= PAGE_LIMIT
            &&& free_list(store).len() > 0 ==> {
                &&& rest.len() == store.len()
                &&& p == free_list(store)[0]
                &&& free_list(rest) == free_list(store).drop_first()
            }
            &&& free_list(store).len() == 0 ==> {
                &&& rest.len() == store.len() + 1
                &&& free_list(rest).len() == 0
            }
        },
{
    let free = free_list(store);
    let head = next_of(store[0]);
    lemma_list_distinct(store, head, free);
    if take_one(store) is Ok {
        let (rest, p) = take_one(store)->Ok_0;
        if head == NONE {
            if free.len() > 0 {
                assert(free[0] < store.len());
            }
            assert(full(rest));
            assert(rest[0] == store[0]);
            assert forall|q: u64, r: u64|
                #![trigger live.contains(r), list_from(store, r).contains(q)]
                live.contains(r) && list_from(store, r).contains(q) implies rest[q as int]
                == store[q as int] by {
                lemma_member_below(store, r, q);
            }
            assert(without_bytes(rest, free));
            lemma_heap_stays(store, rest, live, free);
            assert(!pages.contains(p)) by {
                if pages.contains(p) {
                    let i = pages.index_of(p);
                    assert(pages[i] < store.len());
                }
            }
            lemma_reserve(store, rest, live, pages, p);
        } else {
            lemma_page_fields(store[0], next_of(store[head as int]), Seq::empty());
            let free2 = free.drop_first();
            assert(head == free[0]);
            assert(free.contains(head));
            assert(head != 0);
            assert forall|i: int| 0 <= i < free2.len() implies next_of(
                rest[#[trigger] free2[i] as int],
            ) == next_of(store[free2[i] as int]) by {
                assert(free.contains(free[i + 1]));
            }
            lemma_list_stays(store, rest, next_of(store[head as int]), free2);
            assert forall|q: u64| free2.contains(q) implies free.contains(q) by {
                let i = free2.index_of(q);
                assert(free[i + 1] == q);
            }
            assert(!free2.contains(head)) by {
                if free2.contains(head) {
                    let i = free2.index_of(head);
                    assert(free[i + 1] == free[0]);
                }
            }
            assert forall|r: u64| #[trigger] live.contains(r) implies apart(
                list_from(store, r),
                free2,
            ) by {
                assert(apart(list_from(store, r), free));
            }
            assert forall|q: u64, r: u64|
                #![trigger live.contains(r), list_from(store, r).contains(q)]
                live.contains(r) && list_from(store, r).contains(q) implies rest[q as int]
                == store[q as int] by {
                assert(is_chain(store, r));
                lemma_member_below(store, r, q);
            }
            assert(full(rest));
            assert forall|i: int| 0 <= i < free2.len() implies length_of(
                rest[#[trigger] free2[i] as int],
            ) == 0 by {
                assert(free2.contains(free2[i]));
                assert(length_of(store[free[i + 1] as int]) == 0);
            }
            lemma_heap_stays(store, rest, live, free2);
            assert(!pages.contains(head));
            lemma_reserve(store, rest, live, pages, p);
        }
    }
}

/// A page of a chain exists.
proof fn lemma_member_below(store: Seq<Seq<u8>>, p: u64, q: u64)
    requires
        is_chain(store, p),
        list_from(store, p).contains(q),
    ensures
        q < store.len(),
{
    let list = list_from(store, p);
    let i = list.index_of(q);
    lemma_list_suffix(store, p, list, i);
}

/// One more page is reserved.
proof fn lemma_reserve(
    store: Seq<Seq<u8>>,
    rest: Seq<Seq<u8>>,
    live: Set<u64>,
    pages: Seq<u64>,
    p: u64,
)
    requires
        heap_ok(store, live),
        reserved(store, live, pages),
        same_records(store, rest, live),
        store.len() <= rest.len(),
        p < rest.len(),
        p != 0,
        !pages.contains(p),
        !free_list(rest).contains(p),
        forall|q: u64| #[trigger] free_list(rest).contains(q) ==> free_list(store).contains(q),
        p >= store.len() || free_list(store).contains(p),
    ensures
        reserved(rest, live, pages.push(p)),
{
    let more = pages.push(p);
    assert forall|q: u64| #[trigger] more.contains(q) implies q == p || pages.contains(q) by {
        let i = more.index_of(q);
        if i < pages.len() {
            assert(pages[i] == q);
        }
    }
    assert forall|i: int, j: int|
        0 <= i < more.len() && 0 <= j < more.len() && i != j implies more[i] != more[j] by {
        if i < pages.len() {
            assert(pages.contains(pages[i]));
        }
        if j < pages.len() {
            assert(pages.contains(pages[j]));
        }
    }
    assert forall|r: u64| #[trigger] live.contains(r) implies apart(more, list_from(rest, r)) by {
        assert forall|q: u64| #[trigger] more.contains(q) implies !list_from(rest, r).contains(
            q,
        ) by {
            if q == p && list_from(store, r).contains(p) {
                lemma_member_below(store, r, p);
                assert(apart(list_from(store, r), free_list(store)));
            } else {
                assert(apart(pages, list_from(store, r)));
            }
        }
    }
}

/// Records that are the same in two steps are the same.
proof fn lemma_same_records_trans(
    a: Seq<Seq<u8>>,
    b: Seq<Seq<u8>>,
    c: Seq<Seq<u8>>,
    live: Set<u64>,
)
    requires
        same_records(a, b, live),
        same_records(b, c, live),
    ensures
        same_records(a, c, live),
{
}

/// Taking pages keeps the records. Free pages are taken first, in the order
/// of their list.
pub proof fn lemma_take_pages(store: Seq<Seq<u8>>, live: Set<u64>, n: nat)
    requires
        heap_ok(store, live),
        store.len() <= PAGE_LIMIT,
    ensures
        take_pages(store, n) is Ok <==> n <= free_list(store).len() || store.len() + n
            <= PAGE_LIMIT + free_list(store).len(),
        take_pages(store, n) matches Err(error) ==> error == StorageError::PageOutOfRange,
        take_pages(store, n) matches Ok((rest, pages)) ==> {
            &&& pages.len() == n
            &&& heap_ok(rest, live)
            &&& reserved(rest, live, pages)
            &&& same_records(store, rest, live)
            &&& rest.len() <= PAGE_LIMIT
            &&& n <= free_list(store).len() ==> {
                &&& rest.len() == store.len()
                &&& pages == free_list(store).take(n as int)
                &&& free_list(rest) == free_list(store).skip(n as int)
            }
            &&& n > free_list(store).len() ==> {
                &&& rest.len() == store.len() + n - free_list(store).len()
                &&& free_list(rest).len() == 0
            }
        },
    decreases n,
{
    let free = free_list(store);
    if n == 0 {
        assert(free.skip(0) =~= free);
        assert(free.take(0) =~= Seq::empty());
    } else {
        let m = (n - 1) as nat;
        lemma_take_pages(store, live, m);
        match take_pages(store, m) {
            Ok((less, pages)) => {
                lemma_take_one(less, live, pages);
                if take_one(less) is Err {
                    lemma_list_distinct(less, next_of(less[0]), free_list(less));
                }
                match take_one(less) {
                    Ok((rest, p)) => {
                        lemma_same_records_trans(store, less, rest, live);
                        if n <= free.len() {
                            assert(free.skip(m as int)[0] == free[m as int]);
                            assert(free.take(m as int).push(free[m as int]) =~= free.take(
                                n as int,
                            ));
                            assert(free.skip(m as int).drop_first() =~= free.skip(n as int));
                        } else if m == free.len() {
                            assert(free.skip(m as int).len() == 0);
                        }
                    },
                    Err(_) => {
                        if m <= free.len() {
                            assert(free.skip(m as int).len() == free.len() - m);
                        }
                    },
                }
            },
            Err(_) => {},
        }
    }
}

proof fn lemma_chunk(bytes: Seq<u8>, i: int)
    requires
        0 <= i < chunk_count(bytes.len()),
    ensures
        chunk(bytes, i).len() <= CHAIN_PAYLOAD_CAPACITY,
        0 <= 4084 * i <= bytes.len(),
        bytes.skip(4084 * i) == chunk(bytes, i) + (if i + 1 < chunk_count(bytes.len()) {
            bytes.skip(4084 * (i + 1))
        } else {
            Seq::empty()
        }),
{
    if i + 1 < chunk_count(bytes.len()) {
        assert(bytes.skip(4084 * i) =~= chunk(bytes, i) + bytes.skip(4084 * (i + 1)));
    } else {
        assert(bytes.skip(4084 * i) =~= chunk(bytes, i) + Seq::<u8>::empty());
    }
}

/// The store while a chain is written.
proof fn lemma_write_chain(
    store: Seq<Seq<u8>>,
    pages: Seq<u64>,
    bytes: Seq<u8>,
    n: nat,
)
    requires
        n <= pages.len(),
        pages.len() == chunk_count(bytes.len()),
        pages.no_duplicates(),
        forall|i: int| 0 <= i < pages.len() ==> #[trigger] pages[i] < store.len(),
        full(store),
    ensures
        ({
            let new = write_chain(store, pages, bytes, n);
            &&& new.len() == store.len()
            &&& full(new)
            &&& forall|q: int|
                0 <= q < store.len() && !pages.contains(q as u64) && q <= u64::MAX
                    ==> #[trigger] new[q] == store[q]
            &&& forall|j: int|
                0 <= j < n ==> new[#[trigger] pages[j] as int] == chain_page(
                    page_after(pages, j),
                    chunk(bytes, j),
                )
        }),
    decreases n,
{
    if n > 0 {
        let i = n - 1;
        let before = write_chain(store, pages, bytes, i as nat);
        let new = write_chain(store, pages, bytes, n);
        lemma_write_chain(store, pages, bytes, i as nat);
        lemma_chunk(bytes, i);
        lemma_page_fields(zero_page(), page_after(pages, i), chunk(bytes, i));
        assert(pages.contains(pages[i]));
        assert forall|j: int| 0 <= j < n implies new[#[trigger] pages[j] as int] == chain_page(
            page_after(pages, j),
            chunk(bytes, j),
        ) by {
            if j < i {
                assert(pages[j] != pages[i]);
            }
        }
    }
}

/// The pages that were written are a list from each of them on.
proof fn lemma_written_list(store: Seq<Seq<u8>>, pages: Seq<u64>, bytes: Seq<u8>, i: int)
    requires
        0 <= i < pages.len(),
        pages.len() == chunk_count(bytes.len()),
        pages.len() <= u64::MAX,
        store.len() <= PAGE_LIMIT,
        forall|j: int| 0 <= j < pages.len() ==> #[trigger] pages[j] < store.len(),
        forall|j: int|
            0 <= j < pages.len() ==> store[#[trigger] pages[j] as int] == chain_page(
                page_after(pages, j),
                chunk(bytes, j),
            ),
    ensures
        is_list(store, pages[i], pages.skip(i)),
        payloads(store, pages.skip(i)) == bytes.skip(4084 * i),
    decreases pages.len() - i,
{
    let rest = pages.skip(i);
    lemma_chunk(bytes, i);
    lemma_page_fields(zero_page(), page_after(pages, i), chunk(bytes, i));
    assert(store[pages[i] as int] == chain_page(page_after(pages, i), chunk(bytes, i)));
    assert(rest.drop_first() =~= pages.skip(i + 1));
    assert(pages[i] != NONE);
    if i + 1 < pages.len() {
        lemma_written_list(store, pages, bytes, i + 1);
    } else {
        assert(pages.skip(i + 1) =~= Seq::empty());
        assert(is_list(store, NONE, pages.skip(i + 1)));
        assert(payloads(store, pages.skip(i + 1)) =~= Seq::empty());
    }
}

/// Writing a chain to reserved pages keeps the records.
proof fn lemma_fill_pages(
    store: Seq<Seq<u8>>,
    live: Set<u64>,
    pages: Seq<u64>,
    bytes: Seq<u8>,
)
    requires
        heap_ok(store, live),
        reserved(store, live, pages),
        pages.len() == chunk_count(bytes.len()),
        store.len() <= PAGE_LIMIT,
    ensures
        ({
            let new = write_chain(store, pages, bytes, pages.len());
            &&& new.len() == store.len()
            &&& heap_ok(new, live)
            &&& free_list(new) == free_list(store)
            &&& same_records(store, new, live)
        }),
{
    let new = write_chain(store, pages, bytes, pages.len());
    let free = free_list(store);
    lemma_write_chain(store, pages, bytes, pages.len());
    lemma_list_distinct(store, next_of(store[0]), free);
    assert(new[0] == store[0]);
    assert forall|i: int| 0 <= i < free.len() implies next_of(new[#[trigger] free[i] as int])
        == next_of(store[free[i] as int]) by {
        assert(free.contains(free[i]));
        assert(!pages.contains(free[i]));
        assert(new[free[i] as int] == store[free[i] as int]);
    }
    lemma_list_stays(store, new, next_of(store[0]), free);
    assert forall|i: int| 0 <= i < free.len() implies length_of(new[#[trigger] free[i] as int])
        == 0 by {
        assert(free.contains(free[i]));
        assert(!pages.contains(free[i]));
        assert(new[free[i] as int] == store[free[i] as int]);
        assert(length_of(store[free[i] as int]) == 0);
    }
    assert forall|q: u64, r: u64|
        #![trigger live.contains(r), list_from(store, r).contains(q)]
        live.contains(r) && list_from(store, r).contains(q) implies new[q as int]
        == store[q as int] by {
        lemma_member_below(store, r, q);
        assert(apart(pages, list_from(store, r)));
    }
    lemma_heap_stays(store, new, live, free);
}

/// The chain that was written to reserved pages.
proof fn lemma_filled_chain(
    store: Seq<Seq<u8>>,
    live: Set<u64>,
    pages: Seq<u64>,
    bytes: Seq<u8>,
)
    requires
        heap_ok(store, live),
        reserved(store, live, pages),
        pages.len() == chunk_count(bytes.len()),
        store.len() <= PAGE_LIMIT,
    ensures
        ({
            let new = write_chain(store, pages, bytes, pages.len());
            &&& is_chain(new, pages[0])
            &&& list_from(new, pages[0]) == pages
            &&& record(new, pages[0]) == Ok::<Seq<u8>, StorageError>(bytes)
            &&& !live.contains(pages[0])
        }),
{
    let new = write_chain(store, pages, bytes, pages.len());
    let p = pages[0];
    lemma_write_chain(store, pages, bytes, pages.len());
    disk::lemma_distinct_pages(pages, store.len() as int);
    lemma_written_list(new, pages, bytes, 0);
    assert(pages.skip(0) =~= pages);
    assert(bytes.skip(0) =~= bytes);
    lemma_list_from(new, p, pages);
    assert(pages.contains(p));
    assert forall|i: int| 0 <= i < pages.len() implies length_of(new[#[trigger] pages[i] as int])
        <= CHAIN_PAYLOAD_CAPACITY by {
        lemma_chunk(bytes, i);
        lemma_page_fields(zero_page(), page_after(pages, i), chunk(bytes, i));
    }
    lemma_record(new, p);
    if live.contains(p) {
        lemma_record(store, p);
        assert(list_from(store, p).contains(p));
        assert(apart(pages, list_from(store, p)));
    }
}

/// One more record is held.
proof fn lemma_add_record(store: Seq<Seq<u8>>, live: Set<u64>, p: u64)
    requires
        heap_ok(store, live),
        is_chain(store, p),
        apart(list_from(store, p), free_list(store)),
        forall|r: u64| #[trigger]
            live.contains(r) ==> apart(list_from(store, p), list_from(store, r)),
    ensures
        heap_ok(store, live.insert(p)),
{
    let more = live.insert(p);
    assert forall|a: u64| #[trigger] more.contains(a) implies is_chain(store, a) && apart(
        list_from(store, a),
        free_list(store),
    ) by {
        if a != p {
            assert(live.contains(a));
        }
    }
    assert forall|a: u64, b: u64|
        #![trigger more.contains(a), more.contains(b)]
        more.contains(a) && more.contains(b) && a != b implies apart(
        list_from(store, a),
        list_from(store, b),
    ) by {
        if a == p {
            assert(live.contains(b));
        } else if b == p {
            assert(live.contains(a));
            assert(apart(list_from(store, p), list_from(store, a)));
        } else {
            assert(live.contains(a) && live.contains(b));
        }
    }
}

/// Adding a record keeps all others: it is read back, and so are they. It
/// takes free pages first, and the file grows by the pages that are missing.
/// There is room as long as the file can grow by them.
pub proof fn law_insert_record(store: Seq<Seq<u8>>, live: Set<u64>, bytes: Seq<u8>)
    requires
        heap_ok(store, live),
        store.len() <= PAGE_LIMIT,
    ensures
        insert_record(store, bytes) is Ok <==> chunk_count(bytes.len()) <= free_list(store).len()
            || store.len() + chunk_count(bytes.len()) <= PAGE_LIMIT + free_list(store).len(),
        insert_record(store, bytes) matches Err(error) ==> error == StorageError::PageOutOfRange,
        insert_record(store, bytes) matches Ok((new, p)) ==> {
            &&& !live.contains(p)
            &&& heap_ok(new, live.insert(p))
            &&& record(new, p) == Ok::<Seq<u8>, StorageError>(bytes)
            &&& same_records(store, new, live)
            &&& list_from(new, p).len() == chunk_count(bytes.len())
            &&& new.len() <= PAGE_LIMIT
            &&& chunk_count(bytes.len()) <= free_list(store).len() ==> {
                &&& new.len() == store.len()
                &&& p == free_list(store)[0]
                &&& list_from(new, p) == free_list(store).take(chunk_count(bytes.len()) as int)
                &&& free_list(new) == free_list(store).skip(chunk_count(bytes.len()) as int)
            }
            &&& chunk_count(bytes.len()) > free_list(store).len() ==> {
                &&& new.len() == store.len() + chunk_count(bytes.len()) - free_list(store).len()
                &&& free_list(new).len() == 0
            }
        },
{
    let n = chunk_count(bytes.len());
    lemma_take_pages(store, live, n);
    if take_pages(store, n) is Ok {
        let (rest, pages) = take_pages(store, n)->Ok_0;
        let new = write_chain(rest, pages, bytes, n);
        lemma_fill_pages(rest, live, pages, bytes);
        lemma_filled_chain(rest, live, pages, bytes);
        lemma_same_records_trans(store, rest, new, live);
        lemma_add_record(new, live, pages[0]);
        if n <= free_list(store).len() {
            assert(free_list(store).take(n as int)[0] == free_list(store)[0]);
        }
    }
}

/// A free page holds no bytes.
proof fn lemma_free_page(next: u64)
    ensures
        length_of(with_next(zero_page(), next)) == 0,
{
    let page = with_next(zero_page(), next);
    bytes::lemma_byte_ranges();
    bytes::law_le_round_trip(next as nat, 8);
    assert(page.subrange(8, 12) =~= le_bytes(0, 4)) by {
        reveal_with_fuel(le_bytes, 5);
    }
    bytes::law_le_round_trip(0, 4);
}

/// Freeing a page that is reserved puts it in front of the free pages and
/// keeps the records.
proof fn lemma_free_one(store: Seq<Seq<u8>>, live: Set<u64>, pages: Seq<u64>)
    requires
        heap_ok(store, live),
        reserved(store, live, pages),
        pages.len() > 0,
        store.len() <= PAGE_LIMIT,
    ensures
        ({
            let new = free_one(store, pages[0]);
            &&& new.len() == store.len()
            &&& heap_ok(new, live)
            &&& reserved(new, live, pages.drop_first())
            &&& same_records(store, new, live)
            &&& free_list(new) == seq![pages[0]] + free_list(store)
        }),
{
    let p = pages[0];
    let head = next_of(store[0]);
    let free = free_list(store);
    let new = free_one(store, p);
    let free2 = seq![p] + free;
    assert(pages.contains(p));
    lemma_page_fields(zero_page(), head, Seq::empty());
    lemma_page_fields(store[0], p, Seq::empty());
    lemma_list_distinct(store, head, free);
    assert(new[p as int] == with_next(zero_page(), head));
    assert(new[0] == with_next(store[0], p));
    assert forall|i: int| 0 <= i < free.len() implies next_of(new[#[trigger] free[i] as int])
        == next_of(store[free[i] as int]) by {
        assert(free.contains(free[i]));
        assert(!pages.contains(free[i]));
    }
    lemma_list_stays(store, new, head, free);
    assert(free2.drop_first() =~= free);
    assert(is_list(new, p, free2));
    lemma_free_page(head);
    assert forall|i: int| 0 <= i < free2.len() implies length_of(new[#[trigger] free2[i] as int])
        == 0 by {
        if i > 0 {
            assert(free.contains(free[i - 1]));
            assert(!pages.contains(free[i - 1]));
            assert(length_of(store[free[i - 1] as int]) == 0);
        }
    }
    assert forall|q: u64| #[trigger] free2.contains(q) implies q == p || free.contains(q) by {
        let i = free2.index_of(q);
        if i > 0 {
            assert(free[i - 1] == q);
        }
    }
    assert forall|r: u64| #[trigger] live.contains(r) implies apart(
        list_from(store, r),
        free2,
    ) by {
        assert(apart(list_from(store, r), free));
        assert(apart(pages, list_from(store, r)));
    }
    assert forall|q: u64, r: u64|
        #![trigger live.contains(r), list_from(store, r).contains(q)]
        live.contains(r) && list_from(store, r).contains(q) implies new[q as int]
        == store[q as int] by {
        lemma_member_below(store, r, q);
        assert(is_chain(store, r));
        assert(apart(pages, list_from(store, r)));
    }
    lemma_heap_stays(store, new, live, free2);
    let rest = pages.drop_first();
    assert forall|q: u64| #[trigger] rest.contains(q) implies pages.contains(q) && q != p by {
        let i = rest.index_of(q);
        assert(pages[i + 1] == q);
        assert(pages[i + 1] != pages[0]);
    }
    assert(apart(rest, free2));
    assert forall|r: u64| #[trigger] live.contains(r) implies apart(rest, list_from(new, r)) by {
        assert(apart(pages, list_from(store, r)));
    }
}

proof fn lemma_free_chain(
    store: Seq<Seq<u8>>,
    live: Set<u64>,
    p: u64,
    list: Seq<u64>,
    fuel: nat,
)
    requires
        heap_ok(store, live),
        reserved(store, live, list),
        is_list(store, p, list),
        list.len() > 0,
        list.len() <= fuel,
        store.len() <= PAGE_LIMIT,
    ensures
        free_chain(store, p, fuel) matches Ok(new) && {
            &&& new.len() == store.len()
            &&& heap_ok(new, live)
            &&& same_records(store, new, live)
            &&& free_list(new) == list.reverse() + free_list(store)
        },
    decreases list.len(),
{
    let next = next_of(store[p as int]);
    let freed = free_one(store, p);
    let rest = list.drop_first();
    lemma_free_one(store, live, list);
    lemma_list_distinct(store, p, list);
    reveal_with_fuel(is_list, 2);
    if rest.len() == 0 {
        assert(list =~= seq![p]);
        assert(list.reverse() =~= seq![p]);
    } else {
        assert forall|i: int| 0 <= i < rest.len() implies next_of(
            freed[#[trigger] rest[i] as int],
        ) == next_of(store[rest[i] as int]) by {
            assert(list[i + 1] != list[0]);
            assert(list.contains(list[i + 1]));
        }
        lemma_list_stays(store, freed, next, rest);
        lemma_free_chain(freed, live, next, rest, (fuel - 1) as nat);
        let new = free_chain(freed, next, (fuel - 1) as nat)->Ok_0;
        lemma_same_records_trans(store, freed, new, live);
        assert(rest.reverse() + (seq![p] + free_list(store)) =~= list.reverse() + free_list(
            store,
        ));
    }
}

/// Removing a record keeps all others, and makes its pages the first free
/// ones.
pub proof fn law_delete_record(store: Seq<Seq<u8>>, live: Set<u64>, p: u64)
    requires
        heap_ok(store, live),
        live.contains(p),
        store.len() <= PAGE_LIMIT,
    ensures
        free_chain(store, p, store.len()) matches Ok(new) && {
            &&& new.len() == store.len()
            &&& heap_ok(new, live.remove(p))
            &&& same_records(store, new, live.remove(p))
            &&& free_list(new) == list_from(store, p).reverse() + free_list(store)
        },
{
    let list = list_from(store, p);
    let rest = live.remove(p);
    lemma_record(store, p);
    lemma_list_distinct(store, p, list);
    assert(heap_ok(store, rest)) by {
        assert forall|a: u64| #[trigger] rest.contains(a) implies is_chain(store, a) && apart(
            list_from(store, a),
            free_list(store),
        ) by {
            assert(live.contains(a));
        }
        assert forall|a: u64, b: u64|
            #![trigger rest.contains(a), rest.contains(b)]
            rest.contains(a) && rest.contains(b) && a != b implies apart(
            list_from(store, a),
            list_from(store, b),
        ) by {
            assert(live.contains(a) && live.contains(b));
        }
    }
    assert(reserved(store, rest, list)) by {
        assert(is_chain(store, p));
        assert(apart(list, free_list(store)));
        assert forall|a: u64| #[trigger] rest.contains(a) implies apart(
            list,
            list_from(store, a),
        ) by {
            assert(live.contains(a));
        }
    }
    lemma_free_chain(store, rest, p, list, store.len());
}

/// A page that is free reads as a record without bytes.
pub proof fn lemma_free_record(store: Seq<Seq<u8>>, i: int)
    requires
        free_ok(store),
        store.len() <= PAGE_LIMIT,
        0 <= i < free_list(store).len(),
    ensures
        record(store, free_list(store)[i]) == Ok::<Seq<u8>, StorageError>(Seq::empty()),
{
    let free = free_list(store);
    let rest = free.skip(i);
    lemma_list_distinct(store, next_of(store[0]), free);
    lemma_list_suffix(store, next_of(store[0]), free, i);
    assert forall|j: int| 0 <= j < rest.len() implies length_of(store[#[trigger] rest[j] as int])
        == 0 by {
        assert(rest[j] == free[i + j]);
    }
    lemma_read_list(store, free[i], rest, store.len());
    lemma_no_payloads(store, rest);
}

proof fn lemma_no_payloads(store: Seq<Seq<u8>>, list: Seq<u64>)
    requires
        full(store),
        without_bytes(store, list),
        forall|i: int| 0 <= i < list.len() ==> #[trigger] list[i] < store.len(),
    ensures
        payloads(store, list) == Seq::<u8>::empty(),
    decreases list.len(),
{
    if list.len() > 0 {
        let rest = list.drop_first();
        assert forall|i: int| 0 <= i < rest.len() implies length_of(
            store[#[trigger] rest[i] as int],
        ) == 0 && rest[i] < store.len() by {
            assert(rest[i] == list[i + 1]);
        }
        lemma_no_payloads(store, rest);
        assert(length_of(store[list[0] as int]) == 0);
        assert(store[list[0] as int].len() == 4096);
        assert(payload_of(store[list[0] as int]) =~= Seq::empty());
        assert(payloads(store, list) =~= Seq::empty());
    }
}

/// Where a record was removed, no bytes are read any more.
pub proof fn law_removed_record_is_empty(store: Seq<Seq<u8>>, live: Set<u64>, p: u64)
    requires
        heap_ok(store, live),
        live.contains(p),
        store.len() <= PAGE_LIMIT,
    ensures
        free_chain(store, p, store.len()) matches Ok(new) && record(new, p) == Ok::<
            Seq<u8>,
            StorageError,
        >(Seq::empty()),
{
    law_delete_record(store, live, p);
    lemma_record(store, p);
    let new = free_chain(store, p, store.len())->Ok_0;
    let list = list_from(store, p);
    let i = list.len() - 1;
    assert(free_list(new)[i] == list[0]);
    lemma_free_record(new, i);
}

/// A record that takes no more pages than a removed one goes to its pages:
/// the file does not grow.
pub proof fn law_freed_pages_are_reused(
    store: Seq<Seq<u8>>,
    live: Set<u64>,
    p: u64,
    bytes: Seq<u8>,
)
    requires
        heap_ok(store, live),
        live.contains(p),
        store.len() <= PAGE_LIMIT,
        chunk_count(bytes.len()) <= list_from(store, p).len(),
    ensures
        free_chain(store, p, store.len()) matches Ok(freed) && insert_record(freed, bytes) matches Ok(
            (new, q),
        ) && {
            &&& new.len() == store.len()
            &&& q == list_from(store, p).last()
            &&& list_from(new, q) == list_from(store, p).reverse().take(
                chunk_count(bytes.len()) as int,
            )
        },
{
    let list = list_from(store, p);
    let n = chunk_count(bytes.len());
    law_delete_record(store, live, p);
    let freed = free_chain(store, p, store.len())->Ok_0;
    lemma_take_pages(freed, live.remove(p), n);
    law_insert_record(freed, live.remove(p), bytes);
    let free = list.reverse() + free_list(store);
    assert(free[0] == list.last());
    assert(free.take(n as int) =~= list.reverse().take(n as int));
}

/// Counting keeps the records.
pub proof fn law_counting_keeps_records(store: Seq<Seq<u8>>, live: Set<u64>, counter: u64)
    requires
        heap_ok(store, live),
        store.len() <= PAGE_LIMIT,
    ensures
        ({
            let new = store.update(0, with_counter(store[0], counter));
            &&& heap_ok(new, live)
            &&& counter_of(new) == counter
            &&& free_list(new) == free_list(store)
            &&& forall|p: u64| #[trigger]
                live.contains(p) ==> list_from(new, p) == list_from(store, p) && record(new, p)
                    == record(store, p)
        }),
{
    let new = store.update(0, with_counter(store[0], counter));
    let free = free_list(store);
    lemma_page_fields(store[0], counter, Seq::empty());
    lemma_list_distinct(store, next_of(store[0]), free);
    assert forall|i: int| 0 <= i < free.len() implies next_of(new[#[trigger] free[i] as int])
        == next_of(store[free[i] as int]) by {
        assert(free.contains(free[i]));
    }
    lemma_list_stays(store, new, next_of(store[0]), free);
    assert(full(new));
    assert forall|i: int| 0 <= i < free.len() implies length_of(new[#[trigger] free[i] as int])
        == 0 by {
        assert(free.contains(free[i]));
        assert(length_of(store[free[i] as int]) == 0);
    }
    assert forall|p: u64| #[trigger] live.contains(p) implies is_chain(new, p) && list_from(new, p)
        == list_from(store, p) && record(new, p) == record(store, p) by {
        assert forall|q: u64| #[trigger] list_from(store, p).contains(q) implies new[q as int]
            == store[q as int] by {
            lemma_member_below(store, p, q);
        }
        lemma_record_stays(store, new, p);
    }
}

/// A file with nothing but an empty first page.
pub proof fn lemma_empty_heap(page: Seq<u8>)
    requires
        page == with_next(zero_page(), NONE),
    ensures
        heap_ok(seq![page], Set::empty()),
        counter_of(seq![page]) == 0,
        free_list(seq![page]) == Seq::<u64>::empty(),
{
    let store = seq![page];
    bytes::lemma_byte_ranges();
    lemma_page_fields(zero_page(), NONE, Seq::empty());
    assert(is_list(store, NONE, Seq::empty()));
    lemma_list_from(store, NONE, Seq::empty());
    let zeros = zero_page().subrange(8, 16);
    assert(zeros =~= le_bytes(0, 8)) by {
        reveal_with_fuel(le_bytes, 9);
    }
    bytes::law_le_round_trip(0, 8);
}

/// Fewer records are still held.
pub proof fn lemma_fewer_records(store: Seq<Seq<u8>>, live: Set<u64>, fewer: Set<u64>)
    requires
        heap_ok(store, live),
        fewer.subset_of(live),
    ensures
        heap_ok(store, fewer),
{
    assert forall|a: u64| #[trigger] fewer.contains(a) implies is_chain(store, a) && apart(
        list_from(store, a),
        free_list(store),
    ) by {
        assert(live.contains(a));
    }
    assert forall|a: u64, b: u64|
        #![trigger fewer.contains(a), fewer.contains(b)]
        fewer.contains(a) && fewer.contains(b) && a != b implies apart(
        list_from(store, a),
        list_from(store, b),
    ) by {
        assert(live.contains(a) && live.contains(b));
    }
}

/// A record takes as many pages as are needed for its bytes, of which each
/// holds 4084, and at least one.
pub proof fn law_pages_of_a_record(len: nat)
    ensures
        chunk_count(len) >= 1,
        chunk_count(len) * 4084 >= len,
        chunk_count(len) > 1 ==> (chunk_count(len) - 1) * 4084 < len,
{
}

/// A page of a record: the number of the next page in eight bytes, the number
/// of bytes on this page in four, these bytes, and zeros.
pub proof fn law_layout_of_record_pages(next: u64, bytes: Seq<u8>)
    requires
        bytes.len() <= 4084,
    ensures
        chain_page(next, bytes) == le_bytes(next as nat, 8) + le_bytes(bytes.len(), 4) + bytes
            + Seq::new((4084 - bytes.len()) as nat, |i: int| 0u8),
{
    bytes::lemma_le_bytes_len(next as nat, 8);
    bytes::lemma_le_bytes_len(bytes.len(), 4);
    assert(chain_page(next, bytes) =~= le_bytes(next as nat, 8) + le_bytes(bytes.len(), 4) + bytes
        + Seq::new((4084 - bytes.len()) as nat, |i: int| 0u8));
}

/// What a record is, read page by page: the bytes of its pages one after the
/// other up to the page that names no other. A page that is not in the file,
/// one that claims to hold more than there is room for, and a record of more
/// pages than the file has are errors.
pub proof fn law_reading_a_record(store: Seq<Seq<u8>>, p: u64, fuel: nat)
    requires
        fuel > 0,
    ensures
        read_chain(store, p, 0) == Err::<Seq<u8>, StorageError>(StorageError::CorruptPage),
        p >= store.len() ==> read_chain(store, p, fuel) == Err::<Seq<u8>, StorageError>(
            StorageError::UnexpectedEof,
        ),
        p < store.len() ==> {
            let page = store[p as int];
            let next = le_value(page.subrange(0, 8)) as u64;
            let len = le_value(page.subrange(8, 12)) as int;
            let rest = read_chain(store, next, (fuel - 1) as nat);
            &&& len > 4084 ==> read_chain(store, p, fuel) == Err::<Seq<u8>, StorageError>(
                StorageError::CorruptPage,
            )
            &&& len <= 4084 && next == 0xffff_ffff_ffff_ffff ==> read_chain(store, p, fuel) == Ok::<
                Seq<u8>,
                StorageError,
            >(page.subrange(12, 12 + len))
            &&& len <= 4084 && next != 0xffff_ffff_ffff_ffff ==> match rest {
                Ok(bytes) => read_chain(store, p, fuel) == Ok::<Seq<u8>, StorageError>(
                    page.subrange(12, 12 + len) + bytes,
                ),
                Err(error) => read_chain(store, p, fuel) == rest,
            }
        },
        record(store, p) == read_chain(store, p, store.len()),
{
}

/// The first page holds the head of the list of free pages in its first eight
/// bytes and the counter in the next eight. Changing one of them leaves all
/// other bytes.
pub proof fn law_layout_of_the_first_page(store: Seq<Seq<u8>>, counter: u64, next: u64)
    requires
        store.len() > 0,
        store[0].len() == 4096,
    ensures
        counter_of(store) == le_value(store[0].subrange(8, 16)),
        next_of(store[0]) == le_value(store[0].subrange(0, 8)),
        with_counter(store[0], counter) == store[0].take(8) + le_bytes(counter as nat, 8)
            + store[0].skip(16),
        with_next(store[0], next) == le_bytes(next as nat, 8) + store[0].skip(8),
{
    bytes::lemma_byte_ranges();
    bytes::law_le_bytes_of_value(store[0].subrange(8, 16));
    bytes::law_le_bytes_of_value(store[0].subrange(0, 8));
    bytes::lemma_le_bytes_len(counter as nat, 8);
    bytes::lemma_le_bytes_len(next as nat, 8);
    assert(with_counter(store[0], counter) =~= store[0].take(8) + le_bytes(counter as nat, 8)
        + store[0].skip(16));
    assert(with_next(store[0], next) =~= le_bytes(next as nat, 8) + store[0].skip(8));
}

/// Which page is taken for a record: the first free one, if there is any, and
/// otherwise a new one at the end of the file.
pub proof fn law_which_page_is_taken(store: Seq<Seq<u8>>)
    ensures
        ({
            let head = le_value(store[0].subrange(0, 8)) as u64;
            &&& head != 0xffff_ffff_ffff_ffff && head < store.len() ==> (take_one(
                store,
            ) matches Ok((rest, p)) && p == head && rest.len() == store.len())
            &&& head == 0xffff_ffff_ffff_ffff && store.len() < 0x8_0000_0000_0000 ==> (take_one(
                store,
            ) matches Ok((rest, p)) && p == store.len() && rest.len() == store.len() + 1)
        }),
{
}

} // verus!
