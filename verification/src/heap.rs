//! Storage for documents of any size, as chains of linked pages. The pages
//! of removed documents are used again.

use crate::bytes::copy_into;
use crate::bytes::read_u32;
use crate::bytes::read_u64;
use crate::bytes::write_u32;
use crate::bytes::write_u64;
use crate::bytes;
use crate::chain;
use crate::chain::CHAIN_HEADER_SIZE;
use crate::chain::CHAIN_PAYLOAD_CAPACITY;
use crate::chain::chain_page;
use crate::chain::chunk;
use crate::chain::chunk_count;
use crate::chain::counter_of;
use crate::chain::free_chain;
use crate::chain::free_one;
use crate::chain::full;
use crate::chain::heap_ok;
use crate::chain::insert_record;
use crate::chain::payload_of;
use crate::chain::read_chain;
use crate::chain::record;
use crate::chain::same_records;
use crate::chain::take_one;
use crate::chain::take_pages;
use crate::chain::with_counter;
use crate::chain::with_next;
use crate::chain::write_chain;
use crate::disk::PAGE_LIMIT;
use crate::disk::pages_of;
use crate::document::Document;
use crate::document::DocumentView;
use crate::encoding::DecodeError;
use crate::encoding::document_bytes;
use crate::encoding::document_of;
use crate::node::NONE;
use crate::node::copy_range;
use crate::pager::Action;
use crate::pager::ActionView;
use crate::pager::Image;
use crate::pager::Page;
use crate::pager::Pager;
use crate::pager::StorageError;
use crate::pager::actions_view;
use crate::pager::lemma_page_len;
use crate::pager::recovered;
use crate::pager::too_large;
use crate::pager::zero_page;
use vstd::prelude::*;

verus! {

/// The page that holds the head of the list of free pages and the counter.
pub const METADATA_PAGE: u64 = 0;

/// Identifies a stored document by the page where its chain begins.
#[derive(Debug, Clone, Copy, PartialEq, Eq, Hash, Structural)]
pub struct RecordId(pub u64);

/// The document that a record holds.
pub open spec fn stored_document(store: Seq<Seq<u8>>, p: u64) -> Result<
    DocumentView,
    StorageError,
> {
    match record(store, p) {
        Ok(bytes) => match document_of(bytes) {
            Ok(doc) => Ok(doc),
            Err(error) => Err(StorageError::InvalidData(error)),
        },
        Err(error) => Err(error),
    }
}

/// Where a document was removed, reading it is an error.
pub proof fn law_removed_document_is_gone(store: Seq<Seq<u8>>, live: Set<u64>, p: u64)
    requires
        heap_ok(store, live),
        live.contains(p),
        store.len() <= PAGE_LIMIT,
    ensures
        chain::free_chain(store, p, store.len()) matches Ok(new) && stored_document(new, p) == Err::<
            DocumentView,
            StorageError,
        >(StorageError::InvalidData(DecodeError::UnexpectedEof)),
{
    chain::law_removed_record_is_empty(store, live, p);
}

/// Where some pages cannot be taken, more cannot either.
proof fn lemma_take_fails(store: Seq<Seq<u8>>, n: nat, more: nat)
    requires
        take_pages(store, n) is Err,
        n <= more,
    ensures
        take_pages(store, more) == take_pages(store, n),
    decreases more,
{
    if n < more {
        lemma_take_fails(store, n, (more - 1) as nat);
    }
}

/// A page of a chain.
fn new_chain_page(next: u64, bytes: &[u8]) -> (page: Page)
    requires
        bytes@.len() <= CHAIN_PAYLOAD_CAPACITY,
    ensures
        page@ == chain_page(next, bytes@),
{
    broadcast use lemma_page_len;

    let mut page = Page::new();
    write_u64(page.as_bytes_mut(), 0, next);
    write_u32(page.as_bytes_mut(), 8, bytes.len() as u32);
    copy_into(page.as_bytes_mut(), CHAIN_HEADER_SIZE, bytes);
    page
}

/// A file of documents.
pub struct HeapFile {
    pager: Pager,
}

impl HeapFile {
    /// The pager below.
    pub closed spec fn inner(&self) -> Pager {
        self.pager
    }

    /// The pages of the file.
    pub open spec fn store(&self) -> Seq<Seq<u8>> {
        self.inner().store()
    }

    /// The pager is in order, and no transaction is open.
    pub open spec fn inv(&self) -> bool {
        &&& self.inner().inv()
        &&& !self.inner().in_txn()
        &&& self.inner().dense()
        &&& self.store().len() > 0
    }

    /// All pages are full pages, and there are not too many of them.
    pub proof fn lemma_store(&self)
        requires
            self.inner().inv(),
            self.inner().dense(),
        ensures
            full(self.store()),
            self.store().len() <= PAGE_LIMIT,
    {
        self.pager.lemma_inv();
    }

    /// Takes over the contents of the main file and of the log. An empty file
    /// becomes a file without documents. Fails if a page has no place in a
    /// file.
    pub fn open(file: &[u8], log: Vec<u8>) -> (result: Result<Self, StorageError>)
        ensures
            match result {
                Ok(heap) => {
                    let image = Image { file: file@, log: log@ };
                    let store = pages_of(recovered(image));
                    &&& !too_large(image)
                    &&& heap.inv()
                    &&& heap.inner().base() == image
                    &&& store.len() > 0 ==> {
                        &&& heap.store() == store
                        &&& heap.inner().history() == seq![recovered(image)]
                    }
                    &&& store.len() == 0 ==> {
                        &&& heap_ok(heap.store(), Set::empty())
                        &&& counter_of(heap.store()) == 0
                        &&& heap.store().len() == 1
                        &&& heap.inner().history() == seq![
                            recovered(image),
                            heap.inner().file(),
                        ]
                    }
                },
                Err(error) => {
                    &&& too_large(Image { file: file@, log: log@ })
                    &&& error == StorageError::PageOutOfRange
                },
            },
    {
        broadcast use lemma_page_len;

        let mut pager = match Pager::open(file, log) {
            Ok(pager) => pager,
            Err(error) => {
                return Err(error);
            },
        };
        proof {
            pager.lemma_inv();
        }
        if pager.page_count() == 0 {
            pager.begin_transaction();
            let page_no: u64 = match pager.allocate_page() {
                Ok(page_no) => page_no,
                Err(error) => {
                    return Err(error);
                },
            };
            let mut meta = Page::new();
            write_u64(meta.as_bytes_mut(), 0, NONE);
            match pager.write_page(page_no, &meta) {
                Ok(()) => {},
                Err(error) => {
                    return Err(error);
                },
            }
            let ghost store = pager.store();
            pager.commit_transaction();
            proof {
                assert(pager.store() == store);
                assert(store =~= seq![with_next(zero_page(), NONE)]);
                chain::lemma_empty_heap(with_next(zero_page(), NONE));
            }
        }
        Ok(HeapFile { pager })
    }

    /// Reads a page that is there.
    fn read(&self, page_no: u64) -> (result: Result<Page, StorageError>)
        requires
            self.inner().inv(),
            self.inner().dense(),
        ensures
            match result {
                Ok(page) => {
                    &&& page_no < self.store().len()
                    &&& page@ == self.store()[page_no as int]
                },
                Err(error) => {
                    &&& page_no >= self.store().len()
                    &&& error == StorageError::UnexpectedEof
                },
            },
    {
        proof {
            if page_no < self.store().len() {
                assert(self.inner().page(page_no as int) == Some(self.store()[page_no as int]));
            } else if self.inner().page(page_no as int) is Some {
                self.pager.lemma_no_page_beyond(page_no as int);
            }
        }
        self.pager.read_page(page_no)
    }

    /// Takes a page to write to: the first of the free pages, or a new one.
    fn allocate_page(&mut self) -> (result: Result<u64, StorageError>)
        requires
            old(self).inner().inv(),
            old(self).inner().dense(),
            old(self).inner().in_txn(),
            old(self).store().len() > 0,
        ensures
            final(self).inner().inv(),
            final(self).inner().dense(),
            final(self).inner().in_txn(),
            final(self).inner().file() == old(self).inner().file(),
            final(self).inner().start_count() == old(self).inner().start_count(),
            final(self).inner().base() == old(self).inner().base(),
            final(self).inner().history() == old(self).inner().history(),
            match take_one(old(self).store()) {
                Ok((store, page_no)) => {
                    &&& result == Ok::<u64, StorageError>(page_no)
                    &&& final(self).store() == store
                    &&& page_no < store.len()
                },
                Err(error) => result == Err::<u64, StorageError>(error),
            },
    {
        broadcast use lemma_page_len;

        proof {
            self.lemma_store();
        }
        let meta = match self.read(METADATA_PAGE) {
            Ok(meta) => meta,
            Err(error) => {
                return Err(error);
            },
        };
        let free_head: u64 = read_u64(meta.as_bytes(), 0);
        if free_head == NONE {
            return self.pager.allocate_page();
        }
        let freed = match self.read(free_head) {
            Ok(freed) => freed,
            Err(error) => {
                return Err(error);
            },
        };
        let next_free: u64 = read_u64(freed.as_bytes(), 0);
        let mut updated = meta;
        write_u64(updated.as_bytes_mut(), 0, next_free);
        match self.pager.write_page(METADATA_PAGE, &updated) {
            Ok(()) => Ok(free_head),
            Err(error) => Err(error),
        }
    }

    /// Makes a page the first of the free pages.
    fn free_page(&mut self, page_no: u64) -> (result: Result<(), StorageError>)
        requires
            old(self).inner().inv(),
            old(self).inner().dense(),
            old(self).inner().in_txn(),
            page_no < old(self).store().len(),
        ensures
            final(self).inner().inv(),
            final(self).inner().dense(),
            final(self).inner().in_txn(),
            final(self).inner().file() == old(self).inner().file(),
            final(self).inner().start_count() == old(self).inner().start_count(),
            final(self).inner().base() == old(self).inner().base(),
            final(self).inner().history() == old(self).inner().history(),
            result is Ok,
            final(self).store() == free_one(old(self).store(), page_no),
    {
        broadcast use lemma_page_len;

        proof {
            self.lemma_store();
        }
        let meta = match self.read(METADATA_PAGE) {
            Ok(meta) => meta,
            Err(error) => {
                return Err(error);
            },
        };
        let old_head: u64 = read_u64(meta.as_bytes(), 0);
        let mut freed = Page::new();
        write_u64(freed.as_bytes_mut(), 0, old_head);
        match self.pager.write_page(page_no, &freed) {
            Ok(()) => {},
            Err(error) => {
                return Err(error);
            },
        }
        let mut updated = meta;
        write_u64(updated.as_bytes_mut(), 0, page_no);
        self.pager.write_page(METADATA_PAGE, &updated)
    }

    /// Writes `bytes` as a chain of pages and returns the first of them.
    fn write_record(&mut self, bytes: &[u8]) -> (result: Result<u64, StorageError>)
        requires
            old(self).inner().inv(),
            old(self).inner().dense(),
            old(self).inner().in_txn(),
            old(self).store().len() > 0,
        ensures
            final(self).inner().inv(),
            final(self).inner().dense(),
            final(self).inner().in_txn(),
            final(self).inner().file() == old(self).inner().file(),
            final(self).inner().start_count() == old(self).inner().start_count(),
            final(self).inner().base() == old(self).inner().base(),
            final(self).inner().history() == old(self).inner().history(),
            match insert_record(old(self).store(), bytes@) {
                Ok((store, page_no)) => {
                    &&& result == Ok::<u64, StorageError>(page_no)
                    &&& final(self).store() == store
                },
                Err(error) => result == Err::<u64, StorageError>(error),
            },
    {
        let ghost store0 = self.store();
        let len: usize = bytes.len();
        let mut count: usize = len / CHAIN_PAYLOAD_CAPACITY;
        if len == 0 || len % CHAIN_PAYLOAD_CAPACITY != 0 {
            count = count + 1;
        }
        assert(count == chunk_count(len as nat));
        let mut pages: Vec<u64> = Vec::new();
        assert(pages@ =~= Seq::empty());
        while pages.len() < count
            invariant
                pages@.len() <= count,
                count == chunk_count(bytes@.len()),
                store0 == old(self).store(),
                self.inner().inv(),
                self.inner().dense(),
                self.inner().in_txn(),
                self.store().len() > 0,
                self.inner().file() == old(self).inner().file(),
                self.inner().start_count() == old(self).inner().start_count(),
                self.inner().base() == old(self).inner().base(),
                self.inner().history() == old(self).inner().history(),
                take_pages(store0, pages@.len()) == Ok::<
                    (Seq<Seq<u8>>, Seq<u64>),
                    StorageError,
                >((self.store(), pages@)),
                forall|i: int|
                    0 <= i < pages@.len() ==> #[trigger] pages@[i] < self.store().len(),
            decreases count - pages@.len(),
        {
            let ghost before = pages@;
            let ghost store1 = self.store();
            match self.allocate_page() {
                Ok(page_no) => {
                    pages.push(page_no);
                    assert(pages@ =~= before.push(page_no));
                    assert(take_pages(store0, pages@.len()) == Ok::<
                        (Seq<Seq<u8>>, Seq<u64>),
                        StorageError,
                    >((self.store(), pages@)));
                },
                Err(error) => {
                    proof {
                        assert(take_pages(store0, before.len() + 1) is Err);
                        lemma_take_fails(store0, before.len() + 1, count as nat);
                    }
                    return Err(error);
                },
            }
        }
        let ghost store1 = self.store();
        let mut i: usize = 0;
        while i < count
            invariant
                i <= count,
                count == pages@.len(),
                count == chunk_count(bytes@.len()),
                len == bytes@.len(),
                self.inner().inv(),
                self.inner().dense(),
                self.inner().in_txn(),
                self.inner().file() == old(self).inner().file(),
                self.inner().start_count() == old(self).inner().start_count(),
                self.inner().base() == old(self).inner().base(),
                self.inner().history() == old(self).inner().history(),
                self.store() == write_chain(store1, pages@, bytes@, i as nat),
                self.store().len() == store1.len(),
                forall|j: int| 0 <= j < pages@.len() ==> #[trigger] pages@[j] < store1.len(),
            decreases count - i,
        {
            let next: u64 = if i + 1 < count {
                pages[i + 1]
            } else {
                NONE
            };
            let start: usize = CHAIN_PAYLOAD_CAPACITY * i;
            let end: usize = if len - start > CHAIN_PAYLOAD_CAPACITY {
                start + CHAIN_PAYLOAD_CAPACITY
            } else {
                len
            };
            let piece = copy_range(bytes, start, end);
            assert(piece@ == chunk(bytes@, i as int));
            let page = new_chain_page(next, piece.as_slice());
            proof {
                self.lemma_store();
            }
            let page_no: u64 = pages[i];
            match self.pager.write_page(page_no, &page) {
                Ok(()) => {},
                Err(error) => {
                    return Err(error);
                },
            }
            i += 1;
        }
        Ok(pages[0])
    }

    /// Stores a document and returns the identifier to fetch it by. All its
    /// pages become durable together, or none does.
    pub fn insert(&mut self, doc: &Document) -> (result: Result<RecordId, StorageError>)
        requires
            old(self).inv(),
        ensures
            final(self).inv(),
            final(self).inner().base() == old(self).inner().base(),
            match insert_record(old(self).store(), document_bytes(doc.view())) {
                Ok((store, page_no)) => {
                    &&& result == Ok::<RecordId, StorageError>(RecordId(page_no))
                    &&& final(self).store() == store
                    &&& final(self).inner().history() == old(self).inner().history().push(
                        final(self).inner().file(),
                    )
                },
                Err(error) => {
                    &&& result == Err::<RecordId, StorageError>(error)
                    &&& final(self).store() == old(self).store()
                    &&& final(self).inner().history() == old(self).inner().history()
                },
            },
            forall|live: Set<u64>| #[trigger]
                heap_ok(old(self).store(), live) ==> match result {
                    Ok(id) => {
                        &&& !live.contains(id.0)
                        &&& heap_ok(final(self).store(), live.insert(id.0))
                        &&& record(final(self).store(), id.0) == Ok::<Seq<u8>, StorageError>(
                            document_bytes(doc.view()),
                        )
                        &&& same_records(old(self).store(), final(self).store(), live)
                    },
                    Err(error) => {
                        &&& error == StorageError::PageOutOfRange
                        &&& old(self).store().len() + chunk_count(
                            document_bytes(doc.view()).len(),
                        ) > PAGE_LIMIT
                    },
                },
    {
        let bytes = doc.to_bytes();
        proof {
            self.pager.lemma_inv();
            self.lemma_store();
            assert forall|live: Set<u64>| #[trigger] heap_ok(self.store(), live) implies match insert_record(
                self.store(),
                bytes@,
            ) {
                Ok((store, p)) => {
                    &&& !live.contains(p)
                    &&& heap_ok(store, live.insert(p))
                    &&& record(store, p) == Ok::<Seq<u8>, StorageError>(bytes@)
                    &&& same_records(self.store(), store, live)
                },
                Err(error) => {
                    &&& error == StorageError::PageOutOfRange
                    &&& self.store().len() + chunk_count(bytes@.len()) > PAGE_LIMIT
                },
            } by {
                chain::law_insert_record(self.store(), live, bytes@);
            }
        }
        self.pager.begin_transaction();
        match self.write_record(bytes.as_slice()) {
            Ok(page_no) => {
                let ghost store = self.store();
                self.pager.commit_transaction();
                assert(self.store() == store);
                Ok(RecordId(page_no))
            },
            Err(error) => {
                self.pager.rollback_transaction();
                Err(error)
            },
        }
    }

    /// Reads a document back: the bytes of its chain, decoded.
    pub fn get(&self, id: RecordId) -> (result: Result<Document, StorageError>)
        requires
            self.inv(),
        ensures
            match stored_document(self.store(), id.0) {
                Ok(doc) => result matches Ok(read) && read.view() == doc,
                Err(error) => result matches Err(reason) && reason == error,
            },
    {
        broadcast use lemma_page_len;

        let mut bytes: Vec<u8> = Vec::new();
        let mut page_no: u64 = id.0;
        let mut fuel: u64 = self.pager.page_count();
        proof {
            match record(self.store(), id.0) {
                Ok(all) => {
                    assert(bytes@ + all =~= all);
                },
                Err(_) => {},
            }
        }
        while fuel > 0
            invariant
                self.inv(),
                record(self.store(), id.0) == (match read_chain(
                    self.store(),
                    page_no,
                    fuel as nat,
                ) {
                    Ok(rest) => Ok::<Seq<u8>, StorageError>(bytes@ + rest),
                    Err(error) => Err(error),
                }),
            decreases fuel,
        {
            let page = match self.read(page_no) {
                Ok(page) => page,
                Err(error) => {
                    return Err(error);
                },
            };
            let buf = page.as_bytes();
            let next: u64 = read_u64(buf, 0);
            let len: usize = read_u32(buf, 8) as usize;
            if len > CHAIN_PAYLOAD_CAPACITY {
                return Err(StorageError::CorruptPage);
            }
            let piece = copy_range(buf, CHAIN_HEADER_SIZE, CHAIN_HEADER_SIZE + len);
            let ghost before = bytes@;
            bytes.extend_from_slice(piece.as_slice());
            proof {
                assert(piece@ == payload_of(page@));
                assert(bytes@ =~= before + piece@);
            }
            if next == NONE {
                return match Document::from_bytes(bytes.as_slice()) {
                    Ok(doc) => Ok(doc),
                    Err(error) => Err(StorageError::InvalidData(error)),
                };
            }
            proof {
                match read_chain(self.store(), next, (fuel - 1) as nat) {
                    Ok(rest) => {
                        assert(before + (piece@ + rest) =~= bytes@ + rest);
                    },
                    Err(_) => {},
                }
            }
            page_no = next;
            fuel -= 1;
        }
        Err(StorageError::CorruptPage)
    }

    /// Frees the pages of a chain.
    fn free_pages(&mut self, first: u64) -> (result: Result<(), StorageError>)
        requires
            old(self).inner().inv(),
            old(self).inner().dense(),
            old(self).inner().in_txn(),
            old(self).store().len() > 0,
        ensures
            final(self).inner().inv(),
            final(self).inner().dense(),
            final(self).inner().in_txn(),
            final(self).inner().file() == old(self).inner().file(),
            final(self).inner().start_count() == old(self).inner().start_count(),
            final(self).inner().base() == old(self).inner().base(),
            final(self).inner().history() == old(self).inner().history(),
            match free_chain(old(self).store(), first, old(self).store().len()) {
                Ok(store) => {
                    &&& result is Ok
                    &&& final(self).store() == store
                },
                Err(error) => result == Err::<(), StorageError>(error),
            },
    {
        broadcast use lemma_page_len;

        let ghost store0 = self.store();
        let mut page_no: u64 = first;
        let mut fuel: u64 = self.pager.page_count();
        while fuel > 0
            invariant
                self.inner().inv(),
                self.inner().dense(),
                self.inner().in_txn(),
                self.inner().file() == old(self).inner().file(),
                self.inner().start_count() == old(self).inner().start_count(),
                self.inner().base() == old(self).inner().base(),
                self.inner().history() == old(self).inner().history(),
                store0 == old(self).store(),
                free_chain(store0, first, store0.len()) == free_chain(
                    self.store(),
                    page_no,
                    fuel as nat,
                ),
            decreases fuel,
        {
            let page = match self.read(page_no) {
                Ok(page) => page,
                Err(error) => {
                    return Err(error);
                },
            };
            let next: u64 = read_u64(page.as_bytes(), 0);
            match self.free_page(page_no) {
                Ok(()) => {},
                Err(error) => {
                    return Err(error);
                },
            }
            if next == NONE {
                return Ok(());
            }
            page_no = next;
            fuel -= 1;
        }
        Err(StorageError::CorruptPage)
    }

    /// Removes a document and frees its pages, all of them together.
    pub fn delete(&mut self, id: RecordId) -> (result: Result<(), StorageError>)
        requires
            old(self).inv(),
        ensures
            final(self).inv(),
            final(self).inner().base() == old(self).inner().base(),
            match free_chain(old(self).store(), id.0, old(self).store().len()) {
                Ok(store) => {
                    &&& result is Ok
                    &&& final(self).store() == store
                    &&& final(self).inner().history() == old(self).inner().history().push(
                        final(self).inner().file(),
                    )
                },
                Err(error) => {
                    &&& result == Err::<(), StorageError>(error)
                    &&& final(self).store() == old(self).store()
                    &&& final(self).inner().history() == old(self).inner().history()
                },
            },
            forall|live: Set<u64>| #[trigger]
                heap_ok(old(self).store(), live) && live.contains(id.0) ==> {
                    &&& result is Ok
                    &&& final(self).store().len() == old(self).store().len()
                    &&& heap_ok(final(self).store(), live.remove(id.0))
                    &&& same_records(
                        old(self).store(),
                        final(self).store(),
                        live.remove(id.0),
                    )
                },
    {
        proof {
            self.pager.lemma_inv();
            self.lemma_store();
            let store0 = self.store();
            assert forall|live: Set<u64>| #[trigger]
                heap_ok(store0, live) && live.contains(id.0) implies free_chain(
                store0,
                id.0,
                store0.len(),
            ) matches Ok(store) && {
                &&& store.len() == store0.len()
                &&& heap_ok(store, live.remove(id.0))
                &&& same_records(store0, store, live.remove(id.0))
            } by {
                chain::law_delete_record(store0, live, id.0);
            }
        }
        self.pager.begin_transaction();
        match self.free_pages(id.0) {
            Ok(()) => {
                let ghost store = self.store();
                self.pager.commit_transaction();
                assert(self.store() == store);
                Ok(())
            },
            Err(error) => {
                self.pager.rollback_transaction();
                Err(error)
            },
        }
    }

    /// Reads the counter on the first page and counts it up. Fails if there
    /// is no larger number.
    pub fn next_counter_value(&mut self) -> (result: Result<u64, StorageError>)
        requires
            old(self).inv(),
        ensures
            final(self).inv(),
            final(self).inner().base() == old(self).inner().base(),
            match result {
                Ok(value) => {
                    &&& value == counter_of(old(self).store())
                    &&& value < u64::MAX
                    &&& final(self).store() == old(self).store().update(
                        0,
                        with_counter(old(self).store()[0], (value + 1) as u64),
                    )
                    &&& counter_of(final(self).store()) == value + 1
                    &&& final(self).inner().history() == old(self).inner().history().push(
                        final(self).inner().file(),
                    )
                },
                Err(error) => {
                    &&& error == StorageError::CounterExhausted
                    &&& counter_of(old(self).store()) == u64::MAX
                    &&& final(self).store() == old(self).store()
                    &&& final(self).inner().history() == old(self).inner().history()
                },
            },
            forall|live: Set<u64>| #[trigger]
                heap_ok(old(self).store(), live) ==> {
                    &&& heap_ok(final(self).store(), live)
                    &&& forall|p: u64| #[trigger]
                        live.contains(p) ==> record(final(self).store(), p) == record(
                            old(self).store(),
                            p,
                        )
                },
    {
        broadcast use lemma_page_len;

        let ghost store0 = self.store();
        proof {
            self.pager.lemma_inv();
            self.lemma_store();
        }
        let meta = match self.read(METADATA_PAGE) {
            Ok(meta) => meta,
            Err(error) => {
                return Err(error);
            },
        };
        let current: u64 = read_u64(meta.as_bytes(), 8);
        if current == 0xffff_ffff_ffff_ffff {
            return Err(StorageError::CounterExhausted);
        }
        proof {
            chain::lemma_page_fields(store0[0], (current + 1) as u64, Seq::empty());
            assert forall|live: Set<u64>| #[trigger] heap_ok(store0, live) implies {
                let new = store0.update(0, with_counter(store0[0], (current + 1) as u64));
                &&& heap_ok(new, live)
                &&& forall|p: u64| #[trigger]
                    live.contains(p) ==> record(new, p) == record(store0, p)
            } by {
                chain::law_counting_keeps_records(store0, live, (current + 1) as u64);
            }
        }
        let mut updated = meta;
        write_u64(updated.as_bytes_mut(), 8, current + 1);
        match self.pager.write_page(METADATA_PAGE, &updated) {
            Ok(()) => Ok(current),
            Err(error) => Err(error),
        }
    }

    /// Asks for the file to be brought to physical storage.
    pub fn flush(&mut self)
        requires
            old(self).inv(),
        ensures
            final(self).inv(),
            final(self).inner().same_contents(&old(self).inner()),
            final(self).store() == old(self).store(),
            final(self).inner().actions() == old(self).inner().actions().push(
                ActionView::SyncFile,
            ),
            final(self).inner().base() == old(self).inner().base(),
            final(self).inner().history() == old(self).inner().history(),
    {
        self.pager.flush();
        proof {
            self.pager.lemma_same_contents(&old(self).pager);
        }
    }

    /// Hands over the actions that are still to be performed on the files.
    pub fn take_actions(&mut self) -> (actions: Vec<Action>)
        requires
            old(self).inv(),
        ensures
            final(self).inv(),
            final(self).inner().same_contents(&old(self).inner()),
            final(self).store() == old(self).store(),
            actions_view(actions@) == old(self).inner().actions(),
            final(self).inner().actions() == Seq::<ActionView>::empty(),
            final(self).inner().base() == (Image {
                file: old(self).inner().file(),
                log: Seq::empty(),
            }),
            final(self).inner().history() == seq![old(self).inner().file()],
    {
        proof {
            self.pager.lemma_inv();
        }
        let actions = self.pager.take_actions();
        proof {
            self.pager.lemma_same_contents(&old(self).pager);
        }
        actions
    }
}

} // verus!
