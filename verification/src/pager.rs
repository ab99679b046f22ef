//! Fixed-size pages of one main file, written through a write-ahead log.
//!
//! The pager works on the contents of the main file and of the log. What has
//! to happen to the two files themselves, and in which order, it records as
//! a list of actions for its owner to perform.

use crate::disk;
use crate::disk::Disk;
use crate::disk::PAGE_LIMIT;
use crate::disk::file_page;
use crate::disk::last_page;
use crate::disk::pages_of;
use crate::disk::same_effect;
use crate::disk::without_page;
use crate::disk::write_all;
use crate::disk::write_at;
use crate::encoding::DecodeError;
use crate::encoding::decode_error_text;
use crate::recovery;
use crate::recovery::may_crash_to;
use crate::wal;
use crate::wal::COMMIT_FRAME_TAG;
use crate::wal::Wal;
use crate::wal::batch_bytes;
use crate::wal::committed_frames;
use crate::wal::frame_bytes;
use crate::wal::frames_view;
use crate::wal::full_pages;
use vstd::prelude::*;

verus! {

/// The size of a page in bytes. It matches a common block size of file
/// systems.
pub const PAGE_SIZE: usize = 4096;

/// A single page: a buffer of exactly `PAGE_SIZE` bytes.
pub struct Page {
    data: [u8; 4096],
}

impl View for Page {
    type V = Seq<u8>;

    closed spec fn view(&self) -> Seq<u8> {
        self.data@
    }
}

/// A page of zeros.
pub open spec fn zero_page() -> Seq<u8> {
    Seq::new(4096, |i: int| 0u8)
}

pub broadcast proof fn lemma_page_len(page: Page)
    ensures
        #[trigger] page@.len() == 4096,
{
}

impl Page {
    /// A zero-filled page.
    pub fn new() -> (page: Self)
        ensures
            page@ == zero_page(),
    {
        let page = Page { data: [0u8; 4096] };
        assert(page@ =~= zero_page());
        page
    }

    /// The bytes of the page.
    pub fn as_bytes(&self) -> (bytes: &[u8; 4096])
        ensures
            bytes@ == self@,
    {
        &self.data
    }

    /// The bytes of the page, to be changed in place.
    pub fn as_bytes_mut(&mut self) -> (bytes: &mut [u8; 4096])
        ensures
            bytes@ == old(self)@,
            final(bytes)@ == final(self)@,
    {
        &mut self.data
    }
}

impl Clone for Page {
    fn clone(&self) -> (page: Self)
        ensures
            page@ == self@,
    {
        Page { data: self.data }
    }
}

impl Default for Page {
    fn default() -> (page: Self)
        ensures
            page@ == zero_page(),
    {
        Page::new()
    }
}

/// All the ways an operation on stored data can fail.
#[derive(Debug, Clone, Copy, PartialEq, Eq, Structural)]
pub enum StorageError {
    /// The file ends before the page does.
    UnexpectedEof,
    /// The bytes of a document do not decode.
    InvalidData(DecodeError),
    /// A page does not hold what its place in the file asks for.
    CorruptPage,
    /// An index entry is too large for a page.
    PageOverflow,
    /// A page number has no place in a file.
    PageOutOfRange,
    /// There are no more generated identifiers.
    CounterExhausted,
}

/// What went wrong, in words.
pub open spec fn storage_error_text(error: StorageError) -> Seq<char> {
    match error {
        StorageError::UnexpectedEof => "failed to fill whole buffer"@,
        StorageError::InvalidData(reason) => decode_error_text(reason),
        StorageError::CorruptPage => "corrupt page"@,
        StorageError::PageOverflow => "index entry too large for a page"@,
        StorageError::PageOutOfRange => "page number out of range"@,
        StorageError::CounterExhausted => "no more generated identifiers"@,
    }
}

impl StorageError {
    /// What went wrong, in words.
    pub fn message(&self) -> (text: String)
        ensures
            text@ == storage_error_text(*self),
    {
        match self {
            StorageError::UnexpectedEof => "failed to fill whole buffer".to_owned(),
            StorageError::InvalidData(reason) => reason.message(),
            StorageError::CorruptPage => "corrupt page".to_owned(),
            StorageError::PageOverflow => "index entry too large for a page".to_owned(),
            StorageError::PageOutOfRange => "page number out of range".to_owned(),
            StorageError::CounterExhausted => "no more generated identifiers".to_owned(),
        }
    }
}

/// One step to be taken on the main file or on the log file.
pub enum Action {
    /// Append bytes to the log.
    AppendLog(Vec<u8>),
    /// Wait until the log is on physical storage.
    SyncLog,
    /// Write a page to its slot in the main file.
    WritePage(u64, Page),
    /// Wait until the main file is on physical storage.
    SyncFile,
    /// Set the length of the log.
    TruncateLog(u64),
}

/// What an action does, with the bytes as sequences.
pub enum ActionView {
    AppendLog(Seq<u8>),
    SyncLog,
    WritePage(u64, Seq<u8>),
    SyncFile,
    TruncateLog(u64),
}

impl View for Action {
    type V = ActionView;

    open spec fn view(&self) -> ActionView {
        match self {
            Action::AppendLog(bytes) => ActionView::AppendLog(bytes@),
            Action::SyncLog => ActionView::SyncLog,
            Action::WritePage(n, page) => ActionView::WritePage(*n, page@),
            Action::SyncFile => ActionView::SyncFile,
            Action::TruncateLog(len) => ActionView::TruncateLog(*len),
        }
    }
}

/// What a list of actions does.
pub open spec fn actions_view(actions: Seq<Action>) -> Seq<ActionView> {
    Seq::new(actions.len(), |i: int| actions[i]@)
}

/// The two files as they are on storage.
#[verifier::ext_equal]
pub struct Image {
    pub file: Seq<u8>,
    pub log: Seq<u8>,
}

/// The files after one action was performed.
pub open spec fn perform(image: Image, action: ActionView) -> Image {
    match action {
        ActionView::AppendLog(bytes) => Image { log: image.log + bytes, ..image },
        ActionView::SyncLog => image,
        ActionView::WritePage(n, page) => Image {
            file: write_at(image.file, n as int, page),
            ..image
        },
        ActionView::SyncFile => image,
        ActionView::TruncateLog(len) => Image { log: image.log.take(len as int), ..image },
    }
}

/// The files after a list of actions was performed.
pub open spec fn perform_all(image: Image, actions: Seq<ActionView>) -> Image
    decreases actions.len(),
{
    if actions.len() == 0 {
        image
    } else {
        perform(perform_all(image, actions.drop_last()), actions.last())
    }
}

/// The contents of the main file once the log was replayed.
pub open spec fn recovered(image: Image) -> Seq<u8> {
    write_all(image.file, committed_frames(image.log))
}

/// The files name a page that has no place in a file.
pub open spec fn too_large(image: Image) -> bool {
    ||| recovered(image).len() / 4096 > PAGE_LIMIT
    ||| exists|i: int|
        0 <= i < committed_frames(image.log).len() && (#[trigger] committed_frames(
            image.log,
        )[i]).0 >= PAGE_LIMIT
}

/// The page writes that bring `frames` into the main file.
pub open spec fn page_writes(frames: Seq<(u64, Seq<u8>)>) -> Seq<ActionView> {
    Seq::new(frames.len(), |i: int| ActionView::WritePage(frames[i].0, frames[i].1))
}

/// What committing a transaction with the pages `frames` asks for: the
/// commit frame has to be durable before the main file is touched, and the
/// main file has to be durable before the log is emptied.
pub open spec fn commit_actions(frames: Seq<(u64, Seq<u8>)>) -> Seq<ActionView> {
    seq![ActionView::AppendLog(seq![COMMIT_FRAME_TAG]), ActionView::SyncLog] + page_writes(frames)
        + seq![ActionView::SyncFile, ActionView::TruncateLog(0)]
}

/// What recovery from `log` asks for.
pub open spec fn recovery_actions(log: Seq<u8>) -> Seq<ActionView> {
    let frames = committed_frames(log);
    if log.len() == 0 {
        Seq::empty()
    } else if frames.len() == 0 {
        seq![ActionView::TruncateLog(0)]
    } else {
        page_writes(frames) + seq![ActionView::SyncFile, ActionView::TruncateLog(0)]
    }
}

/// Reads and writes pages of one file, with crash-safe writes through a
/// write-ahead log.
pub struct Pager {
    disk: Disk,
    wal: Wal,
    page_count: u64,
    /// Pages written during the current transaction.
    pending: Vec<(u64, Page)>,
    in_txn: bool,
    /// The length of the log when the current transaction began.
    txn_wal_start_len: u64,
    /// The number of pages when the current transaction began.
    txn_page_count: u64,
    /// What is still to be done to the files.
    actions: Vec<Action>,
    /// Every page write since the current transaction began.
    logged: Ghost<Seq<(u64, Seq<u8>)>>,
    /// The files once all actions that were taken are performed.
    base: Ghost<Image>,
    /// The committed contents of the main file since then.
    history: Ghost<Seq<Seq<u8>>>,
}

impl Pager {
    /// The contents of the main file, without uncommitted writes.
    pub closed spec fn file(&self) -> Seq<u8> {
        self.disk@
    }

    /// The contents of the log.
    pub closed spec fn log(&self) -> Seq<u8> {
        self.wal@
    }

    /// The number of pages.
    pub closed spec fn count(&self) -> u64 {
        self.page_count
    }

    /// The uncommitted pages, at most one per page number.
    pub closed spec fn pending(&self) -> Seq<(u64, Seq<u8>)> {
        frames_view(self.pending@)
    }

    /// Whether a transaction is open.
    pub closed spec fn in_txn(&self) -> bool {
        self.in_txn
    }

    /// The number of pages when the open transaction began.
    pub closed spec fn start_count(&self) -> u64 {
        self.txn_page_count
    }

    /// Every page write of the open transaction, in order.
    pub closed spec fn logged(&self) -> Seq<(u64, Seq<u8>)> {
        self.logged@
    }

    /// The actions that were not taken yet.
    pub closed spec fn actions(&self) -> Seq<ActionView> {
        actions_view(self.actions@)
    }

    /// The files as they are once all actions that were taken so far are
    /// performed.
    pub closed spec fn base(&self) -> Image {
        self.base@
    }

    /// The contents that the main file had at the commits since actions were
    /// last taken, the newest last.
    pub closed spec fn history(&self) -> Seq<Seq<u8>> {
        self.history@
    }

    /// Whenever the actions are cut short by a crash, recovery restores the
    /// contents of some commit.
    pub open spec fn crash_safe(&self) -> bool {
        forall|out: Image| #[trigger]
            may_crash_to(self.base(), self.actions(), out) ==> self.history().contains(
                recovered(out),
            )
    }

    /// The parts that are not visible outside are in order.
    pub closed spec fn parts_inv(&self) -> bool {
        &&& self.disk.inv()
        &&& self.txn_wal_start_len == 0
    }

    /// Outside a transaction nothing is pending and the log is empty; inside
    /// one the log records exactly the pending writes. Performing the actions
    /// brings the files to the contents the pager has for them.
    pub closed spec fn inv(&self) -> bool {
        &&& self.parts_inv()
        &&& self.count() <= PAGE_LIMIT
        &&& self.count() == self.total().len() / 4096
        &&& self.start_count() <= PAGE_LIMIT
        &&& perform_all(self.base(), self.actions()) == (Image {
            file: self.file(),
            log: self.log(),
        })
        &&& self.history().len() > 0
        &&& self.history().last() == self.file()
        &&& self.crash_safe()
        &&& full_pages(self.pending())
        &&& forall|i: int|
            0 <= i < self.pending().len() ==> (#[trigger] self.pending()[i]).0 < PAGE_LIMIT
        &&& !self.in_txn() ==> self.pending().len() == 0 && self.log().len() == 0
        &&& self.in_txn() ==> {
            &&& self.start_count() == self.file().len() / 4096
            &&& full_pages(self.logged())
            &&& self.log() == batch_bytes(self.logged())
            &&& same_effect(self.logged(), self.pending())
        }
    }

    /// The main file as it will be once the pending writes are committed.
    pub open spec fn total(&self) -> Seq<u8> {
        write_all(self.file(), self.pending())
    }

    /// The pages, uncommitted writes included.
    pub open spec fn store(&self) -> Seq<Seq<u8>> {
        pages_of(self.total())
    }

    /// What a read of page `n` gives.
    pub open spec fn page(&self, n: int) -> Option<Seq<u8>> {
        match last_page(self.pending(), n) {
            Some(page) => Some(page),
            None => file_page(self.file(), n),
        }
    }

    /// The page count covers all pages, and each of them can be read.
    pub open spec fn dense(&self) -> bool {
        &&& self.count() == self.store().len()
        &&& forall|n: int|
            0 <= n < self.count() ==> #[trigger] self.page(n) == Some(self.store()[n])
    }

    /// Everything but the list of actions is as in `other`.
    pub open spec fn same_contents(&self, other: &Pager) -> bool {
        &&& self.file() == other.file()
        &&& self.log() == other.log()
        &&& self.count() == other.count()
        &&& self.pending() == other.pending()
        &&& self.in_txn() == other.in_txn()
        &&& self.start_count() == other.start_count()
        &&& self.logged() == other.logged()
    }

    /// What a pager over these two files is made of.
    pub open spec fn opened(&self, image: Image) -> bool {
        &&& self.inv()
        &&& !self.in_txn()
        &&& self.base() == image
        &&& self.history() == seq![self.file()]
        &&& self.file() == recovered(image)
        &&& self.count() == self.file().len() / 4096
        &&& self.store() == pages_of(self.file())
        &&& self.dense()
        &&& self.actions() == recovery_actions(image.log)
    }

    /// What holds of every pager that is in order.
    pub proof fn lemma_inv(&self)
        requires
            self.inv(),
        ensures
            self.count() <= PAGE_LIMIT,
            self.count() == self.total().len() / 4096,
            self.in_txn() ==> self.start_count() == self.file().len() / 4096,
            !self.in_txn() ==> self.dense(),
            !self.in_txn() ==> self.pending().len() == 0 && self.total() == self.file(),
            perform_all(self.base(), self.actions()) == (Image {
                file: self.file(),
                log: self.log(),
            }),
            !self.in_txn() ==> self.log() == Seq::<u8>::empty(),
            self.history().len() > 0,
            self.history().last() == self.file(),
            self.crash_safe(),
    {
        if !self.in_txn() {
            assert(self.log() =~= Seq::empty());
            self.lemma_committed_is_dense();
        }
    }

    /// The same contents are the same pages.
    pub proof fn lemma_same_contents(&self, other: &Pager)
        requires
            self.same_contents(other),
        ensures
            self.store() == other.store(),
            self.dense() == other.dense(),
    {
        assert(self.total() == other.total());
        assert forall|n: int| #[trigger] self.page(n) == other.page(n) by {
        }
        assert forall|n: int| #[trigger] other.page(n) == self.page(n) by {
        }
    }

    /// Where the page count covers all pages, there are no others.
    pub proof fn lemma_no_page_beyond(&self, n: int)
        requires
            self.inv(),
            self.dense(),
            self.page(n) is Some,
        ensures
            0 <= n < self.count(),
    {
        let frames = self.pending();
        disk::lemma_write_all(self.file(), frames);
        if last_page(frames, n) is Some {
            disk::lemma_last_page_extent(frames, n);
        }
    }

    /// A pager whose pages are all committed is dense where the count is
    /// right.
    pub proof fn lemma_committed_is_dense(&self)
        requires
            self.pending().len() == 0,
            self.count() == self.file().len() / 4096,
        ensures
            self.total() == self.file(),
            self.store() == pages_of(self.file()),
            self.dense(),
    {
        assert forall|n: int| 0 <= n < self.count() implies #[trigger] self.page(n) == Some(
            self.store()[n],
        ) by {
            assert(self.page(n) == file_page(self.file(), n));
        }
    }

    /// Takes over the contents of the main file and of the log, and replays
    /// every complete transaction in the log. What else the log holds is
    /// discarded. Fails if a page has no place in a file.
    pub fn open(file: &[u8], log: Vec<u8>) -> (result: Result<Self, StorageError>)
        ensures
            match result {
                Ok(pager) => {
                    &&& !too_large(Image { file: file@, log: log@ })
                    &&& pager.opened(Image { file: file@, log: log@ })
                },
                Err(error) => {
                    &&& too_large(Image { file: file@, log: log@ })
                    &&& error == StorageError::PageOutOfRange
                },
            },
    {
        broadcast use lemma_page_len;

        let mut wal = Wal::open(log);
        let mut disk = Disk::from_bytes(file);
        let mut actions: Vec<Action> = Vec::new();
        assert(actions_view(actions@) =~= Seq::empty());
        let committed = wal.read_committed_frames();
        let ghost frames = committed_frames(log@);
        assert(frames.len() == committed@.len());
        assert forall|i: int| 0 <= i < frames.len() implies #[trigger] frames[i] == (
            committed@[i].0,
            committed@[i].1@,
        ) by {
            assert(frames_view(committed@)[i] == (committed@[i].0, committed@[i].1@));
        }
        if wal.len() > 0 {
            let mut i: usize = 0;
            proof {
                assert(frames.take(0) =~= Seq::empty());
                assert(actions_view(actions@) =~= page_writes(frames.take(0)));
            }
            while i < committed.len()
                invariant
                    i <= committed@.len(),
                    frames.len() == committed@.len(),
                    frames == committed_frames(log@),
                    forall|j: int|
                        0 <= j < frames.len() ==> #[trigger] frames[j] == (
                            committed@[j].0,
                            committed@[j].1@,
                        ),
                    forall|j: int| 0 <= j < i ==> (#[trigger] frames[j]).0 < PAGE_LIMIT,
                    disk.inv(),
                    disk@ == write_all(file@, frames.take(i as int)),
                    actions_view(actions@) == page_writes(frames.take(i as int)),
                decreases committed@.len() - i,
            {
                let page_no: u64 = committed[i].0;
                if page_no >= PAGE_LIMIT {
                    assert(frames[i as int].0 >= PAGE_LIMIT);
                    return Err(StorageError::PageOutOfRange);
                }
                let ghost actions0 = actions@;
                disk.write(page_no, &committed[i].1);
                actions.push(Action::WritePage(page_no, committed[i].1.clone()));
                proof {
                    let longer = frames.take(i + 1);
                    assert(longer.drop_last() =~= frames.take(i as int));
                    assert(longer.last() == frames[i as int]);
                    let write = ActionView::WritePage(page_no, committed@[i as int].1@);
                    assert(actions_view(actions@) =~= actions_view(actions0).push(write));
                    assert(page_writes(longer) =~= page_writes(frames.take(i as int)).push(write));
                }
                i += 1;
            }
            assert(frames.take(i as int) =~= frames);
            if committed.len() > 0 {
                actions.push(Action::SyncFile);
            }
            actions.push(Action::TruncateLog(0));
            wal.truncate_to(0);
            assert(actions_view(actions@) =~= recovery_actions(log@));
        } else {
            assert(frames =~= Seq::empty());
        }
        let page_count: u64 = disk.page_count();
        if page_count > PAGE_LIMIT {
            return Err(StorageError::PageOutOfRange);
        }
        let pager = Pager {
            disk,
            wal,
            page_count,
            pending: Vec::new(),
            in_txn: false,
            txn_wal_start_len: 0,
            txn_page_count: page_count,
            actions,
            logged: Ghost(Seq::empty()),
            base: Ghost(Image { file: file@, log: log@ }),
            history: Ghost(Seq::empty().push(disk@)),
        };
        proof {
            assert(pager.pending() =~= Seq::empty());
            pager.lemma_committed_is_dense();
            let image = Image { file: file@, log: log@ };
            recovery::law_recovery_takes_effect(image);
            assert(pager.log() =~= Seq::empty());
            assert forall|out: Image| #[trigger]
                may_crash_to(image, pager.actions(), out) implies pager.history().contains(
                recovered(out),
            ) by {
                recovery::law_recovery_can_be_interrupted(image, out);
                assert(pager.history()[0] == recovered(out));
            }
        }
        Ok(pager)
    }

    /// The number of pages.
    pub fn page_count(&self) -> (count: u64)
        ensures
            count == self.count(),
    {
        self.page_count
    }

    /// Hands over the actions that are still to be performed on the files.
    pub fn take_actions(&mut self) -> (actions: Vec<Action>)
        requires
            old(self).inv(),
        ensures
            final(self).inv(),
            final(self).same_contents(old(self)),
            actions_view(actions@) == old(self).actions(),
            final(self).actions() == Seq::<ActionView>::empty(),
            final(self).base() == perform_all(old(self).base(), old(self).actions()),
            final(self).history() == seq![old(self).file()],
    {
        let mut actions: Vec<Action> = Vec::new();
        actions.append(&mut self.actions);
        self.base = Ghost(perform_all(self.base@, old(self).actions()));
        self.history = Ghost(Seq::empty().push(self.disk@));
        proof {
            assert(actions_view(actions@) =~= old(self).actions());
            assert(self.actions() =~= Seq::empty());
            assert(self.history()[0] == self.file());
            if self.in_txn {
                recovery::lemma_uncommitted(self.file(), self.logged());
            } else {
                recovery::lemma_uncommitted(self.file(), Seq::empty());
                assert(self.log() =~= Seq::empty());
            }
        }
        actions
    }

    /// Begins a transaction: page writes are recorded and kept back until it
    /// is committed or rolled back.
    pub fn begin_transaction(&mut self)
        requires
            old(self).inv(),
            !old(self).in_txn(),
        ensures
            final(self).inv(),
            final(self).in_txn(),
            final(self).file() == old(self).file(),
            final(self).log() == old(self).log(),
            final(self).count() == old(self).count(),
            final(self).start_count() == old(self).count(),
            final(self).pending() == old(self).pending(),
            final(self).logged() == Seq::<(u64, Seq<u8>)>::empty(),
            final(self).actions() == old(self).actions(),
            final(self).base() == old(self).base(),
            final(self).history() == old(self).history(),
            old(self).dense() ==> final(self).dense(),
    {
        self.txn_wal_start_len = self.wal.len();
        self.txn_page_count = self.page_count;
        self.pending.clear();
        self.in_txn = true;
        self.logged = Ghost(Seq::empty());
        proof {
            assert(self.pending() =~= old(self).pending());
            assert(self.log() =~= batch_bytes(Seq::empty()));
            assert forall|n: int| #[trigger] self.page(n) == old(self).page(n) by {
            }
        }
    }

    /// Makes every page written since the transaction began durable and
    /// visible in the main file.
    pub fn commit_transaction(&mut self)
        requires
            old(self).inv(),
            old(self).in_txn(),
        ensures
            final(self).inv(),
            !final(self).in_txn(),
            final(self).file() == old(self).total(),
            final(self).total() == old(self).total(),
            final(self).count() == old(self).count(),
            final(self).actions() == old(self).actions() + commit_actions(old(self).pending()),
            final(self).base() == old(self).base(),
            final(self).history() == old(self).history().push(old(self).total()),
            final(self).dense(),
    {
        let ghost frames = self.pending();
        let ghost actions0 = self.actions();
        let ghost file0 = self.file();
        let added = self.wal.append_commit_frame();
        self.actions.push(Action::AppendLog(added));
        self.actions.push(Action::SyncLog);
        let mut i: usize = 0;
        proof {
            assert(frames.take(0) =~= Seq::empty());
            let head = seq![
                ActionView::AppendLog(seq![COMMIT_FRAME_TAG]),
                ActionView::SyncLog,
            ];
            assert(self.actions() =~= actions0 + head + page_writes(frames.take(0)));
        }
        while i < self.pending.len()
            invariant
                i <= self.pending@.len(),
                self.parts_inv(),
                frames == frames_view(self.pending@),
                full_pages(frames),
                forall|j: int| 0 <= j < frames.len() ==> (#[trigger] frames[j]).0 < PAGE_LIMIT,
                self.file() == write_all(file0, frames.take(i as int)),
                self.count() == old(self).count(),
                self.start_count() == old(self).start_count(),
                self.base() == old(self).base(),
                self.history() == old(self).history(),
                self.actions() == actions0 + seq![
                    ActionView::AppendLog(seq![COMMIT_FRAME_TAG]),
                    ActionView::SyncLog,
                ] + page_writes(frames.take(i as int)),
            decreases self.pending@.len() - i,
        {
            let ghost before = self.actions();
            let page_no: u64 = self.pending[i].0;
            let page = self.pending[i].1.clone();
            assert(frames[i as int] == (page_no, page@));
            self.disk.write(page_no, &page);
            self.actions.push(Action::WritePage(page_no, page));
            proof {
                let longer = frames.take(i + 1);
                assert(longer.drop_last() =~= frames.take(i as int));
                assert(longer.last() == frames[i as int]);
                assert(page_writes(longer) =~= page_writes(frames.take(i as int)).push(
                    ActionView::WritePage(page_no, page@),
                ));
                assert(self.actions() =~= before.push(ActionView::WritePage(page_no, page@)));
                assert(self.actions() =~= actions0 + seq![
                    ActionView::AppendLog(seq![COMMIT_FRAME_TAG]),
                    ActionView::SyncLog,
                ] + page_writes(longer));
            }
            i += 1;
        }
        assert(frames.take(i as int) =~= frames);
        let ghost written = self.actions();
        self.actions.push(Action::SyncFile);
        self.actions.push(Action::TruncateLog(0));
        assert(self.actions() =~= written.push(ActionView::SyncFile).push(
            ActionView::TruncateLog(0),
        ));
        self.wal.truncate_to(0);
        self.pending.clear();
        self.in_txn = false;
        self.history = Ghost(self.history@.push(self.disk@));
        proof {
            assert(self.pending() =~= Seq::empty());
            assert(self.actions() =~= actions0 + commit_actions(frames));
            assert forall|out: Image| #[trigger]
                may_crash_to(self.base(), self.actions(), out) implies self.history().contains(
                recovered(out),
            ) by {
                recovery::lemma_crash_add(self.base(), actions0, commit_actions(frames), out);
                let history0 = old(self).history();
                lemma_still_contains(history0, self.file(), recovered(out));
                if !may_crash_to(self.base(), actions0, out) {
                    recovery::lemma_commit_is_atomic(file0, old(self).logged(), frames, out);
                    assert(history0[history0.len() - 1] == file0);
                }
            }
            recovery::lemma_perform_add(self.base(), actions0, commit_actions(frames));
            recovery::lemma_commit_takes_effect(file0, old(self).log(), frames);
            assert(self.log() =~= Seq::empty());
            self.lemma_committed_is_dense();
        }
    }

    /// Abandons the transaction: none of its writes take effect, and the log
    /// is trimmed back to before it began.
    pub fn rollback_transaction(&mut self)
        requires
            old(self).inv(),
            old(self).in_txn(),
        ensures
            final(self).inv(),
            !final(self).in_txn(),
            final(self).file() == old(self).file(),
            final(self).total() == old(self).file(),
            final(self).count() == old(self).start_count(),
            final(self).actions() == old(self).actions().push(ActionView::TruncateLog(0)),
            final(self).base() == old(self).base(),
            final(self).history() == old(self).history(),
            final(self).dense(),
    {
        let ghost actions0 = self.actions();
        self.wal.truncate_to(self.txn_wal_start_len);
        self.actions.push(Action::TruncateLog(self.txn_wal_start_len));
        self.page_count = self.txn_page_count;
        self.pending.clear();
        self.in_txn = false;
        proof {
            assert(self.pending() =~= Seq::empty());
            assert(self.actions() =~= actions0.push(ActionView::TruncateLog(0)));
            recovery::lemma_perform_push(self.base(), actions0, ActionView::TruncateLog(0));
            assert(self.log() =~= old(self).log().take(0));
            let cut = seq![ActionView::TruncateLog(0)];
            assert(self.actions() =~= actions0 + cut);
            assert forall|out: Image| #[trigger]
                may_crash_to(self.base(), self.actions(), out) implies self.history().contains(
                recovered(out),
            ) by {
                recovery::lemma_crash_add(self.base(), actions0, cut, out);
                if !may_crash_to(self.base(), actions0, out) {
                    recovery::lemma_cut_is_harmless(self.file(), old(self).logged(), out);
                    assert(self.history()[self.history().len() - 1] == self.file());
                }
            }
            self.lemma_committed_is_dense();
        }
    }

    /// Reads page `page_no`. A page written in the open transaction is
    /// returned as it was written.
    pub fn read_page(&self, page_no: u64) -> (result: Result<Page, StorageError>)
        requires
            self.inv(),
        ensures
            match result {
                Ok(page) => self.page(page_no as int) == Some(page@),
                Err(error) => {
                    &&& error == StorageError::UnexpectedEof
                    &&& self.page(page_no as int) is None
                },
            },
    {
        let ghost frames = self.pending();
        let mut i: usize = self.pending.len();
        assert(frames.take(i as int) =~= frames);
        while i > 0
            invariant
                i <= self.pending@.len(),
                frames == frames_view(self.pending@),
                frames == self.pending(),
                last_page(frames, page_no as int) == last_page(
                    frames.take(i as int),
                    page_no as int,
                ),
            decreases i,
        {
            proof {
                let head = frames.take(i as int);
                assert(head.last() == frames[i - 1]);
                assert(head.drop_last() =~= frames.take(i - 1));
            }
            if self.pending[i - 1].0 == page_no {
                return Ok(self.pending[i - 1].1.clone());
            }
            i -= 1;
        }
        match self.disk.read(page_no) {
            Some(page) => Ok(page),
            None => Err(StorageError::UnexpectedEof),
        }
    }

    /// Writes `page` to the slot of page `page_no`. Inside a transaction the
    /// write takes effect in the main file at the commit; outside of one it
    /// is a transaction of its own. A page behind the last one makes the page
    /// count grow. Fails if the page has no place in a file.
    pub fn write_page(&mut self, page_no: u64, page: &Page) -> (result: Result<(), StorageError>)
        requires
            old(self).inv(),
        ensures
            final(self).inv(),
            final(self).in_txn() == old(self).in_txn(),
            final(self).count() == (if old(self).count() <= page_no < PAGE_LIMIT {
                (page_no + 1) as u64
            } else {
                old(self).count()
            }),
            final(self).start_count() == old(self).start_count(),
            final(self).base() == old(self).base(),
            final(self).history() == (if page_no >= PAGE_LIMIT || old(self).in_txn() {
                old(self).history()
            } else {
                old(self).history().push(final(self).file())
            }),
            page_no >= PAGE_LIMIT ==> {
                &&& result == Err::<(), StorageError>(StorageError::PageOutOfRange)
                &&& final(self).same_contents(old(self))
                &&& final(self).actions() == old(self).actions()
            },
            page_no < PAGE_LIMIT ==> {
                &&& result is Ok
                &&& final(self).total() == write_at(old(self).total(), page_no as int, page@)
                &&& final(self).page(page_no as int) == Some(page@)
                &&& forall|n: int|
                    n != page_no && old(self).page(n) is Some ==> #[trigger] final(self).page(n)
                        == old(self).page(n)
                &&& old(self).in_txn() ==> {
                    &&& final(self).file() == old(self).file()
                    &&& final(self).pending() == without_page(old(self).pending(), page_no).push(
                        (page_no, page@),
                    )
                    &&& final(self).logged() == old(self).logged().push((page_no, page@))
                    &&& final(self).actions() == old(self).actions().push(
                        ActionView::AppendLog(frame_bytes(page_no, page@)),
                    )
                }
                &&& !old(self).in_txn() ==> {
                    &&& final(self).file() == write_at(old(self).file(), page_no as int, page@)
                    &&& final(self).actions() == old(self).actions().push(
                        ActionView::AppendLog(frame_bytes(page_no, page@)),
                    ) + commit_actions(seq![(page_no, page@)])
                }
                &&& old(self).dense() && page_no < old(self).count() ==> {
                    &&& final(self).dense()
                    &&& final(self).store() == old(self).store().update(page_no as int, page@)
                }
                &&& old(self).dense() && page_no == old(self).count() ==> {
                    &&& final(self).dense()
                    &&& final(self).store() == old(self).store().push(page@)
                }
            },
    {
        broadcast use lemma_page_len;

        if page_no >= PAGE_LIMIT {
            return Err(StorageError::PageOutOfRange);
        }
        let ghost pending0 = self.pending();
        let ghost actions0 = self.actions();
        let added = self.wal.append_page_frame(page_no, page);
        self.actions.push(Action::AppendLog(added));
        proof {
            let append = ActionView::AppendLog(frame_bytes(page_no, page@));
            assert(self.actions() =~= actions0.push(append));
            recovery::lemma_perform_push(self.base(), actions0, append);
        }
        if self.in_txn {
            let mut i: usize = 0;
            while i < self.pending.len()
                invariant
                    i <= self.pending@.len(),
                    without_page(self.pending(), page_no) == without_page(pending0, page_no),
                    forall|j: int| 0 <= j < i ==> (#[trigger] self.pending()[j]).0 != page_no,
                    full_pages(self.pending()),
                    forall|j: int|
                        0 <= j < self.pending().len() ==> (#[trigger] self.pending()[j]).0
                            < PAGE_LIMIT,
                    self.parts_inv(),
                    self.file() == old(self).file(),
                    self.log() == old(self).log() + frame_bytes(page_no, page@),
                    self.count() == old(self).count(),
                    self.start_count() == old(self).start_count(),
                    self.in_txn() == old(self).in_txn(),
                    self.logged() == old(self).logged(),
                    self.base() == old(self).base(),
                    self.history() == old(self).history(),
                    self.actions() == actions0.push(
                        ActionView::AppendLog(frame_bytes(page_no, page@)),
                    ),
                decreases self.pending@.len() - i,
            {
                let ghost frames = self.pending();
                assert(frames[i as int].0 == self.pending@[i as int].0);
                if self.pending[i].0 == page_no {
                    self.pending.remove(i);
                    proof {
                        assert(self.pending() =~= frames.remove(i as int));
                        lemma_remove_page(frames, i as int, page_no);
                    }
                } else {
                    i += 1;
                }
            }
            let ghost frames = self.pending();
            self.pending.push((page_no, page.clone()));
            self.logged = Ghost(self.logged@.push((page_no, page@)));
            proof {
                lemma_nothing_to_remove(frames, page_no);
                assert(self.pending() =~= frames.push((page_no, page@)));
                disk::lemma_replace_page(pending0, page_no, page@);
                let with = pending0.push((page_no, page@));
                disk::lemma_same_effect(self.file(), with, self.pending());
                assert(with.drop_last() =~= pending0);
                lemma_push_same_effect(old(self).logged(), pending0, page_no, page@);
                assert(same_effect(self.logged(), self.pending())) by {
                    assert forall|n: int| #[trigger]
                        last_page(self.logged(), n) == last_page(self.pending(), n) by {
                        assert(last_page(self.logged(), n) == last_page(with, n));
                    }
                }
                let logged = self.logged();
                assert(logged.drop_last() =~= old(self).logged());
                assert(self.log() =~= batch_bytes(logged));
                assert(full_pages(self.pending()));
                assert(full_pages(logged));
                let append = seq![ActionView::AppendLog(frame_bytes(page_no, page@))];
                assert(self.actions() =~= actions0 + append);
                assert forall|out: Image| #[trigger]
                    may_crash_to(self.base(), self.actions(), out) implies self.history().contains(
                    recovered(out),
                ) by {
                    recovery::lemma_crash_add(self.base(), actions0, append, out);
                    if !may_crash_to(self.base(), actions0, out) {
                        let frame = (page_no, page@);
                        recovery::lemma_logging_is_harmless(
                            self.file(),
                            old(self).logged(),
                            frame,
                            out,
                        );
                        assert(self.history()[self.history().len() - 1] == self.file());
                    }
                }
            }
        } else {
            let added = self.wal.append_commit_frame();
            self.actions.push(Action::AppendLog(added));
            self.actions.push(Action::SyncLog);
            self.disk.write(page_no, page);
            self.actions.push(Action::WritePage(page_no, page.clone()));
            self.actions.push(Action::SyncFile);
            self.actions.push(Action::TruncateLog(0));
            self.wal.truncate_to(0);
            self.history = Ghost(self.history@.push(self.disk@));
            proof {
                assert(self.actions() =~= actions0.push(
                    ActionView::AppendLog(frame_bytes(page_no, page@)),
                ) + commit_actions(seq![(page_no, page@)]));
                let logged_actions = actions0.push(
                    ActionView::AppendLog(frame_bytes(page_no, page@)),
                );
                let frames = seq![(page_no, page@)];
                assert(frames.drop_last() =~= Seq::empty());
                reveal_with_fuel(write_all, 2);
                recovery::lemma_perform_add(self.base(), logged_actions, commit_actions(frames));
                recovery::lemma_commit_takes_effect(
                    old(self).file(),
                    old(self).log() + frame_bytes(page_no, page@),
                    frames,
                );
                assert(self.log() =~= Seq::empty());
                let added = seq![ActionView::AppendLog(frame_bytes(page_no, page@))]
                    + commit_actions(frames);
                assert(self.actions() =~= actions0 + added);
                assert(old(self).log() =~= Seq::empty());
                assert forall|out: Image| #[trigger]
                    may_crash_to(self.base(), self.actions(), out) implies self.history().contains(
                    recovered(out),
                ) by {
                    recovery::lemma_crash_add(self.base(), actions0, added, out);
                    let history0 = old(self).history();
                    lemma_still_contains(history0, self.file(), recovered(out));
                    if !may_crash_to(self.base(), actions0, out) {
                        recovery::lemma_single_is_atomic(
                            old(self).file(),
                            (page_no, page@),
                            out,
                        );
                        assert(history0[history0.len() - 1] == old(self).file());
                    }
                }
                assert(file_page(self.file(), page_no as int) == Some(page@)) by {
                    assert(self.file().subrange(page_no * 4096, (page_no + 1) * 4096) =~= page@);
                }
            }
        }
        let ghost written = *self;
        assert(written.crash_safe());
        if page_no >= self.page_count {
            self.page_count = page_no + 1;
        }
        proof {
            assert(self.base() == written.base() && self.actions() == written.actions());
            assert(self.history() == written.history());
            assert(self.crash_safe());
            assert(self.total() == write_at(old(self).total(), page_no as int, page@));
            let len0 = old(self).total().len();
            let end = (page_no + 1) * 4096;
            assert(self.total().len() == if len0 < end {
                end
            } else {
                len0 as int
            });
            assert(self.count() == self.total().len() / 4096);
            assert forall|n: int| n != page_no && old(self).page(n) is Some implies #[trigger]
                self.page(n) == old(self).page(n) by {
                if old(self).in_txn() {
                    disk::lemma_without_page(pending0, page_no);
                    let rest = without_page(pending0, page_no);
                    assert(rest.push((page_no, page@)).drop_last() =~= rest);
                    assert(last_page(rest, n) == last_page(pending0, n));
                } else {
                    assert(self.file().subrange(n * 4096, (n + 1) * 4096) =~= old(
                        self,
                    ).file().subrange(n * 4096, (n + 1) * 4096));
                }
            }
            if old(self).dense() && page_no <= old(self).count() {
                disk::lemma_pages_of_write(old(self).total(), page_no as int, page@);
                assert forall|n: int| 0 <= n < self.count() implies #[trigger] self.page(n) == Some(
                    self.store()[n],
                ) by {
                    if n < old(self).count() {
                        assert(old(self).page(n) == Some(old(self).store()[n]));
                    }
                }
            }
        }
        Ok(())
    }

    /// Adds a zero-filled page at the end and returns its number. Fails if
    /// there is no room for it in a file.
    pub fn allocate_page(&mut self) -> (result: Result<u64, StorageError>)
        requires
            old(self).inv(),
        ensures
            final(self).inv(),
            final(self).in_txn() == old(self).in_txn(),
            final(self).start_count() == old(self).start_count(),
            final(self).base() == old(self).base(),
            final(self).history() == (if result is Err || old(self).in_txn() {
                old(self).history()
            } else {
                old(self).history().push(final(self).file())
            }),
            old(self).in_txn() ==> final(self).file() == old(self).file(),
            old(self).dense() ==> final(self).dense(),
            match result {
                Ok(page_no) => {
                    &&& page_no == old(self).count()
                    &&& page_no == old(self).total().len() / 4096
                    &&& page_no < PAGE_LIMIT
                    &&& final(self).count() == page_no + 1
                    &&& final(self).total() == write_at(
                        old(self).total(),
                        page_no as int,
                        zero_page(),
                    )
                    &&& final(self).page(page_no as int) == Some(zero_page())
                    &&& old(self).dense() ==> final(self).store() == old(self).store().push(
                        zero_page(),
                    )
                },
                Err(error) => {
                    &&& error == StorageError::PageOutOfRange
                    &&& old(self).count() >= PAGE_LIMIT
                    &&& final(self).same_contents(old(self))
                    &&& final(self).actions() == old(self).actions()
                },
            },
    {
        let page_no: u64 = self.page_count;
        if page_no >= PAGE_LIMIT {
            return Err(StorageError::PageOutOfRange);
        }
        let page = Page::new();
        match self.write_page(page_no, &page) {
            Ok(()) => {},
            Err(error) => {
                return Err(error);
            },
        }
        Ok(page_no)
    }

    /// Asks for the main file to be brought to physical storage.
    pub fn flush(&mut self)
        requires
            old(self).inv(),
        ensures
            final(self).inv(),
            final(self).same_contents(old(self)),
            final(self).actions() == old(self).actions().push(ActionView::SyncFile),
            final(self).base() == old(self).base(),
            final(self).history() == old(self).history(),
    {
        let ghost actions0 = self.actions();
        self.actions.push(Action::SyncFile);
        proof {
            assert(self.actions() =~= actions0.push(ActionView::SyncFile));
            recovery::lemma_perform_push(self.base(), actions0, ActionView::SyncFile);
            let sync = seq![ActionView::SyncFile];
            assert(self.actions() =~= actions0 + sync);
            assert forall|out: Image| #[trigger]
                may_crash_to(self.base(), self.actions(), out) implies self.history().contains(
                recovered(out),
            ) by {
                recovery::lemma_crash_add(self.base(), actions0, sync, out);
                if !may_crash_to(self.base(), actions0, out) {
                    recovery::lemma_sync_is_harmless(perform_all(self.base(), actions0), out);
                    if self.in_txn() {
                        recovery::lemma_uncommitted(self.file(), self.logged());
                    } else {
                        recovery::lemma_uncommitted(self.file(), Seq::empty());
                        assert(self.log() =~= Seq::empty());
                    }
                    assert(self.history()[self.history().len() - 1] == self.file());
                }
            }
        }
    }
}

proof fn lemma_still_contains(history: Seq<Seq<u8>>, newest: Seq<u8>, file: Seq<u8>)
    ensures
        history.contains(file) ==> history.push(newest).contains(file),
        history.push(newest).contains(newest),
{
    if history.contains(file) {
        let i = history.index_of(file);
        assert(history.push(newest)[i] == file);
    }
    assert(history.push(newest)[history.len() as int] == newest);
}

/// Removing one frame for page `n` does not change what is left without `n`.
proof fn lemma_remove_page(frames: Seq<(u64, Seq<u8>)>, i: int, n: u64)
    requires
        0 <= i < frames.len(),
        frames[i].0 == n,
    ensures
        without_page(frames.remove(i), n) == without_page(frames, n),
    decreases frames.len(),
{
    let less = frames.remove(i);
    if i == frames.len() - 1 {
        assert(less =~= frames.drop_last());
    } else {
        let init = frames.drop_last();
        lemma_remove_page(init, i, n);
        assert(less.drop_last() =~= init.remove(i));
        assert(less.last() == frames.last());
    }
}

proof fn lemma_nothing_to_remove(frames: Seq<(u64, Seq<u8>)>, n: u64)
    requires
        forall|i: int| 0 <= i < frames.len() ==> (#[trigger] frames[i]).0 != n,
    ensures
        without_page(frames, n) == frames,
    decreases frames.len(),
{
    if frames.len() > 0 {
        let init = frames.drop_last();
        assert forall|i: int| 0 <= i < init.len() implies (#[trigger] init[i]).0 != n by {
            assert(init[i] == frames[i]);
        }
        lemma_nothing_to_remove(init, n);
        assert(frames[frames.len() - 1].0 != n);
        assert(init.push(frames.last()) =~= frames);
    }
}

/// Lists of frames of the same effect stay so when the same frame is added.
proof fn lemma_push_same_effect(
    a: Seq<(u64, Seq<u8>)>,
    b: Seq<(u64, Seq<u8>)>,
    n: u64,
    page: Seq<u8>,
)
    requires
        same_effect(a, b),
    ensures
        same_effect(a.push((n, page)), b.push((n, page))),
{
    let x = a.push((n, page));
    let y = b.push((n, page));
    assert(x.drop_last() =~= a);
    assert(y.drop_last() =~= b);
    assert forall|m: int| #[trigger] last_page(x, m) == last_page(y, m) by {
        assert(last_page(a, m) == last_page(b, m));
    }
}

/// A new page has 4096 bytes, all of them zero.
pub proof fn law_new_pages(i: int)
    ensures
        zero_page().len() == 4096,
        0 <= i < 4096 ==> zero_page()[i] == 0,
{
}

/// What is read of a page: in a transaction its last write, and otherwise what
/// the main file holds.
pub proof fn law_reading_pages(pager: Pager, n: u64, i: int)
    ensures
        0 <= i < pager.pending().len() && pager.pending()[i].0 == n && (forall|j: int|
            i < j < pager.pending().len() ==> (#[trigger] pager.pending()[j]).0 != n)
            ==> pager.page(n as int) == Some(pager.pending()[i].1),
        (forall|j: int| 0 <= j < pager.pending().len() ==> (#[trigger] pager.pending()[j]).0 != n)
            ==> {
            &&& pager.page(n as int) is Some <==> 4096 * n + 4096 <= pager.file().len()
            &&& pager.page(n as int) is Some ==> pager.page(n as int) == Some(
                pager.file().subrange(4096 * n, 4096 * n + 4096),
            )
        },
{
    disk::law_writes_to_a_page(pager.pending(), n, i);
}

/// What an operation on stored data that failed is reported as.
pub proof fn law_messages_of_errors(error: StorageError)
    ensures
        error is UnexpectedEof ==> storage_error_text(error) == "failed to fill whole buffer"@,
        error is CorruptPage ==> storage_error_text(error) == "corrupt page"@,
        error is PageOverflow ==> storage_error_text(error) == "index entry too large for a page"@,
        error is PageOutOfRange ==> storage_error_text(error) == "page number out of range"@,
        error is CounterExhausted ==> storage_error_text(error)
            == "no more generated identifiers"@,
        error matches StorageError::InvalidData(reason) ==> {
            &&& reason is UnexpectedEof ==> storage_error_text(error) == "unexpected end of input"@
            &&& reason is InvalidUtf8 ==> storage_error_text(error) == "invalid utf-8 in string"@
            &&& reason matches DecodeError::InvalidTag(tag) ==> storage_error_text(error)
                == "invalid value tag: "@ + crate::text::nat_text(tag as nat)
        },
{
}

} // verus!
