//! The write-ahead log: page writes are recorded here, with a checksum,
//! before they reach the main file. A transaction is a batch of page frames
//! followed by a commit frame; only complete transactions are replayed.

use crate::bytes;
use crate::bytes::le_bytes;
use crate::bytes::le_value;
use crate::pager::Page;
use vstd::arithmetic::power::pow;
use vstd::prelude::*;

verus! {

pub const PAGE_FRAME_TAG: u8 = 1;

pub const COMMIT_FRAME_TAG: u8 = 2;

/// tag(1) + page number(8) + page(4096) + checksum(4)
pub const PAGE_FRAME_SIZE: usize = 4109;

/// A polynomial hash modulo 2^32: each byte is added to 31 times the hash of
/// what comes before it.
pub open spec fn checksum_of(bytes: Seq<u8>) -> nat
    decreases bytes.len(),
{
    if bytes.len() == 0 {
        0
    } else {
        (checksum_of(bytes.drop_last()) * 31 + bytes.last() as nat) % 0x1_0000_0000
    }
}

/// How a write of `page` to page `n` is recorded.
pub open spec fn frame_bytes(n: u64, page: Seq<u8>) -> Seq<u8> {
    seq![PAGE_FRAME_TAG] + le_bytes(n as nat, 8) + page + le_bytes(checksum_of(page), 4)
}

/// How a batch of page writes is recorded.
pub open spec fn batch_bytes(frames: Seq<(u64, Seq<u8>)>) -> Seq<u8>
    decreases frames.len(),
{
    if frames.len() == 0 {
        Seq::empty()
    } else {
        batch_bytes(frames.drop_last()) + frame_bytes(frames.last().0, frames.last().1)
    }
}

/// The page writes of `log` that belong to a complete transaction, where
/// `batch` holds those of the transaction that is still open. Reading stops
/// at a truncated frame, a wrong checksum or an unknown tag.
pub open spec fn committed_after(log: Seq<u8>, batch: Seq<(u64, Seq<u8>)>) -> Seq<(u64, Seq<u8>)>
    decreases log.len(),
{
    if log.len() == 0 {
        Seq::empty()
    } else if log[0] == PAGE_FRAME_TAG {
        if log.len() < 4109 {
            Seq::empty()
        } else {
            let page = log.subrange(9, 4105);
            if checksum_of(page) != le_value(log.subrange(4105, 4109)) {
                Seq::empty()
            } else {
                let n = le_value(log.subrange(1, 9)) as u64;
                committed_after(log.skip(4109), batch.push((n, page)))
            }
        }
    } else if log[0] == COMMIT_FRAME_TAG {
        batch + committed_after(log.skip(1), Seq::empty())
    } else {
        Seq::empty()
    }
}

/// The page writes of the complete transactions in `log`, in order.
pub open spec fn committed_frames(log: Seq<u8>) -> Seq<(u64, Seq<u8>)> {
    committed_after(log, Seq::empty())
}

/// The page contents of each frame, as the pages hold them.
pub open spec fn frames_view(frames: Seq<(u64, Page)>) -> Seq<(u64, Seq<u8>)> {
    Seq::new(frames.len(), |i: int| (frames[i].0, frames[i].1@))
}

pub proof fn lemma_frame_bytes(n: u64, page: Seq<u8>)
    requires
        page.len() == 4096,
    ensures
        frame_bytes(n, page).len() == 4109,
        frame_bytes(n, page)[0] == PAGE_FRAME_TAG,
        le_value(frame_bytes(n, page).subrange(1, 9)) == n,
        frame_bytes(n, page).subrange(9, 4105) == page,
        le_value(frame_bytes(n, page).subrange(4105, 4109)) == checksum_of(page),
{
    bytes::lemma_byte_ranges();
    bytes::law_le_round_trip(n as nat, 8);
    assert(checksum_of(page) < 0x1_0000_0000);
    bytes::law_le_round_trip(checksum_of(page), 4);
    let f = frame_bytes(n, page);
    assert(f.subrange(1, 9) =~= le_bytes(n as nat, 8));
    assert(f.subrange(9, 4105) =~= page);
    assert(f.subrange(4105, 4109) =~= le_bytes(checksum_of(page), 4));
}

/// Every page of `frames` has the size of a page.
pub open spec fn full_pages(frames: Seq<(u64, Seq<u8>)>) -> bool {
    forall|i: int| 0 <= i < frames.len() ==> (#[trigger] frames[i]).1.len() == 4096
}

/// Reading a batch of page frames only adds them to the open transaction.
pub proof fn lemma_read_batch(
    frames: Seq<(u64, Seq<u8>)>,
    rest: Seq<u8>,
    batch: Seq<(u64, Seq<u8>)>,
)
    requires
        full_pages(frames),
    ensures
        committed_after(batch_bytes(frames) + rest, batch) == committed_after(
            rest,
            batch + frames,
        ),
    decreases frames.len(),
{
    if frames.len() == 0 {
        assert(batch_bytes(frames) + rest =~= rest);
        assert(batch + frames =~= batch);
    } else {
        let init = frames.drop_last();
        let (n, page) = frames.last();
        let f = frame_bytes(n, page);
        assert(full_pages(init));
        assert(frames[frames.len() - 1].1.len() == 4096);
        lemma_read_batch(init, f + rest, batch);
        assert(batch_bytes(frames) + rest =~= batch_bytes(init) + (f + rest));
        lemma_frame_bytes(n, page);
        let log = f + rest;
        assert(log.subrange(1, 9) =~= f.subrange(1, 9));
        assert(log.subrange(9, 4105) =~= f.subrange(9, 4105));
        assert(log.subrange(4105, 4109) =~= f.subrange(4105, 4109));
        assert(log.skip(4109) =~= rest);
        assert((batch + init).push((n, page)) =~= batch + frames);
    }
}

/// A transaction without its commit frame, cut off anywhere, is not replayed.
pub proof fn law_uncommitted_is_discarded(frames: Seq<(u64, Seq<u8>)>, cut: int)
    requires
        full_pages(frames),
        0 <= cut <= batch_bytes(frames).len(),
    ensures
        committed_frames(batch_bytes(frames).take(cut)) == Seq::<(u64, Seq<u8>)>::empty(),
    decreases frames.len(),
{
    lemma_cut_batch(frames, cut, Seq::empty());
}

proof fn lemma_cut_batch(frames: Seq<(u64, Seq<u8>)>, cut: int, batch: Seq<(u64, Seq<u8>)>)
    requires
        full_pages(frames),
        0 <= cut <= batch_bytes(frames).len(),
    ensures
        committed_after(batch_bytes(frames).take(cut), batch) == Seq::<(u64, Seq<u8>)>::empty(),
    decreases frames.len(),
{
    let log = batch_bytes(frames).take(cut);
    if frames.len() == 0 {
        assert(log.len() == 0);
    } else {
        let init = frames.drop_last();
        let (n, page) = frames.last();
        assert(full_pages(init));
        assert(frames[frames.len() - 1].1.len() == 4096);
        let head = batch_bytes(init);
        let f = frame_bytes(n, page);
        lemma_frame_bytes(n, page);
        if cut <= head.len() {
            assert(log =~= head.take(cut));
            lemma_cut_batch(init, cut, batch);
        } else {
            let rest = f.take(cut - head.len());
            assert(log =~= head + rest);
            lemma_read_batch(init, rest, batch);
            assert(rest[0] == PAGE_FRAME_TAG);
            if rest.len() == 4109 {
                assert(rest =~= f);
                assert(f.skip(4109).len() == 0);
                assert(committed_after(f.skip(4109), (batch + init).push((n, page))).len() == 0);
            }
        }
    }
}

/// A transaction followed by its commit frame is replayed in full, in order.
pub proof fn law_committed_is_replayed(frames: Seq<(u64, Seq<u8>)>)
    requires
        full_pages(frames),
    ensures
        committed_frames(batch_bytes(frames).push(COMMIT_FRAME_TAG)) == frames,
{
    let rest = seq![COMMIT_FRAME_TAG];
    assert(batch_bytes(frames).push(COMMIT_FRAME_TAG) =~= batch_bytes(frames) + rest);
    lemma_read_batch(frames, rest, Seq::empty());
    let none = Seq::<(u64, Seq<u8>)>::empty();
    assert(none + frames =~= frames);
    assert(rest.skip(1).len() == 0);
    assert(frames + committed_after(rest.skip(1), none) =~= frames);
}

/// What follows a complete transaction is read as if it stood alone: a log
/// of several transactions replays each of them, one after the other.
pub proof fn law_transactions_replay_in_order(frames: Seq<(u64, Seq<u8>)>, rest: Seq<u8>)
    requires
        full_pages(frames),
    ensures
        committed_frames(batch_bytes(frames).push(COMMIT_FRAME_TAG) + rest) == frames
            + committed_frames(rest),
{
    let tail = seq![COMMIT_FRAME_TAG] + rest;
    assert(batch_bytes(frames).push(COMMIT_FRAME_TAG) + rest =~= batch_bytes(frames) + tail);
    lemma_read_batch(frames, tail, Seq::empty());
    assert(Seq::<(u64, Seq<u8>)>::empty() + frames =~= frames);
    assert(tail.skip(1) =~= rest);
}

/// The checksum of one byte is the byte, and one more byte is added to 31 times
/// the checksum, modulo 2 to the power 32.
pub proof fn law_checksum_of_more(bytes: Seq<u8>, byte: u8)
    ensures
        checksum_of(seq![byte]) == byte,
        checksum_of(bytes.push(byte)) == (31 * checksum_of(bytes) + byte) % 0x1_0000_0000,
        checksum_of(bytes) < 0x1_0000_0000,
{
    assert(bytes.push(byte).drop_last() =~= bytes);
    assert(seq![byte].drop_last() =~= Seq::empty());
    reveal_with_fuel(checksum_of, 2);
}

/// Different checksums stay different when the same bytes follow.
proof fn lemma_checksum_keeps_apart(a: Seq<u8>, b: Seq<u8>, more: Seq<u8>)
    requires
        checksum_of(a) != checksum_of(b),
    ensures
        checksum_of(a + more) != checksum_of(b + more),
    decreases more.len(),
{
    if more.len() == 0 {
        assert(a + more =~= a);
        assert(b + more =~= b);
    } else {
        let init = more.drop_last();
        let byte = more.last();
        lemma_checksum_keeps_apart(a, b, init);
        assert(a + more =~= (a + init).push(byte));
        assert(b + more =~= (b + init).push(byte));
        law_checksum_of_more(a + init, byte);
        law_checksum_of_more(b + init, byte);
        let x = 31 * checksum_of(a + init) + byte;
        let y = 31 * checksum_of(b + init) + byte;
        if x % 0x1_0000_0000 == y % 0x1_0000_0000 {
            let q = x / 0x1_0000_0000 - y / 0x1_0000_0000;
            assert(31 * (checksum_of(a + init) - checksum_of(b + init)) == 0x1_0000_0000 * q);
            assert(-31 < q < 31);
        }
    }
}

/// One wrong byte is always noticed: it changes the checksum.
pub proof fn law_wrong_byte_is_noticed(bytes: Seq<u8>, i: int, byte: u8)
    requires
        0 <= i < bytes.len(),
        byte != bytes[i],
    ensures
        checksum_of(bytes.update(i, byte)) != checksum_of(bytes),
{
    let head = bytes.take(i);
    let more = bytes.skip(i + 1);
    assert(bytes =~= head.push(bytes[i]) + more);
    assert(bytes.update(i, byte) =~= head.push(byte) + more);
    law_checksum_of_more(head, bytes[i]);
    law_checksum_of_more(head, byte);
    lemma_checksum_keeps_apart(head.push(byte), head.push(bytes[i]), more);
}

/// Where the parts of a recorded page write lie: the tag, the page number with
/// its least significant byte first, the page, and its checksum.
pub proof fn law_frame_layout(n: u64, page: Seq<u8>)
    ensures
        frame_bytes(n, page).len() == page.len() + 13,
        frame_bytes(n, page)[0] == 1,
        forall|i: nat|
            i < 8 ==> #[trigger] frame_bytes(n, page)[1 + i as int] == (n as int / pow(256, i))
                % 256,
        frame_bytes(n, page).subrange(9, 9 + page.len() as int) == page,
        le_value(frame_bytes(n, page).skip(9 + page.len() as int)) == checksum_of(page),
{
    let f = frame_bytes(n, page);
    bytes::lemma_le_bytes_len(n as nat, 8);
    bytes::lemma_le_bytes_len(checksum_of(page), 4);
    bytes::lemma_byte_ranges();
    assert(checksum_of(page) < 0x1_0000_0000);
    bytes::law_le_round_trip(checksum_of(page), 4);
    assert forall|i: nat| i < 8 implies #[trigger] f[1 + i as int] == (n as int / pow(256, i))
        % 256 by {
        bytes::law_le_byte(n as nat, 8, i);
        assert(f[1 + i as int] == le_bytes(n as nat, 8)[i as int]);
    }
    assert(f.subrange(9, 9 + page.len() as int) =~= page);
    assert(f.skip(9 + page.len() as int) =~= le_bytes(checksum_of(page), 4));
}

/// The log of several complete transactions, one after the other.
pub open spec fn log_of(transactions: Seq<Seq<(u64, Seq<u8>)>>) -> Seq<u8>
    decreases transactions.len(),
{
    if transactions.len() == 0 {
        Seq::empty()
    } else {
        batch_bytes(transactions[0]) + seq![2u8] + log_of(transactions.drop_first())
    }
}

/// All pages of all transactions have the size of a page.
pub open spec fn all_full(transactions: Seq<Seq<(u64, Seq<u8>)>>) -> bool {
    forall|i: int| 0 <= i < transactions.len() ==> full_pages(#[trigger] transactions[i])
}

/// Nothing can be read here: the log ends, a page frame is cut off, a page
/// frame has a checksum that is not that of its page, or there is no frame.
pub open spec fn unreadable(rest: Seq<u8>) -> bool {
    ||| rest.len() == 0
    ||| rest[0] == 1 && rest.len() < 4109
    ||| rest[0] == 1 && rest.len() >= 4109 && le_value(rest.subrange(4105, 4109)) != checksum_of(
        rest.subrange(9, 4105),
    )
    ||| rest[0] != 1 && rest[0] != 2
}

/// A log is read up to the first place where nothing can be read. What is
/// replayed are exactly the page writes of the transactions whose commit frames
/// stand before that place: none of the transaction in which it lies, and none
/// of what stands behind it.
pub proof fn law_reading_stops_at_damage(
    transactions: Seq<Seq<(u64, Seq<u8>)>>,
    open: Seq<(u64, Seq<u8>)>,
    rest: Seq<u8>,
)
    requires
        all_full(transactions),
        full_pages(open),
        unreadable(rest),
    ensures
        committed_frames(log_of(transactions) + batch_bytes(open) + rest)
            == transactions.flatten(),
    decreases transactions.len(),
{
    let none = Seq::<(u64, Seq<u8>)>::empty();
    let log = log_of(transactions) + batch_bytes(open) + rest;
    if transactions.len() == 0 {
        assert(log =~= batch_bytes(open) + rest);
        lemma_read_batch(open, rest, none);
        assert(committed_after(rest, none + open) =~= none);
        assert(transactions.flatten() =~= none);
    } else {
        let first = transactions[0];
        let others = transactions.drop_first();
        assert forall|i: int| 0 <= i < others.len() implies full_pages(#[trigger] others[i]) by {
            assert(others[i] == transactions[i + 1]);
        }
        law_reading_stops_at_damage(others, open, rest);
        let tail = log_of(others) + batch_bytes(open) + rest;
        assert(log =~= batch_bytes(first).push(COMMIT_FRAME_TAG) + tail);
        law_transactions_replay_in_order(first, tail);
    }
}

/// Every log is one of some complete transactions, then some page writes
/// without a commit frame, then a place where nothing can be read.
pub proof fn law_every_log_is_read(log: Seq<u8>) -> (parts: (
    Seq<Seq<(u64, Seq<u8>)>>,
    Seq<(u64, Seq<u8>)>,
    Seq<u8>,
))
    ensures
        all_full(parts.0),
        full_pages(parts.1),
        unreadable(parts.2),
        log == log_of(parts.0) + batch_bytes(parts.1) + parts.2,
    decreases log.len(),
{
    let none = Seq::<(u64, Seq<u8>)>::empty();
    if unreadable(log) {
        assert(log =~= Seq::<u8>::empty() + Seq::<u8>::empty() + log);
        (Seq::empty(), none, log)
    } else if log[0] == 2 {
        let (ts, open, rest) = law_every_log_is_read(log.skip(1));
        let more = seq![none] + ts;
        assert(more.drop_first() =~= ts);
        assert(more[0] == none);
        assert(log =~= seq![2u8] + log.skip(1));
        assert(log =~= log_of(more) + batch_bytes(open) + rest);
        assert forall|i: int| 0 <= i < more.len() implies full_pages(#[trigger] more[i]) by {
            if i > 0 {
                assert(more[i] == ts[i - 1]);
            }
        }
        (more, open, rest)
    } else {
        let (ts, open, rest) = law_every_log_is_read(log.skip(4109));
        let head = log.take(4109);
        let n = le_value(head.subrange(1, 9)) as u64;
        let page = head.subrange(9, 4105);
        lemma_frame_is_read(log);
        assert(log =~= head + log.skip(4109));
        let frame = (n, page);
        if ts.len() == 0 {
            let more = seq![frame] + open;
            law_batch_from_front(frame, open);
            assert(log =~= log_of(ts) + batch_bytes(more) + rest);
            assert forall|i: int| 0 <= i < more.len() implies (#[trigger] more[i]).1.len()
                == 4096 by {
                if i > 0 {
                    assert(more[i] == open[i - 1]);
                }
            }
            (ts, more, rest)
        } else {
            let first = seq![frame] + ts[0];
            let more = ts.update(0, first);
            law_batch_from_front(frame, ts[0]);
            assert(full_pages(ts[0]));
            assert forall|i: int| 0 <= i < first.len() implies (#[trigger] first[i]).1.len()
                == 4096 by {
                if i > 0 {
                    assert(first[i] == ts[0][i - 1]);
                }
            }
            assert(more.drop_first() =~= ts.drop_first());
            assert(log =~= log_of(more) + batch_bytes(open) + rest);
            assert forall|i: int| 0 <= i < more.len() implies full_pages(#[trigger] more[i]) by {
                if i > 0 {
                    assert(more[i] == ts[i]);
                }
            }
            (more, open, rest)
        }
    }
}

/// The bytes of a page frame that can be read are those of its page write.
proof fn lemma_frame_is_read(log: Seq<u8>)
    requires
        log.len() >= 4109,
        log[0] == 1,
        le_value(log.subrange(4105, 4109)) == checksum_of(log.subrange(9, 4105)),
    ensures
        frame_bytes(le_value(log.take(4109).subrange(1, 9)) as u64, log.subrange(9, 4105))
            == log.take(4109),
        log.take(4109).subrange(9, 4105) == log.subrange(9, 4105),
{
    let head = log.take(4109);
    bytes::lemma_byte_ranges();
    bytes::law_le_bytes_of_value(head.subrange(1, 9));
    bytes::law_le_bytes_of_value(log.subrange(4105, 4109));
    assert(head.subrange(9, 4105) =~= log.subrange(9, 4105));
    assert(head =~= seq![1u8] + head.subrange(1, 9) + log.subrange(9, 4105) + log.subrange(
        4105,
        4109,
    ));
}

/// A batch with one more page write at its front is recorded as that write and
/// then the batch.
pub proof fn law_batch_from_front(frame: (u64, Seq<u8>), frames: Seq<(u64, Seq<u8>)>)
    ensures
        batch_bytes(seq![frame] + frames) == frame_bytes(frame.0, frame.1) + batch_bytes(frames),
    decreases frames.len(),
{
    let more = seq![frame] + frames;
    if frames.len() == 0 {
        assert(more.drop_last() =~= Seq::empty());
        assert(more.last() == frame);
        reveal_with_fuel(batch_bytes, 2);
        assert(batch_bytes(more) =~= frame_bytes(frame.0, frame.1));
        assert(frame_bytes(frame.0, frame.1) + batch_bytes(frames) =~= frame_bytes(
            frame.0,
            frame.1,
        ));
    } else {
        law_batch_from_front(frame, frames.drop_last());
        assert(more.drop_last() =~= seq![frame] + frames.drop_last());
        assert(more.last() == frames.last());
        assert(batch_bytes(more) =~= frame_bytes(frame.0, frame.1) + batch_bytes(frames));
    }
}

/// If one byte of a recorded page is wrong, nothing of its transaction is
/// replayed, nor anything behind it, whatever that is.
pub proof fn law_damaged_transaction_is_discarded(
    transactions: Seq<Seq<(u64, Seq<u8>)>>,
    open: Seq<(u64, Seq<u8>)>,
    n: u64,
    page: Seq<u8>,
    i: int,
    byte: u8,
    behind: Seq<u8>,
)
    requires
        all_full(transactions),
        full_pages(open),
        page.len() == 4096,
        0 <= i < 4096,
        byte != page[i],
    ensures
        committed_frames(
            log_of(transactions) + batch_bytes(open) + frame_bytes(n, page).update(9 + i, byte)
                + behind,
        ) == transactions.flatten(),
{
    let frame = frame_bytes(n, page);
    let damaged = frame.update(9 + i, byte);
    let rest = damaged + behind;
    lemma_frame_bytes(n, page);
    law_wrong_byte_is_noticed(page, i, byte);
    assert(rest.subrange(9, 4105) =~= page.update(i, byte)) by {
        assert forall|k: int| 0 <= k < 4096 implies #[trigger] rest.subrange(9, 4105)[k]
            == page.update(i, byte)[k] by {
            assert(frame.subrange(9, 4105)[k] == page[k]);
        }
    }
    assert(rest.subrange(4105, 4109) =~= frame.subrange(4105, 4109));
    law_reading_stops_at_damage(transactions, open, rest);
    assert(log_of(transactions) + batch_bytes(open) + rest =~= log_of(transactions) + batch_bytes(
        open,
    ) + damaged + behind);
}

/// The checksum of a page.
pub fn checksum(bytes: &[u8]) -> (hash: u32)
    ensures
        hash == checksum_of(bytes@),
{
    let mut hash: u32 = 0;
    let mut i: usize = 0;
    assert(bytes@.take(0).len() == 0);
    while i < bytes.len()
        invariant
            i <= bytes@.len(),
            hash == checksum_of(bytes@.take(i as int)),
        decreases bytes@.len() - i,
    {
        proof {
            let longer = bytes@.take(i + 1);
            assert(longer.drop_last() =~= bytes@.take(i as int));
            assert(longer.last() == bytes@[i as int]);
        }
        let next: u64 = (hash as u64 * 31 + bytes[i] as u64) % 0x1_0000_0000;
        hash = next as u32;
        i += 1;
    }
    assert(bytes@.take(i as int) =~= bytes@);
    hash
}

/// The write-ahead log.
pub struct Wal {
    bytes: Vec<u8>,
}

impl View for Wal {
    type V = Seq<u8>;

    closed spec fn view(&self) -> Seq<u8> {
        self.bytes@
    }
}

impl Wal {
    /// Takes over the bytes of a log file.
    pub fn open(bytes: Vec<u8>) -> (wal: Self)
        ensures
            wal@ == bytes@,
    {
        Wal { bytes }
    }

    /// The bytes of the log.
    pub fn as_bytes(&self) -> (bytes: &[u8])
        ensures
            bytes@ == self@,
    {
        self.bytes.as_slice()
    }

    /// Records a write of `page` to page `page_no` and returns the bytes that
    /// were added.
    pub fn append_page_frame(&mut self, page_no: u64, page: &Page) -> (added: Vec<u8>)
        ensures
            added@ == frame_bytes(page_no, page@),
            final(self)@ == old(self)@ + added@,
    {
        broadcast use crate::pager::lemma_page_len;

        let mut added: Vec<u8> = Vec::new();
        added.push(PAGE_FRAME_TAG);
        bytes::push_le(&mut added, page_no, 8);
        added.extend_from_slice(page.as_bytes().as_slice());
        let hash: u32 = checksum(page.as_bytes().as_slice());
        bytes::push_le(&mut added, hash as u64, 4);
        assert(added@ =~= frame_bytes(page_no, page@));
        self.bytes.extend_from_slice(added.as_slice());
        assert(self@ =~= old(self)@ + added@);
        added
    }

    /// Records that the transaction is complete and returns the bytes that
    /// were added.
    pub fn append_commit_frame(&mut self) -> (added: Vec<u8>)
        ensures
            added@ == seq![COMMIT_FRAME_TAG],
            final(self)@ == old(self)@ + added@,
    {
        let mut added: Vec<u8> = Vec::new();
        added.push(COMMIT_FRAME_TAG);
        self.bytes.push(COMMIT_FRAME_TAG);
        assert(added@ =~= seq![COMMIT_FRAME_TAG]);
        assert(self@ =~= old(self)@ + added@);
        added
    }

    /// The length of the log in bytes.
    pub fn len(&self) -> (len: u64)
        ensures
            len == self@.len(),
    {
        self.bytes.len() as u64
    }

    /// Sets the length of the log to `len`: what lies beyond is discarded,
    /// and a shorter log is filled up with zeros.
    pub fn truncate_to(&mut self, len: u64)
        requires
            len <= usize::MAX,
        ensures
            final(self)@ == Seq::new(
                len as nat,
                |i: int|
                    if i < old(self)@.len() {
                        old(self)@[i]
                    } else {
                        0u8
                    },
            ),
    {
        let ghost before = self@;
        self.bytes.resize(len as usize, 0);
        proof {
            assert forall|i: int| 0 <= i < len implies self@[i] == if i < before.len() {
                before[i]
            } else {
                0u8
            } by {
                if len > before.len() && i < before.len() {
                    assert(self@.subrange(0, before.len() as int)[i] == before[i]);
                }
            }
            assert(self@ =~= Seq::new(
                len as nat,
                |i: int|
                    if i < before.len() {
                        before[i]
                    } else {
                        0u8
                    },
            ));
        }
    }

    /// Every page write that belongs to a complete transaction. Reading stops
    /// at the first sign of trouble: a truncated frame, a wrong checksum or
    /// an unknown tag.
    pub fn read_committed_frames(&self) -> (frames: Vec<(u64, Page)>)
        ensures
            frames_view(frames@) == committed_frames(self@),
    {
        broadcast use crate::pager::lemma_page_len;

        let mut committed: Vec<(u64, Page)> = Vec::new();
        let mut pending: Vec<(u64, Page)> = Vec::new();
        let mut pos: usize = 0;
        let len: usize = self.bytes.len();
        let log: &[u8] = self.bytes.as_slice();
        let ghost target = committed_frames(self@);
        proof {
            assert(log@.skip(0) =~= log@);
            assert(frames_view(pending@) =~= Seq::empty());
            assert(frames_view(committed@) =~= Seq::empty());
            assert(target =~= frames_view(committed@) + target);
        }
        while pos < len
            invariant_except_break
                target == frames_view(committed@) + committed_after(
                    log@.skip(pos as int),
                    frames_view(pending@),
                ),
            invariant
                pos <= len,
                len == log@.len(),
            ensures
                target == frames_view(committed@),
            decreases len - pos,
        {
            let ghost rest = log@.skip(pos as int);
            let ghost batch = frames_view(pending@);
            if log[pos] == PAGE_FRAME_TAG {
                if len - pos < PAGE_FRAME_SIZE {
                    assert(target =~= frames_view(committed@));
                    break;
                }
                let page_no: u64 = bytes::read_u64(log, pos + 1);
                let data = vstd::slice::slice_subrange(log, pos + 9, pos + 4105);
                let stored: u32 = bytes::read_u32(log, pos + 4105);
                proof {
                    assert(rest.subrange(1, 9) =~= log@.subrange(pos + 1, pos + 9));
                    assert(rest.subrange(9, 4105) =~= data@);
                    assert(rest.subrange(4105, 4109) =~= log@.subrange(pos + 4105, pos + 4109));
                    assert(rest.skip(4109) =~= log@.skip(pos + 4109));
                }
                if checksum(data) != stored {
                    assert(target =~= frames_view(committed@));
                    break;
                }
                let mut page = Page::new();
                bytes::copy_into(page.as_bytes_mut(), 0, data);
                assert(page@ =~= data@);
                pending.push((page_no, page));
                assert(frames_view(pending@) =~= batch.push((page_no, data@)));
                pos += PAGE_FRAME_SIZE;
            } else if log[pos] == COMMIT_FRAME_TAG {
                let ghost done = frames_view(committed@);
                committed.append(&mut pending);
                proof {
                    assert(frames_view(committed@) =~= done + batch);
                    assert(frames_view(pending@) =~= Seq::empty());
                    assert(rest.skip(1) =~= log@.skip(pos + 1));
                    let after = committed_after(rest.skip(1), Seq::empty());
                    assert(done + (batch + after) =~= (done + batch) + after);
                }
                pos += 1;
            } else {
                assert(target =~= frames_view(committed@));
                break;
            }
        }
        committed
    }
}

/// A list of page writes is what each of them is, place by place.
pub proof fn law_page_writes(frames: Seq<(u64, Page)>, i: int)
    ensures
        frames_view(frames).len() == frames.len(),
        0 <= i < frames.len() ==> frames_view(frames)[i] == (frames[i].0, frames[i].1@),
{
}

} // verus!
