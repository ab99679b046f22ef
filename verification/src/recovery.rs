//! What a crash can leave of the files, and why replaying the log repairs it.

use crate::disk;
use crate::disk::byte_or_zero;
use crate::disk::extent;
use crate::disk::last_page;
use crate::disk::same_effect;
use crate::disk::write_all;
use crate::pager::ActionView;
use crate::pager::Image;
use crate::pager::commit_actions;
use crate::pager::page_writes;
use crate::pager::perform;
use crate::pager::perform_all;
use crate::pager::recovered;
use crate::pager::recovery_actions;
use crate::wal;
use crate::wal::COMMIT_FRAME_TAG;
use crate::wal::batch_bytes;
use crate::wal::committed_frames;
use crate::wal::frame_bytes;
use crate::wal::full_pages;
use vstd::prelude::*;

verus! {

/// `out` is what a crash may leave while `action` is under way: part of an
/// append, a page with any bytes in it, a log that was cut or not.
pub open spec fn interrupted(image: Image, action: ActionView, out: Image) -> bool {
    match action {
        ActionView::AppendLog(bytes) => {
            &&& out.file == image.file
            &&& exists|j: int|
                0 <= j <= bytes.len() && out.log == image.log + #[trigger] bytes.take(j)
        },
        ActionView::WritePage(n, page) => {
            &&& out.log == image.log
            &&& image.file.len() <= out.file.len() <= perform(image, action).file.len()
            &&& forall|i: int|
                0 <= i < out.file.len() && i / 4096 != n ==> #[trigger] out.file[i]
                    == byte_or_zero(image.file, i)
        },
        ActionView::TruncateLog(len) => out == image || out == perform(image, action),
        ActionView::SyncLog => out == image,
        ActionView::SyncFile => out == image,
    }
}

/// `out` is what a crash may leave at some point while `actions` are
/// performed one after the other.
pub open spec fn may_crash_to(image: Image, actions: Seq<ActionView>, out: Image) -> bool {
    ||| out == perform_all(image, actions)
    ||| exists|k: int|
        0 <= k < actions.len() && #[trigger] interrupted(
            perform_all(image, actions.take(k)),
            actions[k],
            out,
        )
}

/// The appends that record `frames` in the log.
pub open spec fn log_writes(frames: Seq<(u64, Seq<u8>)>) -> Seq<ActionView> {
    Seq::new(
        frames.len(),
        |i: int| ActionView::AppendLog(frame_bytes(frames[i].0, frames[i].1)),
    )
}

/// All that a transaction asks for: `logged` are its page writes in order,
/// `pending` the pages that are left of them at the commit.
pub open spec fn transaction_actions(
    logged: Seq<(u64, Seq<u8>)>,
    pending: Seq<(u64, Seq<u8>)>,
) -> Seq<ActionView> {
    log_writes(logged) + commit_actions(pending)
}

proof fn lemma_perform_more(image: Image, actions: Seq<ActionView>, k: int)
    requires
        0 <= k < actions.len(),
    ensures
        perform_all(image, actions.take(k + 1)) == perform(
            perform_all(image, actions.take(k)),
            actions[k],
        ),
{
    assert(actions.take(k + 1).drop_last() =~= actions.take(k));
    assert(actions.take(k + 1).last() == actions[k]);
}

/// One more action.
pub proof fn lemma_perform_push(image: Image, actions: Seq<ActionView>, action: ActionView)
    ensures
        perform_all(image, actions.push(action)) == perform(perform_all(image, actions), action),
{
    assert(actions.push(action).drop_last() =~= actions);
}

/// Two lists of actions, one after the other.
pub proof fn lemma_perform_add(image: Image, a: Seq<ActionView>, b: Seq<ActionView>)
    ensures
        perform_all(image, a + b) == perform_all(perform_all(image, a), b),
    decreases b.len(),
{
    if b.len() == 0 {
        assert(a + b =~= a);
    } else {
        lemma_perform_add(image, a, b.drop_last());
        assert((a + b).drop_last() =~= a + b.drop_last());
    }
}

/// Performing the actions of a commit brings its pages into the main file
/// and leaves the log empty.
pub proof fn lemma_commit_takes_effect(file: Seq<u8>, log: Seq<u8>, pending: Seq<(u64, Seq<u8>)>)
    ensures
        perform_all(Image { file, log }, commit_actions(pending)) == (Image {
            file: write_all(file, pending),
            log: Seq::empty(),
        }),
{
    let start = Image { file, log };
    let actions = commit_actions(pending);
    let n = pending.len() as int;
    assert(actions.take(0).len() == 0);
    lemma_perform_more(start, actions, 0);
    lemma_perform_more(start, actions, 1);
    let log2 = log + seq![COMMIT_FRAME_TAG];
    assert(perform_all(start, actions.take(2)) == (Image { file, log: log2 }));
    assert forall|i: int| 0 <= i < n implies #[trigger] actions[2 + i] == page_writes(
        pending,
    )[i] by {
    }
    lemma_applying(start, actions, 2, file, log2, pending, n);
    assert(pending.take(n) =~= pending);
    assert(actions[2 + n] == ActionView::SyncFile);
    assert(actions[3 + n] == ActionView::TruncateLog(0));
    lemma_perform_more(start, actions, 2 + n);
    lemma_perform_more(start, actions, 3 + n);
    assert(actions.take(4 + n) =~= actions);
    assert(log2.take(0) =~= Seq::empty());
}

proof fn lemma_no_frames(file: Seq<u8>)
    ensures
        write_all(file, committed_frames(Seq::empty())) == file,
        write_all(file, Seq::empty()) == file,
{
    assert(committed_frames(Seq::<u8>::empty()) =~= Seq::empty());
}

proof fn lemma_take_frames(frames: Seq<(u64, Seq<u8>)>, j: int, n: int)
    requires
        0 <= j <= frames.len(),
    ensures
        extent(frames.take(j)) <= extent(frames),
        last_page(frames, n) is None ==> last_page(frames.take(j), n) is None,
    decreases frames.len(),
{
    if j == frames.len() {
        assert(frames.take(j) =~= frames);
    } else {
        lemma_take_frames(frames.drop_last(), j, n);
        assert(frames.drop_last().take(j) =~= frames.take(j));
    }
}

/// The state after the first `k` steps of a transaction, while the log is
/// written.
proof fn lemma_logging(
    file: Seq<u8>,
    logged: Seq<(u64, Seq<u8>)>,
    pending: Seq<(u64, Seq<u8>)>,
    k: int,
)
    requires
        0 <= k <= logged.len(),
    ensures
        perform_all(
            Image { file, log: Seq::empty() },
            transaction_actions(logged, pending).take(k),
        ) == (Image { file, log: batch_bytes(logged.take(k)) }),
    decreases k,
{
    let start = Image { file, log: Seq::empty() };
    let actions = transaction_actions(logged, pending);
    if k == 0 {
        assert(batch_bytes(logged.take(0)) =~= Seq::empty());
        assert(actions.take(0).len() == 0);
    } else {
        lemma_logging(file, logged, pending, k - 1);
        lemma_perform_more(start, actions, k - 1);
        assert(actions[k - 1] == log_writes(logged)[k - 1]);
        assert(logged.take(k).drop_last() =~= logged.take(k - 1));
        assert(logged.take(k).last() == logged[k - 1]);
    }
}

/// Applying writes of the pages one by one, from step `first` of `actions`
/// on.
proof fn lemma_applying(
    start: Image,
    actions: Seq<ActionView>,
    first: int,
    file: Seq<u8>,
    log: Seq<u8>,
    frames: Seq<(u64, Seq<u8>)>,
    j: int,
)
    requires
        0 <= first,
        0 <= j <= frames.len(),
        first + frames.len() <= actions.len(),
        perform_all(start, actions.take(first)) == (Image { file, log }),
        forall|i: int|
            0 <= i < frames.len() ==> #[trigger] actions[first + i] == page_writes(frames)[i],
    ensures
        perform_all(start, actions.take(first + j)) == (Image {
            file: write_all(file, frames.take(j)),
            log,
        }),
    decreases j,
{
    if j == 0 {
        assert(frames.take(0) =~= Seq::empty());
    } else {
        lemma_applying(start, actions, first, file, log, frames, j - 1);
        lemma_perform_more(start, actions, first + j - 1);
        assert(actions[first + (j - 1)] == page_writes(frames)[j - 1]);
        assert(frames.take(j).drop_last() =~= frames.take(j - 1));
        assert(frames.take(j).last() == frames[j - 1]);
    }
}

/// A file in which only pages of `frames` were touched is repaired by a
/// replay.
proof fn lemma_repair(
    file: Seq<u8>,
    frames: Seq<(u64, Seq<u8>)>,
    pending: Seq<(u64, Seq<u8>)>,
    j: int,
    before: Image,
    out: Image,
)
    requires
        same_effect(frames, pending),
        0 <= j <= pending.len(),
        before.file == write_all(file, pending.take(j)),
        out.file == before.file || j < pending.len() && interrupted(
            before,
            ActionView::WritePage(pending[j].0, pending[j].1),
            out,
        ),
    ensures
        write_all(out.file, frames) == write_all(file, pending),
{
    disk::lemma_write_all(file, pending.take(j));
    lemma_take_frames(pending, j, 0);
    if j < pending.len() {
        lemma_take_frames(pending, j + 1, 0);
        let longer = pending.take(j + 1);
        assert(longer.drop_last() =~= pending.take(j));
        assert(longer.last() == pending[j]);
    }
    assert forall|i: int|
        0 <= i < out.file.len() && last_page(frames, i / 4096) is None implies #[trigger] out.file[i]
        == byte_or_zero(file, i) by {
        let n = i / 4096;
        assert(last_page(pending, n) is None);
        lemma_take_frames(pending, j, n);
        if j < pending.len() {
            let longer = pending.take(j + 1);
            lemma_take_frames(pending, j + 1, n);
            assert(longer.drop_last() =~= pending.take(j));
            assert(longer.last() == pending[j]);
            assert(pending[j].0 != n);
        }
        if i < before.file.len() {
            assert(before.file[i] == byte_or_zero(file, i));
        }
    }
    disk::law_replay_repairs(file, out.file, frames, pending);
}

/// A crash at any point of a transaction leaves files from which recovery
/// restores either the contents before the transaction or those after it.
/// From the moment the log with the commit frame is on storage, it is the
/// contents after it.
pub proof fn law_transaction_is_atomic(
    file: Seq<u8>,
    logged: Seq<(u64, Seq<u8>)>,
    pending: Seq<(u64, Seq<u8>)>,
    out: Image,
)
    requires
        full_pages(logged),
        same_effect(logged, pending),
        may_crash_to(
            Image { file, log: Seq::empty() },
            transaction_actions(logged, pending),
            out,
        ),
    ensures
        recovered(out) == file || recovered(out) == write_all(file, pending),
{
    let start = Image { file, log: Seq::empty() };
    let actions = transaction_actions(logged, pending);
    if out == perform_all(start, actions) {
        law_transaction_takes_effect(file, logged, pending);
        lemma_no_frames(out.file);
    } else {
        let k = choose|k: int|
            0 <= k < actions.len() && #[trigger] interrupted(
                perform_all(start, actions.take(k)),
                actions[k],
                out,
            );
        if k <= logged.len() {
            lemma_logging(file, logged, pending, k);
            let before = Image { file, log: batch_bytes(logged.take(k)) };
            let bytes = actions[k]->AppendLog_0;
            let j = choose|j: int|
                0 <= j <= bytes.len() && out.log == before.log + #[trigger] bytes.take(j);
            lemma_no_frames(file);
            if k < logged.len() {
                assert(actions[k] == log_writes(logged)[k]);
                let more = logged.take(k + 1);
                assert(more.drop_last() =~= logged.take(k));
                assert(more.last() == logged[k]);
                assert(full_pages(more));
                assert(out.log =~= batch_bytes(more).take(before.log.len() + j));
                wal::law_uncommitted_is_discarded(more, before.log.len() + j);
            } else {
                assert(logged.take(k) =~= logged);
                assert(bytes =~= seq![COMMIT_FRAME_TAG]);
                if j == 0 {
                    assert(out.log =~= batch_bytes(logged).take(batch_bytes(logged).len() as int));
                    wal::law_uncommitted_is_discarded(logged, batch_bytes(logged).len() as int);
                } else {
                    assert(out.log =~= batch_bytes(logged).push(COMMIT_FRAME_TAG));
                    wal::law_committed_is_replayed(logged);
                    disk::lemma_same_effect(file, logged, pending);
                }
            }
        } else {
            law_committed_is_durable(file, logged, pending, k, out);
        }
    }
}

/// A crash after the commit frame was brought to storage loses nothing.
pub proof fn law_committed_is_durable(
    file: Seq<u8>,
    logged: Seq<(u64, Seq<u8>)>,
    pending: Seq<(u64, Seq<u8>)>,
    k: int,
    out: Image,
)
    requires
        full_pages(logged),
        same_effect(logged, pending),
        logged.len() < k < transaction_actions(logged, pending).len(),
        interrupted(
            perform_all(
                Image { file, log: Seq::empty() },
                transaction_actions(logged, pending).take(k),
            ),
            transaction_actions(logged, pending)[k],
            out,
        ),
    ensures
        recovered(out) == write_all(file, pending),
{
    let start = Image { file, log: Seq::empty() };
    let actions = transaction_actions(logged, pending);
    let first = logged.len() as int + 2;
    let log = batch_bytes(logged).push(COMMIT_FRAME_TAG);
    let done = first + pending.len();
    lemma_committed_prefix(file, logged, pending);
    wal::law_committed_is_replayed(logged);
    if k < done {
        let j = if k < first {
            0
        } else {
            k - first
        };
        lemma_applying(start, actions, first, file, log, pending, j);
        assert(pending.take(0) =~= Seq::empty());
        if k >= first {
            assert(actions[first + j] == page_writes(pending)[j]);
        }
        let before = Image { file: write_all(file, pending.take(j)), log };
        lemma_repair(file, logged, pending, j, before, out);
    } else {
        let j = pending.len() as int;
        lemma_applying(start, actions, first, file, log, pending, j);
        let before = Image { file: write_all(file, pending.take(j)), log };
        assert(pending.take(j) =~= pending);
        assert(actions[done] == ActionView::SyncFile);
        assert(actions[done + 1] == ActionView::TruncateLog(0));
        if k == done + 1 {
            lemma_perform_more(start, actions, done);
        }
        if out.log.len() == 0 {
            assert(out.log =~= Seq::empty());
            lemma_no_frames(out.file);
        } else {
            lemma_repair(file, logged, pending, j, before, out);
        }
    }
}

/// The state once the commit frame is in the log, and the steps from there.
proof fn lemma_committed_prefix(
    file: Seq<u8>,
    logged: Seq<(u64, Seq<u8>)>,
    pending: Seq<(u64, Seq<u8>)>,
)
    ensures
        ({
            let start = Image { file, log: Seq::empty() };
            let actions = transaction_actions(logged, pending);
            let first = logged.len() as int + 2;
            let log = batch_bytes(logged).push(COMMIT_FRAME_TAG);
            &&& actions.len() == first + pending.len() + 2
            &&& perform_all(start, actions.take(first - 1)) == (Image { file, log })
            &&& perform_all(start, actions.take(first)) == (Image { file, log })
            &&& actions[first - 1] == ActionView::SyncLog
            &&& forall|i: int|
                0 <= i < pending.len() ==> #[trigger] actions[first + i] == page_writes(
                    pending,
                )[i]
        }),
{
    let start = Image { file, log: Seq::empty() };
    let actions = transaction_actions(logged, pending);
    let n = logged.len() as int;
    lemma_logging(file, logged, pending, n);
    assert(logged.take(n) =~= logged);
    assert(actions[n] == ActionView::AppendLog(seq![COMMIT_FRAME_TAG]));
    lemma_perform_more(start, actions, n);
    assert(batch_bytes(logged) + seq![COMMIT_FRAME_TAG] =~= batch_bytes(logged).push(
        COMMIT_FRAME_TAG,
    ));
    assert(actions[n + 1] == ActionView::SyncLog);
    lemma_perform_more(start, actions, n + 1);
}

/// Performing all of a transaction's actions brings its pages into the main
/// file and leaves the log empty.
pub proof fn law_transaction_takes_effect(
    file: Seq<u8>,
    logged: Seq<(u64, Seq<u8>)>,
    pending: Seq<(u64, Seq<u8>)>,
)
    ensures
        perform_all(
            Image { file, log: Seq::empty() },
            transaction_actions(logged, pending),
        ) == (Image { file: write_all(file, pending), log: Seq::empty() }),
{
    let start = Image { file, log: Seq::empty() };
    let actions = transaction_actions(logged, pending);
    let first = logged.len() as int + 2;
    let j = pending.len() as int;
    lemma_committed_prefix(file, logged, pending);
    lemma_applying(
        start,
        actions,
        first,
        file,
        batch_bytes(logged).push(COMMIT_FRAME_TAG),
        pending,
        j,
    );
    assert(pending.take(j) =~= pending);
    assert(actions[first + j] == ActionView::SyncFile);
    assert(actions[first + j + 1] == ActionView::TruncateLog(0));
    lemma_perform_more(start, actions, first + j);
    lemma_perform_more(start, actions, first + j + 1);
    assert(actions.take(first + j + 2) =~= actions);
    let before = perform_all(start, actions.take(first + j + 1));
    assert(before.log.take(0) =~= Seq::empty());
}

/// The steps of a recovery: the pages are written, then the log is emptied.
proof fn lemma_recovering(image: Image, j: int)
    requires
        committed_frames(image.log).len() > 0,
        0 <= j <= committed_frames(image.log).len(),
    ensures
        ({
            let frames = committed_frames(image.log);
            let actions = recovery_actions(image.log);
            let n = frames.len() as int;
            &&& actions.len() == n + 2
            &&& actions[n] == ActionView::SyncFile
            &&& actions[n + 1] == ActionView::TruncateLog(0)
            &&& j < n ==> actions[j] == ActionView::WritePage(frames[j].0, frames[j].1)
            &&& perform_all(image, actions.take(j)) == (Image {
                file: write_all(image.file, frames.take(j)),
                log: image.log,
            })
        }),
{
    let frames = committed_frames(image.log);
    let actions = recovery_actions(image.log);
    assert(actions.take(0).len() == 0);
    assert forall|i: int| 0 <= i < frames.len() implies #[trigger] actions[0 + i] == page_writes(
        frames,
    )[i] by {
    }
    if j < frames.len() {
        assert(actions[0 + j] == page_writes(frames)[j]);
    }
    lemma_applying(image, actions, 0, image.file, image.log, frames, j);
}

/// Recovery may itself be cut short at any point: recovering again gives the
/// same contents.
pub proof fn law_recovery_can_be_interrupted(image: Image, out: Image)
    requires
        may_crash_to(image, recovery_actions(image.log), out),
    ensures
        recovered(out) == recovered(image),
{
    let frames = committed_frames(image.log);
    let actions = recovery_actions(image.log);
    law_recovery_takes_effect(image);
    lemma_no_frames(image.file);
    lemma_no_frames(recovered(image));
    if out != perform_all(image, actions) {
        let k = choose|k: int|
            0 <= k < actions.len() && #[trigger] interrupted(
                perform_all(image, actions.take(k)),
                actions[k],
                out,
            );
        if frames.len() == 0 {
            assert(actions.take(0).len() == 0);
            assert(image.log.take(0) =~= Seq::empty());
            assert(frames =~= Seq::empty());
        } else {
            let j = if k < frames.len() {
                k
            } else {
                frames.len() as int
            };
            lemma_recovering(image, j);
            if k > frames.len() {
                lemma_perform_more(image, actions, frames.len() as int);
            }
            let before = Image { file: write_all(image.file, frames.take(j)), log: image.log };
            if out.log == image.log {
                lemma_repair(image.file, frames, frames, j, before, out);
            } else {
                assert(frames.take(j) =~= frames);
                assert(image.log.take(0) =~= Seq::empty());
            }
        }
    }
}

/// Performing the actions of a recovery brings the committed pages into the
/// main file and leaves the log empty.
pub proof fn law_recovery_takes_effect(image: Image)
    ensures
        perform_all(image, recovery_actions(image.log)) == (Image {
            file: recovered(image),
            log: Seq::empty(),
        }),
{
    let frames = committed_frames(image.log);
    let actions = recovery_actions(image.log);
    let n = frames.len() as int;
    assert(image.log.take(0) =~= Seq::empty());
    if image.log.len() == 0 {
        assert(image.log =~= Seq::empty());
        lemma_no_frames(image.file);
    } else if n == 0 {
        assert(frames =~= Seq::empty());
        assert(actions.drop_last() =~= Seq::empty());
        assert(perform_all(image, actions.drop_last()) == image);
    } else {
        lemma_recovering(image, n);
        assert(frames.take(n) =~= frames);
        lemma_perform_more(image, actions, n);
        lemma_perform_more(image, actions, n + 1);
        assert(actions.take(n + 2) =~= actions);
    }
}

/// A crash during two lists of actions is a crash during one of them.
pub proof fn lemma_crash_add(image: Image, a: Seq<ActionView>, b: Seq<ActionView>, out: Image)
    ensures
        may_crash_to(image, a + b, out) ==> may_crash_to(image, a, out) || may_crash_to(
            perform_all(image, a),
            b,
            out,
        ),
        may_crash_to(perform_all(image, a), b, out) ==> may_crash_to(image, a + b, out),
{
    let all = a + b;
    let middle = perform_all(image, a);
    lemma_perform_add(image, a, b);
    if may_crash_to(image, all, out) && out != perform_all(image, all) {
        let k = choose|k: int|
            0 <= k < all.len() && #[trigger] interrupted(
                perform_all(image, all.take(k)),
                all[k],
                out,
            );
        if k < a.len() {
            assert(all.take(k) =~= a.take(k));
            assert(interrupted(perform_all(image, a.take(k)), a[k], out));
        } else {
            let j = k - a.len();
            lemma_perform_add(image, a, b.take(j));
            assert(all.take(k) =~= a + b.take(j));
            assert(interrupted(perform_all(middle, b.take(j)), b[j], out));
        }
    }
    if may_crash_to(middle, b, out) && out != perform_all(middle, b) {
        let j = choose|j: int|
            0 <= j < b.len() && #[trigger] interrupted(
                perform_all(middle, b.take(j)),
                b[j],
                out,
            );
        let k = j + a.len();
        lemma_perform_add(image, a, b.take(j));
        assert(all.take(k) =~= a + b.take(j));
        assert(interrupted(perform_all(image, all.take(k)), all[k], out));
    }
}

/// A crash during a single action.
proof fn lemma_crash_one(image: Image, action: ActionView, out: Image)
    requires
        may_crash_to(image, seq![action], out),
    ensures
        out == perform(image, action) || interrupted(image, action, out),
{
    let actions = seq![action];
    assert(actions.drop_last() =~= Seq::empty());
    assert(perform_all(image, Seq::empty()) == image);
    assert(perform_all(image, actions) == perform(image, action));
    if out != perform_all(image, actions) {
        let k = choose|k: int|
            0 <= k < actions.len() && #[trigger] interrupted(
                perform_all(image, actions.take(k)),
                actions[k],
                out,
            );
        assert(actions.take(k) =~= Seq::empty());
    }
}

/// A crash while one more page is recorded leaves the contents before the
/// transaction.
pub proof fn lemma_logging_is_harmless(
    file: Seq<u8>,
    logged: Seq<(u64, Seq<u8>)>,
    frame: (u64, Seq<u8>),
    out: Image,
)
    requires
        full_pages(logged),
        full_pages(seq![frame]),
        may_crash_to(
            Image { file, log: batch_bytes(logged) },
            seq![ActionView::AppendLog(frame_bytes(frame.0, frame.1))],
            out,
        ),
    ensures
        recovered(out) == file,
{
    let start = Image { file, log: batch_bytes(logged) };
    let bytes = frame_bytes(frame.0, frame.1);
    let actions = seq![ActionView::AppendLog(bytes)];
    let more = logged.push(frame);
    let whole = batch_bytes(more);
    assert(more.drop_last() =~= logged);
    assert(whole == batch_bytes(logged) + bytes);
    assert(full_pages(more)) by {
        assert forall|i: int| 0 <= i < more.len() implies (#[trigger] more[i]).1.len() == 4096 by {
            if i == logged.len() {
                assert(seq![frame][0].1.len() == 4096);
            } else {
                assert(more[i] == logged[i]);
            }
        }
    }
    lemma_crash_one(start, actions[0], out);
    lemma_no_frames(file);
    let cut = if out == perform(start, actions[0]) {
        whole.len() as int
    } else {
        let j = choose|j: int|
            0 <= j <= bytes.len() && out.log == start.log + #[trigger] bytes.take(j);
        batch_bytes(logged).len() + j
    };
    assert(out.log =~= whole.take(cut));
    wal::law_uncommitted_is_discarded(more, cut);
}

/// A crash during a commit leaves the contents before or after it.
pub proof fn lemma_commit_is_atomic(
    file: Seq<u8>,
    logged: Seq<(u64, Seq<u8>)>,
    pending: Seq<(u64, Seq<u8>)>,
    out: Image,
)
    requires
        full_pages(logged),
        same_effect(logged, pending),
        may_crash_to(Image { file, log: batch_bytes(logged) }, commit_actions(pending), out),
    ensures
        recovered(out) == file || recovered(out) == write_all(file, pending),
{
    let start = Image { file, log: Seq::empty() };
    let n = logged.len() as int;
    lemma_logging(file, logged, pending, n);
    assert(logged.take(n) =~= logged);
    assert(transaction_actions(logged, pending).take(n) =~= log_writes(logged));
    lemma_crash_add(start, log_writes(logged), commit_actions(pending), out);
    law_transaction_is_atomic(file, logged, pending, out);
}

/// A crash while the log is cut back leaves the contents before the
/// transaction.
pub proof fn lemma_cut_is_harmless(file: Seq<u8>, logged: Seq<(u64, Seq<u8>)>, out: Image)
    requires
        full_pages(logged),
        may_crash_to(
            Image { file, log: batch_bytes(logged) },
            seq![ActionView::TruncateLog(0)],
            out,
        ),
    ensures
        recovered(out) == file,
{
    let start = Image { file, log: batch_bytes(logged) };
    lemma_crash_one(start, ActionView::TruncateLog(0), out);
    lemma_no_frames(file);
    assert(start.log.take(0) =~= Seq::empty());
    assert(start.log =~= batch_bytes(logged).take(batch_bytes(logged).len() as int));
    wal::law_uncommitted_is_discarded(logged, batch_bytes(logged).len() as int);
}

/// A log without a commit frame changes nothing.
pub proof fn lemma_uncommitted(file: Seq<u8>, logged: Seq<(u64, Seq<u8>)>)
    requires
        full_pages(logged),
    ensures
        recovered(Image { file, log: batch_bytes(logged) }) == file,
        recovered(Image { file, log: Seq::empty() }) == file,
{
    let all = batch_bytes(logged);
    assert(all =~= all.take(all.len() as int));
    wal::law_uncommitted_is_discarded(logged, all.len() as int);
    lemma_no_frames(file);
}

/// A crash while the main file is brought to storage changes nothing.
pub proof fn lemma_sync_is_harmless(image: Image, out: Image)
    requires
        may_crash_to(image, seq![ActionView::SyncFile], out),
    ensures
        out == image,
{
    lemma_crash_one(image, ActionView::SyncFile, out);
}

/// A commit of one page that was recorded just before.
pub proof fn lemma_single_is_atomic(file: Seq<u8>, frame: (u64, Seq<u8>), out: Image)
    requires
        full_pages(seq![frame]),
        may_crash_to(
            Image { file, log: Seq::empty() },
            seq![ActionView::AppendLog(frame_bytes(frame.0, frame.1))] + commit_actions(
                seq![frame],
            ),
            out,
        ),
    ensures
        recovered(out) == file || recovered(out) == write_all(file, seq![frame]),
{
    let frames = seq![frame];
    assert(log_writes(frames) =~= seq![ActionView::AppendLog(frame_bytes(frame.0, frame.1))]);
    law_transaction_is_atomic(file, frames, frames, out);
}

/// After a crash, the main file is brought to where all transactions that were
/// complete in the log have been carried out, one after the other, and nothing
/// else: neither a part of an open transaction nor anything behind a place of
/// the log that cannot be read.
pub proof fn law_complete_transactions_are_recovered(
    file: Seq<u8>,
    transactions: Seq<Seq<(u64, Seq<u8>)>>,
    open: Seq<(u64, Seq<u8>)>,
    rest: Seq<u8>,
)
    requires
        wal::all_full(transactions),
        full_pages(open),
        wal::unreadable(rest),
    ensures
        ({
            let image = Image { file, log: wal::log_of(transactions) + batch_bytes(open) + rest };
            let frames = transactions.flatten();
            &&& recovered(image) == write_all(file, frames)
            &&& forall|k: int|
                0 <= k < frames.len() && (forall|j: int|
                    k < j < frames.len() ==> (#[trigger] frames[j]).0 != frames[k].0)
                    ==> recovered(image).subrange(
                    (#[trigger] frames[k]).0 * 4096,
                    frames[k].0 * 4096 + 4096,
                ) == frames[k].1
            &&& forall|i: int|
                0 <= i < recovered(image).len() && (forall|k: int|
                    0 <= k < frames.len() ==> (#[trigger] frames[k]).0 != i / 4096)
                    ==> #[trigger] recovered(image)[i] == byte_or_zero(file, i)
        }),
{
    let frames = transactions.flatten();
    let log = wal::log_of(transactions) + batch_bytes(open) + rest;
    let all = recovered(Image { file, log });
    wal::law_reading_stops_at_damage(transactions, open, rest);
    lemma_flattened_is_full(transactions);
    assert forall|k: int|
        0 <= k < frames.len() && (forall|j: int|
            k < j < frames.len() ==> (#[trigger] frames[j]).0 != frames[k].0) implies all.subrange(
        (#[trigger] frames[k]).0 * 4096,
        frames[k].0 * 4096 + 4096,
    ) == frames[k].1 by {
        assert(frames[k].1.len() == 4096);
        disk::law_last_write_counts(file, frames, k);
    }
    assert forall|i: int|
        0 <= i < all.len() && (forall|k: int|
            0 <= k < frames.len() ==> (#[trigger] frames[k]).0 != i / 4096) implies #[trigger] all[i]
        == byte_or_zero(file, i) by {
        disk::law_untouched_bytes_stay(file, frames, i);
    }
}

proof fn lemma_flattened_is_full(transactions: Seq<Seq<(u64, Seq<u8>)>>)
    requires
        wal::all_full(transactions),
    ensures
        full_pages(transactions.flatten()),
    decreases transactions.len(),
{
    if transactions.len() > 0 {
        let others = transactions.drop_first();
        assert forall|i: int| 0 <= i < others.len() implies full_pages(#[trigger] others[i]) by {
            assert(others[i] == transactions[i + 1]);
        }
        lemma_flattened_is_full(others);
        assert(full_pages(transactions[0]));
        let all = transactions.flatten();
        let first = transactions.first();
        assert(all == first + others.flatten());
        assert forall|i: int| 0 <= i < all.len() implies (#[trigger] all[i]).1.len() == 4096 by {
            if i < first.len() {
                assert(all[i] == first[i]);
            } else {
                assert(all[i] == others.flatten()[i - first.len()]);
            }
        }
    }
}

/// Files are refused only where a page would lie beyond 2 to the power 63
/// bytes.
pub proof fn law_ordinary_files_are_opened(image: Image)
    requires
        image.file.len() < 0x8000_0000_0000_0000,
        forall|k: int|
            0 <= k < committed_frames(image.log).len() ==> (#[trigger] committed_frames(
                image.log,
            )[k]).0 < 0x8_0000_0000_0000,
    ensures
        !crate::pager::too_large(image),
{
    disk::law_file_grows_to_its_writes(image.file, committed_frames(image.log));
}

/// The order in which a transaction is committed: the commit frame is in the
/// log, and the log on storage, before any page is written to the main file;
/// all pages are on storage before the log is emptied.
pub proof fn law_order_of_a_commit(frames: Seq<(u64, Seq<u8>)>)
    ensures
        ({
            let actions = commit_actions(frames);
            let n = frames.len() as int;
            &&& actions.len() == n + 4
            &&& actions[0] == ActionView::AppendLog(seq![2u8])
            &&& actions[1] == ActionView::SyncLog
            &&& forall|i: int|
                0 <= i < n ==> #[trigger] actions[2 + i] == ActionView::WritePage(
                    frames[i].0,
                    frames[i].1,
                )
            &&& actions[n + 2] == ActionView::SyncFile
            &&& actions[n + 3] == ActionView::TruncateLog(0)
        }),
{
}

/// The order of a recovery: all pages of complete transactions are written and
/// on storage before the log is emptied. Where the log is empty nothing is
/// done.
pub proof fn law_order_of_a_recovery(log: Seq<u8>)
    ensures
        ({
            let actions = recovery_actions(log);
            let frames = committed_frames(log);
            let n = frames.len() as int;
            &&& log.len() == 0 ==> actions.len() == 0
            &&& log.len() > 0 && n == 0 ==> actions == seq![ActionView::TruncateLog(0)]
            &&& n > 0 ==> {
                &&& actions.len() == n + 2
                &&& forall|i: int|
                    0 <= i < n ==> #[trigger] actions[i] == ActionView::WritePage(
                        frames[i].0,
                        frames[i].1,
                    )
                &&& actions[n] == ActionView::SyncFile
                &&& actions[n + 1] == ActionView::TruncateLog(0)
            }
        }),
{
}

/// What the actions do: an append lengthens the log, a page write puts the page
/// into the main file, a cut keeps the beginning of the log, and a sync changes
/// nothing. They are performed one after the other.
pub proof fn law_effect_of_actions(
    image: Image,
    a: Seq<ActionView>,
    b: Seq<ActionView>,
    action: ActionView,
)
    ensures
        perform_all(image, a + b) == perform_all(perform_all(image, a), b),
        perform_all(image, seq![action]) == match action {
            ActionView::AppendLog(bytes) => Image { file: image.file, log: image.log + bytes },
            ActionView::SyncLog => image,
            ActionView::WritePage(n, page) => Image {
                file: disk::write_at(image.file, n as int, page),
                log: image.log,
            },
            ActionView::SyncFile => image,
            ActionView::TruncateLog(len) => Image {
                file: image.file,
                log: image.log.take(len as int),
            },
        },
    decreases b.len(),
{
    assert(seq![action].drop_last() =~= Seq::empty());
    reveal_with_fuel(perform_all, 2);
    if b.len() == 0 {
        assert(a + b =~= a);
    } else {
        law_effect_of_actions(image, a, b.drop_last(), action);
        assert((a + b).drop_last() =~= a + b.drop_last());
        assert((a + b).last() == b.last());
    }
}

/// A crash may leave the files as they are after any number of the actions. It
/// may cut an append off after any number of bytes, and may leave any bytes in
/// the page that is being written.
pub proof fn law_a_crash_may_come_anywhere(
    image: Image,
    actions: Seq<ActionView>,
    k: int,
    j: int,
    out: Image,
)
    requires
        0 <= k < actions.len(),
    ensures
        ({
            let reached = perform_all(image, actions.take(k));
            &&& may_crash_to(image, actions, reached)
            &&& may_crash_to(image, actions, perform_all(image, actions))
            &&& actions[k] matches ActionView::AppendLog(bytes) ==> (0 <= j <= bytes.len()
                ==> may_crash_to(
                image,
                actions,
                Image { file: reached.file, log: reached.log + bytes.take(j) },
            ))
            &&& actions[k] matches ActionView::WritePage(n, _) ==> (out.log == reached.log
                && out.file.len() == reached.file.len() && (forall|i: int|
                0 <= i < out.file.len() && i / 4096 != n ==> #[trigger] out.file[i]
                    == reached.file[i]) ==> may_crash_to(image, actions, out))
        }),
{
    let reached = perform_all(image, actions.take(k));
    match actions[k] {
        ActionView::AppendLog(bytes) => {
            assert(reached.log + bytes.take(0) =~= reached.log);
            assert(interrupted(reached, actions[k], reached));
            if 0 <= j <= bytes.len() {
                let cut = Image { file: reached.file, log: reached.log + bytes.take(j) };
                assert(interrupted(reached, actions[k], cut));
            }
        },
        ActionView::WritePage(n, page) => {
            disk::lemma_write_all(reached.file, seq![(n, page)]);
            assert(interrupted(reached, actions[k], reached));
            if out.log == reached.log && out.file.len() == reached.file.len() && (forall|i: int|
                0 <= i < out.file.len() && i / 4096 != n ==> #[trigger] out.file[i]
                    == reached.file[i]) {
                assert(interrupted(reached, actions[k], out));
            }
        },
        _ => {
            assert(interrupted(reached, actions[k], reached));
        },
    }
}

} // verus!
