//! The contents of the main file, held page by page.

use crate::bytes;
use crate::pager::Page;
use std::collections::HashMap;
use vstd::prelude::*;

verus! {

/// Page numbers stay below this bound: the byte offset of a page has to fit
/// in a signed 64-bit file offset.
pub const PAGE_LIMIT: u64 = 0x8_0000_0000_0000;

/// Page `n` of a file, if the file is long enough to hold all of it.
pub open spec fn file_page(file: Seq<u8>, n: int) -> Option<Seq<u8>> {
    if 0 <= n && (n + 1) * 4096 <= file.len() {
        Some(file.subrange(n * 4096, (n + 1) * 4096))
    } else {
        None
    }
}

/// `file` after `page` was written to the slot of page `n`. A write beyond
/// the end leaves zeros in between.
pub open spec fn write_at(file: Seq<u8>, n: int, page: Seq<u8>) -> Seq<u8> {
    Seq::new(
        if (n + 1) * 4096 <= file.len() {
            file.len()
        } else {
            ((n + 1) * 4096) as nat
        },
        |i: int|
            if n * 4096 <= i < (n + 1) * 4096 {
                page[i - n * 4096]
            } else if i < file.len() {
                file[i]
            } else {
                0
            },
    )
}

/// `file` after all of `frames` were written, first to last.
pub open spec fn write_all(file: Seq<u8>, frames: Seq<(u64, Seq<u8>)>) -> Seq<u8>
    decreases frames.len(),
{
    if frames.len() == 0 {
        file
    } else {
        let (n, page) = frames.last();
        write_at(write_all(file, frames.drop_last()), n as int, page)
    }
}

/// The last page that `frames` hold for page number `n`.
pub open spec fn last_page(frames: Seq<(u64, Seq<u8>)>, n: int) -> Option<Seq<u8>>
    decreases frames.len(),
{
    if frames.len() == 0 {
        None
    } else if frames.last().0 == n {
        Some(frames.last().1)
    } else {
        last_page(frames.drop_last(), n)
    }
}

/// The length a file has at least once `frames` were written to it.
pub open spec fn extent(frames: Seq<(u64, Seq<u8>)>) -> nat
    decreases frames.len(),
{
    if frames.len() == 0 {
        0
    } else {
        let before = extent(frames.drop_last());
        let end = (frames.last().0 + 1) as nat * 4096;
        if before < end {
            end
        } else {
            before
        }
    }
}

/// The byte at `i`, zero beyond the end.
pub open spec fn byte_or_zero(file: Seq<u8>, i: int) -> u8 {
    if 0 <= i < file.len() {
        file[i]
    } else {
        0
    }
}

/// Two lists of frames have the same effect on any file: for each page the
/// same last contents, and the same reach.
pub open spec fn same_effect(a: Seq<(u64, Seq<u8>)>, b: Seq<(u64, Seq<u8>)>) -> bool {
    &&& extent(a) == extent(b)
    &&& forall|n: int| #[trigger] last_page(a, n) == last_page(b, n)
}

/// `frames` without those for page number `n`.
pub open spec fn without_page(frames: Seq<(u64, Seq<u8>)>, n: u64) -> Seq<(u64, Seq<u8>)>
    decreases frames.len(),
{
    if frames.len() == 0 {
        frames
    } else if frames.last().0 == n {
        without_page(frames.drop_last(), n)
    } else {
        without_page(frames.drop_last(), n).push(frames.last())
    }
}

/// The full pages of a file.
pub open spec fn pages_of(file: Seq<u8>) -> Seq<Seq<u8>> {
    Seq::new(file.len() / 4096, |n: int| file.subrange(n * 4096, (n + 1) * 4096))
}

/// What a file holds after `frames` were written to it.
pub proof fn lemma_write_all(file: Seq<u8>, frames: Seq<(u64, Seq<u8>)>)
    ensures
        write_all(file, frames).len() == if file.len() < extent(frames) {
            extent(frames)
        } else {
            file.len()
        },
        forall|i: int|
            0 <= i < write_all(file, frames).len() ==> #[trigger] write_all(file, frames)[i]
                == match last_page(frames, i / 4096) {
                Some(page) => page[i % 4096],
                None => byte_or_zero(file, i),
            },
    decreases frames.len(),
{
    if frames.len() > 0 {
        let init = frames.drop_last();
        let (n, page) = frames.last();
        lemma_write_all(file, init);
        let before = write_all(file, init);
        let after = write_all(file, frames);
        assert forall|i: int| 0 <= i < after.len() implies #[trigger] after[i] == match last_page(
            frames,
            i / 4096,
        ) {
            Some(page) => page[i % 4096],
            None => byte_or_zero(file, i),
        } by {
            assert(i == (i / 4096) * 4096 + i % 4096);
            if n * 4096 <= i < (n + 1) * 4096 {
                assert(i / 4096 == n);
            } else {
                assert(i / 4096 != n);
                if i < before.len() {
                    assert(before[i] == after[i]);
                } else if last_page(init, i / 4096) is Some {
                    lemma_last_page_extent(init, i / 4096);
                }
            }
        }
    }
}

/// A page that some frame holds lies within the reach of the frames.
pub proof fn lemma_last_page_extent(frames: Seq<(u64, Seq<u8>)>, n: int)
    requires
        last_page(frames, n) is Some,
    ensures
        0 <= n,
        (n + 1) * 4096 <= extent(frames),
    decreases frames.len(),
{
    if frames.last().0 != n {
        lemma_last_page_extent(frames.drop_last(), n);
    }
}

/// The last write of a page counts: it is what the file holds there.
pub proof fn law_last_write_counts(file: Seq<u8>, frames: Seq<(u64, Seq<u8>)>, k: int)
    requires
        0 <= k < frames.len(),
        frames[k].1.len() == 4096,
        forall|j: int| k < j < frames.len() ==> (#[trigger] frames[j]).0 != frames[k].0,
    ensures
        ({
            let start = frames[k].0 * 4096;
            &&& start + 4096 <= write_all(file, frames).len()
            &&& write_all(file, frames).subrange(start, start + 4096) == frames[k].1
        }),
{
    let n = frames[k].0 as int;
    let written = write_all(file, frames);
    lemma_last_page_is(frames, k);
    lemma_last_page_extent(frames, n);
    lemma_write_all(file, frames);
    assert forall|i: int| 0 <= i < 4096 implies #[trigger] written.subrange(
        n * 4096,
        n * 4096 + 4096,
    )[i] == frames[k].1[i] by {
        let at = n * 4096 + i;
        assert(at / 4096 == n && at % 4096 == i);
        assert(written[at] == frames[k].1[i]);
    }
    assert(written.subrange(n * 4096, n * 4096 + 4096) =~= frames[k].1);
}

proof fn lemma_last_page_is(frames: Seq<(u64, Seq<u8>)>, k: int)
    requires
        0 <= k < frames.len(),
        forall|j: int| k < j < frames.len() ==> (#[trigger] frames[j]).0 != frames[k].0,
    ensures
        last_page(frames, frames[k].0 as int) == Some(frames[k].1),
    decreases frames.len(),
{
    if k < frames.len() - 1 {
        assert(frames[frames.len() - 1].0 != frames[k].0);
        lemma_last_page_is(frames.drop_last(), k);
    }
}

proof fn lemma_last_page_from(frames: Seq<(u64, Seq<u8>)>, n: int) -> (k: int)
    requires
        last_page(frames, n) is Some,
    ensures
        0 <= k < frames.len(),
        frames[k].0 == n,
    decreases frames.len(),
{
    if frames.last().0 == n {
        frames.len() - 1
    } else {
        lemma_last_page_from(frames.drop_last(), n)
    }
}

/// What no write touches stays as it was, and where the file grows by itself
/// there are zeros.
pub proof fn law_untouched_bytes_stay(file: Seq<u8>, frames: Seq<(u64, Seq<u8>)>, i: int)
    requires
        0 <= i < write_all(file, frames).len(),
        forall|k: int| 0 <= k < frames.len() ==> (#[trigger] frames[k]).0 != i / 4096,
    ensures
        write_all(file, frames)[i] == if i < file.len() {
            file[i]
        } else {
            0
        },
{
    lemma_write_all(file, frames);
    if last_page(frames, i / 4096) is Some {
        let k = lemma_last_page_from(frames, i / 4096);
        assert(frames[k].0 != i / 4096);
    }
}

/// A file grows as far as the writes reach, and never shrinks.
pub proof fn law_file_grows_to_its_writes(file: Seq<u8>, frames: Seq<(u64, Seq<u8>)>)
    ensures
        file.len() <= write_all(file, frames).len(),
        forall|k: int|
            0 <= k < frames.len() ==> ((#[trigger] frames[k]).0 + 1) * 4096 <= write_all(
                file,
                frames,
            ).len(),
        write_all(file, frames).len() == file.len() || exists|k: int|
            0 <= k < frames.len() && ((#[trigger] frames[k]).0 + 1) * 4096 == write_all(
                file,
                frames,
            ).len(),
    decreases frames.len(),
{
    if frames.len() > 0 {
        let init = frames.drop_last();
        law_file_grows_to_its_writes(file, init);
        let len = write_all(file, init).len();
        assert forall|k: int| 0 <= k < frames.len() implies ((#[trigger] frames[k]).0 + 1) * 4096
            <= write_all(file, frames).len() by {
            if k < init.len() {
                assert(init[k] == frames[k]);
            }
        }
        if write_all(file, frames).len() == len {
            if len != file.len() {
                let k = choose|k: int|
                    0 <= k < init.len() && ((#[trigger] init[k]).0 + 1) * 4096 == len;
                assert(frames[k] == init[k]);
            }
        } else {
            assert((frames[frames.len() - 1].0 + 1) * 4096 == write_all(file, frames).len());
        }
    }
}

/// Replaying `frames` repairs any damage inside their pages: it does not
/// matter what the file held there, nor whether it had grown already.
pub proof fn law_replay_repairs(
    file: Seq<u8>,
    damaged: Seq<u8>,
    frames: Seq<(u64, Seq<u8>)>,
    same: Seq<(u64, Seq<u8>)>,
)
    requires
        same_effect(frames, same),
        file.len() <= damaged.len(),
        damaged.len() <= file.len() || damaged.len() <= extent(frames),
        forall|i: int|
            0 <= i < damaged.len() && last_page(frames, i / 4096) is None
                ==> #[trigger] damaged[i] == byte_or_zero(file, i),
    ensures
        write_all(damaged, frames) == write_all(file, same),
{
    lemma_write_all(file, same);
    lemma_write_all(damaged, frames);
    let a = write_all(damaged, frames);
    let b = write_all(file, same);
    assert forall|i: int| 0 <= i < a.len() implies a[i] == b[i] by {
        assert(last_page(frames, i / 4096) == last_page(same, i / 4096));
    }
    assert(a =~= b);
}

/// Dropping earlier frames for a page before writing that page again changes
/// nothing.
pub proof fn lemma_replace_page(frames: Seq<(u64, Seq<u8>)>, n: u64, page: Seq<u8>)
    ensures
        same_effect(frames.push((n, page)), without_page(frames, n).push((n, page))),
{
    lemma_without_page(frames, n);
    let a = frames.push((n, page));
    let b = without_page(frames, n).push((n, page));
    assert(a.drop_last() =~= frames);
    assert(b.drop_last() =~= without_page(frames, n));
    assert forall|m: int| #[trigger] last_page(a, m) == last_page(b, m) by {
        assert(m != n ==> last_page(without_page(frames, n), m) == last_page(frames, m));
    }
}

pub proof fn lemma_without_page(frames: Seq<(u64, Seq<u8>)>, n: u64)
    ensures
        forall|m: int|
            #[trigger] last_page(without_page(frames, n), m) == if m == n {
                None
            } else {
                last_page(frames, m)
            },
        extent(without_page(frames, n)) <= extent(frames),
        extent(frames) <= extent(without_page(frames, n)) || extent(frames) <= (n + 1) * 4096,
        forall|i: int|
            0 <= i < without_page(frames, n).len() ==> (#[trigger] without_page(frames, n)[i]).0
                != n,
    decreases frames.len(),
{
    if frames.len() > 0 {
        let init = frames.drop_last();
        lemma_without_page(init, n);
        let rest = without_page(frames, n);
        if frames.last().0 != n {
            assert(rest.drop_last() =~= without_page(init, n));
            assert(rest.last() == frames.last());
        }
        assert forall|m: int|
            #[trigger] last_page(rest, m) == if m == n {
                None
            } else {
                last_page(frames, m)
            } by {
            assert(last_page(without_page(init, n), m) == if m == n {
                None
            } else {
                last_page(init, m)
            });
        }
    }
}

/// Writing lists of frames of the same effect gives the same file.
pub proof fn lemma_same_effect(
    file: Seq<u8>,
    a: Seq<(u64, Seq<u8>)>,
    b: Seq<(u64, Seq<u8>)>,
)
    requires
        same_effect(a, b),
    ensures
        write_all(file, a) == write_all(file, b),
{
    law_replay_repairs(file, file, a, b);
}

/// The pages after one page was written in place or added at the end.
pub proof fn lemma_pages_of_write(file: Seq<u8>, n: int, page: Seq<u8>)
    requires
        0 <= n <= file.len() / 4096,
        page.len() == 4096,
    ensures
        n < file.len() / 4096 ==> pages_of(write_at(file, n, page)) == pages_of(file).update(
            n,
            page,
        ),
        n == file.len() / 4096 ==> pages_of(write_at(file, n, page)) == pages_of(file).push(page),
{
    let after = write_at(file, n, page);
    assert forall|k: int| 0 <= k < pages_of(after).len() implies #[trigger] pages_of(after)[k]
        == if k == n {
        page
    } else {
        pages_of(file)[k]
    } by {
        let got = after.subrange(k * 4096, (k + 1) * 4096);
        if k == n {
            assert(got =~= page);
        } else {
            assert(got =~= file.subrange(k * 4096, (k + 1) * 4096));
        }
    }
    if n < file.len() / 4096 {
        assert(pages_of(after) =~= pages_of(file).update(n, page));
    } else {
        assert(pages_of(after) =~= pages_of(file).push(page));
    }
}

/// A file's contents: full pages, of which those never written are zeros,
/// and what is left over at the end.
pub struct Disk {
    pages: HashMap<u64, Page>,
    count: u64,
    tail: Vec<u8>,
}

impl View for Disk {
    type V = Seq<u8>;

    closed spec fn view(&self) -> Seq<u8> {
        Seq::new(
            (self.count * 4096 + self.tail@.len()) as nat,
            |i: int|
                if i < self.count * 4096 {
                    self.page_at((i / 4096) as u64)[i % 4096]
                } else {
                    self.tail@[i - self.count * 4096]
                },
        )
    }
}

impl Disk {
    /// The bytes of page `n`, zeros if it was never written.
    closed spec fn page_at(&self, n: u64) -> Seq<u8> {
        if self.pages@.contains_key(n) {
            self.pages@[n]@
        } else {
            crate::pager::zero_page()
        }
    }

    /// The leftover is shorter than a page and page numbers are in bounds.
    pub closed spec fn inv(&self) -> bool {
        &&& self.tail@.len() < 4096
        &&& self.count <= 2 * PAGE_LIMIT
        &&& forall|n: u64| #[trigger] self.pages@.contains_key(n) ==> n < self.count
    }

    /// Takes over the bytes of a file.
    pub fn from_bytes(file: &[u8]) -> (disk: Self)
        ensures
            disk.inv(),
            disk@ == file@,
    {
        broadcast use vstd::std_specs::hash::group_hash_axioms;
        broadcast use crate::pager::lemma_page_len;

        let len: usize = file.len();
        let full: usize = len / 4096;
        let mut pages: HashMap<u64, Page> = HashMap::new();
        let mut n: usize = 0;
        while n < full
            invariant
                len == file@.len(),
                full == len / 4096,
                n <= full,
                forall|k: u64| #[trigger] pages@.contains_key(k) <==> k < n,
                forall|k: u64|
                    k < n ==> (#[trigger] pages@[k])@ == file@.subrange(
                        k * 4096,
                        (k + 1) * 4096,
                    ),
            decreases full - n,
        {
            let mut page = Page::new();
            let part = vstd::slice::slice_subrange(file, n * 4096, (n + 1) * 4096);
            bytes::copy_into(page.as_bytes_mut(), 0, part);
            assert(page@ =~= file@.subrange(n * 4096, (n + 1) * 4096));
            pages.insert(n as u64, page);
            n += 1;
        }
        let tail: Vec<u8> = vstd::slice::slice_to_vec(
            vstd::slice::slice_subrange(file, full * 4096, len),
        );
        let disk = Disk { pages, count: full as u64, tail };
        proof {
            assert forall|i: int| 0 <= i < len implies disk@[i] == file@[i] by {
                if i < full * 4096 {
                    let k = (i / 4096) as u64;
                    assert(pages@.contains_key(k));
                    assert(pages@[k]@ == file@.subrange(k * 4096, (k + 1) * 4096));
                    assert(disk.page_at(k)[i % 4096] == file@[k * 4096 + i % 4096]);
                }
            }
            assert(disk@ =~= file@);
        }
        disk
    }

    /// How many full pages there are.
    pub fn page_count(&self) -> (count: u64)
        requires
            self.inv(),
        ensures
            count == self@.len() / 4096,
            count <= 2 * PAGE_LIMIT,
    {
        self.count
    }

    /// Page `n`, if the file holds all of it.
    pub fn read(&self, n: u64) -> (page: Option<Page>)
        requires
            self.inv(),
        ensures
            match page {
                Some(page) => file_page(self@, n as int) == Some(page@),
                None => file_page(self@, n as int) is None,
            },
    {
        broadcast use vstd::std_specs::hash::group_hash_axioms;
        broadcast use crate::pager::lemma_page_len;

        if n >= self.count {
            return None;
        }
        let page = match self.pages.get(&n) {
            Some(page) => page.clone(),
            None => Page::new(),
        };
        proof {
            assert(page@ == self.page_at(n));
            assert forall|j: int| 0 <= j < 4096 implies self@[n * 4096 + j] == page@[j] by {
                assert((n * 4096 + j) / 4096 == n);
                assert((n * 4096 + j) % 4096 == j);
            }
            assert(self@.subrange(n * 4096, (n + 1) * 4096) =~= page@);
        }
        Some(page)
    }

    /// Writes `page` to the slot of page `n`, growing the file if needed.
    pub fn write(&mut self, n: u64, page: &Page)
        requires
            old(self).inv(),
            n < PAGE_LIMIT,
        ensures
            final(self).inv(),
            final(self)@ == write_at(old(self)@, n as int, page@),
    {
        broadcast use vstd::std_specs::hash::group_hash_axioms;
        broadcast use crate::pager::lemma_page_len;

        let ghost before = self@;
        let ghost old_self = *self;
        if n > self.count {
            // The leftover becomes the start of a page of its own.
            let mut padded = Page::new();
            bytes::copy_into(padded.as_bytes_mut(), 0, self.tail.as_slice());
            self.pages.insert(self.count, padded);
        }
        self.pages.insert(n, page.clone());
        if n >= self.count {
            self.count = n + 1;
            self.tail = Vec::new();
        }
        proof {
            let after = write_at(before, n as int, page@);
            assert(self@.len() == after.len());
            assert forall|i: int| 0 <= i < after.len() implies self@[i] == after[i] by {
                let k = i / 4096;
                assert(0 <= i % 4096 < 4096);
                assert(i == k * 4096 + i % 4096);
                if i < self.count * 4096 {
                    assert(k < self.count);
                    assert(self@[i] == self.page_at(k as u64)[i % 4096]);
                    if k == n {
                    } else if k < old_self.count {
                        assert(self.page_at(k as u64) == old_self.page_at(k as u64));
                        assert(before[i] == old_self.page_at(k as u64)[i % 4096]);
                    }
                }
            }
            assert(self@ =~= after);
        }
    }
}

/// The page numbers below `n`.
pub open spec fn pages_below(n: int) -> Set<u64> {
    Set::new(|q: u64| q < n)
}

pub proof fn lemma_pages_below(n: int)
    requires
        0 <= n <= 0x1_0000_0000_0000_0000,
    ensures
        pages_below(n).finite(),
        pages_below(n).len() == n,
    decreases n,
{
    if n == 0 {
        assert(pages_below(0) =~= Set::empty());
    } else {
        lemma_pages_below(n - 1);
        assert(pages_below(n) =~= pages_below(n - 1).insert((n - 1) as u64));
    }
}

/// Different page numbers below `n` are at most `n`.
pub proof fn lemma_distinct_pages(pages: Seq<u64>, n: int)
    requires
        pages.no_duplicates(),
        forall|i: int| 0 <= i < pages.len() ==> #[trigger] pages[i] < n,
        0 <= n <= 0x1_0000_0000_0000_0000,
    ensures
        pages.len() <= n,
{
    pages.unique_seq_to_set();
    lemma_pages_below(n);
    assert(pages.to_set().subset_of(pages_below(n))) by {
        assert forall|q: u64| pages.to_set().contains(q) implies pages_below(n).contains(q) by {
            let i = pages.index_of(q);
            assert(pages[i] < n);
        }
    }
    vstd::set_lib::lemma_len_subset(pages.to_set(), pages_below(n));
}

/// A page is the part of the file between two multiples of 4096 bytes, and it
/// is there if the file is that long. What the file holds behind its last full
/// page belongs to none.
pub proof fn law_pages_of_a_file(file: Seq<u8>, n: int)
    requires
        0 <= n,
    ensures
        pages_of(file).len() == file.len() / 4096,
        file_page(file, n) is Some <==> 4096 * n + 4096 <= file.len(),
        file_page(file, n) is Some <==> n < pages_of(file).len(),
        file_page(file, n) matches Some(page) ==> {
            &&& page == pages_of(file)[n]
            &&& page.len() == 4096
            &&& forall|i: int| 0 <= i < 4096 ==> #[trigger] page[i] == file[4096 * n + i]
        },
{
}

/// Of several writes the last one to a page is read, and taking out those to
/// one page leaves those to the others, in their order.
pub proof fn law_writes_to_a_page(frames: Seq<(u64, Seq<u8>)>, page_no: u64, i: int)
    ensures
        last_page(frames, page_no as int) is None <==> forall|j: int|
            0 <= j < frames.len() ==> (#[trigger] frames[j]).0 != page_no,
        0 <= i < frames.len() && frames[i].0 == page_no && (forall|j: int|
            i < j < frames.len() ==> (#[trigger] frames[j]).0 != page_no) ==> last_page(
            frames,
            page_no as int,
        ) == Some(frames[i].1),
        without_page(frames, page_no) == frames.filter(
            |frame: (u64, Seq<u8>)| frame.0 != page_no,
        ),
    decreases frames.len(),
{
    reveal(Seq::filter);
    if frames.len() > 0 {
        let init = frames.drop_last();
        law_writes_to_a_page(init, page_no, i);
        assert forall|j: int| 0 <= j < init.len() implies #[trigger] init[j] == frames[j] by {
        }
        if frames.last().0 != page_no {
            if forall|j: int| 0 <= j < init.len() ==> (#[trigger] init[j]).0 != page_no {
                assert forall|j: int| 0 <= j < frames.len() implies (#[trigger] frames[j]).0
                    != page_no by {
                    if j < init.len() {
                        assert(init[j].0 != page_no);
                    }
                }
            }
            if 0 <= i < init.len() {
                assert(init[i] == frames[i]);
            }
        } else {
            assert(frames[frames.len() - 1].0 == page_no);
        }
    }
}

} // verus!
