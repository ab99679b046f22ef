use docdb::pager::Page;
use docdb::wal::checksum;
use docdb::wal::Wal;

fn page_of(byte: u8) -> Page {
    let mut page = Page::new();
    page.as_bytes_mut()[0] = byte;
    page
}

#[test]
fn an_empty_log_has_no_frames() {
    let wal = Wal::open(Vec::new());
    assert_eq!(wal.len(), 0);
    assert!(wal.read_committed_frames().is_empty());
}

#[test]
fn a_page_frame_has_the_documented_layout() {
    let mut wal = Wal::open(Vec::new());
    let added = wal.append_page_frame(0x0102, &page_of(7));
    assert_eq!(added.len(), 1 + 8 + 4096 + 4);
    assert_eq!(added[0], 1);
    assert_eq!(&added[1..9], &[2, 1, 0, 0, 0, 0, 0, 0]);
    assert_eq!(added[9], 7);
    assert!(added[10..4105].iter().all(|b| *b == 0));
    let hash = checksum(page_of(7).as_bytes());
    assert_eq!(&added[4105..], &hash.to_le_bytes());
    assert_eq!(wal.as_bytes(), &added[..]);
    assert_eq!(wal.append_commit_frame(), vec![2]);
    assert_eq!(wal.len(), 4110);
}

#[test]
fn the_checksum_is_a_polynomial_in_31() {
    assert_eq!(checksum(&[]), 0);
    assert_eq!(checksum(&[5]), 5);
    assert_eq!(checksum(&[1, 2, 3]), 31 * 31 + 2 * 31 + 3);
    let bytes: Vec<u8> = (0..=255).collect();
    let mut expected: u32 = 0;
    for b in &bytes {
        expected = expected.wrapping_mul(31).wrapping_add(*b as u32);
    }
    assert_eq!(checksum(&bytes), expected);
}

#[test]
fn frames_count_from_their_commit_on() {
    let mut wal = Wal::open(Vec::new());
    wal.append_page_frame(3, &page_of(1));
    wal.append_page_frame(4, &page_of(2));
    assert!(wal.read_committed_frames().is_empty());
    wal.append_commit_frame();
    wal.append_page_frame(5, &page_of(3));
    let frames = wal.read_committed_frames();
    assert_eq!(frames.len(), 2);
    assert_eq!(frames[0].0, 3);
    assert_eq!(frames[0].1.as_bytes()[0], 1);
    assert_eq!(frames[1].0, 4);
    assert_eq!(frames[1].1.as_bytes()[0], 2);
}

#[test]
fn reading_stops_at_the_first_sign_of_trouble() {
    let mut wal = Wal::open(Vec::new());
    wal.append_page_frame(1, &page_of(1));
    wal.append_commit_frame();
    let good = wal.as_bytes().to_vec();
    wal.append_page_frame(2, &page_of(2));
    wal.append_commit_frame();
    let whole = wal.as_bytes().to_vec();
    assert_eq!(Wal::open(whole.clone()).read_committed_frames().len(), 2);

    // A torn frame.
    for cut in [good.len() + 1, good.len() + 100, whole.len() - 2] {
        assert_eq!(Wal::open(whole[..cut].to_vec()).read_committed_frames().len(), 1);
    }
    // A wrong checksum.
    let mut damaged = whole.clone();
    damaged[good.len() + 2000] ^= 1;
    assert_eq!(Wal::open(damaged).read_committed_frames().len(), 1);
    // An unknown tag.
    let mut unknown = good.clone();
    unknown.push(9);
    unknown.extend_from_slice(&good);
    assert_eq!(Wal::open(unknown).read_committed_frames().len(), 1);
}

#[test]
fn truncating_sets_the_length() {
    let mut wal = Wal::open(vec![1, 2, 3, 4]);
    wal.truncate_to(2);
    assert_eq!(wal.as_bytes(), &[1, 2]);
    wal.truncate_to(4);
    assert_eq!(wal.as_bytes(), &[1, 2, 0, 0]);
    wal.truncate_to(0);
    assert_eq!(wal.len(), 0);
}
