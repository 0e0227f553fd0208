//! Pack indexes and the entries of packs.
use qoder_statusline::bytes::{place_of, Place};
use qoder_statusline::index::{has_candidate, index_ok, plan_reads, search_idx, IDX_HEADER};
use qoder_statusline::pack::PackHeader;
use qoder_statusline::scan::PackScan;

/// A tag object of 104 bytes, compressed.
const TAG: &[u8] = &[
    120, 218, 29, 198, 209, 10, 131, 48, 12, 64, 209, 247, 124, 69, 222, 7, 163, 89, 91, 141, 48, 68,
    63, 165, 73, 163, 108, 80, 42, 163, 200, 252, 123, 209, 251, 112, 184, 85, 190, 166, 13, 67, 80,
    239, 130, 41, 135, 28, 23, 201, 28, 153, 149, 210, 194, 162, 61, 9, 89, 150, 161, 235, 188, 103,
    7, 237, 216, 12, 181, 150, 242, 105, 208, 210, 138, 59, 61, 95, 215, 172, 246, 195, 25, 223, 105,
    146, 17, 169, 143, 209, 221, 225, 227, 18, 224, 15, 39, 95, 239, 28, 216,
];
const TAG_START: &str = "object 44c304ec84d5fbd8588c1af8bc71b1edb9663380\ntype commit\n";

/// An index of version 2: names in rising order, with their places, and the table of long
/// places.
fn index(rows: &[([u8; 20], u32)], long: &[u64]) -> Vec<u8> {
    let mut idx = vec![0xff, b't', b'O', b'c', 0, 0, 0, 2];
    for first in 0..=255u8 {
        let n = rows.iter().filter(|(sha, _)| sha[0] <= first).count() as u32;
        idx.extend_from_slice(&n.to_be_bytes());
    }
    for (sha, _) in rows {
        idx.extend_from_slice(sha);
    }
    for _ in rows {
        idx.extend_from_slice(&[0xaa; 4]);
    }
    for (_, offset) in rows {
        idx.extend_from_slice(&offset.to_be_bytes());
    }
    for offset in long {
        idx.extend_from_slice(&offset.to_be_bytes());
    }
    idx
}

fn sha(first: u8, last: u8) -> [u8; 20] {
    let mut sha = [7u8; 20];
    sha[0] = first;
    sha[19] = last;
    sha
}

fn three_rows() -> Vec<([u8; 20], u32)> {
    vec![(sha(0, 1), 12), (sha(9, 1), 500), (sha(9, 2), 0x8000_0001), (sha(255, 3), 40)]
}

#[test]
fn places_of_names() {
    let bytes = [1, 2, 3, 4];
    assert!(matches!(place_of(&bytes, 1, &[2, 3]), Place::Same));
    assert!(matches!(place_of(&bytes, 1, &[2, 4]), Place::Before));
    assert!(matches!(place_of(&bytes, 1, &[1, 9]), Place::Behind));
}

#[test]
fn index_headers() {
    let idx = index(&three_rows(), &[1, 2]);
    assert!(index_ok(&idx[..IDX_HEADER]));
    for at in [0, 1, 2, 3, 7] {
        let mut other = idx.clone();
        other[at] ^= 1;
        assert!(!index_ok(&other[..IDX_HEADER]));
    }
    assert!(!index_ok(&idx[..IDX_HEADER - 1]));
    assert!(!index_ok(&[]));
}

#[test]
fn names_that_may_be_held() {
    let idx = index(&three_rows(), &[1, 2]);
    let head = &idx[..IDX_HEADER];
    assert!(has_candidate(head, &vec![sha(9, 77)]));
    assert!(has_candidate(head, &vec![sha(0, 1)]));
    assert!(has_candidate(head, &vec![sha(3, 1), sha(255, 0)]));
    assert!(!has_candidate(head, &vec![sha(1, 1), sha(254, 0)]));
    assert!(!has_candidate(head, &vec![]));
}

#[test]
fn search_finds_each_row() {
    let idx = index(&three_rows(), &[77, 0x1_0000_0002]);
    assert_eq!(search_idx(&idx, 4, 0, 4, &sha(0, 1)), Some(12));
    assert_eq!(search_idx(&idx, 4, 0, 4, &sha(9, 1)), Some(500));
    assert_eq!(search_idx(&idx, 4, 0, 4, &sha(9, 2)), Some(0x1_0000_0002));
    assert_eq!(search_idx(&idx, 4, 0, 4, &sha(255, 3)), Some(40));
    assert_eq!(search_idx(&idx, 4, 1, 3, &sha(9, 1)), Some(500));
}

#[test]
fn search_finds_nothing_else() {
    let idx = index(&three_rows(), &[77, 88]);
    assert_eq!(search_idx(&idx, 4, 0, 4, &sha(9, 3)), None);
    assert_eq!(search_idx(&idx, 4, 0, 4, &sha(1, 0)), None);
    assert_eq!(search_idx(&idx, 4, 0, 1, &sha(9, 1)), None);
    assert_eq!(search_idx(&idx, 4, 2, 2, &sha(9, 2)), None);
    assert_eq!(search_idx(&idx, 4, 3, 1, &sha(9, 2)), None);
}

#[test]
fn search_stops_where_the_index_ends() {
    let idx = index(&three_rows(), &[77, 88]);
    // without the long places, without the places, without some names
    assert_eq!(search_idx(&idx[..idx.len() - 16], 4, 0, 4, &sha(9, 2)), None);
    assert_eq!(search_idx(&idx[..IDX_HEADER + 96], 4, 0, 4, &sha(9, 1)), None);
    assert_eq!(search_idx(&idx[..IDX_HEADER + 20], 4, 0, 4, &sha(0, 1)), None);
    assert_eq!(search_idx(&[], 4, 0, 4, &sha(0, 1)), None);
    // counts that no index can have
    assert_eq!(search_idx(&idx, u32::MAX, 0, u32::MAX, &sha(0, 1)), None);
}

#[test]
fn plan_leaves_out_hits() {
    let idx = index(&three_rows(), &[77, 88]);
    let shas = vec![sha(9, 2), sha(3, 3), sha(0, 1)];
    let head = &idx[..IDX_HEADER];
    assert_eq!(plan_reads(head, &idx, &shas, &vec![]), [(0, 88), (2, 12)]);
    assert_eq!(plan_reads(head, &idx, &shas, &vec![(0, vec![1])]), [(2, 12)]);
}

#[test]
fn packs_are_searched_one_after_the_other() {
    let first = index(&[(sha(1, 1), 10), (sha(2, 2), 20)], &[]);
    let second = index(&[(sha(1, 1), 30), (sha(2, 2), 40), (sha(3, 3), 50)], &[]);
    let third = index(&[(sha(9, 9), 60)], &[]);
    let mut scan = PackScan::new(vec![sha(3, 3), sha(2, 2), sha(1, 1)]);

    let head = &first[..IDX_HEADER];
    assert!(scan.concerns(head));
    let plan = scan.plan(head, &first);
    assert_eq!(plan, [(1, 20), (2, 10)]);
    // number 1 can be read, number 2 cannot
    scan.take_in(&plan, vec![Some(b"two".to_vec()), None]);

    let head = &second[..IDX_HEADER];
    assert!(scan.concerns(head));
    let plan = scan.plan(head, &second);
    assert_eq!(plan, [(0, 50), (2, 30)]);
    scan.take_in(&plan, vec![Some(b"three".to_vec()), Some(b"one".to_vec())]);

    assert!(!scan.concerns(&third[..IDX_HEADER]));
    assert_eq!(
        scan.into_hits(),
        [(1, b"two".to_vec()), (0, b"three".to_vec()), (2, b"one".to_vec())]
    );
}

#[test]
fn index_of_another_version_is_passed_over() {
    let mut idx = index(&[(sha(1, 1), 10)], &[]);
    idx[7] = 1;
    assert!(!PackScan::new(vec![sha(1, 1)]).concerns(&idx[..IDX_HEADER]));
}

#[test]
fn index_that_is_cut_off_is_passed_over() {
    let idx = index(&[(sha(1, 1), 10)], &[]);
    let scan = PackScan::new(vec![sha(1, 1)]);
    assert!(scan.concerns(&idx[..IDX_HEADER]));
    assert!(!scan.concerns(&idx[..IDX_HEADER - 1]));
    assert!(!scan.concerns(&[]));
    // the start can be read, and then nothing more
    assert!(scan.plan(&idx[..IDX_HEADER], &[]).is_empty());
}

#[test]
fn no_names_give_no_hits() {
    let idx = index(&[(sha(1, 1), 10)], &[]);
    let scan = PackScan::new(vec![]);
    assert!(!scan.concerns(&idx[..IDX_HEADER]));
    assert!(scan.into_hits().is_empty());
}

/// The header of an entry, as git writes it.
fn header(kind: u8, size: u64) -> Vec<u8> {
    let mut byte = kind << 4 | (size & 15) as u8;
    let mut left = size >> 4;
    let mut bytes = Vec::new();
    while left > 0 {
        bytes.push(byte | 0x80);
        byte = (left & 127) as u8;
        left >>= 7;
    }
    bytes.push(byte);
    bytes
}

fn read_header(bytes: &[u8]) -> PackHeader {
    let mut header = PackHeader::start(bytes[0]);
    for byte in &bytes[1..] {
        assert!(header.wants_more() && !header.is_full());
        header.push(*byte);
    }
    assert!(!header.wants_more());
    header
}

#[test]
fn headers_of_entries() {
    for size in [0, 5, 15, 16, 104, 2047, 2048, 65536] {
        assert_eq!(read_header(&header(4, size)).read_limit(), Some(2 * size + 1024));
    }
    for size in [65537, 1 << 32, u64::MAX] {
        assert_eq!(read_header(&header(4, size)).read_limit(), None);
    }
    // no tag: a commit, and the two kinds of deltas
    for kind in [1, 6, 7] {
        assert_eq!(read_header(&header(kind, 100)).read_limit(), None);
    }
    assert_eq!(header(4, 104), [200, 6]);
}

#[test]
fn headers_without_an_end() {
    let mut header = PackHeader::start(0xc0);
    for _ in 0..9 {
        assert!(!header.is_full());
        header.push(0x80);
    }
    assert!(header.is_full() && header.wants_more());
}

#[test]
fn objects_of_entries() {
    let object = read_header(&header(4, 104)).object(TAG).unwrap();
    assert_eq!(object.len(), 104);
    assert!(object.starts_with(TAG_START.as_bytes()));
    // what follows the entry in the pack changes nothing
    let mut more = TAG.to_vec();
    more.extend_from_slice(&[1; 50]);
    assert_eq!(read_header(&header(4, 104)).object(&more).unwrap(), object);
    // another size than the header says
    assert_eq!(read_header(&header(4, 103)).object(TAG), None);
    assert_eq!(read_header(&header(4, 105)).object(TAG), None);
    assert_eq!(read_header(&header(4, 104)).object(&TAG[..60]), None);
    // a checksum that does not fit
    let mut broken = TAG.to_vec();
    let last = broken.len() - 1;
    broken[last] ^= 1;
    assert_eq!(read_header(&header(4, 104)).object(&broken), None);
}
