use mega_dl::chunk::{
    already_bytes, check_countable, check_fits, list_of, num_chunks, pending_chunks, range_header,
    Chunk, CHUNK_SIZE, FOLDER_CHUNK_SIZE,
};
use std::collections::HashSet;

fn set(numbers: &[usize]) -> HashSet<usize> {
    numbers.iter().copied().collect()
}

#[test]
fn chunk_sizes_are_whole_mebibytes() {
    assert_eq!(CHUNK_SIZE, 4194304);
    assert_eq!(FOLDER_CHUNK_SIZE, 1048576);
}

#[test]
fn a_started_chunk_counts() {
    assert_eq!(num_chunks(0, 10), 0);
    assert_eq!(num_chunks(1, 10), 1);
    assert_eq!(num_chunks(10, 10), 1);
    assert_eq!(num_chunks(11, 10), 2);
    assert_eq!(num_chunks(5 * CHUNK_SIZE + 1, CHUNK_SIZE), 6);
}

#[test]
fn pending_chunks_leave_out_what_is_there() {
    let all = pending_chunks(25, 10, &set(&[]));
    assert_eq!(
        all,
        vec![
            Chunk { idx: 0, start: 0, end: 9 },
            Chunk { idx: 1, start: 10, end: 19 },
            Chunk { idx: 2, start: 20, end: 24 },
        ]
    );
    assert_eq!(
        pending_chunks(25, 10, &set(&[0, 2, 9])),
        vec![Chunk { idx: 1, start: 10, end: 19 }]
    );
    assert_eq!(pending_chunks(25, 10, &set(&[0, 1, 2])), vec![]);
    assert_eq!(pending_chunks(0, 10, &set(&[])), vec![]);
    assert_eq!(pending_chunks(1, 10, &set(&[])), vec![Chunk { idx: 0, start: 0, end: 0 }]);
}

#[test]
fn each_byte_stands_in_one_chunk() {
    for size in [1u64, 9, 10, 11, 29, 30, 31] {
        let chunks = pending_chunks(size, 10, &set(&[]));
        for x in 0..size {
            let holders: Vec<usize> =
                chunks.iter().filter(|c| c.start <= x && x <= c.end).map(|c| c.idx).collect();
            assert_eq!(holders, vec![(x / 10) as usize]);
        }
        for pair in chunks.windows(2) {
            assert_eq!(pair[0].end + 1, pair[1].start);
        }
        assert_eq!(chunks[0].start, 0);
        assert_eq!(chunks[chunks.len() - 1].end, size - 1);
    }
}

#[test]
fn bytes_that_are_there_and_bytes_to_come_add_up() {
    for done in [set(&[]), set(&[0]), set(&[2]), set(&[0, 1]), set(&[0, 1, 2])] {
        let to_come: u64 =
            pending_chunks(25, 10, &done).iter().map(|c| c.end - c.start + 1).sum();
        assert_eq!(already_bytes(25, 10, &done) + to_come, 25);
    }
}

#[test]
fn the_last_chunk_may_be_short() {
    assert_eq!(already_bytes(25, 10, &set(&[0, 2])), 15);
    assert_eq!(already_bytes(20, 10, &set(&[0, 1])), 20);
    // A chunk that would start where the file ends holds nothing.
    assert_eq!(already_bytes(20, 10, &set(&[1, 2])), 10);
    assert_eq!(already_bytes(0, 10, &set(&[0])), 0);
}

#[test]
fn chunks_beyond_the_file_do_not_fit() {
    assert!(check_fits(20, 10, &set(&[0, 1, 2])));
    assert!(!check_fits(20, 10, &set(&[3])));
    assert!(!check_fits(19, 10, &set(&[2])));
    assert!(!check_fits(u64::MAX, CHUNK_SIZE, &set(&[usize::MAX])));
    assert!(check_fits(0, 10, &set(&[])));
}

#[test]
fn sizes_near_the_limit_cannot_be_counted() {
    assert!(check_countable(0, 1));
    assert!(check_countable(u64::MAX - CHUNK_SIZE, CHUNK_SIZE));
    assert!(!check_countable(u64::MAX - CHUNK_SIZE + 1, CHUNK_SIZE));
    assert!(!check_countable(5, 0));
}

#[test]
fn ranges_name_both_ends() {
    assert_eq!(range_header(0, 9), "bytes=0-9");
    assert_eq!(range_header(4194304, 8388607), "bytes=4194304-8388607");
    assert_eq!(range_header(u64::MAX, u64::MAX), format!("bytes={0}-{0}", u64::MAX));
}

#[test]
fn a_set_is_listed_without_repeats() {
    let mut list = list_of(&set(&[5, 1, 3]));
    list.sort();
    assert_eq!(list, vec![1, 3, 5]);
}
