use mega_dl::chunk::{Chunk, CHUNK_SIZE};
use mega_dl::download::{
    plan_single, resume_single, FileDownload, SinglePlan, SingleRun, MAX_ROUNDS,
};
use mega_dl::proxy::ProxyPool;
use std::collections::HashSet;

fn set(numbers: &[usize]) -> HashSet<usize> {
    numbers.iter().copied().collect()
}

fn run_of(plan: SinglePlan) -> SingleRun {
    match plan {
        SinglePlan::Run(run) => run,
        SinglePlan::Skip => panic!("skipped"),
    }
}

#[test]
fn a_complete_file_is_skipped() {
    assert!(matches!(plan_single(10, true, None, set(&[])), SinglePlan::Skip));
    // Nothing else is looked at.
    assert!(matches!(plan_single(u64::MAX, true, Some(3), set(&[9])), SinglePlan::Skip));
}

#[test]
fn a_new_download_asks_for_every_chunk() {
    let size = 2 * CHUNK_SIZE + 5;
    let run = run_of(plan_single(size, false, None, set(&[])));
    assert!(run.allocate);
    assert_eq!(run.already, 0);
    let mut d = run.download;
    assert_eq!(d.total, 3);
    assert!(!d.is_complete());
    let round = d.next_round().unwrap();
    assert!(!round.refresh);
    assert_eq!(round.chunks, vec![
        Chunk { idx: 0, start: 0, end: CHUNK_SIZE - 1 },
        Chunk { idx: 1, start: CHUNK_SIZE, end: 2 * CHUNK_SIZE - 1 },
        Chunk { idx: 2, start: 2 * CHUNK_SIZE, end: size - 1 },
    ]);
}

#[test]
fn a_download_goes_on_where_it_was() {
    let size = 3 * CHUNK_SIZE;
    let run = run_of(plan_single(size, false, Some(size), set(&[0, 2])));
    assert!(!run.allocate);
    assert_eq!(run.already, 2 * CHUNK_SIZE);
    let mut d = run.download;
    assert_eq!(d.done_count, 2);
    let round = d.next_round().unwrap();
    assert_eq!(round.chunks.len(), 1);
    assert_eq!(round.chunks[0].idx, 1);
    d.finish_round(&vec![1], vec![]);
    assert!(d.is_complete());
    assert_eq!(d.done, set(&[0, 1, 2]));
    assert!(d.next_round().is_none());
}

#[test]
fn what_did_not_come_is_asked_for_again_with_a_new_address() {
    let mut d = FileDownload::start(3 * CHUNK_SIZE, set(&[]));
    let round = d.next_round().unwrap();
    let late = round.chunks[1];
    d.finish_round(&vec![0, 2], vec![late]);
    assert!(!d.is_complete());
    assert_eq!(d.done_count, 2);
    let round = d.next_round().unwrap();
    assert!(round.refresh);
    assert_eq!(round.chunks, vec![late]);
    d.finish_round(&vec![1], vec![]);
    assert!(d.is_complete());
}

#[test]
fn rounds_come_to_an_end() {
    let mut d = FileDownload::start(1, set(&[]));
    let mut rounds = 0;
    while let Some(round) = d.next_round() {
        assert_eq!(round.refresh, rounds > 0);
        rounds += 1;
        d.finish_round(&vec![], round.chunks);
    }
    assert_eq!(rounds, MAX_ROUNDS);
    assert_eq!(MAX_ROUNDS, 30);
    assert!(!d.is_complete());
    assert_eq!(d.remaining.len(), 1);
}

#[test]
fn an_empty_file_is_complete_at_once() {
    let run = run_of(plan_single(0, false, None, set(&[])));
    let mut d = run.download;
    assert!(d.next_round().is_none());
    assert!(d.is_complete());
}

#[test]
fn a_lost_chunk_leaves_the_file_incomplete() {
    let mut d = FileDownload::start(2 * CHUNK_SIZE, set(&[]));
    d.next_round().unwrap();
    d.finish_round(&vec![0], vec![]);
    assert!(d.next_round().is_none());
    assert!(!d.is_complete());
}

#[test]
fn a_stale_number_counts_as_a_chunk() {
    // The number of a chunk that would start where the file ends is counted like any other.
    let mut d = FileDownload::start(2 * CHUNK_SIZE, set(&[2]));
    assert_eq!(d.done_count, 1);
    let round = d.next_round().unwrap();
    assert_eq!(round.chunks.len(), 2);
    d.finish_round(&vec![0], vec![]);
    assert!(d.is_complete());
}

#[test]
fn proxies_are_missed_only_while_chunks_remain() {
    let mut pool = ProxyPool::new();
    let mut d = FileDownload::start(1, set(&[]));
    assert!(d.needs_proxies(&pool));
    pool.push("p".to_owned());
    assert!(!d.needs_proxies(&pool));
    pool.drain();
    d.next_round().unwrap();
    d.finish_round(&vec![0], vec![]);
    assert!(!d.needs_proxies(&pool));
}

#[test]
fn saved_progress_leads_to_a_run() {
    let size = 3 * CHUNK_SIZE;
    let run = run_of(resume_single(size, false, Some(size), Some("[0,2]")).unwrap());
    assert_eq!(run.already, 2 * CHUNK_SIZE);
    assert_eq!(run.download.done, set(&[0, 2]));
    let run = run_of(resume_single(size, false, Some(5), Some("no progress")).unwrap());
    assert!(run.allocate);
    assert_eq!(run.download.remaining.len(), 3);
    assert!(matches!(resume_single(size, true, None, None), Some(SinglePlan::Skip)));
    assert!(resume_single(size, false, Some(size), Some("[4]")).is_none());
    assert!(resume_single(u64::MAX, false, None, None).is_none());
}
