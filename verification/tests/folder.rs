use mega_dl::chunk::{Chunk, FOLDER_CHUNK_SIZE};
use mega_dl::download::MAX_ROUNDS;
use mega_dl::folder::{
    check_plan, plan_file, resume_file, unique_files, unwritten_jobs, FilePlan, FileProgress, FolderDownload, Job, QueuedFile,
    Recorded, SAVE_EVERY,
};
use mega_dl::proxy::ProxyPool;
use std::collections::HashSet;

fn set(numbers: &[usize]) -> HashSet<usize> {
    numbers.iter().copied().collect()
}

fn queued(plan: FilePlan) -> QueuedFile {
    match plan {
        FilePlan::Queue(file) => file,
        other => panic!("{other:?}"),
    }
}

fn job(file: usize, idx: usize) -> Job {
    Job { file, chunk: Chunk { idx, start: 0, end: 0 } }
}

#[test]
fn a_file_is_skipped_made_finished_or_queued() {
    assert!(matches!(plan_file(5, true, None, set(&[])), FilePlan::Skip));
    assert!(matches!(plan_file(0, true, None, set(&[])), FilePlan::Skip));
    assert!(matches!(plan_file(0, false, Some(3), set(&[0])), FilePlan::CreateEmpty));
    assert!(matches!(
        plan_file(5, false, Some(5), set(&[0])),
        FilePlan::Finalize { allocate: false, resumed: 1 }
    ));
    assert!(matches!(
        plan_file(5, false, Some(4), set(&[0, 77])),
        FilePlan::Finalize { allocate: true, resumed: 2 }
    ));
    let size = FOLDER_CHUNK_SIZE + 1;
    let file = queued(plan_file(size, false, Some(size), set(&[1])));
    assert!(!file.allocate);
    assert_eq!(file.already, 1);
    assert_eq!(file.chunks, vec![Chunk { idx: 0, start: 0, end: FOLDER_CHUNK_SIZE - 1 }]);
    assert_eq!(file.progress.total, 2);
    assert_eq!(file.progress.pending, 1);
    assert_eq!(file.progress.done, set(&[1]));
    let file = queued(plan_file(size, false, None, set(&[])));
    assert!(file.allocate);
    assert_eq!(file.chunks.len(), 2);
}

#[test]
fn a_plan_needs_progress_that_fits() {
    assert!(check_plan(u64::MAX, true, &set(&[])));
    assert!(check_plan(0, false, &set(&[9])));
    assert!(!check_plan(u64::MAX, false, &set(&[])));
    assert!(check_plan(FOLDER_CHUNK_SIZE, false, &set(&[0, 9])));
    assert!(!check_plan(FOLDER_CHUNK_SIZE, false, &set(&[9])));
    assert!(check_plan(FOLDER_CHUNK_SIZE, false, &set(&[1])));
}

#[test]
fn the_last_missing_chunk_finishes_a_file() {
    let mut p = FileProgress { total: 3, done: set(&[]), pending: 3 };
    assert_eq!(p.record(1), Recorded { save: false, finished: false });
    assert_eq!(p.record(1), Recorded { save: false, finished: false });
    assert_eq!(p.pending, 2);
    assert_eq!(p.record(2), Recorded { save: false, finished: false });
    assert_eq!(p.record(0), Recorded { save: false, finished: true });
    assert_eq!(p.done, set(&[0, 1, 2]));
    assert_eq!(p.pending, 0);
    for idx in 0..3 {
        assert_eq!(p.record(idx), Recorded { save: false, finished: false });
    }
}

#[test]
fn progress_is_saved_now_and_then() {
    let total = 2 * SAVE_EVERY + 3;
    let mut p = FileProgress { total, done: set(&[]), pending: total };
    for idx in 0..total {
        let r = p.record(idx);
        assert_eq!(r.save, (idx + 1) % SAVE_EVERY == 0);
        assert_eq!(r.finished, idx + 1 == total);
    }
    assert_eq!(SAVE_EVERY, 32);
    // A chunk that was there before is no reason to save.
    let mut p = FileProgress { total: 40, done: (0..32).collect(), pending: 8 };
    assert_eq!(p.record(3), Recorded { save: false, finished: false });
}

#[test]
fn files_come_up_once_in_order() {
    let jobs = vec![job(3, 0), job(1, 0), job(3, 1), job(0, 5), job(1, 2)];
    assert_eq!(unique_files(&jobs), vec![3, 1, 0]);
    assert!(unique_files(&vec![]).is_empty());
}

#[test]
fn all_files_share_one_queue() {
    let mut d = FolderDownload::new();
    let a = Chunk { idx: 0, start: 0, end: 4 };
    let b = Chunk { idx: 1, start: 5, end: 7 };
    d.queue(4, &vec![a, b]);
    d.queue(9, &vec![a]);
    d.queue(5, &vec![]);
    assert_eq!(d.leftover(), 3);
    let round = d.next_round().unwrap();
    assert!(round.refresh.is_empty());
    assert_eq!(round.jobs, vec![
        Job { file: 4, chunk: a },
        Job { file: 4, chunk: b },
        Job { file: 9, chunk: a },
    ]);
    assert_eq!(d.leftover(), 3);
    d.finish_round(&vec![Job { file: 4, chunk: a }]);
    let round = d.next_round().unwrap();
    assert_eq!(round.refresh, vec![4, 9]);
    assert_eq!(round.jobs, vec![Job { file: 4, chunk: b }, Job { file: 9, chunk: a }]);
    d.finish_round(&vec![Job { file: 9, chunk: a }, Job { file: 4, chunk: b }]);
    assert_eq!(d.leftover(), 0);
    assert!(d.next_round().is_none());
}

#[test]
fn nothing_to_do_means_no_round() {
    let mut d = FolderDownload::new();
    assert!(d.next_round().is_none());
    assert_eq!(d.round, 0);
}

#[test]
fn jobs_that_always_fail_are_given_up() {
    let mut d = FolderDownload::new();
    d.jobs.push(job(0, 0));
    let mut rounds = 0;
    while let Some(round) = d.next_round() {
        rounds += 1;
        assert_eq!(round.jobs.len(), 1);
        d.finish_round(&vec![]);
    }
    assert_eq!(rounds, MAX_ROUNDS);
    assert_eq!(d.leftover(), 1);
}

#[test]
fn shuffling_keeps_the_jobs() {
    let mut d = FolderDownload::new();
    for i in 0..300 {
        d.jobs.push(job(i % 7, i));
    }
    let before = d.jobs.clone();
    d.shuffle();
    assert_ne!(d.jobs, before);
    let mut after = d.jobs.clone();
    after.sort_by_key(|j| j.chunk.idx);
    assert_eq!(after, before);
    assert_eq!(d.round, 0);
}

#[test]
fn a_whole_folder_comes_to_its_end() {
    let sizes = [3 * FOLDER_CHUNK_SIZE, 1, FOLDER_CHUNK_SIZE + 1];
    let mut d = FolderDownload::new();
    let mut progress = Vec::new();
    for (i, size) in sizes.iter().enumerate() {
        let file = queued(plan_file(*size, false, None, set(&[])));
        d.queue(i, &file.chunks);
        progress.push(file.progress);
    }
    d.shuffle();
    let mut finished = vec![0; sizes.len()];
    let mut turn = 0;
    while let Some(round) = d.next_round() {
        let mut written = Vec::new();
        for j in round.jobs {
            turn += 1;
            // Every third chunk fails, and the writing of every fourth.
            if turn % 3 == 0 {
                continue;
            }
            if let Ok(r) = progress[j.file].record_write(j, turn % 4 != 0) {
                written.push(j);
                if r.finished {
                    finished[j.file] += 1;
                }
            }
        }
        d.finish_round(&written);
    }
    assert_eq!(finished, vec![1, 1, 1]);
    assert!(progress.iter().all(|p| p.pending == 0 && p.done.len() == p.total));
}

#[test]
fn saved_progress_leads_to_a_plan() {
    let size = 2 * FOLDER_CHUNK_SIZE;
    let file = queued(resume_file(size, false, Some(size), Some("[1]")).unwrap());
    assert_eq!(file.progress.done, set(&[1]));
    assert_eq!(file.chunks, vec![Chunk { idx: 0, start: 0, end: FOLDER_CHUNK_SIZE - 1 }]);
    // Without the file itself the progress does not count.
    let file = queued(resume_file(size, false, None, Some("[1]")).unwrap());
    assert_eq!(file.chunks.len(), 2);
    assert!(matches!(
        resume_file(size, false, Some(size), Some("[0,1]")),
        Some(FilePlan::Finalize { allocate: false, resumed: 2 })
    ));
    assert!(matches!(resume_file(size, true, None, Some("[9]")), Some(FilePlan::Skip)));
    assert!(resume_file(size, false, Some(size), Some("[9]")).is_none());
}

#[test]
fn jobs_that_no_worker_came_to_are_handed_out_again() {
    let file = queued(plan_file(5 * FOLDER_CHUNK_SIZE, false, None, set(&[])));
    let mut progress = file.progress;
    let mut d = FolderDownload::new();
    d.queue(0, &file.chunks);
    let first = d.next_round().unwrap();
    // The only worker met a used-up quota with its first chunk and retired.
    d.finish_round(&vec![]);
    assert_eq!(d.leftover(), 5);
    let second = d.next_round().unwrap();
    assert_eq!(second.jobs, first.jobs);
    assert_eq!(second.refresh, vec![0]);
    let finished: Vec<bool> =
        second.jobs.iter().map(|j| progress.record_write(*j, true).unwrap().finished).collect();
    assert_eq!(finished, vec![false, false, false, false, true]);
    d.finish_round(&second.jobs);
    assert_eq!(d.leftover(), 0);
}

#[test]
fn a_chunk_that_could_not_be_written_is_still_missing() {
    let mut p = FileProgress { total: 2, done: set(&[0]), pending: 1 };
    assert_eq!(p.record_write(job(7, 1), false), Err(job(7, 1)));
    assert_eq!(p.pending, 1);
    assert_eq!(p.done, set(&[0]));
    assert_eq!(p.record_write(job(7, 1), true), Ok(Recorded { save: false, finished: true }));
    assert_eq!(p.pending, 0);
    assert_eq!(p.done, set(&[0, 1]));
}

#[test]
fn jobs_are_taken_off_by_file_and_chunk() {
    let jobs = vec![job(1, 0), job(2, 0), job(1, 1), job(2, 1)];
    assert_eq!(
        unwritten_jobs(&jobs, &vec![job(2, 0), job(1, 1), job(3, 9)]),
        vec![job(1, 0), job(2, 1)]
    );
    assert_eq!(unwritten_jobs(&jobs, &vec![]), jobs);
    assert!(unwritten_jobs(&jobs, &jobs).is_empty());
}

#[test]
fn progress_is_saved_with_the_last_chunk_too() {
    assert!(Recorded { save: true, finished: false }.must_save());
    assert!(Recorded { save: false, finished: true }.must_save());
    assert!(!Recorded { save: false, finished: false }.must_save());
    let mut p = FileProgress { total: 1, done: set(&[]), pending: 1 };
    assert!(p.record(0).must_save());
}

#[test]
fn a_folder_misses_proxies_only_while_jobs_remain() {
    let mut pool = ProxyPool::new();
    let mut d = FolderDownload::new();
    assert!(!d.needs_proxies(&pool));
    d.jobs.push(job(0, 0));
    assert!(d.needs_proxies(&pool));
    // The jobs of a round that is under way are still to be done.
    d.next_round().unwrap();
    assert!(d.needs_proxies(&pool));
    pool.push("p".to_owned());
    assert!(!d.needs_proxies(&pool));
    pool.drain();
    d.finish_round(&vec![job(0, 0)]);
    assert!(!d.needs_proxies(&pool));
}
