//! The course of the download of a folder: all chunks of all files stand in one queue, and a file is
//! finished when its last chunk is written.

use std::collections::{HashMap, HashSet};
use vstd::prelude::*;

use crate::chunk;
use crate::chunk::{Chunk, FOLDER_CHUNK_SIZE};
use crate::download;
use crate::download::MAX_ROUNDS;
use crate::proxy;
use crate::proxy::ProxyPool;

verus! {

/// After how many new chunks the progress of a file is saved.
pub const SAVE_EVERY: usize = 32;

/// The numbers below `total` that are not in `done`.
pub open spec fn missing(total: nat, done: Set<usize>) -> Set<usize> {
    Set::new(|i: usize| i < total && !done.contains(i))
}

/// The progress of one file: how many chunks it has, which of them are there, and how many are
/// not.
#[derive(Debug)]
pub struct FileProgress {
    pub total: usize,
    pub done: HashSet<usize>,
    pub pending: usize,
}

/// What follows from a chunk that was written: whether so many have come that the progress is to be
/// saved, and whether the file is finished.
#[derive(Clone, Copy, Debug, PartialEq, Eq, Structural)]
pub struct Recorded {
    pub save: bool,
    pub finished: bool,
}

impl Recorded {
    /// Whether the progress is to be saved: with every `SAVE_EVERY`th chunk, and with the last.
    pub fn must_save(self) -> (r: bool)
        ensures
            r == (self.save || self.finished),
    {
        self.save || self.finished
    }
}

/// Only finitely many numbers are missing.
proof fn lemma_missing_finite(total: nat, done: Set<usize>)
    requires
        total <= usize::MAX + 1,
    ensures
        missing(total, done).finite(),
    decreases total,
{
    if total == 0 {
        assert(missing(total, done) =~= Set::empty());
    } else {
        let last = (total - 1) as usize;
        let before = missing((total - 1) as nat, done);
        lemma_missing_finite((total - 1) as nat, done);
        if done.contains(last) {
            assert(missing(total, done) =~= before);
        } else {
            assert(missing(total, done) =~= before.insert(last));
        }
    }
}

/// There is one chunk to come for each number that is missing.
proof fn lemma_pending_counts(n: nat, size: nat, chunk_size: nat, done: Set<usize>)
    requires
        n <= usize::MAX + 1,
    ensures
        chunk::pending_below(n, size, chunk_size, done).len() == missing(n, done).len(),
    decreases n,
{
    if n == 0 {
        assert(missing(n, done) =~= Set::empty());
    } else {
        let last = (n - 1) as usize;
        let before = missing((n - 1) as nat, done);
        lemma_pending_counts((n - 1) as nat, size, chunk_size, done);
        lemma_missing_finite((n - 1) as nat, done);
        if done.contains(last) {
            assert(missing(n, done) =~= before);
        } else {
            assert(missing(n, done) =~= before.insert(last));
        }
    }
}

impl FileProgress {
    /// `pending` counts the chunks that are missing.
    pub open spec fn is_consistent(self) -> bool {
        self.pending == missing(self.total as nat, self.done@).len()
    }

    /// All chunks are there.
    pub open spec fn is_complete(self) -> bool {
        forall|i: usize| i < self.total ==> #[trigger] self.done@.contains(i)
    }

    /// Takes down that chunk `idx` is written. The progress is to be saved with every
    /// `SAVE_EVERY`th chunk that was not there before, and the file is finished with the chunk that
    /// was the last one missing.
    pub fn record(&mut self, idx: usize) -> (r: Recorded)
        requires
            old(self).is_consistent(),
            idx < old(self).total,
        ensures
            final(self).is_consistent(),
            final(self).total == old(self).total,
            final(self).done@ == old(self).done@.insert(idx),
            r.save == (!old(self).done@.contains(idx) && final(self).done@.len() % (SAVE_EVERY as nat)
                == 0),
            r.finished == (missing(old(self).total as nat, old(self).done@) == set![idx]),
            r.finished ==> final(self).is_complete(),
            r.finished <==> !old(self).done@.contains(idx) && forall|i: usize|
                i < old(self).total && i != idx ==> #[trigger] old(self).done@.contains(i),
    {
        broadcast use vstd::std_specs::hash::group_hash_axioms;

        let ghost before = missing(self.total as nat, self.done@);
        let ghost known = self.done@;
        proof {
            lemma_missing_finite(self.total as nat, self.done@);
            if before == set![idx] {
                assert(set![idx].contains(idx));
                assert(before.contains(idx));
                assert forall|i: usize| i < self.total && i != idx implies #[trigger]
                    known.contains(i) by {
                    if !known.contains(i) {
                        assert(before.contains(i));
                        assert(set![idx].contains(i));
                    }
                }
            }
            if !known.contains(idx) && (forall|i: usize|
                i < self.total && i != idx ==> #[trigger] known.contains(i)) {
                assert(before =~= set![idx]);
            }
        }
        let is_new: bool = self.done.insert(idx);
        let ghost after = missing(self.total as nat, self.done@);
        proof {
            if is_new {
                assert(before.contains(idx));
                assert(after =~= before.remove(idx));
            } else {
                assert(after =~= before);
                assert(set![idx].contains(idx));
                assert(!before.contains(idx));
            }
        }
        let save: bool = is_new && self.done.len() % SAVE_EVERY == 0;
        let mut finished: bool = false;
        if is_new {
            finished = self.pending == 1;
            self.pending = self.pending - 1;
            proof {
                if finished {
                    assert(after =~= Set::empty());
                    assert(before =~= set![idx]);
                    assert forall|i: usize| i < self.total implies #[trigger] self.done@.contains(
                        i,
                    ) by {
                        assert(!after.contains(i));
                    }
                } else if before == set![idx] {
                    assert(before.len() == 1);
                }
            }
        }
        Recorded { save, finished }
    }
}

impl FileProgress {
    /// Takes down what became of a chunk that came: where it was written, as `record` does; where
    /// it could not be written, not at all, so that it still counts as missing, and its job is
    /// given back.
    pub fn record_write(&mut self, job: Job, ok: bool) -> (r: Result<Recorded, Job>)
        requires
            old(self).is_consistent(),
            job.chunk.idx < old(self).total,
        ensures
            final(self).is_consistent(),
            final(self).total == old(self).total,
            !ok ==> {
                &&& r == Err::<Recorded, Job>(job)
                &&& final(self).done@ == old(self).done@
                &&& final(self).pending == old(self).pending
            },
            ok ==> {
                &&& r is Ok
                &&& final(self).done@ == old(self).done@.insert(job.chunk.idx)
                &&& r->Ok_0.save == (!old(self).done@.contains(job.chunk.idx)
                    && final(self).done@.len() % (SAVE_EVERY as nat) == 0)
                &&& r->Ok_0.finished == (missing(old(self).total as nat, old(self).done@)
                    == set![job.chunk.idx])
                &&& r->Ok_0.finished ==> final(self).is_complete()
                &&& r->Ok_0.finished <==> !old(self).done@.contains(job.chunk.idx) && forall|
                    i: usize,
                |
                    i < old(self).total && i != job.chunk.idx ==> #[trigger] old(
                        self,
                    ).done@.contains(i)
            },
    {
        if ok {
            Ok(self.record(job.chunk.idx))
        } else {
            Err(job)
        }
    }
}

/// A file is finished once: after the chunk that was the last one missing, whatever else is
/// written, no chunk is the last one missing.
pub proof fn law_finishes_once(
    total: nat,
    done: Set<usize>,
    last: usize,
    later: Set<usize>,
    again: usize,
)
    requires
        missing(total, done) == set![last],
        done.insert(last).subset_of(later),
    ensures
        missing(total, later) != set![again],
{
    assert forall|i: usize| !missing(total, later).contains(i) by {
        if missing(total, later).contains(i) {
            assert(!done.insert(last).contains(i));
            assert(missing(total, done).contains(i));
            assert(set![last].contains(i));
        }
    }
    assert(set![again].contains(again));
}

/// What is to be done for a file of a folder: nothing; to make an empty file; to give the file its
/// size if `allocate` is set, and to finish it, since the chunks that are there, `resumed` of them,
/// are all; or to download it.
#[derive(Debug)]
pub enum FilePlan {
    Skip,
    CreateEmpty,
    Finalize { allocate: bool, resumed: usize },
    Queue(QueuedFile),
}

/// A file whose chunks go to the queue: whether the file that they are written to must be given
/// its size first, how many bytes are there, the chunks, and the progress to take them down in.
#[derive(Debug)]
pub struct QueuedFile {
    pub allocate: bool,
    pub already: u64,
    pub chunks: Vec<Chunk>,
    pub progress: FileProgress,
}

/// A plan can be made for a file of `size` bytes of which the chunks in `done` are there.
pub open spec fn can_plan(size: nat, complete: bool, done: Set<usize>) -> bool {
    complete || size == 0 || {
        &&& chunk::is_countable(size, FOLDER_CHUNK_SIZE as nat)
        &&& {
            ||| chunk::pending(size, FOLDER_CHUNK_SIZE as nat, done).len() == 0
            ||| chunk::fits(size, FOLDER_CHUNK_SIZE as nat, done)
        }
    }
}

/// Whether a plan can be made, which `plan_file` asks for.
pub fn check_plan(size: u64, complete: bool, done: &HashSet<usize>) -> (r: bool)
    ensures
        r == can_plan(size as nat, complete, done@),
{
    if complete || size == 0 {
        return true;
    }
    if !chunk::check_countable(size, FOLDER_CHUNK_SIZE) {
        return false;
    }
    let pending = chunk::pending_chunks(size, FOLDER_CHUNK_SIZE, done);
    pending.len() == 0 || chunk::check_fits(size, FOLDER_CHUNK_SIZE, done)
}

/// `plan` is what is to be done for a file of `size` bytes. `complete` tells whether the finished
/// file is there, `part_len` is the length of the file that a download was writing to, if it is
/// there, and `done` holds the chunks that stand in it.
pub open spec fn is_file_plan(
    plan: FilePlan,
    size: u64,
    complete: bool,
    part_len: Option<u64>,
    done: Set<usize>,
) -> bool {
    let to_come = chunk::pending(size as nat, FOLDER_CHUNK_SIZE as nat, done);
    match plan {
        FilePlan::Skip => complete,
        FilePlan::CreateEmpty => !complete && size == 0,
        FilePlan::Finalize { allocate, resumed } => {
            &&& !complete && size > 0 && to_come.len() == 0
            &&& allocate == (part_len != Some(size))
            &&& resumed == done.len()
        },
        FilePlan::Queue(file) => {
            &&& !complete && size > 0 && to_come.len() > 0
            &&& file.allocate == (part_len != Some(size))
            &&& file.already == chunk::done_bytes(size as nat, FOLDER_CHUNK_SIZE as nat, done)
            &&& file.chunks@ == to_come
            &&& file.progress.is_consistent()
            &&& file.progress.done@ == done
            &&& file.progress.total == chunk::chunk_count(size as nat, FOLDER_CHUNK_SIZE as nat)
        },
    }
}

/// Decides what is to be done for a file of which the chunks in `done` are there.
pub fn plan_file(
    size: u64,
    complete: bool,
    part_len: Option<u64>,
    done: HashSet<usize>,
) -> (r: FilePlan)
    requires
        can_plan(size as nat, complete, done@),
    ensures
        is_file_plan(r, size, complete, part_len, done@),
{
    broadcast use vstd::std_specs::hash::group_hash_axioms;

    if complete {
        return FilePlan::Skip;
    }
    if size == 0 {
        return FilePlan::CreateEmpty;
    }
    let total: usize = chunk::num_chunks(size, FOLDER_CHUNK_SIZE);
    let allocate: bool = download::needs_allocation(part_len, size);
    let chunks = chunk::pending_chunks(size, FOLDER_CHUNK_SIZE, &done);
    if chunks.len() == 0 {
        return FilePlan::Finalize { allocate, resumed: done.len() };
    }
    let already: u64 = chunk::already_bytes(size, FOLDER_CHUNK_SIZE, &done);
    let pending: usize = chunks.len();
    proof {
        lemma_pending_counts(total as nat, size as nat, FOLDER_CHUNK_SIZE as nat, done@);
    }
    FilePlan::Queue(
        QueuedFile { allocate, already, chunks, progress: FileProgress { total, done, pending } },
    )
}

/// Decides what is to be done for a file whose progress was saved as `saved`. There is no plan
/// exactly where `can_plan` does not hold of that progress.
pub fn resume_file(
    size: u64,
    complete: bool,
    part_len: Option<u64>,
    saved: Option<&str>,
) -> (r: Option<FilePlan>)
    ensures
        r is Some <==> can_plan(
            size as nat,
            complete,
            download::resumed(part_len, saved.deep_view()),
        ),
        r matches Some(plan) ==> is_file_plan(
            plan,
            size,
            complete,
            part_len,
            download::resumed(part_len, saved.deep_view()),
        ),
{
    let done = download::resume_from(part_len, saved);
    if check_plan(size, complete, &done) {
        Some(plan_file(size, complete, part_len, done))
    } else {
        None
    }
}

/// A chunk of one of the files of a folder; `file` is the file's place in the list of files.
#[derive(Clone, Copy, Debug, PartialEq, Eq, Structural)]
pub struct Job {
    pub file: usize,
    pub chunk: Chunk,
}

/// The jobs for the chunks of one file.
pub open spec fn jobs_for(file: usize, chunks: Seq<Chunk>) -> Seq<Job> {
    chunks.map_values(|chunk: Chunk| Job { file, chunk })
}

/// The files that `jobs` belong to, each once, in the order in which they first come up.
pub open spec fn files_of(jobs: Seq<Job>) -> Seq<usize>
    decreases jobs.len(),
{
    if jobs.len() == 0 {
        seq![]
    } else {
        let before = files_of(jobs.drop_last());
        if before.contains(jobs.last().file) {
            before
        } else {
            before.push(jobs.last().file)
        }
    }
}

/// The files of some jobs are exactly those that a job belongs to, and none of them comes up twice.
pub proof fn law_files_of(jobs: Seq<Job>)
    ensures
        files_of(jobs).no_duplicates(),
        forall|k: int| 0 <= k < jobs.len() ==> files_of(jobs).contains((#[trigger] jobs[k]).file),
        forall|f: usize| #[trigger]
            files_of(jobs).contains(f) ==> exists|k: int|
                0 <= k < jobs.len() && #[trigger] jobs[k].file == f,
    decreases jobs.len(),
{
    if jobs.len() > 0 {
        let front = jobs.drop_last();
        let before = files_of(front);
        let all = files_of(jobs);
        law_files_of(front);
        assert(forall|k: int| 0 <= k < before.len() ==> #[trigger] all[k] == before[k]);
        assert forall|f: usize| #[trigger] before.contains(f) implies all.contains(f) by {
            let k = choose|k: int| 0 <= k < before.len() && before[k] == f;
            assert(all[k] == f);
        }
        assert forall|k: int| 0 <= k < jobs.len() implies all.contains((#[trigger] jobs[k]).file) by {
            if k < front.len() {
                assert(before.contains(front[k].file));
            } else if !before.contains(jobs.last().file) {
                assert(all[all.len() - 1] == jobs[k].file);
            }
        }
        assert forall|f: usize| #[trigger] all.contains(f) implies exists|k: int|
            0 <= k < jobs.len() && #[trigger] jobs[k].file == f by {
            let j = choose|j: int| 0 <= j < all.len() && all[j] == f;
            if j < before.len() {
                assert(before.contains(f));
                let k = choose|k: int| 0 <= k < front.len() && #[trigger] front[k].file == f;
                assert(jobs[k].file == f);
            } else {
                assert(jobs[jobs.len() - 1].file == f);
            }
        }
    }
}

/// The jobs whose chunks are not among `written`, in order.
pub open spec fn unwritten(jobs: Seq<Job>, written: Seq<Job>) -> Seq<Job> {
    jobs.filter(|job: Job| !written_of(written, job.file).contains(job.chunk.idx))
}

/// `by_file` has the number `i` for file `f`.
spec fn lists(by_file: Map<usize, HashSet<usize>>, f: usize, i: usize) -> bool {
    by_file.contains_key(f) && by_file[f]@.contains(i)
}

/// The numbers of the chunks among `written`, by file.
fn chunks_by_file(written: &Vec<Job>) -> (r: HashMap<usize, HashSet<usize>>)
    ensures
        forall|f: usize, i: usize|
            #[trigger] lists(r@, f, i) <==> written_of(written@, f).contains(i),
{
    broadcast use vstd::std_specs::hash::group_hash_axioms;

    let mut r: HashMap<usize, HashSet<usize>> = HashMap::new();
    let mut k: usize = 0;
    while k < written.len()
        invariant
            k <= written.len(),
            forall|f: usize, i: usize|
                #[trigger] lists(r@, f, i) <==> written_of(written@.take(k as int), f).contains(i),
        decreases written.len() - k,
    {
        broadcast use vstd::std_specs::hash::group_hash_axioms;

        let job = written[k];
        let ghost before = r@;
        let mut chunks: HashSet<usize> = match r.remove(&job.file) {
            Some(chunks) => chunks,
            None => HashSet::new(),
        };
        let ghost known = chunks@;
        chunks.insert(job.chunk.idx);
        r.insert(job.file, chunks);
        proof {
            let front = written@.take(k as int);
            assert(written@.take(k + 1) =~= front.push(job));
            assert forall|f: usize, i: usize|
                #[trigger] lists(r@, f, i) <==> written_of(front.push(job), f).contains(i) by {
                lemma_written_of(front, job, f);
                assert(lists(before, f, i) <==> written_of(front, f).contains(i));
                if f == job.file {
                    assert(known.contains(i) <==> lists(before, f, i));
                }
            }
        }
        k = k + 1;
    }
    assert(written@.take(written@.len() as int) =~= written@);
    r
}

/// The jobs whose chunks are not among `written`, in order.
pub fn unwritten_jobs(jobs: &Vec<Job>, written: &Vec<Job>) -> (r: Vec<Job>)
    ensures
        r@ == unwritten(jobs@, written@),
{
    broadcast use vstd::std_specs::hash::group_hash_axioms;

    let gone = chunks_by_file(written);
    let ghost keep = |job: Job| !written_of(written@, job.file).contains(job.chunk.idx);
    let mut r: Vec<Job> = Vec::new();
    let mut i: usize = 0;
    assert(jobs@.take(0).filter(keep) =~= seq![]) by {
        reveal(Seq::filter);
    }
    while i < jobs.len()
        invariant
            i <= jobs.len(),
            keep == (|job: Job| !written_of(written@, job.file).contains(job.chunk.idx)),
            forall|f: usize, c: usize|
                #[trigger] lists(gone@, f, c) <==> written_of(written@, f).contains(c),
            r@ == jobs@.take(i as int).filter(keep),
        decreases jobs.len() - i,
    {
        broadcast use vstd::std_specs::hash::group_hash_axioms;

        let job = jobs[i];
        proof {
            reveal(Seq::filter);
            assert(jobs@.take(i + 1).drop_last() =~= jobs@.take(i as int));
            assert(jobs@.take(i + 1).last() == job);
            assert(lists(gone@, job.file, job.chunk.idx) <==> written_of(
                written@,
                job.file,
            ).contains(job.chunk.idx));
        }
        let is_gone: bool = match gone.get(&job.file) {
            Some(chunks) => chunks.contains(&job.chunk.idx),
            None => false,
        };
        if !is_gone {
            r.push(job);
        }
        i = i + 1;
    }
    assert(jobs@.take(jobs@.len() as int) =~= jobs@);
    r
}

/// The state of the download of a folder: how many rounds have begun, and the jobs that are still
/// to be done, in a round that is under way or in the next.
pub struct FolderState {
    pub round: nat,
    pub jobs: Seq<Job>,
}

impl FolderState {
    /// There is no further round.
    pub open spec fn is_over(self) -> bool {
        self.jobs.len() == 0 || self.round >= MAX_ROUNDS
    }
}

/// The download of a folder.
#[derive(Debug)]
pub struct FolderDownload {
    pub round: usize,
    pub jobs: Vec<Job>,
}

impl View for FolderDownload {
    type V = FolderState;

    open spec fn view(&self) -> FolderState {
        FolderState { round: self.round as nat, jobs: self.jobs@ }
    }
}

/// What is asked for in one round: jobs, and first new addresses for the files in `refresh`.
#[derive(Debug)]
pub struct FolderRound {
    pub jobs: Vec<Job>,
    pub refresh: Vec<usize>,
}

/// The files that `jobs` belong to, each once, in the order in which they first come up.
pub fn unique_files(jobs: &Vec<Job>) -> (r: Vec<usize>)
    ensures
        r@ == files_of(jobs@),
{
    broadcast use vstd::std_specs::hash::group_hash_axioms;

    let mut seen: HashSet<usize> = HashSet::new();
    let mut r: Vec<usize> = Vec::new();
    let mut i: usize = 0;
    assert(jobs@.take(0) =~= seq![]);
    while i < jobs.len()
        invariant
            i <= jobs.len(),
            r@ == files_of(jobs@.take(i as int)),
            forall|f: usize| #[trigger] seen@.contains(f) <==> r@.contains(f),
        decreases jobs.len() - i,
    {
        broadcast use vstd::std_specs::hash::group_hash_axioms;

        let file: usize = jobs[i].file;
        let ghost before = r@;
        assert(jobs@.take(i + 1).drop_last() =~= jobs@.take(i as int));
        if seen.insert(file) {
            r.push(file);
            proof {
                assert(r@[r@.len() - 1] == file);
                assert forall|f: usize| #[trigger] seen@.contains(f) <==> r@.contains(f) by {
                    if before.contains(f) {
                        let k = choose|k: int| 0 <= k < before.len() && before[k] == f;
                        assert(r@[k] == f);
                    }
                }
            }
        }
        i = i + 1;
    }
    assert(jobs@.take(jobs@.len() as int) =~= jobs@);
    r
}

impl FolderDownload {
    /// A download without jobs, before its first round.
    pub fn new() -> (r: Self)
        ensures
            r@ == (FolderState { round: 0, jobs: seq![] }),
    {
        FolderDownload { round: 0, jobs: Vec::new() }
    }

    /// Adds the chunks of a file to the queue.
    pub fn queue(&mut self, file: usize, chunks: &Vec<Chunk>)
        ensures
            final(self)@ == (FolderState {
                jobs: old(self)@.jobs + jobs_for(file, chunks@),
                ..old(self)@
            }),
    {
        let ghost before = self.jobs@;
        let mut i: usize = 0;
        assert(self.jobs@ =~= before + jobs_for(file, chunks@.take(0)));
        while i < chunks.len()
            invariant
                i <= chunks.len(),
                self.round == old(self).round,
                before == old(self).jobs@,
                self.jobs@ == before + jobs_for(file, chunks@.take(i as int)),
            decreases chunks.len() - i,
        {
            self.jobs.push(Job { file, chunk: chunks[i] });
            assert(self.jobs@ =~= before + jobs_for(file, chunks@.take(i + 1)));
            i = i + 1;
        }
        assert(chunks@.take(chunks@.len() as int) =~= chunks@);
    }

    /// Brings the jobs into an order left to chance, so that the work spreads over the files.
    pub fn shuffle(&mut self)
        ensures
            final(self)@.round == old(self)@.round,
            final(self)@.jobs.to_multiset() == old(self)@.jobs.to_multiset(),
    {
        proxy::shuffle(&mut self.jobs);
    }

    /// Begins a round, if one is left and there are jobs for it. All jobs are handed out, and stay
    /// until they are done. From the second round on, the files get new addresses.
    pub fn next_round(&mut self) -> (r: Option<FolderRound>)
        ensures
            r is None <==> old(self)@.is_over(),
            r is Some <==> old(self).jobs@.len() > 0 && old(self).round < MAX_ROUNDS,
            r is None ==> final(self)@ == old(self)@,
            r is Some ==> {
                &&& final(self).round == old(self).round + 1
                &&& final(self).jobs@ == old(self).jobs@
                &&& r->0.jobs@ == old(self)@.jobs
                &&& r->0.refresh@ == if old(self)@.round > 0 {
                    files_of(old(self)@.jobs)
                } else {
                    seq![]
                }
                &&& final(self)@ == (FolderState { round: old(self)@.round + 1, ..old(self)@ })
            },
    {
        if self.jobs.len() == 0 || self.round >= MAX_ROUNDS {
            return None;
        }
        let refresh = if self.round > 0 {
            unique_files(&self.jobs)
        } else {
            Vec::new()
        };
        let mut jobs: Vec<Job> = Vec::new();
        jobs.extend_from_slice(self.jobs.as_slice());
        assert(jobs@ =~= self.jobs@);
        self.round = self.round + 1;
        Some(FolderRound { jobs, refresh })
    }

    /// Ends a round in which the jobs `written` were done. All others are to be done again: those
    /// that failed, and those that no worker came to.
    pub fn finish_round(&mut self, written: &Vec<Job>)
        ensures
            final(self)@ == (FolderState {
                jobs: unwritten(old(self)@.jobs, written@),
                ..old(self)@
            }),
    {
        self.jobs = unwritten_jobs(&self.jobs, written);
    }

    /// Whether the pool must be filled up before the jobs can be worked on: there are jobs, and no
    /// proxy.
    pub fn needs_proxies(&self, pool: &ProxyPool) -> (r: bool)
        ensures
            r == (self@.jobs.len() > 0 && pool@.len() == 0),
    {
        self.jobs.len() > 0 && pool.is_empty()
    }

    /// How many jobs are left.
    pub fn leftover(&self) -> (r: usize)
        ensures
            r == self@.jobs.len(),
    {
        self.jobs.len()
    }
}

/// What is known of one file: how many chunks it has, and which of them are there.
pub struct FileState {
    pub total: nat,
    pub done: Set<usize>,
}

/// The chunks of file `f` among `written`.
pub open spec fn written_of(written: Seq<Job>, f: usize) -> Set<usize> {
    Set::new(
        |i: usize|
            exists|k: int|
                0 <= k < written.len() && (#[trigger] written[k]).file == f && written[k].chunk.idx
                    == i,
    )
}

/// The files after the jobs `written` are written.
pub open spec fn after_writing(
    files: Map<usize, FileState>,
    written: Seq<Job>,
) -> Map<usize, FileState> {
    Map::new(
        |f: usize| files.dom().contains(f),
        |f: usize|
            FileState {
                total: files[f].total,
                done: files[f].done.union(written_of(written, f)),
            },
    )
}

/// Among `jobs` is one for each chunk of `files` that is missing.
pub open spec fn covers(jobs: Seq<Job>, files: Map<usize, FileState>) -> bool {
    forall|f: usize, i: usize|
        files.dom().contains(f) && #[trigger] missing(files[f].total, files[f].done).contains(i)
            ==> exists|k: int|
            0 <= k < jobs.len() && (#[trigger] jobs[k]).file == f && jobs[k].chunk.idx == i
}

/// Each of `jobs` is for a chunk of `files` that is missing, and no two are for the same chunk.
pub open spec fn is_queue_of(jobs: Seq<Job>, files: Map<usize, FileState>) -> bool {
    &&& forall|k: int|
        0 <= k < jobs.len() ==> {
            let job = #[trigger] jobs[k];
            &&& files.dom().contains(job.file)
            &&& missing(files[job.file].total, files[job.file].done).contains(job.chunk.idx)
        }
    &&& forall|k: int, l: int|
        0 <= k < l < jobs.len() ==> (#[trigger] jobs[k]).file != (#[trigger] jobs[l]).file
            || jobs[k].chunk.idx != jobs[l].chunk.idx
}

/// To write one more chunk adds it to the chunks of its file, and changes no other file.
pub proof fn law_write_one(files: Map<usize, FileState>, written: Seq<Job>, job: Job)
    requires
        files.dom().contains(job.file),
    ensures
        after_writing(files, written.push(job)) == after_writing(files, written).insert(
            job.file,
            (FileState {
                total: files[job.file].total,
                done: after_writing(files, written)[job.file].done.insert(job.chunk.idx),
            }),
        ),
{
    let more = written.push(job);
    assert forall|f: usize| f != job.file implies written_of(more, f) =~= written_of(
        written,
        f,
    ) by {
        lemma_written_of(written, job, f);
    }
    assert(written_of(more, job.file) =~= written_of(written, job.file).insert(job.chunk.idx)) by {
        lemma_written_of(written, job, job.file);
    }
    let a = after_writing(files, more);
    let b = after_writing(files, written);
    assert(a[job.file].done =~= b[job.file].done.insert(job.chunk.idx));
    assert forall|f: usize| f != job.file && files.dom().contains(f) implies a[f] == b[f] by {
        assert(written_of(more, f) == written_of(written, f));
    }
    assert(a =~= b.insert(
        job.file,
        (FileState {
            total: files[job.file].total,
            done: b[job.file].done.insert(job.chunk.idx),
        }),
    ));
}

/// What one more job adds to the chunks of file `f`.
proof fn lemma_written_of(written: Seq<Job>, job: Job, f: usize)
    ensures
        forall|i: usize| #[trigger]
            written_of(written.push(job), f).contains(i) <==> written_of(written, f).contains(i) || (
            job.file == f && job.chunk.idx == i),
{
    let more = written.push(job);
    assert forall|i: usize| #[trigger]
        written_of(more, f).contains(i) <==> written_of(written, f).contains(i) || (job.file == f
            && job.chunk.idx == i) by {
        if written_of(more, f).contains(i) {
            let k = choose|k: int|
                0 <= k < more.len() && (#[trigger] more[k]).file == f && more[k].chunk.idx == i;
            if k < written.len() {
                assert(written[k].file == f && written[k].chunk.idx == i);
            }
        }
        if written_of(written, f).contains(i) {
            let k = choose|k: int|
                0 <= k < written.len() && (#[trigger] written[k]).file == f && written[k].chunk.idx
                    == i;
            assert(more[k].file == f && more[k].chunk.idx == i);
        }
        if job.file == f && job.chunk.idx == i {
            assert(more[written.len() as int].file == f);
        }
    }
}

/// To queue the chunks that are to come of one more file keeps the queue as it should be.
pub proof fn law_queue_file(
    jobs: Seq<Job>,
    files: Map<usize, FileState>,
    file: usize,
    size: nat,
    done: Set<usize>,
)
    requires
        covers(jobs, files),
        is_queue_of(jobs, files),
        !files.dom().contains(file),
        chunk::is_countable(size, FOLDER_CHUNK_SIZE as nat),
    ensures
        ({
            let more = jobs + jobs_for(file, chunk::pending(size, FOLDER_CHUNK_SIZE as nat, done));
            let state = FileState {
                total: chunk::chunk_count(size, FOLDER_CHUNK_SIZE as nat),
                done,
            };
            &&& covers(more, files.insert(file, state))
            &&& is_queue_of(more, files.insert(file, state))
        }),
{
    let chunks = chunk::pending(size, FOLDER_CHUNK_SIZE as nat, done);
    let more = jobs + jobs_for(file, chunks);
    let total = chunk::chunk_count(size, FOLDER_CHUNK_SIZE as nat);
    let all = files.insert(file, FileState { total, done });
    chunk::law_pending(size, FOLDER_CHUNK_SIZE as nat, done);
    assert forall|f: usize, i: usize|
        all.dom().contains(f) && #[trigger] missing(all[f].total, all[f].done).contains(
            i,
        ) implies exists|k: int|
        0 <= k < more.len() && (#[trigger] more[k]).file == f && more[k].chunk.idx == i by {
        if f == file {
            let c = chunk::chunk_at(i as nat, size, FOLDER_CHUNK_SIZE as nat);
            assert(chunks.contains(c));
            let j = choose|j: int| 0 <= j < chunks.len() && chunks[j] == c;
            assert(more[jobs.len() + j].file == f);
        } else {
            assert(missing(files[f].total, files[f].done).contains(i));
            let k = choose|k: int|
                0 <= k < jobs.len() && (#[trigger] jobs[k]).file == f && jobs[k].chunk.idx == i;
            assert(more[k].file == f);
        }
    }
    assert forall|k: int| 0 <= k < more.len() implies {
        let job = #[trigger] more[k];
        &&& all.dom().contains(job.file)
        &&& missing(all[job.file].total, all[job.file].done).contains(job.chunk.idx)
    } by {
        if k < jobs.len() {
            assert(more[k] == jobs[k]);
        } else {
            assert(more[k].chunk == chunks[k - jobs.len()]);
        }
    }
    assert forall|k: int, l: int| 0 <= k < l < more.len() implies (#[trigger] more[k]).file != (
    #[trigger] more[l]).file || more[k].chunk.idx != more[l].chunk.idx by {
        if l < jobs.len() {
            assert(more[k] == jobs[k] && more[l] == jobs[l]);
        } else if k < jobs.len() {
            assert(more[k] == jobs[k]);
        } else {
            assert(more[k].chunk == chunks[k - jobs.len()]);
            assert(more[l].chunk == chunks[l - jobs.len()]);
        }
    }
}

/// The order of the jobs does not matter.
pub proof fn law_any_order(jobs: Seq<Job>, order: Seq<Job>, files: Map<usize, FileState>)
    requires
        order.to_multiset() == jobs.to_multiset(),
    ensures
        covers(jobs, files) ==> covers(order, files),
        is_queue_of(jobs, files) ==> is_queue_of(order, files),
{
    broadcast use vstd::seq_lib::group_to_multiset_ensures;

    assert forall|job: Job| #[trigger] jobs.contains(job) <==> order.contains(job) by {
        assert(jobs.contains(job) <==> jobs.to_multiset().count(job) > 0);
        assert(order.contains(job) <==> order.to_multiset().count(job) > 0);
    }
    if covers(jobs, files) {
        assert forall|f: usize, i: usize|
            files.dom().contains(f) && #[trigger] missing(files[f].total, files[f].done).contains(
                i,
            ) implies exists|k: int|
            0 <= k < order.len() && (#[trigger] order[k]).file == f && order[k].chunk.idx == i by {
            let k = choose|k: int|
                0 <= k < jobs.len() && (#[trigger] jobs[k]).file == f && jobs[k].chunk.idx == i;
            assert(jobs.contains(jobs[k]));
            assert(order.contains(jobs[k]));
            let l = choose|l: int| 0 <= l < order.len() && order[l] == jobs[k];
            assert(order[l].file == f);
        }
    }
    if is_queue_of(jobs, files) {
        assert forall|k: int| 0 <= k < order.len() implies {
            let job = #[trigger] order[k];
            &&& files.dom().contains(job.file)
            &&& missing(files[job.file].total, files[job.file].done).contains(job.chunk.idx)
        } by {
            assert(jobs.contains(order[k]));
            let l = choose|l: int| 0 <= l < jobs.len() && jobs[l] == order[k];
            assert(jobs[l] == order[k]);
        }
        assert(jobs.no_duplicates());
        jobs.lemma_multiset_has_no_duplicates();
        order.lemma_multiset_has_no_duplicates_conv();
        assert forall|k: int, l: int| 0 <= k < l < order.len() implies (
        #[trigger] order[k]).file != (#[trigger] order[l]).file || order[k].chunk.idx
            != order[l].chunk.idx by {
            assert(jobs.contains(order[k]) && jobs.contains(order[l]));
            let a = choose|a: int| 0 <= a < jobs.len() && jobs[a] == order[k];
            let b = choose|b: int| 0 <= b < jobs.len() && jobs[b] == order[l];
            assert(order[k] != order[l]);
            assert(a < b || b < a);
        }
    }
}

/// A round keeps the queue as it should be, whichever jobs were done and whatever became of the
/// others: those that are left are for what is still missing, all of it and nothing else.
pub proof fn law_folder_round(jobs: Seq<Job>, files: Map<usize, FileState>, written: Seq<Job>)
    requires
        covers(jobs, files),
        is_queue_of(jobs, files),
    ensures
        covers(unwritten(jobs, written), after_writing(files, written)),
        is_queue_of(unwritten(jobs, written), after_writing(files, written)),
{
    let left = unwritten(jobs, written);
    let after = after_writing(files, written);
    let keep = |job: Job| !written_of(written, job.file).contains(job.chunk.idx);
    assert forall|f: usize, i: usize|
        after.dom().contains(f) && #[trigger] missing(after[f].total, after[f].done).contains(
            i,
        ) implies exists|k: int|
        0 <= k < left.len() && (#[trigger] left[k]).file == f && left[k].chunk.idx == i by {
        assert(missing(files[f].total, files[f].done).contains(i));
        let k = choose|k: int|
            0 <= k < jobs.len() && (#[trigger] jobs[k]).file == f && jobs[k].chunk.idx == i;
        assert(keep(jobs[k]));
        jobs.lemma_filter_contains(keep, k);
        let j = choose|j: int| 0 <= j < left.len() && left[j] == jobs[k];
        assert(left[j].file == f);
    }
    assert forall|k: int| 0 <= k < left.len() implies {
        let job = #[trigger] left[k];
        &&& after.dom().contains(job.file)
        &&& missing(after[job.file].total, after[job.file].done).contains(job.chunk.idx)
    } by {
        let job = left[k];
        jobs.lemma_filter_pred(keep, k);
        assert(left.contains(job));
        jobs.lemma_filter_contains_rev(keep, job);
        let j = choose|j: int| 0 <= j < jobs.len() && jobs[j] == job;
        assert(jobs[j] == job);
    }
    chunk::lemma_filter_pairs(
        jobs,
        keep,
        |a: Job, b: Job| a.file != b.file || a.chunk.idx != b.chunk.idx,
    );
}

/// Nothing is lost: where the jobs that were done are among those that were handed out, they and
/// those that are left are together the jobs that were handed out.
pub proof fn law_done_or_left(jobs: Seq<Job>, files: Map<usize, FileState>, written: Seq<Job>)
    requires
        is_queue_of(jobs, files),
        written.no_duplicates(),
        forall|k: int| 0 <= k < written.len() ==> jobs.contains(#[trigger] written[k]),
    ensures
        (unwritten(jobs, written) + written).to_multiset() == jobs.to_multiset(),
{
    broadcast use vstd::seq_lib::group_to_multiset_ensures;

    let left = unwritten(jobs, written);
    let all = left + written;
    let keep = |job: Job| !written_of(written, job.file).contains(job.chunk.idx);
    assert(jobs.no_duplicates());
    chunk::lemma_filter_pairs(jobs, keep, |a: Job, b: Job| a != b);
    assert forall|job: Job| written.contains(job) implies !left.contains(job) by {
        let k = choose|k: int| 0 <= k < written.len() && written[k] == job;
        if left.contains(job) {
            let j = choose|j: int| 0 <= j < left.len() && left[j] == job;
            jobs.lemma_filter_pred(keep, j);
            assert(written[k].file == job.file && written[k].chunk.idx == job.chunk.idx);
            assert(false);
        }
    }
    assert(all.no_duplicates()) by {
        assert forall|k: int, l: int| 0 <= k < all.len() && 0 <= l < all.len() && k
            != l implies all[k] != all[l] by {
            let (lo, hi) = if k < l {
                (k, l)
            } else {
                (l, k)
            };
            if hi < left.len() {
                assert(left[lo] != left[hi]);
            } else if lo < left.len() {
                assert(written.contains(written[hi - left.len()]));
                assert(left.contains(left[lo]));
            } else {
                assert(written[lo - left.len()] != written[hi - left.len()]);
            }
        }
    }
    assert forall|job: Job| #[trigger] all.contains(job) <==> jobs.contains(job) by {
        if all.contains(job) {
            let k = choose|k: int| 0 <= k < all.len() && all[k] == job;
            if k < left.len() {
                assert(left.contains(left[k]));
                jobs.lemma_filter_contains_rev(keep, job);
            } else {
                assert(jobs.contains(written[k - left.len()]));
            }
        }
        if jobs.contains(job) {
            let k = choose|k: int| 0 <= k < jobs.len() && jobs[k] == job;
            if keep(job) {
                jobs.lemma_filter_contains(keep, k);
                let j = choose|j: int| 0 <= j < left.len() && left[j] == job;
                assert(all[j] == job);
            } else {
                let w = choose|w: int|
                    0 <= w < written.len() && (#[trigger] written[w]).file == job.file
                        && written[w].chunk.idx == job.chunk.idx;
                assert(jobs.contains(written[w]));
                let j = choose|j: int| 0 <= j < jobs.len() && jobs[j] == written[w];
                assert(j == k);
                assert(all[left.len() + w] == job);
            }
        }
    }
    all.lemma_multiset_has_no_duplicates();
    jobs.lemma_multiset_has_no_duplicates();
    assert forall|job: Job| #[trigger]
        all.to_multiset().count(job) == jobs.to_multiset().count(job) by {
        assert(all.contains(job) <==> all.to_multiset().count(job) > 0);
        assert(jobs.contains(job) <==> jobs.to_multiset().count(job) > 0);
        if all.contains(job) {
            assert(all.to_multiset().contains(job) && jobs.to_multiset().contains(job));
        }
    }
    assert(all.to_multiset() =~= jobs.to_multiset());
}

/// With nothing left to do, every chunk of every file is there.
pub proof fn law_empty_queue(files: Map<usize, FileState>, f: usize, i: usize)
    requires
        covers(seq![], files),
        files.dom().contains(f),
        i < files[f].total,
    ensures
        files[f].done.contains(i),
{
    if !files[f].done.contains(i) {
        assert(missing(files[f].total, files[f].done).contains(i));
        assert(false);
    }
}

/// What is missing: the numbers below the total that are not done.
pub proof fn law_missing(total: nat, done: Set<usize>, i: usize)
    ensures
        missing(total, done).contains(i) <==> i < total && !done.contains(i),
{
}

/// Rounds go on: another begins whenever a job is left and fewer than thirty have begun, and
/// none begins only where no job is left or so many have begun.
pub proof fn law_folder_rounds_go_on(s: FolderState)
    ensures
        s.jobs.len() >= 1 && s.round < 30 ==> !s.is_over(),
        s.jobs.len() == 0 || s.round >= 30 ==> s.is_over(),
{
}

/// A job is left after a round exactly where it was there before and no job for the same chunk of
/// the same file was done.
pub proof fn law_what_is_left(jobs: Seq<Job>, written: Seq<Job>, job: Job)
    ensures
        unwritten(jobs, written).contains(job) <==> jobs.contains(job) && forall|k: int|
            0 <= k < written.len() ==> (#[trigger] written[k]).file != job.file
                || written[k].chunk.idx != job.chunk.idx,
        unwritten(jobs, seq![]) == jobs,
{
    let keep = |j: Job| !written_of(written, j.file).contains(j.chunk.idx);
    let left = unwritten(jobs, written);
    if left.contains(job) {
        let j = choose|j: int| 0 <= j < left.len() && left[j] == job;
        jobs.lemma_filter_pred(keep, j);
        jobs.lemma_filter_contains_rev(keep, job);
        assert forall|k: int| 0 <= k < written.len() implies (#[trigger] written[k]).file
            != job.file || written[k].chunk.idx != job.chunk.idx by {
            if written[k].file == job.file && written[k].chunk.idx == job.chunk.idx {
                assert(written_of(written, job.file).contains(job.chunk.idx));
            }
        }
    }
    if jobs.contains(job) && (forall|k: int|
        0 <= k < written.len() ==> (#[trigger] written[k]).file != job.file || written[k].chunk.idx
            != job.chunk.idx) {
        assert(keep(job));
        let k = choose|k: int| 0 <= k < jobs.len() && jobs[k] == job;
        jobs.lemma_filter_contains(keep, k);
    }
    let none = Seq::<Job>::empty();
    lemma_keep_all(jobs, |j: Job| !written_of(none, j.file).contains(j.chunk.idx));
}

/// Filtering by what is true of every item leaves all of them.
proof fn lemma_keep_all(s: Seq<Job>, keep: spec_fn(Job) -> bool)
    requires
        forall|k: int| 0 <= k < s.len() ==> keep(#[trigger] s[k]),
    ensures
        s.filter(keep) == s,
    decreases s.len(),
{
    reveal(Seq::filter);
    if s.len() > 0 {
        lemma_keep_all(s.drop_last(), keep);
        assert(keep(s[s.len() - 1]));
        assert(s.drop_last().push(s.last()) =~= s);
    }
}

/// There is one job for each chunk of a file that is queued, in the order of the chunks.
pub proof fn law_jobs_for(file: usize, chunks: Seq<Chunk>, k: int)
    requires
        0 <= k < chunks.len(),
    ensures
        jobs_for(file, chunks).len() == chunks.len(),
        jobs_for(file, chunks)[k].file == file,
        jobs_for(file, chunks)[k].chunk == chunks[k],
{
}

/// The files that get new addresses come in the order in which they first come up: more jobs behind
/// others add files behind theirs.
pub proof fn law_files_in_order(a: Seq<Job>, b: Seq<Job>)
    ensures
        files_of(a + b).len() >= files_of(a).len(),
        files_of(a + b).take(files_of(a).len() as int) == files_of(a),
    decreases b.len(),
{
    if b.len() == 0 {
        assert(a + b =~= a);
        assert(files_of(a).take(files_of(a).len() as int) =~= files_of(a));
    } else {
        law_files_in_order(a, b.drop_last());
        assert((a + b).drop_last() =~= a + b.drop_last());
        let n = files_of(a).len() as int;
        let before = files_of(a + b.drop_last());
        assert(files_of(a + b).take(n) =~= before.take(n));
    }
}

/// What a plan for a file of a folder says: to skip it where it is complete; to make it where it is
/// empty; to finish it where none of its chunks is missing; else to download those that are, after
/// giving the file its size where it has another.
pub proof fn law_file_plan(
    plan: FilePlan,
    size: u64,
    complete: bool,
    part_len: Option<u64>,
    done: Set<usize>,
    i: usize,
)
    requires
        is_file_plan(plan, size, complete, part_len, done),
        complete || size == 0 || chunk::is_countable(size as nat, FOLDER_CHUNK_SIZE as nat),
    ensures
        plan is Skip <==> complete,
        plan is CreateEmpty <==> !complete && size == 0,
        plan matches FilePlan::Finalize { allocate, resumed } ==> {
            &&& allocate <==> part_len != Some(size)
            &&& resumed == done.len()
            &&& i * FOLDER_CHUNK_SIZE < size ==> done.contains(i)
        },
        plan matches FilePlan::Queue(file) ==> {
            &&& file.allocate <==> part_len != Some(size)
            &&& file.already == Set::new(
                |x: int| 0 <= x < size && done.contains((x / FOLDER_CHUNK_SIZE as int) as usize),
            ).len()
            &&& file.progress.done@ == done
            &&& i < file.progress.total <==> i * FOLDER_CHUNK_SIZE < size
            &&& file.chunks@.len() > 0
            &&& file.progress.pending == file.chunks@.len()
            &&& (exists|k: int| 0 <= k < file.chunks@.len() && (#[trigger] file.chunks@[k]).idx == i)
                <==> i * FOLDER_CHUNK_SIZE < size && !done.contains(i)
        },
{
    if !complete && size > 0 {
        let n = chunk::chunk_count(size as nat, FOLDER_CHUNK_SIZE as nat);
        let to_come = chunk::pending(size as nat, FOLDER_CHUNK_SIZE as nat, done);
        chunk::law_count_of_bytes(size as nat, FOLDER_CHUNK_SIZE as nat, done);
        chunk::law_pending(size as nat, FOLDER_CHUNK_SIZE as nat, done);
        chunk::law_how_many_chunks(i as nat, size as nat, FOLDER_CHUNK_SIZE as nat);
        lemma_pending_counts(n, size as nat, FOLDER_CHUNK_SIZE as nat, done);
        if i < n && !done.contains(i) {
            let c = chunk::chunk_at(i as nat, size as nat, FOLDER_CHUNK_SIZE as nat);
            assert(to_come.contains(c));
            let k = choose|k: int| 0 <= k < to_come.len() && to_come[k] == c;
            assert(to_come[k].idx == i);
        }
    }
}

/// A plan can be made on top of any progress whose chunks start no later than where the file ends,
/// and of any that leaves nothing missing, unless the file is so large that its chunks cannot be
/// counted.
pub proof fn law_can_plan(size: nat, complete: bool, done: Set<usize>)
    ensures
        complete || size == 0 ==> can_plan(size, complete, done),
        !complete && size > 0 ==> (can_plan(size, complete, done) <==> {
            &&& size + FOLDER_CHUNK_SIZE <= u64::MAX
            &&& size <= usize::MAX * FOLDER_CHUNK_SIZE
            &&& {
                ||| forall|i: usize| #[trigger]
                    done.contains(i) ==> i * FOLDER_CHUNK_SIZE <= size
                ||| forall|i: usize| i * FOLDER_CHUNK_SIZE < size ==> #[trigger] done.contains(i)
            }
        }),
{
    if !complete && size > 0 {
        chunk::law_countable(size, FOLDER_CHUNK_SIZE as nat);
        if chunk::is_countable(size, FOLDER_CHUNK_SIZE as nat) {
            let n = chunk::chunk_count(size, FOLDER_CHUNK_SIZE as nat);
            let to_come = chunk::pending(size, FOLDER_CHUNK_SIZE as nat, done);
            chunk::law_pending(size, FOLDER_CHUNK_SIZE as nat, done);
            if to_come.len() == 0 {
                assert forall|i: usize| i * FOLDER_CHUNK_SIZE < size implies #[trigger]
                    done.contains(i) by {
                    chunk::law_how_many_chunks(i as nat, size, FOLDER_CHUNK_SIZE as nat);
                    if !done.contains(i) {
                        let c = chunk::chunk_at(i as nat, size, FOLDER_CHUNK_SIZE as nat);
                        assert(to_come.contains(c));
                    }
                }
            } else {
                let c = to_come[0];
                chunk::law_how_many_chunks(c.idx as nat, size, FOLDER_CHUNK_SIZE as nat);
                assert(!done.contains(c.idx));
            }
        }
    }
}

} // verus!
