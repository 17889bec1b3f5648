//! The course of a download: where a file goes, what is left to do, and when it is done.

use std::collections::HashSet;
use vstd::prelude::*;
use vstd::string::StringExecFns;

use crate::chunk;
use crate::chunk::{Chunk, CHUNK_SIZE};
use crate::path;
use crate::proxy::ProxyPool;
use crate::resume;

verus! {

/// How often the chunks that did not come are asked for.
pub const MAX_ROUNDS: usize = 30;

/// Where a file goes: its name, the path that it is downloaded to, the path that it has when it
/// is complete, and the path that its progress is saved to.
#[derive(Debug)]
pub struct TargetPaths {
    pub name: String,
    pub part: String,
    pub complete: String,
    pub state: String,
}

/// The path that the file `name` in `dir` is downloaded to.
pub open spec fn part_path(dir: Seq<char>, name: Seq<char>) -> Seq<char> {
    path::join(dir, name + ".part"@)
}

/// Where the file `name` goes in `dir`.
pub fn target_paths(dir: &str, name: &str) -> (r: TargetPaths)
    ensures
        r.name@ == name@,
        r.part@ == part_path(dir@, name@),
        r.complete@ == path::join(dir@, name@),
        r.state@ == path::state_path_of(r.part@),
        r.part@ == path::join(dir@, name@ + ".part"@),
{
    let mut part_name: String = name.to_owned();
    part_name.append(".part");
    let part = path::joined(dir, part_name.as_str());
    let state = path::state_path(part.as_str());
    TargetPaths { name: name.to_owned(), part, complete: path::joined(dir, name), state }
}

/// A file is downloaded under the path that it has when it is complete, with `.part` behind it.
pub proof fn law_part_path(dir: Seq<char>, name: Seq<char>)
    ensures
        part_path(dir, name) == path::join(dir, name) + ".part"@,
{
    reveal_strlit(".part");
    assert(part_path(dir, name) =~= path::join(dir, name) + ".part"@);
}

/// The name of the file at `entry` of a folder; empty where the path does not end in one.
pub open spec fn entry_name(entry: Seq<char>) -> Seq<char> {
    match path::file_name(entry) {
        Some(name) => name,
        None => seq![],
    }
}

/// The directory that the file at `entry` of a folder goes to, if it is not the current one.
pub open spec fn entry_dir(entry: Seq<char>) -> Option<Seq<char>> {
    match path::parent(entry) {
        Some(dir) => if dir.len() > 0 {
            Some(dir)
        } else {
            None
        },
        None => None,
    }
}

/// A file of a folder goes to the parent of its path where that is not empty, under the name that
/// the path ends in.
pub proof fn law_place_of_entry(entry: Seq<char>)
    ensures
        path::parent(entry) matches Some(dir) ==> dir.len() > 0 ==> entry_dir(entry) == Some(dir),
        path::parent(entry) is None || path::parent(entry)->0.len() == 0 ==> entry_dir(entry)
            is None,
        path::file_name(entry) matches Some(name) ==> entry_name(entry) == name,
        path::file_name(entry) is None ==> entry_name(entry).len() == 0,
{
}

/// The directory that must be there for the file at `entry` of a folder.
pub fn dir_to_create<'a>(entry: &'a str) -> (r: Option<&'a str>)
    ensures
        r is Some <==> entry_dir(entry@) is Some,
        r is Some ==> r->0@ == entry_dir(entry@)->0,
        r is Some <==> path::parent(entry@) is Some && path::parent(entry@)->0.len() > 0,
        r is Some ==> r->0@ == path::parent(entry@)->0,
{
    match path::parent_of(entry) {
        Some(dir) => if !dir.is_empty() {
            Some(dir)
        } else {
            None
        },
        None => None,
    }
}

/// Where the file at `entry` of a folder goes.
pub fn entry_paths(entry: &str) -> (r: TargetPaths)
    ensures
        ({
            let dir = match entry_dir(entry@) {
                Some(dir) => dir,
                None => "."@,
            };
            &&& r.name@ == entry_name(entry@)
            &&& r.part@ == part_path(dir, entry_name(entry@))
            &&& r.complete@ == path::join(dir, entry_name(entry@))
            &&& r.state@ == path::state_path_of(r.part@)
        }),
        path::file_name(entry@) matches Some(name) ==> r.name@ == name,
        path::file_name(entry@) is None ==> r.name@.len() == 0,
        path::parent(entry@) matches Some(dir) ==> dir.len() > 0 ==> r.complete@ == path::join(
            dir,
            r.name@,
        ) && r.part@ == path::join(dir, r.name@ + ".part"@),
        path::parent(entry@) is None || path::parent(entry@)->0.len() == 0 ==> r.complete@
            == path::join("."@, r.name@) && r.part@ == path::join("."@, r.name@ + ".part"@),
{
    let name = match path::file_name_of(entry) {
        Some(name) => name,
        None => {
            proof {
                reveal_strlit("");
                assert(""@ =~= seq![]);
            }
            ""
        },
    };
    let dir = match dir_to_create(entry) {
        Some(dir) => dir,
        None => ".",
    };
    target_paths(dir, name)
}

/// The chunks that were there when the download was broken off. Without the file that they were
/// written to, there are none.
pub open spec fn resumed(part_len: Option<u64>, saved: Option<Seq<char>>) -> Set<usize> {
    if part_len is Some {
        resume::state_of(saved)
    } else {
        Set::empty()
    }
}

/// The chunks that were there when the download was broken off. `part_len` is the length of the
/// file that they were written to, if it is there, and `saved` what the file beside it holds.
pub fn resume_from(part_len: Option<u64>, saved: Option<&str>) -> (r: HashSet<usize>)
    ensures
        r@ == resumed(part_len, saved.deep_view()),
        part_len is Some ==> r@ == resume::state_of(saved.deep_view()),
        part_len is None ==> r@ == Set::<usize>::empty(),
{
    if part_len.is_some() {
        resume::load_state(saved)
    } else {
        HashSet::new()
    }
}

/// Whether the file that a download writes to must be given its size first.
pub fn needs_allocation(part_len: Option<u64>, size: u64) -> (r: bool)
    ensures
        r == (part_len != Some(size)),
{
    match part_len {
        Some(len) => len != size,
        None => true,
    }
}

/// The state of the download of a single file.
pub struct DownloadState {
    /// How many chunks the file has.
    pub total: nat,
    /// How many rounds have begun.
    pub round: nat,
    /// The chunks for the next round.
    pub remaining: Seq<Chunk>,
    /// The chunks that are there.
    pub done: Set<usize>,
    /// How many chunks are counted as done.
    pub done_count: nat,
}

/// The download of a single file.
#[derive(Debug)]
pub struct FileDownload {
    pub total: usize,
    pub round: usize,
    pub remaining: Vec<Chunk>,
    pub done: HashSet<usize>,
    pub done_count: usize,
}

impl View for FileDownload {
    type V = DownloadState;

    open spec fn view(&self) -> DownloadState {
        DownloadState {
            total: self.total as nat,
            round: self.round as nat,
            remaining: self.remaining@,
            done: self.done@,
            done_count: self.done_count as nat,
        }
    }
}

/// What is asked for in one round: chunks, and, where `refresh` is set, a new address first.
#[derive(Debug)]
pub struct Round {
    pub chunks: Vec<Chunk>,
    pub refresh: bool,
}

/// The state in which the download of a file of `size` bytes begins.
pub open spec fn started(size: nat, done: Set<usize>) -> DownloadState {
    DownloadState {
        total: chunk::chunk_count(size, CHUNK_SIZE as nat),
        round: 0,
        remaining: chunk::pending(size, CHUNK_SIZE as nat, done),
        done,
        done_count: done.len(),
    }
}

impl DownloadState {
    /// There is no further round.
    pub open spec fn is_over(self) -> bool {
        self.remaining.len() == 0 || self.round >= MAX_ROUNDS
    }

    /// The state with all remaining chunks handed out.
    pub open spec fn round_begun(self) -> DownloadState {
        DownloadState { round: self.round + 1, remaining: seq![], ..self }
    }

    /// The state after a round in which the chunks `written` came and the chunks `retry` did not.
    /// A chunk in neither list is forgotten.
    pub open spec fn round_ended(self, written: Seq<usize>, retry: Seq<Chunk>) -> DownloadState {
        DownloadState {
            remaining: self.remaining + retry,
            done: self.done.union(written.to_set()),
            done_count: self.done_count + written.len(),
            ..self
        }
    }

    /// All chunks are counted as done.
    pub open spec fn is_complete(self) -> bool {
        self.done_count >= self.total
    }
}

impl FileDownload {
    /// Begins the download of a file of `size` bytes of which the chunks in `done` are there.
    pub fn start(size: u64, done: HashSet<usize>) -> (r: Self)
        requires
            chunk::is_countable(size as nat, CHUNK_SIZE as nat),
        ensures
            r@ == started(size as nat, done@),
            r.round == 0,
            r.done@ == done@,
            r.done_count == done@.len(),
    {
        broadcast use vstd::std_specs::hash::group_hash_axioms;

        let total: usize = chunk::num_chunks(size, CHUNK_SIZE);
        let remaining = chunk::pending_chunks(size, CHUNK_SIZE, &done);
        let done_count: usize = done.len();
        FileDownload { total, round: 0, remaining, done, done_count }
    }

    /// Begins a round, if one is left and there are chunks for it.
    pub fn next_round(&mut self) -> (r: Option<Round>)
        ensures
            r is None <==> old(self)@.is_over(),
            r is Some <==> old(self).remaining@.len() > 0 && old(self).round < MAX_ROUNDS,
            r is None ==> final(self)@ == old(self)@,
            r is Some ==> {
                &&& r->0.chunks@ == old(self)@.remaining
                &&& r->0.refresh == (old(self)@.round > 0)
                &&& final(self)@ == old(self)@.round_begun()
                &&& final(self).round == old(self).round + 1
                &&& final(self).remaining@.len() == 0
                &&& final(self).total == old(self).total
                &&& final(self).done@ == old(self).done@
                &&& final(self).done_count == old(self).done_count
            },
    {
        if self.remaining.len() == 0 || self.round >= MAX_ROUNDS {
            return None;
        }
        let refresh: bool = self.round > 0;
        let mut chunks: Vec<Chunk> = Vec::new();
        std::mem::swap(&mut chunks, &mut self.remaining);
        self.round = self.round + 1;
        Some(Round { chunks, refresh })
    }

    /// Ends a round in which the chunks `written` came and the chunks `retry` did not. A chunk that
    /// is reported in neither list, since no worker came to it, is not asked for again.
    pub fn finish_round(&mut self, written: &Vec<usize>, retry: Vec<Chunk>)
        requires
            old(self).done_count + written@.len() <= usize::MAX,
        ensures
            final(self)@ == old(self)@.round_ended(written@, retry@),
            final(self).total == old(self).total,
            final(self).round == old(self).round,
            final(self).remaining@ == old(self).remaining@ + retry@,
            final(self).done_count == old(self).done_count + written@.len(),
            forall|i: usize| #[trigger]
                final(self).done@.contains(i) <==> old(self).done@.contains(i) || written@.contains(
                    i,
                ),
    {
        broadcast use vstd::std_specs::hash::group_hash_axioms;

        let ghost before = self@;
        let mut i: usize = 0;
        assert(written@.take(0).to_set() =~= Set::empty());
        assert(self.done@ =~= before.done.union(written@.take(0).to_set()));
        while i < written.len()
            invariant
                i <= written.len(),
                self.total == before.total,
                self.round == before.round,
                self.remaining@ == before.remaining,
                self.done_count == before.done_count,
                before.done_count + written@.len() <= usize::MAX,
                self.done@ == before.done.union(written@.take(i as int).to_set()),
            decreases written.len() - i,
        {
            broadcast use vstd::std_specs::hash::group_hash_axioms;

            self.done.insert(written[i]);
            proof {
                let front = written@.take(i as int);
                assert(written@.take(i + 1) =~= front.push(written@[i as int]));
                front.lemma_push_to_set_commute(written@[i as int]);
                assert(self.done@ =~= before.done.union(written@.take(i + 1).to_set()));
            }
            i = i + 1;
        }
        assert(written@.take(written@.len() as int) =~= written@);
        self.done_count = self.done_count + written.len();
        let mut back = retry;
        self.remaining.append(&mut back);
    }

    /// Whether the pool must be filled up before the next round: there are chunks for it, and no
    /// proxy.
    pub fn needs_proxies(&self, pool: &ProxyPool) -> (r: bool)
        ensures
            r == (self@.remaining.len() > 0 && pool@.len() == 0),
    {
        self.remaining.len() > 0 && pool.is_empty()
    }

    /// Whether all chunks are counted as done.
    pub fn is_complete(&self) -> (r: bool)
        ensures
            r == self@.is_complete(),
            r == (self.done_count >= self.total),
    {
        self.done_count >= self.total
    }
}

/// What is to be done for a single file: nothing, or the download that `SingleRun` describes.
#[derive(Debug)]
pub enum SinglePlan {
    Skip,
    Run(SingleRun),
}

/// A download that is to run: whether the file that it writes to must be given its size first, how
/// many bytes are there, and its chunks.
#[derive(Debug)]
pub struct SingleRun {
    pub allocate: bool,
    pub already: u64,
    pub download: FileDownload,
}

/// A file of `size` bytes can be downloaded where the chunks in `done` are there: its chunks can be
/// counted, and none of those in `done` starts beyond its end.
pub open spec fn can_run(size: nat, done: Set<usize>) -> bool {
    chunk::is_countable(size, CHUNK_SIZE as nat) && chunk::fits(size, CHUNK_SIZE as nat, done)
}

/// `plan` is what is to be done for a file of `size` bytes. `complete` tells whether the finished
/// file is there, `part_len` is the length of the file that a download was writing to, if it is
/// there, and `done` holds the chunks that stand in it.
pub open spec fn is_single_plan(
    plan: SinglePlan,
    size: u64,
    complete: bool,
    part_len: Option<u64>,
    done: Set<usize>,
) -> bool {
    match plan {
        SinglePlan::Skip => complete,
        SinglePlan::Run(run) => {
            &&& !complete
            &&& run.allocate == (part_len != Some(size))
            &&& run.already == chunk::done_bytes(size as nat, CHUNK_SIZE as nat, done)
            &&& run.download@ == started(size as nat, done)
        },
    }
}

/// Decides what is to be done for a file of which the chunks in `done` are there.
pub fn plan_single(
    size: u64,
    complete: bool,
    part_len: Option<u64>,
    done: HashSet<usize>,
) -> (r: SinglePlan)
    requires
        complete || can_run(size as nat, done@),
    ensures
        is_single_plan(r, size, complete, part_len, done@),
{
    if complete {
        return SinglePlan::Skip;
    }
    let allocate: bool = needs_allocation(part_len, size);
    let already: u64 = chunk::already_bytes(size, CHUNK_SIZE, &done);
    SinglePlan::Run(SingleRun { allocate, already, download: FileDownload::start(size, done) })
}

/// Decides what is to be done for a file whose progress was saved as `saved`. There is no plan
/// exactly where the file is not complete and cannot be downloaded on top of that progress.
pub fn resume_single(
    size: u64,
    complete: bool,
    part_len: Option<u64>,
    saved: Option<&str>,
) -> (r: Option<SinglePlan>)
    ensures
        r is Some <==> complete || can_run(size as nat, resumed(part_len, saved.deep_view())),
        r matches Some(plan) ==> is_single_plan(
            plan,
            size,
            complete,
            part_len,
            resumed(part_len, saved.deep_view()),
        ),
{
    let done = resume_from(part_len, saved);
    if complete || (chunk::check_countable(size, CHUNK_SIZE) && chunk::check_fits(
        size,
        CHUNK_SIZE,
        &done,
    )) {
        Some(plan_single(size, complete, part_len, done))
    } else {
        None
    }
}

/// `chunks` are chunks of a file of `size` bytes, no two the same, and none in `done`.
pub open spec fn are_open(chunks: Seq<Chunk>, done: Set<usize>, size: nat) -> bool {
    &&& forall|k: int|
        0 <= k < chunks.len() ==> {
            let c = #[trigger] chunks[k];
            &&& c.idx < chunk::chunk_count(size, CHUNK_SIZE as nat)
            &&& c == chunk::chunk_at(c.idx as nat, size, CHUNK_SIZE as nat)
            &&& !done.contains(c.idx)
        }
    &&& forall|k: int, l: int|
        0 <= k < l < chunks.len() ==> (#[trigger] chunks[k]).idx != (#[trigger] chunks[l]).idx
}

/// The state of the download of a file of `size` bytes counts what is there, and has nothing that
/// is there among what remains.
pub open spec fn is_sound(s: DownloadState, size: nat) -> bool {
    &&& chunk::is_countable(size, CHUNK_SIZE as nat)
    &&& s.total == chunk::chunk_count(size, CHUNK_SIZE as nat)
    &&& s.done.finite()
    &&& s.done_count == s.done.len()
    &&& forall|i: usize| #[trigger] s.done.contains(i) ==> i < s.total
    &&& are_open(s.remaining, s.done, size)
}

/// A round that handed out `handed` can end with `written` and `retry`: each of these was handed
/// out, and none is reported twice.
pub open spec fn is_outcome(handed: Seq<Chunk>, written: Seq<usize>, retry: Seq<Chunk>) -> bool {
    &&& written.no_duplicates()
    &&& forall|k: int|
        0 <= k < written.len() ==> exists|j: int|
            0 <= j < handed.len() && handed[j].idx == #[trigger] written[k]
    &&& forall|k: int| 0 <= k < retry.len() ==> handed.contains(#[trigger] retry[k])
    &&& forall|k: int| 0 <= k < retry.len() ==> !written.contains((#[trigger] retry[k]).idx)
    &&& forall|k: int, l: int|
        0 <= k < l < retry.len() ==> (#[trigger] retry[k]).idx != (#[trigger] retry[l]).idx
}

/// A download starts sound where the saved progress names no chunk that the file does not have.
pub proof fn law_start_is_sound(size: nat, done: Set<usize>)
    requires
        chunk::is_countable(size, CHUNK_SIZE as nat),
        done.finite(),
        forall|i: usize| #[trigger]
            done.contains(i) ==> i < chunk::chunk_count(size, CHUNK_SIZE as nat),
    ensures
        is_sound(started(size, done), size),
{
    chunk::law_pending(size, CHUNK_SIZE as nat, done);
}

/// A round keeps a download sound, whichever of its chunks came.
pub proof fn law_round_keeps_sound(
    s: DownloadState,
    size: nat,
    written: Seq<usize>,
    retry: Seq<Chunk>,
)
    requires
        is_sound(s, size),
        is_outcome(s.remaining, written, retry),
    ensures
        is_sound(s.round_begun().round_ended(written, retry), size),
{
    let t = s.round_begun().round_ended(written, retry);
    written.unique_seq_to_set();
    assert forall|i: usize| #[trigger] written.to_set().contains(i) implies !s.done.contains(i)
        && i < s.total by {
        assert(written.contains(i));
        let k = choose|k: int| 0 <= k < written.len() && written[k] == i;
        let j = choose|j: int|
            0 <= j < s.remaining.len() && s.remaining[j].idx == #[trigger] written[k];
        assert(s.remaining[j].idx == i);
    }
    assert(s.done.disjoint(written.to_set()));
    vstd::set_lib::lemma_set_disjoint_lens(s.done, written.to_set());
    assert(s.done.union(written.to_set()) =~= s.done + written.to_set());
    assert(t.remaining =~= retry);
    assert forall|k: int| 0 <= k < t.remaining.len() implies {
        let c = #[trigger] t.remaining[k];
        &&& c.idx < chunk::chunk_count(size, CHUNK_SIZE as nat)
        &&& c == chunk::chunk_at(c.idx as nat, size, CHUNK_SIZE as nat)
        &&& !t.done.contains(c.idx)
    } by {
        let c = retry[k];
        assert(s.remaining.contains(c));
        let j = choose|j: int| 0 <= j < s.remaining.len() && s.remaining[j] == c;
        assert(s.remaining[j] == c);
        if written.to_set().contains(c.idx) {
            assert(written.contains(c.idx));
        }
    }
}

/// A chunk of the file that is not there remains to be asked for.
pub open spec fn lacks_nothing(s: DownloadState) -> bool {
    forall|i: usize|
        i < s.total && !s.done.contains(i) ==> exists|k: int|
            0 <= k < s.remaining.len() && #[trigger] s.remaining[k].idx == i
}

/// A download starts with every chunk that is not there remaining.
pub proof fn law_start_lacks_nothing(size: nat, done: Set<usize>)
    requires
        chunk::is_countable(size, CHUNK_SIZE as nat),
    ensures
        lacks_nothing(started(size, done)),
{
    let s = started(size, done);
    chunk::law_pending(size, CHUNK_SIZE as nat, done);
    assert forall|i: usize| i < s.total && !s.done.contains(i) implies exists|k: int|
        0 <= k < s.remaining.len() && #[trigger] s.remaining[k].idx == i by {
        let c = chunk::chunk_at(i as nat, size, CHUNK_SIZE as nat);
        assert(s.remaining.contains(c));
        let k = choose|k: int| 0 <= k < s.remaining.len() && s.remaining[k] == c;
        assert(s.remaining[k].idx == i);
    }
}

/// A round in which each chunk came or is to be asked for again loses none.
pub proof fn law_round_lacks_nothing(s: DownloadState, written: Seq<usize>, retry: Seq<Chunk>)
    requires
        lacks_nothing(s),
        forall|k: int|
            0 <= k < s.remaining.len() ==> written.contains((#[trigger] s.remaining[k]).idx)
                || retry.contains(s.remaining[k]),
    ensures
        lacks_nothing(s.round_begun().round_ended(written, retry)),
{
    let t = s.round_begun().round_ended(written, retry);
    assert(t.remaining =~= retry);
    assert forall|i: usize| i < t.total && !t.done.contains(i) implies exists|k: int|
        0 <= k < t.remaining.len() && #[trigger] t.remaining[k].idx == i by {
        assert(!s.done.contains(i));
        let k = choose|k: int| 0 <= k < s.remaining.len() && #[trigger] s.remaining[k].idx == i;
        let c = s.remaining[k];
        if written.contains(c.idx) {
            assert(written.to_set().contains(i));
            assert(t.done.contains(i));
        }
        assert(retry.contains(c));
        let j = choose|j: int| 0 <= j < retry.len() && retry[j] == c;
        assert(t.remaining[j].idx == i);
    }
}

/// A sound download that lacks nothing and has nothing left to ask for is complete.
pub proof fn law_nothing_left_is_complete(s: DownloadState, size: nat)
    requires
        is_sound(s, size),
        lacks_nothing(s),
        s.remaining.len() == 0,
    ensures
        s.is_complete(),
{
    if !s.is_complete() {
        let i = law_incomplete_lacks_one(s, size);
        assert(i < s.total && !s.done.contains(i));
        assert(false);
    }
}

/// A sound download that counts as complete has every chunk of its file.
pub proof fn law_complete_has_all(s: DownloadState, size: nat, i: usize)
    requires
        is_sound(s, size),
        s.is_complete(),
        i < s.total,
    ensures
        s.done.contains(i),
{
    let all = Set::new(|j: usize| j < s.total);
    lemma_all_below(s.total, all);
    assert(s.done.subset_of(all));
    vstd::set_lib::lemma_len_subset(s.done, all);
    vstd::set_lib::lemma_subset_equality(s.done, all);
    assert(all.contains(i));
}

/// There are `n` numbers below `n`.
proof fn lemma_all_below(n: nat, all: Set<usize>)
    requires
        n <= usize::MAX,
        forall|j: usize| all.contains(j) <==> j < n,
    ensures
        all.finite(),
        all.len() == n,
    decreases n,
{
    if n == 0 {
        assert(all =~= Set::empty());
    } else {
        let last = (n - 1) as usize;
        let fewer = all.remove(last);
        lemma_all_below((n - 1) as nat, fewer);
        assert(all =~= fewer.insert(last));
    }
}

/// A sound download that does not count as complete lacks a chunk of its file.
pub proof fn law_incomplete_lacks_one(s: DownloadState, size: nat) -> (i: usize)
    requires
        is_sound(s, size),
        !s.is_complete(),
    ensures
        i < s.total,
        !s.done.contains(i),
{
    let all = Set::new(|j: usize| j < s.total);
    lemma_all_below(s.total, all);
    if forall|j: usize| j < s.total ==> s.done.contains(j) {
        assert(s.done =~= all);
        assert(false);
    }
    choose|j: usize| j < s.total && !s.done.contains(j)
}

/// Rounds go on: another begins whenever a chunk remains and fewer than thirty have begun, and
/// none begins only where no chunk remains or so many have begun.
pub proof fn law_rounds_go_on(s: DownloadState)
    ensures
        s.remaining.len() >= 1 && s.round < 30 ==> !s.is_over(),
        s.remaining.len() == 0 || s.round >= 30 ==> s.is_over(),
{
}

/// A round uses up one of the rounds, and what failed in it is all that is left to ask for; so a
/// further round follows exactly where something failed and rounds are left.
pub proof fn law_failed_chunks_get_another_round(
    s: DownloadState,
    written: Seq<usize>,
    retry: Seq<Chunk>,
)
    requires
        !s.is_over(),
    ensures
        ({
            let t = s.round_begun().round_ended(written, retry);
            &&& t.round == s.round + 1
            &&& t.remaining == retry
            &&& t.total == s.total
            &&& t.is_over() <==> retry.len() == 0 || s.round + 1 >= 30
            &&& t.done_count == s.done_count + written.len()
            &&& forall|i: usize| #[trigger]
                t.done.contains(i) <==> s.done.contains(i) || written.contains(i)
            &&& t.is_complete() <==> s.done_count + written.len() >= s.total
        }),
{
    let t = s.round_begun().round_ended(written, retry);
    assert(t.remaining =~= retry);
}

/// Progress that was saved counts as long as the file that was written to is there, whatever its
/// length, and not without it.
pub proof fn law_resume_from_saved(len: u64, saved: Option<Seq<char>>, done: Set<usize>)
    requires
        resume::state_of(saved) == done,
    ensures
        resumed(Some(len), saved) == done,
        resumed(None, saved) == Set::<usize>::empty(),
{
}

/// A download that goes on asks for exactly those chunks of the file that its progress does not
/// name, each once.
pub proof fn law_start_asks_for_the_rest(size: nat, done: Set<usize>, i: usize)
    requires
        chunk::is_countable(size, CHUNK_SIZE as nat),
    ensures
        ({
            let s = started(size, done);
            &&& s.done == done
            &&& s.done_count == done.len()
            &&& s.round == 0
            &&& i < s.total <==> i * CHUNK_SIZE < size
            &&& (exists|k: int| 0 <= k < s.remaining.len() && (#[trigger] s.remaining[k]).idx == i)
                <==> i * CHUNK_SIZE < size && !done.contains(i)
            &&& forall|k: int, l: int|
                0 <= k < l < s.remaining.len() ==> (#[trigger] s.remaining[k]).idx != (
                #[trigger] s.remaining[l]).idx
        }),
{
    let s = started(size, done);
    chunk::law_pending(size, CHUNK_SIZE as nat, done);
    chunk::law_how_many_chunks(i as nat, size, CHUNK_SIZE as nat);
    if i < s.total && !done.contains(i) {
        let c = chunk::chunk_at(i as nat, size, CHUNK_SIZE as nat);
        assert(s.remaining.contains(c));
        let k = choose|k: int| 0 <= k < s.remaining.len() && s.remaining[k] == c;
        assert(s.remaining[k].idx == i);
    }
}

/// What a plan for a single file says: to skip it where it is complete and only there; else to go on
/// from what is there, after giving the file its size where it has another.
pub proof fn law_single_plan(
    plan: SinglePlan,
    size: u64,
    complete: bool,
    part_len: Option<u64>,
    done: Set<usize>,
)
    requires
        is_single_plan(plan, size, complete, part_len, done),
        complete || chunk::is_countable(size as nat, CHUNK_SIZE as nat),
    ensures
        plan is Skip <==> complete,
        plan matches SinglePlan::Run(run) ==> {
            &&& run.allocate <==> part_len != Some(size)
            &&& run.already == Set::new(
                |x: int| 0 <= x < size && done.contains((x / CHUNK_SIZE as int) as usize),
            ).len()
            &&& run.download@ == started(size as nat, done)
        },
{
    if !complete {
        chunk::law_count_of_bytes(size as nat, CHUNK_SIZE as nat, done);
    }
}

/// A download that was broken off goes on: from a file of any length and the progress that was saved
/// beside it, the plan holds exactly that progress, and asks for every chunk of the file outside it
/// and for no other.
pub proof fn law_resumed_plan(
    plan: SinglePlan,
    size: u64,
    len: u64,
    saved: Option<Seq<char>>,
    done: Set<usize>,
    i: usize,
)
    requires
        resume::state_of(saved) == done,
        chunk::is_countable(size as nat, CHUNK_SIZE as nat),
        is_single_plan(plan, size, false, Some(len), resumed(Some(len), saved)),
    ensures
        plan matches SinglePlan::Run(run) && {
            let s = run.download@;
            &&& run.allocate <==> len != size
            &&& s.done == done
            &&& (exists|k: int| 0 <= k < s.remaining.len() && (#[trigger] s.remaining[k]).idx == i)
                <==> i * CHUNK_SIZE < size && !done.contains(i)
        },
{
    law_resume_from_saved(len, saved, done);
    law_single_plan(plan, size, false, Some(len), done);
    law_start_asks_for_the_rest(size as nat, done, i);
}

/// A file can be downloaded on top of any progress whose chunks start no later than where it ends,
/// unless it is so large that its chunks cannot be counted.
pub proof fn law_can_run(size: nat, done: Set<usize>)
    ensures
        can_run(size, done) <==> {
            &&& size + CHUNK_SIZE <= u64::MAX
            &&& size <= usize::MAX * CHUNK_SIZE
            &&& forall|i: usize| #[trigger] done.contains(i) ==> i * CHUNK_SIZE <= size
        },
{
    chunk::law_countable(size, CHUNK_SIZE as nat);
}

} // verus!
