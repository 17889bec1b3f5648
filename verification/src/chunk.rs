//! Files in chunks: which bytes each chunk holds, and which chunks are still to come.

use std::collections::HashSet;
use vstd::prelude::*;
use vstd::string::StringExecFns;

use crate::text;

verus! {

/// The size of a chunk of a file that is downloaded on its own.
pub const CHUNK_SIZE: u64 = 4 * 1024 * 1024;

/// The size of a chunk of a file of a folder.
pub const FOLDER_CHUNK_SIZE: u64 = 1024 * 1024;

/// A stretch of a file: its number and the positions of its first and its last byte.
#[derive(Clone, Copy, Debug, PartialEq, Eq, Structural)]
pub struct Chunk {
    pub idx: usize,
    pub start: u64,
    pub end: u64,
}

/// How many chunks a file of `size` bytes has.
pub open spec fn chunk_count(size: nat, chunk_size: nat) -> nat {
    (size + chunk_size - 1) as nat / chunk_size
}

/// The position at which chunk `i` ends, not counting that position.
pub open spec fn chunk_limit(i: nat, size: nat, chunk_size: nat) -> nat {
    if (i + 1) * chunk_size <= size {
        (i + 1) * chunk_size
    } else {
        size
    }
}

/// Chunk `i` of a file.
pub open spec fn chunk_at(i: nat, size: nat, chunk_size: nat) -> Chunk {
    Chunk {
        idx: i as usize,
        start: (i * chunk_size) as u64,
        end: (chunk_limit(i, size, chunk_size) - 1) as u64,
    }
}

/// The chunks below number `n` that are not in `done`, in order.
pub open spec fn pending_below(n: nat, size: nat, chunk_size: nat, done: Set<usize>) -> Seq<Chunk>
    decreases n,
{
    if n == 0 {
        seq![]
    } else {
        let before = pending_below((n - 1) as nat, size, chunk_size, done);
        if done.contains((n - 1) as usize) {
            before
        } else {
            before.push(chunk_at((n - 1) as nat, size, chunk_size))
        }
    }
}

/// The chunks of a file that are not in `done`, in order.
pub open spec fn pending(size: nat, chunk_size: nat, done: Set<usize>) -> Seq<Chunk> {
    pending_below(chunk_count(size, chunk_size), size, chunk_size, done)
}

/// How many bytes of a file stand in chunk `i`.
pub open spec fn chunk_len(i: nat, size: nat, chunk_size: nat) -> int {
    chunk_limit(i, size, chunk_size) - i * chunk_size
}

/// How many bytes of a file stand in the chunks below number `n` that are in `done`.
pub open spec fn done_bytes_below(n: nat, size: nat, chunk_size: nat, done: Set<usize>) -> int
    decreases n,
{
    if n == 0 {
        0
    } else {
        let before = done_bytes_below((n - 1) as nat, size, chunk_size, done);
        if done.contains((n - 1) as usize) {
            before + chunk_len((n - 1) as nat, size, chunk_size)
        } else {
            before
        }
    }
}

/// How many bytes of a file stand in the chunks that are in `done`.
pub open spec fn done_bytes(size: nat, chunk_size: nat, done: Set<usize>) -> int {
    done_bytes_below(chunk_count(size, chunk_size), size, chunk_size, done)
}

/// The chunks of a file can be numbered and measured with the machine's integers.
pub open spec fn is_countable(size: nat, chunk_size: nat) -> bool {
    &&& chunk_size > 0
    &&& size + chunk_size <= u64::MAX
    &&& chunk_count(size, chunk_size) <= usize::MAX
}

/// Every number in `done` is that of a chunk that starts inside the file, or where the file ends.
pub open spec fn fits(size: nat, chunk_size: nat, done: Set<usize>) -> bool {
    forall|i: usize| #[trigger] done.contains(i) ==> i * chunk_size <= size
}

/// Chunk `i` starts inside the file exactly where `i` is below the number of chunks.
proof fn lemma_start_inside(i: nat, size: nat, chunk_size: nat)
    requires
        chunk_size > 0,
    ensures
        i < chunk_count(size, chunk_size) <==> i * chunk_size < size,
{
    let n = chunk_count(size, chunk_size);
    let t = size + chunk_size - 1;
    vstd::arithmetic::div_mod::lemma_fundamental_div_mod(t, chunk_size as int);
    assert(t == chunk_size * n + t % chunk_size as int);
    if i < n {
        assert((i + 1) * chunk_size <= n * chunk_size) by (nonlinear_arith)
            requires
                i + 1 <= n,
        ;
        assert((i + 1) * chunk_size == i * chunk_size + chunk_size) by (nonlinear_arith);
        assert(n * chunk_size == chunk_size * n) by (nonlinear_arith);
    } else {
        assert(n * chunk_size <= i * chunk_size) by (nonlinear_arith)
            requires
                n <= i,
        ;
        assert(n * chunk_size == chunk_size * n) by (nonlinear_arith);
    }
}

/// What is true of each chunk of a file: it holds at least one byte and no more than the chunk
/// size, and none beyond the file.
pub proof fn law_chunk_inside(i: nat, size: nat, chunk_size: nat)
    requires
        chunk_size > 0,
        i < chunk_count(size, chunk_size),
    ensures
        i * chunk_size < chunk_limit(i, size, chunk_size) <= size,
        1 <= chunk_len(i, size, chunk_size) <= chunk_size,
{
    lemma_start_inside(i, size, chunk_size);
    assert((i + 1) * chunk_size == i * chunk_size + chunk_size) by (nonlinear_arith);
}

/// The chunks of a file follow one another without a gap: each but the last ends where the next
/// starts, and the last ends with the file.
pub proof fn law_chunks_follow(i: nat, size: nat, chunk_size: nat)
    requires
        chunk_size > 0,
        i < chunk_count(size, chunk_size),
    ensures
        i + 1 < chunk_count(size, chunk_size) ==> chunk_limit(i, size, chunk_size) == (i + 1)
            * chunk_size,
        i + 1 == chunk_count(size, chunk_size) ==> chunk_limit(i, size, chunk_size) == size,
{
    lemma_start_inside(i + 1, size, chunk_size);
}

/// Each byte of a file stands in exactly one of its chunks.
pub proof fn law_one_chunk_per_byte(x: nat, i: nat, size: nat, chunk_size: nat)
    requires
        chunk_size > 0,
        x < size,
    ensures
        x / chunk_size < chunk_count(size, chunk_size),
        i * chunk_size <= x < chunk_limit(i, size, chunk_size) <==> i == x / chunk_size,
{
    let q = x / chunk_size;
    vstd::arithmetic::div_mod::lemma_fundamental_div_mod(x as int, chunk_size as int);
    assert(q * chunk_size == chunk_size * q) by (nonlinear_arith);
    assert((q + 1) * chunk_size == q * chunk_size + chunk_size) by (nonlinear_arith);
    assert((i + 1) * chunk_size == i * chunk_size + chunk_size) by (nonlinear_arith);
    lemma_start_inside(q, size, chunk_size);
    if i < q {
        assert((i + 1) * chunk_size <= q * chunk_size) by (nonlinear_arith)
            requires
                i + 1 <= q,
        ;
    } else if i > q {
        assert((q + 1) * chunk_size <= i * chunk_size) by (nonlinear_arith)
            requires
                q + 1 <= i,
        ;
    }
}

/// How many bytes a list of chunks asks for.
pub open spec fn bytes_in(chunks: Seq<Chunk>) -> int
    decreases chunks.len(),
{
    if chunks.len() == 0 {
        0
    } else {
        bytes_in(chunks.drop_last()) + (chunks.last().end - chunks.last().start + 1)
    }
}

/// The bytes of the chunks below number `n`, those that are there and those that are to come,
/// reach from the start of the file to where those chunks end.
proof fn lemma_bytes_below(n: nat, size: nat, chunk_size: nat, done: Set<usize>)
    requires
        is_countable(size, chunk_size),
        n <= chunk_count(size, chunk_size),
    ensures
        done_bytes_below(n, size, chunk_size, done) >= 0,
        bytes_in(pending_below(n, size, chunk_size, done)) >= 0,
        done_bytes_below(n, size, chunk_size, done) + bytes_in(
            pending_below(n, size, chunk_size, done),
        ) == if n == chunk_count(size, chunk_size) {
            size
        } else {
            n * chunk_size
        },
    decreases n,
{
    if n == 0 {
        if chunk_count(size, chunk_size) == 0 {
            lemma_start_inside(0, size, chunk_size);
        }
        assert(0 * chunk_size == 0) by (nonlinear_arith);
    } else {
        let i = (n - 1) as nat;
        lemma_bytes_below(i, size, chunk_size, done);
        law_chunk_inside(i, size, chunk_size);
        law_chunks_follow(i, size, chunk_size);
        let before = pending_below(i, size, chunk_size, done);
        let chunk = chunk_at(i, size, chunk_size);
        assert(before.push(chunk).drop_last() =~= before);
    }
}

/// The bytes that are there and the bytes that are still to come make up the file.
pub proof fn law_bytes_add_up(size: nat, chunk_size: nat, done: Set<usize>)
    requires
        is_countable(size, chunk_size),
    ensures
        done_bytes(size, chunk_size, done) + bytes_in(pending(size, chunk_size, done)) == size,
        0 <= done_bytes(size, chunk_size, done) <= size,
{
    lemma_bytes_below(chunk_count(size, chunk_size), size, chunk_size, done);
}

/// What is true of the chunks below number `n` that are to come: each is the chunk of its number,
/// which is below `n` and not in `done`, and the numbers rise.
proof fn lemma_pending_below(n: nat, size: nat, chunk_size: nat, done: Set<usize>)
    requires
        n <= usize::MAX + 1,
    ensures
        forall|k: int|
            0 <= k < pending_below(n, size, chunk_size, done).len() ==> {
                let c = #[trigger] pending_below(n, size, chunk_size, done)[k];
                c.idx < n && c == chunk_at(c.idx as nat, size, chunk_size) && !done.contains(c.idx)
            },
        forall|k: int, l: int|
            0 <= k < l < pending_below(n, size, chunk_size, done).len()
                ==> #[trigger] pending_below(n, size, chunk_size, done)[k].idx
                < #[trigger] pending_below(n, size, chunk_size, done)[l].idx,
    decreases n,
{
    if n > 0 {
        lemma_pending_below((n - 1) as nat, size, chunk_size, done);
        let before = pending_below((n - 1) as nat, size, chunk_size, done);
        let all = pending_below(n, size, chunk_size, done);
        assert(forall|k: int| 0 <= k < before.len() ==> #[trigger] all[k] == before[k]);
    }
}

/// The chunk of each number below `n` that is not in `done` is to come.
proof fn lemma_pending_has(n: nat, size: nat, chunk_size: nat, done: Set<usize>, i: nat)
    requires
        i < n <= usize::MAX + 1,
        !done.contains(i as usize),
    ensures
        pending_below(n, size, chunk_size, done).contains(chunk_at(i, size, chunk_size)),
    decreases n,
{
    let before = pending_below((n - 1) as nat, size, chunk_size, done);
    let all = pending_below(n, size, chunk_size, done);
    if i == n - 1 {
        assert(all[all.len() - 1] == chunk_at(i, size, chunk_size));
    } else {
        lemma_pending_has((n - 1) as nat, size, chunk_size, done, i);
        let k = choose|k: int| 0 <= k < before.len() && before[k] == chunk_at(i, size, chunk_size);
        assert(all[k] == before[k]);
    }
}

/// The chunks that are to come are the chunks of the file that are not in `done`, each once and
/// in the order of the file.
pub proof fn law_pending(size: nat, chunk_size: nat, done: Set<usize>)
    requires
        is_countable(size, chunk_size),
    ensures
        forall|k: int|
            0 <= k < pending(size, chunk_size, done).len() ==> {
                let c = #[trigger] pending(size, chunk_size, done)[k];
                &&& c.idx < chunk_count(size, chunk_size)
                &&& c == chunk_at(c.idx as nat, size, chunk_size)
                &&& !done.contains(c.idx)
            },
        forall|k: int, l: int|
            0 <= k < l < pending(size, chunk_size, done).len() ==> #[trigger] pending(
                size,
                chunk_size,
                done,
            )[k].idx < #[trigger] pending(size, chunk_size, done)[l].idx,
        forall|i: nat|
            i < chunk_count(size, chunk_size) && !done.contains(i as usize) ==> pending(
                size,
                chunk_size,
                done,
            ).contains(#[trigger] chunk_at(i, size, chunk_size)),
{
    let n = chunk_count(size, chunk_size);
    lemma_pending_below(n, size, chunk_size, done);
    assert forall|i: nat| i < n && !done.contains(i as usize) implies pending(
        size,
        chunk_size,
        done,
    ).contains(#[trigger] chunk_at(i, size, chunk_size)) by {
        lemma_pending_has(n, size, chunk_size, done, i);
    }
}

/// There is a chunk with number `i` exactly where the file has a byte at the place that it starts at.
pub proof fn law_how_many_chunks(i: nat, size: nat, chunk_size: nat)
    requires
        chunk_size > 0,
    ensures
        i < chunk_count(size, chunk_size) <==> i * chunk_size < size,
{
    lemma_start_inside(i, size, chunk_size);
}

/// A chunk has its number, and reaches over exactly those bytes of the file whose place, divided by
/// the chunk size, is that number.
pub proof fn law_bytes_of_chunk(i: nat, x: nat, size: nat, chunk_size: nat)
    requires
        is_countable(size, chunk_size),
        i < chunk_count(size, chunk_size),
    ensures
        chunk_at(i, size, chunk_size).idx == i,
        chunk_at(i, size, chunk_size).start <= x <= chunk_at(i, size, chunk_size).end <==> x < size
            && x / chunk_size == i,
{
    law_chunk_inside(i, size, chunk_size);
    if x < size {
        law_one_chunk_per_byte(x, i, size, chunk_size);
    }
}

/// Chunks can be counted exactly where the file and one chunk more fit into 64 bits, and the number
/// of chunks into a machine word.
pub proof fn law_countable(size: nat, chunk_size: nat)
    ensures
        is_countable(size, chunk_size) <==> {
            &&& chunk_size > 0
            &&& size + chunk_size <= u64::MAX
            &&& size <= usize::MAX * chunk_size
        },
{
    if chunk_size > 0 {
        lemma_start_inside(usize::MAX as nat, size, chunk_size);
    }
}

/// Progress fits a file exactly where each chunk in it starts no later than where the file ends.
pub proof fn law_fits(size: nat, chunk_size: nat, done: Set<usize>)
    ensures
        fits(size, chunk_size, done) ==> forall|i: usize| #[trigger]
            done.contains(i) ==> i * chunk_size <= size,
        !fits(size, chunk_size, done) ==> exists|i: usize| #[trigger]
            done.contains(i) && i * chunk_size > size,
        fits(size, chunk_size, Set::empty()),
{
}

/// The bytes below `n` chunks whose chunks are in `done`.
spec fn bytes_there(n: nat, size: nat, chunk_size: nat, done: Set<usize>) -> Set<int> {
    Set::new(
        |x: int|
            0 <= x < size && x < n * chunk_size && done.contains((x / chunk_size as int) as usize),
    )
}

proof fn lemma_bytes_there(n: nat, size: nat, chunk_size: nat, done: Set<usize>)
    requires
        is_countable(size, chunk_size),
        n <= chunk_count(size, chunk_size),
    ensures
        bytes_there(n, size, chunk_size, done).finite(),
        bytes_there(n, size, chunk_size, done).len() == done_bytes_below(
            n,
            size,
            chunk_size,
            done,
        ),
    decreases n,
{
    if n == 0 {
        assert(0 * chunk_size == 0) by (nonlinear_arith);
        assert(bytes_there(n, size, chunk_size, done) =~= Set::empty());
    } else {
        let i = (n - 1) as nat;
        let lo = i * chunk_size;
        let hi = chunk_limit(i, size, chunk_size) as int;
        let before = bytes_there(i, size, chunk_size, done);
        let all = bytes_there(n, size, chunk_size, done);
        let part = vstd::set_lib::set_int_range(lo as int, hi);
        lemma_bytes_there(i, size, chunk_size, done);
        law_chunk_inside(i, size, chunk_size);
        vstd::set_lib::lemma_int_range(lo as int, hi);
        assert(n * chunk_size == lo + chunk_size) by (nonlinear_arith)
            requires
                n == i + 1,
                lo == i * chunk_size,
        ;
        assert forall|x: int| 0 <= x < size implies (#[trigger] part.contains(x) <==> x
            / chunk_size as int == i) by {
            law_one_chunk_per_byte(x as nat, i, size, chunk_size);
        }
        assert(before.disjoint(part));
        if done.contains(i as usize) {
            assert(all =~= before + part);
            vstd::set_lib::lemma_set_disjoint_lens(before, part);
        } else {
            assert forall|x: int| all.contains(x) <==> before.contains(x) by {
                if all.contains(x) && x >= lo {
                    assert(part.contains(x));
                }
            }
            assert(all =~= before);
        }
    }
}

/// The bytes that are there are counted one by one: the bytes of the file whose chunk is in `done`.
pub proof fn law_count_of_bytes(size: nat, chunk_size: nat, done: Set<usize>)
    requires
        is_countable(size, chunk_size),
    ensures
        Set::new(
            |x: int| 0 <= x < size && done.contains((x / chunk_size as int) as usize),
        ).len() == done_bytes(size, chunk_size, done),
{
    let n = chunk_count(size, chunk_size);
    lemma_bytes_there(n, size, chunk_size, done);
    lemma_start_inside(n, size, chunk_size);
    assert(Set::new(|x: int| 0 <= x < size && done.contains((x / chunk_size as int) as usize))
        =~= bytes_there(n, size, chunk_size, done));
}

/// Filtering keeps what is true of every two items in their order.
pub proof fn lemma_filter_pairs<A>(
    s: Seq<A>,
    keep: spec_fn(A) -> bool,
    apart: spec_fn(A, A) -> bool,
)
    requires
        forall|k: int, l: int| 0 <= k < l < s.len() ==> apart(#[trigger] s[k], #[trigger] s[l]),
    ensures
        forall|k: int, l: int|
            0 <= k < l < s.filter(keep).len() ==> apart(
                #[trigger] s.filter(keep)[k],
                #[trigger] s.filter(keep)[l],
            ),
    decreases s.len(),
{
    reveal(Seq::filter);
    if s.len() > 0 {
        let front = s.drop_last();
        lemma_filter_pairs(front, keep, apart);
        if keep(s.last()) {
            let before = front.filter(keep);
            assert(s.filter(keep) =~= before.push(s.last()));
            assert forall|k: int, l: int| 0 <= k < l < s.filter(keep).len() implies apart(
                #[trigger] s.filter(keep)[k],
                #[trigger] s.filter(keep)[l],
            ) by {
                if l == before.len() {
                    assert(before.contains(before[k]));
                    front.lemma_filter_contains_rev(keep, before[k]);
                    let j = choose|j: int| 0 <= j < front.len() && front[j] == before[k];
                    assert(s[j] == before[k] && s[s.len() - 1] == s.last());
                } else {
                    assert(apart(before[k], before[l]));
                }
            }
        }
    }
}

/// How many chunks a file of `size` bytes has.
pub fn num_chunks(size: u64, chunk_size: u64) -> (r: usize)
    requires
        is_countable(size as nat, chunk_size as nat),
    ensures
        r == chunk_count(size as nat, chunk_size as nat),
{
    ((size + chunk_size - 1) / chunk_size) as usize
}

/// The chunks of a file that are not in `done`, in order.
pub fn pending_chunks(size: u64, chunk_size: u64, done: &HashSet<usize>) -> (r: Vec<Chunk>)
    requires
        is_countable(size as nat, chunk_size as nat),
    ensures
        r@ == pending(size as nat, chunk_size as nat, done@),
{
    broadcast use vstd::std_specs::hash::group_hash_axioms;

    let n: usize = num_chunks(size, chunk_size);
    let mut r: Vec<Chunk> = Vec::new();
    let mut i: usize = 0;
    while i < n
        invariant
            is_countable(size as nat, chunk_size as nat),
            n == chunk_count(size as nat, chunk_size as nat),
            i <= n,
            r@ == pending_below(i as nat, size as nat, chunk_size as nat, done@),
        decreases n - i,
    {
        broadcast use vstd::std_specs::hash::group_hash_axioms;

        proof {
            lemma_start_inside(i as nat, size as nat, chunk_size as nat);
            assert((i + 1) * chunk_size == i * chunk_size + chunk_size) by (nonlinear_arith);
        }
        if !done.contains(&i) {
            let start: u64 = i as u64 * chunk_size;
            let full: u64 = start + (chunk_size - 1);
            let end: u64 = if full <= size - 1 {
                full
            } else {
                size - 1
            };
            r.push(Chunk { idx: i, start, end });
        }
        i = i + 1;
    }
    r
}

/// How many bytes of a file stand in the chunks that are in `done`.
pub fn already_bytes(size: u64, chunk_size: u64, done: &HashSet<usize>) -> (r: u64)
    requires
        is_countable(size as nat, chunk_size as nat),
        fits(size as nat, chunk_size as nat, done@),
    ensures
        r == done_bytes(size as nat, chunk_size as nat, done@),
{
    broadcast use vstd::std_specs::hash::group_hash_axioms;

    let n: usize = num_chunks(size, chunk_size);
    let mut sum: u64 = 0;
    let mut i: usize = 0;
    while i < n
        invariant
            is_countable(size as nat, chunk_size as nat),
            n == chunk_count(size as nat, chunk_size as nat),
            i <= n,
            sum == done_bytes_below(i as nat, size as nat, chunk_size as nat, done@),
        decreases n - i,
    {
        broadcast use vstd::std_specs::hash::group_hash_axioms;

        proof {
            lemma_start_inside(i as nat, size as nat, chunk_size as nat);
            lemma_bytes_below(i as nat, size as nat, chunk_size as nat, done@);
            lemma_bytes_below((i + 1) as nat, size as nat, chunk_size as nat, done@);
            lemma_start_inside((i + 1) as nat, size as nat, chunk_size as nat);
            assert((i + 1) * chunk_size == i * chunk_size + chunk_size) by (nonlinear_arith);
        }
        if done.contains(&i) {
            let start: u64 = i as u64 * chunk_size;
            let len: u64 = if chunk_size <= size - start {
                chunk_size
            } else {
                size - start
            };
            sum = sum + len;
        }
        i = i + 1;
    }
    sum
}

/// The members of `done`, each once, in no particular order.
pub fn list_of(done: &HashSet<usize>) -> (r: Vec<usize>)
    ensures
        r@.no_duplicates(),
        r@.to_set() == done@,
{
    broadcast use vstd::std_specs::hash::group_hash_axioms;

    let mut r: Vec<usize> = Vec::new();
    for i in it: done.iter()
        invariant
            it.seq().unref().to_set() == done@,
            it.seq().no_duplicates(),
            r@ == it.seq().unref().take(it.index()),
            it.index() == it.seq().len() ==> r@ == it.seq().unref(),
    {
        r.push(*i);
        assert(r@ =~= it.seq().unref().take(it.index() + 1));
    }
    r
}

/// Whether the chunks of a file can be numbered and measured with the machine's integers.
pub fn check_countable(size: u64, chunk_size: u64) -> (r: bool)
    ensures
        r == is_countable(size as nat, chunk_size as nat),
{
    if chunk_size == 0 || size > u64::MAX - chunk_size {
        return false;
    }
    let count: u64 = (size + chunk_size - 1) / chunk_size;
    count <= usize::MAX as u64
}

/// Whether every number in `done` is that of a chunk that starts inside the file, or where the
/// file ends.
pub fn check_fits(size: u64, chunk_size: u64, done: &HashSet<usize>) -> (r: bool)
    ensures
        r == fits(size as nat, chunk_size as nat, done@),
{
    let list = list_of(done);
    let mut k: usize = 0;
    while k < list.len()
        invariant
            k <= list.len(),
            list@.to_set() == done@,
            forall|j: int| 0 <= j < k ==> #[trigger] list@[j] * chunk_size <= size,
        decreases list.len() - k,
    {
        let i: u128 = list[k] as u128;
        proof {
            assert(list@.to_set().contains(list@[k as int]));
            assert(i * chunk_size <= u64::MAX * u64::MAX) by (nonlinear_arith)
                requires
                    0 <= i <= u64::MAX,
                    0 <= chunk_size <= u64::MAX,
            ;
        }
        let start: u128 = i * chunk_size as u128;
        if start > size as u128 {
            return false;
        }
        k = k + 1;
    }
    assert forall|i: usize| #[trigger] done@.contains(i) implies i * chunk_size <= size by {
        assert(list@.to_set().contains(i));
        let j = choose|j: int| 0 <= j < list@.len() && list@[j] == i;
        assert(list@[j] * chunk_size <= size);
    }
    true
}

/// The value of the `Range` header for the bytes from `start` to `end`.
pub open spec fn range_text(start: nat, end: nat) -> Seq<char> {
    "bytes="@ + text::decimal(start) + "-"@ + text::decimal(end)
}

/// The value of the `Range` header for the bytes of a chunk.
pub fn range_header(start: u64, end: u64) -> (r: String)
    ensures
        r@ == range_text(start as nat, end as nat),
        r@ == "bytes="@ + text::decimal(start as nat) + "-"@ + text::decimal(end as nat),
{
    let mut r: String = "bytes=".to_owned();
    r.append(text::decimal_of(start).as_str());
    r.append("-");
    r.append(text::decimal_of(end).as_str());
    r
}

/// A range is asked for by the word `bytes`, an equals sign, and the first and the last byte in
/// decimal, parted by the one hyphen.
pub proof fn law_range(start: nat, end: nat)
    ensures
        ({
            let t = range_text(start, end);
            let i = text::index_of(t, '-');
            &&& text::begins_with(t, "bytes="@)
            &&& i < t.len()
            &&& t.subrange(6, i) == text::decimal(start)
            &&& t.skip(i + 1) == text::decimal(end)
        }),
{
    reveal_strlit("bytes=");
    reveal_strlit("-");
    let t = range_text(start, end);
    let d = text::decimal(start);
    let i = 6 + d.len() as int;
    assert(t.take(6) =~= "bytes="@);
    assert forall|j: int| 0 <= j < i implies t[j] != '-' by {
        if j >= 6 {
            text::law_decimal(start, j - 6);
            assert(t[j] == d[j - 6]);
        }
    }
    assert(t[i] == '-');
    text::lemma_index_of_is(t, '-', i);
    assert(t.subrange(6, i) =~= d);
    assert(t.skip(i + 1) =~= text::decimal(end));
}

} // verus!
