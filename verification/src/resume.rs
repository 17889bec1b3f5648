//! The progress of a download between two runs: the numbers of the chunks that are there.

use std::collections::HashSet;
use vstd::prelude::*;

use crate::chunk;
use crate::json;

verus! {

/// The chunks that the saved progress `saved` names; none where nothing was saved, or nothing
/// that can be read.
pub open spec fn state_of(saved: Option<Seq<char>>) -> Set<usize> {
    match saved {
        Some(text) => match json::json_numbers(text, usize::BITS as nat) {
            Some(numbers) => numbers.to_set(),
            None => Set::empty(),
        },
        None => Set::empty(),
    }
}

/// Saved progress names exactly the numbers that can be read from it, and none where it cannot be
/// read or was not saved.
pub proof fn law_state_of(saved: Seq<char>, i: usize)
    ensures
        json::json_numbers(saved, usize::BITS as nat) matches Some(numbers) ==> (state_of(
            Some(saved),
        ).contains(i) <==> numbers.contains(i)),
        json::json_numbers(saved, usize::BITS as nat) is None ==> !state_of(Some(saved)).contains(i),
        !state_of(None).contains(i),
{
}

/// The members of a list of numbers.
pub fn set_of(numbers: &Vec<usize>) -> (r: HashSet<usize>)
    ensures
        r@ == numbers@.to_set(),
{
    broadcast use vstd::std_specs::hash::group_hash_axioms;

    let mut r: HashSet<usize> = HashSet::new();
    let mut i: usize = 0;
    while i < numbers.len()
        invariant
            i <= numbers.len(),
            r@ == numbers@.take(i as int).to_set(),
        decreases numbers.len() - i,
    {
        broadcast use vstd::std_specs::hash::group_hash_axioms;

        r.insert(numbers[i]);
        proof {
            let before = numbers@.take(i as int);
            assert(numbers@.take(i + 1) =~= before.push(numbers@[i as int]));
            before.lemma_push_to_set_commute(numbers@[i as int]);
        }
        i = i + 1;
    }
    assert(numbers@.take(numbers@.len() as int) =~= numbers@);
    r
}

/// Reads the progress of a download; `saved` is what its file holds, if it is there.
pub fn load_state(saved: Option<&str>) -> (r: HashSet<usize>)
    ensures
        r@ == state_of(saved.deep_view()),
{
    match saved {
        Some(text) => match json::read_numbers(text) {
            Some(numbers) => set_of(&numbers),
            None => HashSet::new(),
        },
        None => HashSet::new(),
    }
}

/// Writes the progress of a download: the numbers in `done`, in no particular order. To read it
/// again gives `done`.
pub fn save_state(done: &HashSet<usize>) -> (r: String)
    ensures
        exists|order: Seq<usize>| #[trigger]
            json::json_array(order) == r@ && order.no_duplicates() && order.to_set() == done@,
        state_of(Some(r@)) == done@,
{
    let list = chunk::list_of(done);
    json::write_numbers(&list).unwrap()
}

} // verus!
