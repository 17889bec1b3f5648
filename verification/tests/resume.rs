use mega_dl::download::{needs_allocation, resume_from};
use mega_dl::resume::{load_state, save_state, set_of};
use std::collections::HashSet;

fn set(numbers: &[usize]) -> HashSet<usize> {
    numbers.iter().copied().collect()
}

#[test]
fn what_was_saved_is_read_again() {
    for done in [set(&[]), set(&[0]), set(&[3, 1, 2]), set(&[usize::MAX, 7])] {
        let text = save_state(&done);
        assert_eq!(load_state(Some(&text)), done);
    }
}

#[test]
fn progress_is_saved_as_an_array() {
    assert_eq!(save_state(&set(&[])), "[]");
    assert_eq!(save_state(&set(&[42])), "[42]");
    let two = save_state(&set(&[1, 20]));
    assert!(two == "[1,20]" || two == "[20,1]");
}

#[test]
fn progress_that_cannot_be_read_is_none() {
    assert_eq!(load_state(None), set(&[]));
    for text in ["", "{}", "[1,", "[-1]", "[1.5]", "[\"1\"]", "[99999999999999999999999]", "1"] {
        assert_eq!(load_state(Some(text)), set(&[]), "{text}");
    }
    assert_eq!(load_state(Some(" [ 1, 2 ,1 ] ")), set(&[1, 2]));
}

#[test]
fn repeated_numbers_count_once() {
    assert_eq!(set_of(&vec![4, 4, 5]), set(&[4, 5]));
    assert_eq!(set_of(&vec![]), set(&[]));
}

#[test]
fn progress_counts_only_beside_its_file() {
    assert_eq!(resume_from(Some(10), Some("[0,1]")), set(&[0, 1]));
    assert_eq!(resume_from(None, Some("[0,1]")), set(&[]));
    assert_eq!(resume_from(Some(10), None), set(&[]));
}

#[test]
fn a_file_of_the_right_size_is_kept() {
    assert!(!needs_allocation(Some(10), 10));
    assert!(needs_allocation(Some(9), 10));
    assert!(needs_allocation(None, 10));
    assert!(needs_allocation(None, 0));
}
