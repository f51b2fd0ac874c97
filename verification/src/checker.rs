//! The cycle check: which facts are being resolved, and how deep a
//! resolution can still go.

use vstd::prelude::*;

use crate::error::Error;
use crate::facts::{is_letter, letter_index, nth_letter};

verus! {

/// How many of the first `n` letters are not on the path.
pub open spec fn free_letters(path: Seq<char>, n: nat) -> nat
    decreases n,
{
    if n == 0 {
        0
    } else {
        free_letters(path, (n - 1) as nat) + if path.contains(nth_letter(n - 1)) {
            0nat
        } else {
            1nat
        }
    }
}

/// How many facts are not on the path: the depth that is left to a
/// resolution that never enters a fact twice.
pub open spec fn spare(path: Seq<char>) -> nat {
    free_letters(path, 26)
}

/// What a sequence contains once a value is appended to it.
pub proof fn lemma_push_contains(path: Seq<char>, last: char, c: char)
    ensures
        path.push(last).contains(c) == (path.contains(c) || c == last),
{
    let longer = path.push(last);
    if path.contains(c) {
        let k = choose|k: int| 0 <= k < path.len() && path[k] == c;
        assert(longer[k] == c);
    }
    if c == last {
        assert(longer[path.len() as int] == c);
    }
}

/// A letter that enters the path takes one from the letters that are free.
pub proof fn lemma_free_letters_push(path: Seq<char>, letter: char, n: nat)
    requires
        is_letter(letter),
        !path.contains(letter),
        n <= 26,
    ensures
        free_letters(path, n) == free_letters(path.push(letter), n) + if letter_index(letter) < n {
            1nat
        } else {
            0nat
        },
    decreases n,
{
    if n > 0 {
        lemma_free_letters_push(path, letter, (n - 1) as nat);
        lemma_push_contains(path, letter, nth_letter(n - 1));
        assert(nth_letter(n - 1) as int == 'A' as int + n - 1);
    }
}

/// Each fact that a resolution enters leaves it less depth to go.
pub proof fn lemma_spare_push(path: Seq<char>, letter: char)
    requires
        is_letter(letter),
        !path.contains(letter),
    ensures
        spare(path.push(letter)) < spare(path),
{
    lemma_free_letters_push(path, letter, 26);
}

/// Refuses a fact that is on the path of the facts being resolved: it
/// would be needed to justify itself.
pub fn infinite_rule_loop(path: &Vec<char>, letter: char) -> (r: Result<(), Error>)
    ensures
        r == if path@.contains(letter) {
            Err::<(), Error>(Error::CircularDependency(letter))
        } else {
            Ok::<(), Error>(())
        },
{
    let n = path.len();
    let mut i: usize = 0;
    while i < n
        invariant
            n == path.len(),
            i <= n,
            forall|j: int| 0 <= j < i ==> path@[j] != letter,
        decreases n - i,
    {
        if path[i] == letter {
            return Err(Error::CircularDependency(letter));
        }
        i += 1;
    }
    Ok(())
}

} // verus!
