//! The guessing round: compare one guess, and play a recorded list of
//! guesses until the first hit.
use vstd::prelude::*;

verus! {

/// Compares a guess against the secret: zero on a hit, one when the guess is
/// too high, minus one when it is too low.
pub fn check_guess(guess: i32, secret: i32) -> (r: i32)
    ensures
        (r == 0) <==> (guess == secret),
        (r == 1) <==> (guess > secret),
        (r == -1) <==> (guess < secret),
{
    if guess == secret {
        0
    } else if guess > secret {
        1
    } else {
        -1
    }
}

/// Plays the recorded guesses in order until one matches the secret: how
/// many guesses it took, or `None` when every guess misses.
pub fn run_guesses(secret: i32, guesses: &Vec<i32>) -> (r: Option<usize>)
    ensures
        match r {
            Some(k) => 1 <= k <= guesses@.len() && guesses@[k as int - 1] == secret && forall|
                t: int,
            | 0 <= t < k as int - 1 ==> guesses@[t] != secret,
            None => forall|t: int| 0 <= t < guesses@.len() ==> guesses@[t] != secret,
        },
{
    let mut i: usize = 0;
    while i < guesses.len()
        invariant
            i <= guesses@.len(),
            forall|t: int| 0 <= t < i ==> guesses@[t] != secret,
        decreases guesses@.len() - i,
    {
        let result = check_guess(guesses[i], secret);
        if result == 0 {
            return Some(i + 1);
        }
        i += 1;
    }
    None
}

} // verus!
