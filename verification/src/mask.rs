//! The correctness evaluator: scoring one guess against the secret answer.
//!
//! Every word taking part in evaluation is exactly [`WORD_LEN`] characters
//! long. The evaluator works in two conceptual passes. First, every position
//! where the guess agrees with the answer is marked `CorrectPlaced`, and that
//! answer letter is consumed. Second, the remaining guess positions are
//! scanned left to right; each one claims an unconsumed answer occurrence of
//! its letter if one is left, and is marked `MisPlaced`, otherwise it is
//! marked `WrongPlaced`.
//!
//! The specification below states that consumption discipline by counting.
//! For a letter `ch`, the answer offers `answer_supply(a, g, ch, n)`
//! occurrences that are not already matched in place; the guess positions
//! carrying `ch` and not matched in place claim those occurrences in
//! left-to-right order. So the position `i` is `MisPlaced` exactly when the
//! number of earlier claimants, `guess_demand(a, g, ch, i)`, is still below
//! the supply. Which concrete answer occurrence a claimant consumes never
//! matters: all carry the same letter.

use vstd::prelude::*;

verus! {

/// Length of every word that takes part in evaluation or matching.
pub const WORD_LEN: usize = 5;

/// The per-position verdict for one letter of a guess.
#[derive(Debug, Clone, Copy, PartialEq, Eq, Structural)]
pub enum Correctness {
    /// The letter matches the answer at this exact position.
    CorrectPlaced,
    /// The letter occurs in the answer, but at another, unconsumed position.
    MisPlaced,
    /// The letter contributes no further match at this position.
    WrongPlaced,
}

/// How many of the first `n` answer positions carry the letter `ch` without
/// being matched in place — the occurrences still available to misplaced
/// guess letters after the first pass.
pub open spec fn answer_supply(a: Seq<char>, g: Seq<char>, ch: char, n: int) -> int
    recommends
        0 <= n <= a.len(),
        a.len() == g.len(),
    decreases n,
{
    if n <= 0 {
        0
    } else {
        answer_supply(a, g, ch, n - 1) + if a[n - 1] == ch && a[n - 1] != g[n - 1] {
            1int
        } else {
            0int
        }
    }
}

/// How many of the first `n` guess positions carry the letter `ch` without
/// being matched in place — the claims on the answer's supply made by guess
/// positions to the left of position `n`.
pub open spec fn guess_demand(a: Seq<char>, g: Seq<char>, ch: char, n: int) -> int
    recommends
        0 <= n <= g.len(),
        a.len() == g.len(),
    decreases n,
{
    if n <= 0 {
        0
    } else {
        guess_demand(a, g, ch, n - 1) + if g[n - 1] == ch && a[n - 1] != g[n - 1] {
            1int
        } else {
            0int
        }
    }
}

/// The verdict for position `i` of the guess `g` against the answer `a`.
pub open spec fn mask_at(a: Seq<char>, g: Seq<char>, i: int) -> Correctness
    recommends
        0 <= i < g.len(),
        a.len() == g.len(),
{
    if a[i] == g[i] {
        Correctness::CorrectPlaced
    } else if guess_demand(a, g, g[i], i) < answer_supply(a, g, g[i], a.len() as int) {
        Correctness::MisPlaced
    } else {
        Correctness::WrongPlaced
    }
}

/// The full correctness mask of the guess `g` against the answer `a`: one
/// verdict per guess position.
pub open spec fn mask_of(a: Seq<char>, g: Seq<char>) -> Seq<Correctness>
    recommends
        a.len() == g.len(),
{
    Seq::new(g.len(), |i: int| mask_at(a, g, i))
}

proof fn lemma_counts_nonneg(a: Seq<char>, g: Seq<char>, ch: char, n: int)
    ensures
        answer_supply(a, g, ch, n) >= 0,
        guess_demand(a, g, ch, n) >= 0,
    decreases n,
{
    if n > 0 {
        lemma_counts_nonneg(a, g, ch, n - 1);
    }
}

proof fn lemma_supply_zero_when_absent(a: Seq<char>, g: Seq<char>, ch: char, n: int)
    requires
        n <= a.len(),
        forall|j: int| 0 <= j < a.len() ==> a[j] != ch,
    ensures
        answer_supply(a, g, ch, n) == 0,
    decreases n,
{
    if n > 0 {
        lemma_supply_zero_when_absent(a, g, ch, n - 1);
    }
}

/// A guess identical to the answer is scored `CorrectPlaced` at every
/// position.
pub proof fn lemma_guess_equals_answer_all_correct(w: Seq<char>)
    requires
        w.len() == WORD_LEN,
    ensures
        forall|i: int|
            0 <= i < WORD_LEN ==> #[trigger] mask_of(w, w)[i] == Correctness::CorrectPlaced,
{
}

/// An answer and a guess that share no letter at all are scored
/// `WrongPlaced` at every position.
pub proof fn lemma_disjoint_letters_all_wrong(a: Seq<char>, g: Seq<char>)
    requires
        a.len() == WORD_LEN,
        g.len() == WORD_LEN,
        forall|i: int, j: int|
            0 <= i < WORD_LEN && 0 <= j < WORD_LEN ==> #[trigger] a[i] != #[trigger] g[j],
    ensures
        forall|i: int|
            0 <= i < WORD_LEN ==> #[trigger] mask_of(a, g)[i] == Correctness::WrongPlaced,
{
    assert forall|i: int| 0 <= i < WORD_LEN implies #[trigger] mask_of(a, g)[i]
        == Correctness::WrongPlaced by {
        assert(a[i] != g[i]);
        lemma_supply_zero_when_absent(a, g, g[i], a.len() as int);
        lemma_counts_nonneg(a, g, g[i], i);
    }
}

impl Correctness {
    /// Scores `guess` against the secret `answer`: the returned mask holds one
    /// verdict per guess position, with duplicate letters accounted for by the
    /// two-pass consumption discipline described in [`mask_of`].
    pub fn compute(answer: &str, guess: &str) -> (mask: Vec<Correctness>)
        requires
            answer@.len() == WORD_LEN,
            guess@.len() == WORD_LEN,
        ensures
            mask@ == mask_of(answer@, guess@),
    {
        let mut mask: Vec<Correctness> = Vec::new();
        let mut i: usize = 0;
        while i < WORD_LEN
            invariant
                answer@.len() == WORD_LEN,
                guess@.len() == WORD_LEN,
                i <= WORD_LEN,
                mask@.len() == i,
                forall|k: int| 0 <= k < i ==> mask@[k] == mask_at(answer@, guess@, k),
            decreases WORD_LEN - i,
        {
            let ai = answer.get_char(i);
            let gi = guess.get_char(i);
            let verdict = if ai == gi {
                Correctness::CorrectPlaced
            } else {
                let demand = count_guess_demand(answer, guess, gi, i);
                let supply = count_answer_supply(answer, guess, gi);
                if demand < supply {
                    Correctness::MisPlaced
                } else {
                    Correctness::WrongPlaced
                }
            };
            mask.push(verdict);
            i += 1;
        }
        proof {
            assert(mask@ =~= mask_of(answer@, guess@));
        }
        mask
    }
}

/// Counts the answer occurrences of `ch` that are not matched in place.
fn count_answer_supply(answer: &str, guess: &str, ch: char) -> (n: usize)
    requires
        answer@.len() == WORD_LEN,
        guess@.len() == WORD_LEN,
    ensures
        n == answer_supply(answer@, guess@, ch, WORD_LEN as int),
{
    let mut n: usize = 0;
    let mut j: usize = 0;
    while j < WORD_LEN
        invariant
            answer@.len() == WORD_LEN,
            guess@.len() == WORD_LEN,
            j <= WORD_LEN,
            n == answer_supply(answer@, guess@, ch, j as int),
            n <= j,
        decreases WORD_LEN - j,
    {
        let aj = answer.get_char(j);
        let gj = guess.get_char(j);
        if aj == ch && aj != gj {
            n += 1;
        }
        j += 1;
    }
    n
}

/// Counts the guess occurrences of `ch` before position `upto` that are not
/// matched in place.
fn count_guess_demand(answer: &str, guess: &str, ch: char, upto: usize) -> (n: usize)
    requires
        answer@.len() == WORD_LEN,
        guess@.len() == WORD_LEN,
        upto <= WORD_LEN,
    ensures
        n == guess_demand(answer@, guess@, ch, upto as int),
{
    let mut n: usize = 0;
    let mut j: usize = 0;
    while j < upto
        invariant
            answer@.len() == WORD_LEN,
            guess@.len() == WORD_LEN,
            upto <= WORD_LEN,
            j <= upto,
            n == guess_demand(answer@, guess@, ch, j as int),
            n <= j,
        decreases upto - j,
    {
        let aj = answer.get_char(j);
        let gj = guess.get_char(j);
        if gj == ch && aj != gj {
            n += 1;
        }
        j += 1;
    }
    n
}

} // verus!
