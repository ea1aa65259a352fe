use wordle::Correctness;
use wordle::DictEntry;
use wordle::Guess;
use wordle::Guesser;
use wordle::Naive;
use wordle::Wordle;

fn entry(word: &str, count: u64) -> DictEntry {
    DictEntry {
        word: word.to_string(),
        count,
    }
}

fn pool() -> Vec<DictEntry> {
    vec![entry("moved", 3), entry("wrong", 2), entry("right", 1)]
}

fn scored(answer: &str, word: &str) -> Guess {
    Guess {
        word: word.to_string(),
        mask: Correctness::compute(answer, word),
    }
}

#[test]
fn empty_history_keeps_the_whole_pool() {
    let mut naive = Naive::new(pool());
    assert_eq!(naive.guess(&[]), "moved");
}

#[test]
fn survivors_are_filtered_by_the_newest_guess() {
    // "wrong" scored against the answer "right" rules out "moved" (no
    // misplaced 'r' or 'g') and "wrong" itself (it would have scored all
    // green); the first survivor is "right".
    let mut naive = Naive::new(pool());
    let history = [scored("right", "wrong")];
    assert_eq!(naive.guess(&history), "right");
}

#[test]
fn discarded_candidates_never_return() {
    // Once a round has discarded a candidate, a later, looser round does not
    // bring it back: the pool only ever shrinks.
    let mut naive = Naive::new(pool());
    let narrowing = [scored("right", "wrong")];
    assert_eq!(naive.guess(&narrowing), "right");
    // A second, looser guess (all gray, sharing no letters with any pool
    // word) rules nothing further out among the survivors.
    let loose = [scored("right", "wrong"), scored("right", "qqqqq")];
    assert_eq!(naive.guess(&loose), "right");
}

#[test]
fn emptied_pool_falls_back_to_the_reserve_word() {
    // A recorded all-gray score for "moved" is inconsistent with "moved"
    // itself being the answer; with a one-word pool nothing survives and the
    // strategy proposes its reserve word rather than nothing.
    let mut naive = Naive::new(vec![entry("moved", 1)]);
    let history = [Guess {
        word: "moved".to_string(),
        mask: vec![Correctness::WrongPlaced; 5],
    }];
    assert_eq!(naive.guess(&history), "moved");
}

#[test]
fn naive_plays_a_whole_game_deterministically() {
    // Round one proposes "moved", whose all-gray score against "right"
    // eliminates everything but "right"; round two wins. A second run from
    // the same dictionary reproduces the outcome.
    let game = Wordle::new(vec![
        "moved".to_string(),
        "wrong".to_string(),
        "right".to_string(),
    ]);
    let first = game.play("right", Naive::new(pool()));
    let second = game.play("right", Naive::new(pool()));
    assert_eq!(first, Some(2));
    assert_eq!(first, second);
}
