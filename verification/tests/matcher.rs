use wordle::Correctness;
use wordle::Guess;

fn scored(answer: &str, word: &str) -> Guess {
    Guess {
        word: word.to_string(),
        mask: Correctness::compute(answer, word),
    }
}

#[test]
fn answer_always_matches_its_own_score() {
    // The round-trip law on concrete values: whatever a guess scored against
    // the answer, the answer itself stays consistent with that record.
    for answer in ["moved", "aabbb", "right"] {
        for word in ["aaccc", "ccaac", "caacc", "wrong", "moved"] {
            assert!(scored(answer, word).matches(answer));
        }
    }
}

#[test]
fn matches_agrees_with_rescoring() {
    // A candidate matches exactly when re-scoring the guessed word against
    // it reproduces the recorded mask.
    let answer = "aabbb";
    let word = "caacc";
    let record = scored(answer, word);
    for candidate in ["aabbb", "babba", "aaccc", "moved", "caacc"] {
        assert_eq!(
            record.matches(candidate),
            Correctness::compute(candidate, word) == record.mask
        );
    }
}

#[test]
fn correct_placed_pins_the_letter() {
    // A CorrectPlaced position rejects any candidate with another letter
    // there.
    let record = scored("moved", "mossy");
    assert!(!record.matches("hover"));
}

#[test]
fn wrong_placed_rejects_same_position() {
    // 'w' scored WrongPlaced at the first position: a candidate carrying 'w'
    // right there would have scored it CorrectPlaced, so it is rejected.
    let record = scored("right", "wrong");
    assert!(record.matches("right"));
    assert!(!record.matches("wring"));
}

#[test]
fn whole_history_is_one_conjunction() {
    // A candidate survives a history exactly when it matches every recorded
    // round; one failed round rejects it.
    let history = [scored("right", "wrong"), scored("right", "qqqqq")];
    assert!(wordle::game::matches_history(&history, "right"));
    assert!(!wordle::game::matches_history(&history, "moved"));
    assert!(wordle::game::matches_history(&history[..0], "moved"));
}

#[test]
fn duplicate_letters_are_not_over_credited() {
    // "ccaac" against "aabbb" scores two misplaced 'a's; a candidate with a
    // single 'a' cannot satisfy both marks and must be rejected.
    let record = scored("aabbb", "ccaac");
    assert!(record.matches("aabbb"));
    assert!(!record.matches("abbbb"));
}
