use wordle::Correctness;

fn c() -> Correctness {
    Correctness::CorrectPlaced
}

fn m() -> Correctness {
    Correctness::MisPlaced
}

fn w() -> Correctness {
    Correctness::WrongPlaced
}

#[test]
fn all_green() {
    assert_eq!(
        Correctness::compute("abcde", "abcde"),
        vec![c(), c(), c(), c(), c()]
    );
}

#[test]
fn all_gray() {
    assert_eq!(
        Correctness::compute("jshui", "abcde"),
        vec![w(), w(), w(), w(), w()]
    );
}

#[test]
fn all_yellow() {
    assert_eq!(
        Correctness::compute("edacb", "abcde"),
        vec![m(), m(), m(), m(), m()]
    );
}

#[test]
fn repeat_green() {
    assert_eq!(
        Correctness::compute("aabbb", "aaccc"),
        vec![c(), c(), w(), w(), w()]
    );
}

#[test]
fn repeat_yellow() {
    assert_eq!(
        Correctness::compute("aabbb", "ccaac"),
        vec![w(), w(), m(), m(), w()]
    );
}

#[test]
fn repeat_some_green() {
    assert_eq!(
        Correctness::compute("aabbb", "caacc"),
        vec![w(), c(), m(), w(), w()]
    );
}

#[test]
fn guess_letter_more_often_than_answer() {
    // The guess carries 'b' three times, the answer only once: only the
    // leftmost unplaced occurrence is credited.
    assert_eq!(
        Correctness::compute("abcde", "aabbb"),
        vec![c(), w(), m(), w(), w()]
    );
}

#[test]
fn answer_letter_more_often_than_guess() {
    // The answer repeats a letter the guess holds once, misplaced.
    assert_eq!(
        Correctness::compute("aabbb", "bcccc"),
        vec![m(), w(), w(), w(), w()]
    );
}
