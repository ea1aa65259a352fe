use wordle::Guess;
use wordle::Guesser;
use wordle::Wordle;

struct Always(&'static str);

impl Guesser for Always {
    fn guess(&mut self, _history: &[Guess]) -> String {
        self.0.to_string()
    }
}

struct RightAtLen(usize);

impl Guesser for RightAtLen {
    fn guess(&mut self, history: &[Guess]) -> String {
        if history.len() == self.0 {
            return "right".to_string();
        }
        "wrong".to_string()
    }
}

fn game() -> Wordle {
    Wordle::new(vec![
        "moved".to_string(),
        "right".to_string(),
        "wrong".to_string(),
    ])
}

#[test]
fn genius() {
    let w = game();
    let guesser = Always("moved");

    assert_eq!(w.play("moved", guesser), Some(1));
}

#[test]
fn magnificiant() {
    let w = game();
    let guesser = RightAtLen(1);

    assert_eq!(w.play("right", guesser), Some(2));
}

#[test]
fn impressive() {
    let w = game();
    let guesser = RightAtLen(2);

    assert_eq!(w.play("right", guesser), Some(3));
}

#[test]
fn splendid() {
    let w = game();
    let guesser = RightAtLen(3);

    assert_eq!(w.play("right", guesser), Some(4));
}

#[test]
fn great() {
    let w = game();
    let guesser = RightAtLen(4);

    assert_eq!(w.play("right", guesser), Some(5));
}

#[test]
fn phew() {
    let w = game();
    let guesser = RightAtLen(5);

    assert_eq!(w.play("right", guesser), Some(6));
}

#[test]
fn oops() {
    let w = game();
    let guesser = Always("wrong");

    assert_eq!(w.play("moved", guesser), None);
}

#[test]
fn deterministic_strategy_same_outcome_twice() {
    // The same deterministic strategy, run twice against the same answer,
    // reaches the same outcome.
    let first = game().play("right", RightAtLen(3));
    let second = game().play("right", RightAtLen(3));
    assert_eq!(first, second);
    assert_eq!(first, Some(4));
}
