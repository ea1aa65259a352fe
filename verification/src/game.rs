//! The constraint matcher, the strategy interface and the game loop.
//!
//! A [`Guess`] records one scored round. Its matcher re-derives, with the
//! correctness evaluator, the mask its word would have produced had the
//! candidate been the answer, and compares that mask with the recorded one.
//! Matcher and evaluator are therefore the same algorithm applied in the two
//! directions; [`lemma_evaluator_matcher_agree`] states the resulting law.
//!
//! A strategy is deterministic in the history it is shown: the trait binds
//! each proposal to the spec function [`Guesser::next_word`], and the game
//! loop's outcome is in turn pinned, round by round, to that function by
//! [`play_outcome_matches`]. [`lemma_play_deterministic`] states the
//! resulting law: one answer and one strategy admit exactly one outcome.

use vstd::prelude::*;
use vstd::slice::slice_index_get;

use crate::mask::Correctness;
use crate::mask::WORD_LEN;
use crate::mask::mask_of;

verus! {

/// The number of rounds one game runs at most. The real game stops after six;
/// a higher limit keeps the score distribution of a weak strategy from being
/// cut off when strategies are compared.
pub const MAX_ROUNDS: usize = 32;

/// One recorded round as plain values: the guessed word and its mask.
pub type RoundRecord = (Seq<char>, Seq<Correctness>);

/// One recorded round: the word that was guessed and the mask it scored
/// against the secret answer.
pub struct Guess {
    /// The guessed word.
    pub word: String,
    /// The correctness mask that `word` scored.
    pub mask: Vec<Correctness>,
}

/// A recorded history as plain values: one (word, mask) pair per round.
pub open spec fn abstract_history(history: Seq<Guess>) -> Seq<RoundRecord> {
    history.map_values(|g: Guess| (g.word@, g.mask@))
}

/// A candidate `cand` is consistent with a recorded guess (`word`, `mask`)
/// exactly when `word`, scored against `cand` as the answer, would have
/// produced `mask`. This is the matcher's whole definition: re-score and
/// compare.
pub open spec fn spec_matches(word: Seq<char>, mask: Seq<Correctness>, cand: Seq<char>) -> bool {
    mask_of(cand, word) == mask
}

/// A candidate is consistent with every round of a recorded history: each
/// round is an independent constraint, and they combine by logical AND, in
/// any order.
pub open spec fn matches_all(history: Seq<RoundRecord>, cand: Seq<char>) -> bool {
    forall|j: int|
        0 <= j < history.len() ==> spec_matches((#[trigger] history[j]).0, history[j].1, cand)
}

/// A history is genuine for `answer`: every recorded round is well-formed,
/// carries the mask the evaluator gives its word against `answer`, and did
/// not hit `answer` (a hit would have ended the game).
pub open spec fn genuine_history(history: Seq<Guess>, answer: Seq<char>) -> bool {
    &&& answer.len() == WORD_LEN
    &&& forall|k: int|
        0 <= k < history.len() ==> {
            &&& (#[trigger] history[k]).wf()
            &&& history[k].mask@ == mask_of(answer, history[k].word@)
            &&& history[k].word@ != answer
        }
}

impl Guess {
    /// A well-formed record holds a word of the fixed length and one verdict
    /// per position.
    pub open spec fn wf(&self) -> bool {
        self.word@.len() == WORD_LEN && self.mask@.len() == WORD_LEN
    }

    /// Decides whether `word` could still be the secret answer given that
    /// this guess scored this mask: the evaluator is re-run with `word` in
    /// the answer's place and the masks are compared.
    pub fn matches(&self, word: &str) -> (r: bool)
        requires
            self.wf(),
            word@.len() == WORD_LEN,
        ensures
            r == spec_matches(self.word@, self.mask@, word@),
    {
        let rescored = Correctness::compute(word, self.word.as_str());
        let mut i: usize = 0;
        while i < WORD_LEN
            invariant
                self.wf(),
                rescored@.len() == WORD_LEN,
                i <= WORD_LEN,
                rescored@ == mask_of(word@, self.word@),
                forall|k: int| 0 <= k < i ==> rescored@[k] == self.mask@[k],
            decreases WORD_LEN - i,
        {
            if rescored[i] != self.mask[i] {
                return false;
            }
            i += 1;
        }
        proof {
            assert(rescored@ =~= self.mask@);
        }
        true
    }
}

/// Decides whether `word` is consistent with every round of a history: the
/// matcher, applied independently to each recorded guess and combined by
/// logical AND.
pub fn matches_history(history: &[Guess], word: &str) -> (r: bool)
    requires
        forall|k: int| 0 <= k < history@.len() ==> (#[trigger] history@[k]).wf(),
        word@.len() == WORD_LEN,
    ensures
        r == matches_all(abstract_history(history@), word@),
{
    let mut j: usize = 0;
    while j < history.len()
        invariant
            forall|k: int| 0 <= k < history@.len() ==> (#[trigger] history@[k]).wf(),
            word@.len() == WORD_LEN,
            j <= history@.len(),
            forall|k: int|
                0 <= k < j ==> spec_matches(
                    (#[trigger] history@[k]).word@,
                    history@[k].mask@,
                    word@,
                ),
        decreases history@.len() - j,
    {
        let round = slice_index_get(history, j);
        if !round.matches(word) {
            proof {
                assert(abstract_history(history@)[j as int] == (
                    history@[j as int].word@,
                    history@[j as int].mask@,
                ));
            }
            return false;
        }
        j += 1;
    }
    proof {
        let ah = abstract_history(history@);
        assert forall|k: int| 0 <= k < ah.len() implies spec_matches(
            (#[trigger] ah[k]).0,
            ah[k].1,
            word@,
        ) by {
            assert(ah[k] == (history@[k].word@, history@[k].mask@));
        }
    }
    true
}

/// The defining law of the core: a candidate matches a recorded guess exactly
/// when the evaluator scores the guess identically against the candidate and
/// against the true answer; in particular the true answer always matches.
pub proof fn lemma_evaluator_matcher_agree(a: Seq<char>, g: Seq<char>, c: Seq<char>)
    requires
        a.len() == WORD_LEN,
        g.len() == WORD_LEN,
        c.len() == WORD_LEN,
    ensures
        spec_matches(g, mask_of(a, g), c) == (mask_of(c, g) == mask_of(a, g)),
        c == a ==> spec_matches(g, mask_of(a, g), c),
{
}

/// A guessing strategy: given the history of scored rounds so far, propose
/// the next word.
///
/// `proposals()` is the set of words the strategy may ever propose; the game
/// loop requires it to lie within the game's dictionary, which makes the
/// dictionary check of each round a verified fact instead of a runtime
/// assertion. `next_word()` is the strategy's choice as a function of its
/// state and the history alone; `guess` is bound to it, which makes the
/// required determinism a contract rather than a convention.
pub trait Guesser: Sized {
    /// The words this strategy may propose, now or after any number of
    /// rounds. By default a strategy declares no restriction — it may
    /// propose anything — and then no dictionary can accommodate it; a
    /// strategy meant for [`Wordle::play`] narrows this to words of the
    /// game's dictionary.
    open spec fn proposals(&self) -> Set<Seq<char>> {
        Set::full()
    }

    /// The word this strategy proposes when shown a history. The default
    /// declares no choice, so a verified strategy overrides it with its real
    /// decision function.
    open spec fn next_word(&self, history: Seq<RoundRecord>) -> Seq<char> {
        Seq::empty()
    }

    /// Proposes the next guess, given every scored round so far. The history
    /// must be genuine: every round scored by the evaluator against one and
    /// the same answer, which no recorded word hit.
    ///
    /// The proposal is exactly `next_word` of the state and history, and the
    /// call does not change what the strategy would propose on any extension
    /// of that history — so along one game the whole run is a function of
    /// the answer and the starting state.
    fn guess(&mut self, history: &[Guess]) -> (word: String)
        requires
            forall|k: int| 0 <= k < history@.len() ==> (#[trigger] history@[k]).wf(),
            exists|answer: Seq<char>| genuine_history(history@, answer),
        ensures
            word@ == old(self).next_word(abstract_history(history@)),
            forall|h: Seq<RoundRecord>|
                abstract_history(history@).is_prefix_of(h) ==> #[trigger] final(self).next_word(h)
                    == old(self).next_word(h),
            old(self).proposals().contains(word@),
            final(self).proposals().subset_of(old(self).proposals()),
    ;
}

/// The history the game loop has recorded after `k` non-winning rounds
/// against `answer`, for a strategy that starts in state `strategy`: each
/// round appends the strategy's proposal and the evaluator's mask for it.
pub open spec fn game_history<G: Guesser>(answer: Seq<char>, strategy: G, k: int) -> Seq<
    RoundRecord,
>
    decreases k,
{
    if k <= 0 {
        Seq::empty()
    } else {
        let h = game_history(answer, strategy, k - 1);
        h.push((strategy.next_word(h), mask_of(answer, strategy.next_word(h))))
    }
}

/// The word a strategy starting in state `strategy` proposes in round `k`,
/// 1-based.
pub open spec fn proposal_at<G: Guesser>(answer: Seq<char>, strategy: G, k: int) -> Seq<char> {
    strategy.next_word(game_history(answer, strategy, k - 1))
}

/// What one game returns, as a function of the answer and the strategy's
/// starting state: the 1-based first round whose proposal equals the answer,
/// or nothing when no proposal within the round limit does.
pub open spec fn play_outcome_matches<G: Guesser>(
    answer: Seq<char>,
    strategy: G,
    outcome: Option<usize>,
) -> bool {
    match outcome {
        Some(k) => {
            &&& 1 <= k <= MAX_ROUNDS
            &&& proposal_at(answer, strategy, k as int) == answer
            &&& forall|i: int| 1 <= i < k ==> proposal_at(answer, strategy, i) != answer
        },
        None => forall|i: int| 1 <= i <= MAX_ROUNDS ==> proposal_at(answer, strategy, i) != answer,
    }
}

/// Game-loop determinism: for one answer and one strategy starting state the
/// game's contract admits exactly one outcome, so two runs return the same
/// result; the round-by-round record both runs produce is `game_history`, a
/// function of the same two values.
pub proof fn lemma_play_deterministic<G: Guesser>(
    answer: Seq<char>,
    strategy: G,
    first: Option<usize>,
    second: Option<usize>,
)
    requires
        play_outcome_matches(answer, strategy, first),
        play_outcome_matches(answer, strategy, second),
    ensures
        first == second,
{
    match (first, second) {
        (Some(k1), Some(k2)) => {
            if k1 < k2 {
                assert(proposal_at(answer, strategy, k1 as int) == answer);
                assert(false);
            } else if k2 < k1 {
                assert(proposal_at(answer, strategy, k2 as int) == answer);
                assert(false);
            }
        },
        (Some(k1), None) => {
            assert(proposal_at(answer, strategy, k1 as int) == answer);
            assert(false);
        },
        (None, Some(k2)) => {
            assert(proposal_at(answer, strategy, k2 as int) == answer);
            assert(false);
        },
        (None, None) => {},
    }
}

/// One game: every strategy played against it must draw its proposals from
/// this dictionary.
pub struct Wordle {
    /// The known words, each of the fixed length.
    pub dictionary: Vec<String>,
}

impl Wordle {
    /// The dictionary as a set of words.
    pub open spec fn dict(&self) -> Set<Seq<char>> {
        Set::new(
            |w: Seq<char>|
                exists|k: int|
                    0 <= k < self.dictionary@.len() && (#[trigger] self.dictionary@[k])@ == w,
        )
    }

    /// Every word of the dictionary has the fixed length.
    pub open spec fn wf(&self) -> bool {
        forall|k: int| 0 <= k < self.dictionary@.len() ==> (#[trigger] self.dictionary@[k])@.len()
            == WORD_LEN
    }

    /// Creates a game over the given dictionary of words. Every word must
    /// have the fixed length: a dictionary violating that is a programming
    /// error, not a recoverable condition.
    pub fn new(dictionary: Vec<String>) -> (game: Self)
        requires
            forall|k: int| 0 <= k < dictionary@.len() ==> (#[trigger] dictionary@[k])@.len()
                == WORD_LEN,
        ensures
            game.wf(),
            game.dictionary@ == dictionary@,
    {
        Wordle { dictionary }
    }

    /// Plays one game: each round the strategy proposes a word; a proposal
    /// equal to the answer ends the game with the 1-based round number;
    /// otherwise the proposal is scored and the round is appended to the
    /// history the strategy sees. The outcome is pinned to the strategy's
    /// choice function: `Some(k)` exactly for the first round whose proposal
    /// equals the answer, `None` exactly when no proposal within
    /// [`MAX_ROUNDS`] rounds does — exhaustion is a valid outcome, not an
    /// error.
    ///
    /// The strategy's proposals must come from this game's dictionary: a
    /// strategy violating that breaks its contract, it is not a game
    /// outcome.
    pub fn play<G: Guesser>(&self, answer: &str, guesser: G) -> (outcome: Option<usize>)
        requires
            self.wf(),
            answer@.len() == WORD_LEN,
            guesser.proposals().subset_of(self.dict()),
        ensures
            play_outcome_matches(answer@, guesser, outcome),
            outcome is Some ==> guesser.proposals().contains(answer@),
            forall|i: int|
                1 <= i <= (match outcome {
                    Some(k) => k as int,
                    None => MAX_ROUNDS as int,
                }) ==> guesser.proposals().contains(#[trigger] proposal_at(answer@, guesser, i)),
    {
        let ghost start = guesser;
        let mut current = guesser;
        let mut history: Vec<Guess> = Vec::new();
        let mut round: usize = 1;
        proof {
            assert(abstract_history(history@) =~= game_history(answer@, start, 0));
        }
        while round <= MAX_ROUNDS
            invariant
                self.wf(),
                answer@.len() == WORD_LEN,
                start == guesser,
                start.proposals().subset_of(self.dict()),
                current.proposals().subset_of(start.proposals()),
                1 <= round <= MAX_ROUNDS + 1,
                genuine_history(history@, answer@),
                abstract_history(history@) == game_history(answer@, start, round - 1),
                forall|h: Seq<RoundRecord>|
                    abstract_history(history@).is_prefix_of(h) ==> #[trigger] current.next_word(h)
                        == start.next_word(h),
                forall|i: int| 1 <= i < round ==> proposal_at(answer@, start, i) != answer@,
                forall|i: int|
                    1 <= i < round ==> start.proposals().contains(
                        #[trigger] proposal_at(answer@, start, i),
                    ),
            decreases MAX_ROUNDS + 1 - round,
        {
            let ghost pre = current;
            let ghost h_pre = abstract_history(history@);
            let word = current.guess(history.as_slice());
            proof {
                assert(h_pre.is_prefix_of(h_pre));
                assert(word@ == start.next_word(h_pre));
                assert(word@ == proposal_at(answer@, start, round as int));
                // The dictionary membership the game demands of every
                // proposal, before the word is scored.
                assert(pre.proposals().contains(word@));
                assert(start.proposals().contains(proposal_at(answer@, start, round as int)));
                assert(self.dict().contains(word@));
                let k = choose|k: int|
                    0 <= k < self.dictionary@.len() && (#[trigger] self.dictionary@[k])@ == word@;
                assert(self.dictionary@[k]@.len() == WORD_LEN);
            }
            if words_equal(word.as_str(), answer) {
                proof {
                    assert(pre.proposals().contains(word@));
                    assert(start.proposals().contains(answer@));
                    assert(proposal_at(answer@, start, round as int) == answer@);
                    assert(play_outcome_matches(answer@, start, Some(round)));
                }
                return Some(round);
            }
            let mask = Correctness::compute(answer, word.as_str());
            let ghost word_view = word@;
            history.push(Guess { word, mask });
            proof {
                assert(abstract_history(history@) =~= h_pre.push(
                    (word_view, mask_of(answer@, word_view)),
                ));
                assert(abstract_history(history@) == game_history(answer@, start, round as int));
                assert(genuine_history(history@, answer@));
                assert forall|h: Seq<RoundRecord>|
                    abstract_history(history@).is_prefix_of(h) implies #[trigger] current.next_word(
                    h,
                ) == start.next_word(h) by {
                    assert(h_pre =~= h.subrange(0, h_pre.len() as int));
                    assert(h_pre.is_prefix_of(h));
                    assert(pre.next_word(h) == start.next_word(h));
                }
            }
            round += 1;
        }
        None
    }
}

/// Compares two words of the fixed length character by character.
pub fn words_equal(a: &str, b: &str) -> (r: bool)
    requires
        a@.len() == WORD_LEN,
        b@.len() == WORD_LEN,
    ensures
        r == (a@ == b@),
{
    let mut i: usize = 0;
    while i < WORD_LEN
        invariant
            a@.len() == WORD_LEN,
            b@.len() == WORD_LEN,
            i <= WORD_LEN,
            forall|k: int| 0 <= k < i ==> a@[k] == b@[k],
        decreases WORD_LEN - i,
    {
        if a.get_char(i) != b.get_char(i) {
            return false;
        }
        i += 1;
    }
    proof {
        assert(a@ =~= b@);
    }
    true
}

} // verus!
