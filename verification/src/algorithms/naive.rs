//! The baseline strategy: keep the candidates that match everything learned
//! so far, and propose the first survivor.
//!
//! The pool starts as the full dictionary, frequency weights included, and
//! only ever shrinks: each call discards every candidate that fails the
//! constraint matcher against any recorded guess, so a discarded candidate
//! never returns within one game. Filtering against the whole history makes
//! the choice a function of the history alone, however the rounds were split
//! across calls. The bundled scoring is deliberately the simplest possible
//! placeholder — all survivors score alike — so the tie-break is made
//! explicit instead: the strategy proposes the survivor that comes first in
//! dictionary order, and a reserve word (the first dictionary word) if no
//! candidate survived, since a strategy must always propose something.

use vstd::prelude::*;

use crate::dictionary::DictEntry;
use crate::game::Guess;
use crate::game::Guesser;
use crate::game::RoundRecord;
use crate::game::abstract_history;
use crate::game::matches_all;
use crate::game::matches_history;
use crate::mask::WORD_LEN;

verus! {

/// The entries whose words are consistent with every round of a history.
pub open spec fn all_surviving(entries: Seq<DictEntry>, history: Seq<RoundRecord>) -> Seq<
    DictEntry,
> {
    entries.filter(|e: DictEntry| matches_all(history, e.word@))
}

/// An element of a filtered sequence is an element of the original sequence,
/// and satisfies the predicate.
proof fn lemma_filter_membership<A>(s: Seq<A>, pred: spec_fn(A) -> bool, x: A)
    requires
        s.filter(pred).contains(x),
    ensures
        s.contains(x),
        pred(x),
    decreases s.len(),
{
    reveal(Seq::filter);
    if s.len() > 0 {
        let kept = s.drop_last().filter(pred);
        if pred(s.last()) && x == s.last() {
            assert(s[s.len() - 1] == x);
        } else {
            let i = choose|i: int| 0 <= i < kept.len() && kept[i] == x;
            assert(kept.contains(x));
            lemma_filter_membership(s.drop_last(), pred, x);
            let j = choose|j: int| 0 <= j < s.drop_last().len() && s.drop_last()[j] == x;
            assert(s[j] == x);
        }
    }
}

/// Filtering first by a weaker predicate does not change what a stronger
/// filter keeps.
proof fn lemma_filter_twice<A>(s: Seq<A>, weak: spec_fn(A) -> bool, strong: spec_fn(A) -> bool)
    requires
        forall|x: A| #[trigger] strong(x) ==> weak(x),
    ensures
        s.filter(weak).filter(strong) == s.filter(strong),
    decreases s.len(),
{
    reveal(Seq::filter);
    if s.len() > 0 {
        lemma_filter_twice(s.drop_last(), weak, strong);
        let dw = s.drop_last().filter(weak);
        if weak(s.last()) {
            assert(s.filter(weak) == dw.push(s.last()));
            assert(dw.push(s.last()).drop_last() =~= dw);
            assert(dw.push(s.last()).last() == s.last());
        } else {
            assert(s.filter(weak) == dw);
        }
    }
}

/// The baseline strategy's state: the surviving candidate pool, in
/// dictionary order, and one dictionary word held back as the proposal of
/// last resort should the pool ever empty out.
pub struct Naive {
    remaining: Vec<DictEntry>,
    reserve: String,
}

impl Naive {
    #[verifier::type_invariant]
    spec fn inv(&self) -> bool {
        &&& forall|k: int| 0 <= k < self.remaining@.len() ==> (#[trigger] self.remaining@[k]).wf()
        &&& self.reserve@.len() == WORD_LEN
    }

    /// The surviving candidate entries, in dictionary order.
    pub closed spec fn entries(&self) -> Seq<DictEntry> {
        self.remaining@
    }

    /// The surviving candidate words, in dictionary order.
    pub open spec fn pool(&self) -> Seq<Seq<char>> {
        self.entries().map_values(|e: DictEntry| e.word@)
    }

    /// The surviving candidate words as a set.
    pub open spec fn pool_words(&self) -> Set<Seq<char>> {
        Set::new(|w: Seq<char>| self.pool().contains(w))
    }

    /// The word proposed if the pool ever empties out.
    pub closed spec fn reserve_word(&self) -> Seq<char> {
        self.reserve@
    }

    /// Creates the strategy over a dictionary of weighted entries, in the
    /// order the candidates are to be tried. The dictionary must not be
    /// empty — a strategy must always have a word to propose — and every
    /// entry must be well-formed; violating either is a programming error.
    pub fn new(entries: Vec<DictEntry>) -> (strategy: Self)
        requires
            entries@.len() > 0,
            forall|k: int| 0 <= k < entries@.len() ==> (#[trigger] entries@[k]).wf(),
        ensures
            strategy.entries() == entries@,
            strategy.reserve_word() == entries@[0].word@,
    {
        let reserve = entries[0].word.clone();
        Naive { remaining: entries, reserve }
    }
}

impl Guesser for Naive {
    /// Everything this strategy may ever propose: its candidate pool and the
    /// reserve word, both drawn from the dictionary it was built over.
    open spec fn proposals(&self) -> Set<Seq<char>> {
        Set::new(|w: Seq<char>| w == self.reserve_word() || self.pool().contains(w))
    }

    /// The choice function: the first pool entry surviving every recorded
    /// round, or the reserve word when none does.
    open spec fn next_word(&self, history: Seq<RoundRecord>) -> Seq<char> {
        let survivors = all_surviving(self.entries(), history);
        if survivors.len() > 0 {
            survivors[0].word@
        } else {
            self.reserve_word()
        }
    }

    /// Discards every candidate that fails the matcher against any recorded
    /// guess, then proposes the first survivor, or the reserve word if no
    /// candidate survived. The pool shrinks monotonically: each round's
    /// survivors are a subset of the previous round's.
    fn guess(&mut self, history: &[Guess]) -> (word: String)
        ensures
            final(self).reserve_word() == old(self).reserve_word(),
            final(self).entries() == all_surviving(old(self).entries(), abstract_history(history@)),
            final(self).pool_words().subset_of(old(self).pool_words()),
            word@ == if final(self).pool().len() > 0 {
                final(self).pool()[0]
            } else {
                old(self).reserve_word()
            },
    {
        proof {
            use_type_invariant(&*self);
        }
        let ghost ah = abstract_history(history@);
        let mut kept: Vec<DictEntry> = Vec::new();
        let mut idx: usize = 0;
        while idx < self.remaining.len()
            invariant
                *self == *old(self),
                self.inv(),
                forall|k: int| 0 <= k < history@.len() ==> (#[trigger] history@[k]).wf(),
                ah == abstract_history(history@),
                idx <= self.remaining@.len(),
                kept@ == all_surviving(self.remaining@.take(idx as int), ah),
            decreases self.remaining@.len() - idx,
        {
            let ghost before = self.remaining@.take(idx as int);
            let ghost after = self.remaining@.take(idx as int + 1);
            let keep = matches_history(history, self.remaining[idx].word.as_str());
            if keep {
                kept.push(self.remaining[idx].clone());
            }
            proof {
                reveal(Seq::filter);
                assert(after.drop_last() =~= before);
                assert(after.last() == self.remaining@[idx as int]);
                assert(all_surviving(after, ah) == if matches_all(
                    ah,
                    self.remaining@[idx as int].word@,
                ) {
                    all_surviving(before, ah).push(self.remaining@[idx as int])
                } else {
                    all_surviving(before, ah)
                });
            }
            idx += 1;
        }
        proof {
            assert(self.remaining@.take(self.remaining@.len() as int) =~= self.remaining@);
            assert forall|k: int| 0 <= k < kept@.len() implies (#[trigger] kept@[k]).wf() by {
                assert(kept@.contains(kept@[k]));
                lemma_filter_membership(
                    self.remaining@,
                    |e: DictEntry| matches_all(ah, e.word@),
                    kept@[k],
                );
            }
        }
        self.remaining = kept;
        proof {
            // The monotone-pool law: every survivor was in the pool before.
            assert forall|w: Seq<char>| self.pool_words().contains(w) implies old(
                self,
            ).pool_words().contains(w) by {
                let k = choose|k: int| 0 <= k < self.pool().len() && self.pool()[k] == w;
                let e = self.entries()[k];
                assert(self.entries().contains(e));
                lemma_filter_membership(
                    old(self).entries(),
                    |e: DictEntry| matches_all(ah, e.word@),
                    e,
                );
                let j = choose|j: int|
                    0 <= j < old(self).entries().len() && old(self).entries()[j] == e;
                assert(old(self).pool()[j] == w);
                assert(old(self).pool().contains(w));
            }
            assert forall|w: Seq<char>| self.proposals().contains(w) implies old(
                self,
            ).proposals().contains(w) by {
                if w != self.reserve_word() {
                    assert(self.pool_words().contains(w));
                }
            }
            assert(self.proposals().subset_of(old(self).proposals()));
            // The choice on any longer history is unchanged: dropping
            // candidates that already fail a prefix of it removes nothing a
            // filter by the whole of it would keep.
            assert forall|h: Seq<RoundRecord>| ah.is_prefix_of(h) implies #[trigger] self.next_word(
                h,
            ) == old(self).next_word(h) by {
                assert forall|e: DictEntry| #[trigger] matches_all(h, e.word@) implies matches_all(
                    ah,
                    e.word@,
                ) by {
                    assert forall|j: int| 0 <= j < ah.len() implies crate::game::spec_matches(
                        (#[trigger] ah[j]).0,
                        ah[j].1,
                        e.word@,
                    ) by {
                        assert(ah =~= h.subrange(0, ah.len() as int));
                        assert(ah[j] == h[j]);
                    }
                }
                lemma_filter_twice(
                    old(self).entries(),
                    |e: DictEntry| matches_all(ah, e.word@),
                    |e: DictEntry| matches_all(h, e.word@),
                );
            }
        }
        let word = if self.remaining.len() > 0 {
            proof {
                assert(self.pool().contains(self.pool()[0]));
            }
            self.remaining[0].word.clone()
        } else {
            self.reserve.clone()
        };
        proof {
            if self.remaining.len() > 0 {
                assert(self.pool_words().contains(word@));
                assert(old(self).pool_words().contains(word@));
                assert(old(self).proposals().contains(word@));
            }
        }
        word
    }
}

} // verus!
