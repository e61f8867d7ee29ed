//! What earlier guesses have shown, and the words that agree with it.

use crate::word::{lemma_word_len, Word};
use vstd::prelude::*;

verus! {

/// One letter of a reported guess that the answer holds.
#[derive(Clone, Copy, Debug, PartialEq, Eq, Structural)]
pub struct FoundLetter {
    pub letter: char,
    /// Where the letter stood in the guess, counted from 0.
    pub position: usize,
    /// Whether the answer has the letter at `position`. If not, the answer
    /// has it elsewhere, and not at `position`.
    pub correct_location: bool,
}

impl FoundLetter {
    /// Whether a word has the letter at `position` exactly when the
    /// observation says so.
    pub open spec fn admits(self, word: Seq<char>) -> bool {
        (word[self.position as int] == self.letter) == self.correct_location
    }
}

/// What is known of the answer. The three lists only grow.
#[derive(Debug)]
pub struct Hint {
    /// Letters that the answer does not hold. A letter may be listed twice.
    pub omit_letters: Vec<char>,
    /// Letters that the answer holds somewhere.
    pub req_letters: Vec<char>,
    /// The located observations, in the order in which they were reported.
    pub cand_letters: Vec<FoundLetter>,
}

impl Hint {
    /// Every observation points at one of the five positions of a word.
    pub open spec fn well_formed(&self) -> bool {
        forall|i: int|
            0 <= i < self.cand_letters@.len() ==> (#[trigger] self.cand_letters@[i]).position < 5
    }

    /// Whether a word agrees with all that is known: it holds no omitted
    /// letter, it holds every required letter at least once, and it agrees
    /// with every located observation.
    pub open spec fn admits(&self, word: Seq<char>) -> bool {
        &&& forall|i: int|
            0 <= i < self.omit_letters@.len() ==> !word.contains(#[trigger] self.omit_letters@[i])
        &&& forall|i: int|
            0 <= i < self.req_letters@.len() ==> word.contains(#[trigger] self.req_letters@[i])
        &&& forall|i: int|
            0 <= i < self.cand_letters@.len() ==> (#[trigger] self.cand_letters@[i]).admits(word)
    }

    /// Whether this hint holds all of an earlier one, in the same order and
    /// before anything else.
    pub open spec fn extends(&self, earlier: &Hint) -> bool {
        &&& earlier.omit_letters@.is_prefix_of(self.omit_letters@)
        &&& earlier.req_letters@.is_prefix_of(self.req_letters@)
        &&& earlier.cand_letters@.is_prefix_of(self.cand_letters@)
    }

    /// The hint that knows nothing.
    pub fn new() -> (h: Hint)
        ensures
            h.omit_letters@.len() == 0,
            h.req_letters@.len() == 0,
            h.cand_letters@.len() == 0,
            h.well_formed(),
    {
        Hint { omit_letters: Vec::new(), req_letters: Vec::new(), cand_letters: Vec::new() }
    }

    /// Appends what a report has added. Nothing that was known is changed
    /// or taken back.
    pub fn absorb(&mut self, more: Hint)
        ensures
            final(self).omit_letters@ == old(self).omit_letters@ + more.omit_letters@,
            final(self).req_letters@ == old(self).req_letters@ + more.req_letters@,
            final(self).cand_letters@ == old(self).cand_letters@ + more.cand_letters@,
            final(self).extends(old(self)),
            old(self).well_formed() && more.well_formed() ==> final(self).well_formed(),
    {
        let mut more = more;
        self.omit_letters.append(&mut more.omit_letters);
        self.req_letters.append(&mut more.req_letters);
        self.cand_letters.append(&mut more.cand_letters);
    }

    /// Tests `well_formed`.
    pub fn is_well_formed(&self) -> (r: bool)
        ensures
            r == self.well_formed(),
    {
        let mut i: usize = 0;
        while i < self.cand_letters.len()
            invariant
                i <= self.cand_letters@.len(),
                forall|j: int| 0 <= j < i ==> (#[trigger] self.cand_letters@[j]).position < 5,
            decreases self.cand_letters@.len() - i,
        {
            if self.cand_letters[i].position >= 5 {
                return false;
            }
            i += 1;
        }
        true
    }
}

/// The words of a pool that a hint admits, in the pool's order.
pub open spec fn filtered(pool: Seq<Word>, hint: Hint) -> Seq<Word> {
    pool.filter(|w: Word| hint.admits(w@))
}

/// Whether a word agrees with a hint.
pub fn is_candidate(word: &Word, hint: &Hint) -> (r: bool)
    requires
        hint.well_formed(),
    ensures
        r == hint.admits(word@),
{
    broadcast use lemma_word_len;

    let mut i: usize = 0;
    while i < hint.omit_letters.len()
        invariant
            i <= hint.omit_letters@.len(),
            forall|j: int|
                0 <= j < i ==> !word@.contains(#[trigger] hint.omit_letters@[j]),
        decreases hint.omit_letters@.len() - i,
    {
        if word.contains(hint.omit_letters[i]) {
            return false;
        }
        i += 1;
    }
    let mut i: usize = 0;
    while i < hint.req_letters.len()
        invariant
            i <= hint.req_letters@.len(),
            forall|j: int| 0 <= j < i ==> word@.contains(#[trigger] hint.req_letters@[j]),
        decreases hint.req_letters@.len() - i,
    {
        if !word.contains(hint.req_letters[i]) {
            return false;
        }
        i += 1;
    }
    let mut i: usize = 0;
    while i < hint.cand_letters.len()
        invariant
            i <= hint.cand_letters@.len(),
            hint.well_formed(),
            forall|j: int| 0 <= j < i ==> (#[trigger] hint.cand_letters@[j]).admits(word@),
        decreases hint.cand_letters@.len() - i,
    {
        let cand = hint.cand_letters[i];
        if (word.letter(cand.position) == cand.letter) != cand.correct_location {
            return false;
        }
        i += 1;
    }
    true
}

/// Keeps the words that agree with a hint, in their order.
pub fn filter_pool(pool: &[Word], hint: &Hint) -> (r: Vec<Word>)
    requires
        hint.well_formed(),
    ensures
        r@ == filtered(pool@, *hint),
{
    let ghost keep = |w: Word| hint.admits(w@);
    let mut kept: Vec<Word> = Vec::new();
    let mut i: usize = 0;
    proof {
        reveal(Seq::filter);
        assert(pool@.take(0) =~= Seq::<Word>::empty());
    }
    while i < pool.len()
        invariant
            i <= pool@.len(),
            hint.well_formed(),
            keep == |w: Word| hint.admits(w@),
            kept@ == pool@.take(i as int).filter(keep),
        decreases pool@.len() - i,
    {
        proof {
            reveal(Seq::filter);
            assert(pool@.take(i + 1).drop_last() =~= pool@.take(i as int));
        }
        if is_candidate(&pool[i], hint) {
            kept.push(pool[i]);
        }
        i += 1;
    }
    assert(pool@.take(i as int) =~= pool@);
    kept
}

/// A hint that is extended admits no word that the earlier hint refused.
pub proof fn lemma_candidate_monotonic(word: Seq<char>, earlier: Hint, later: Hint)
    requires
        later.extends(&earlier),
        later.admits(word),
    ensures
        earlier.admits(word),
{
    assert forall|i: int| 0 <= i < earlier.omit_letters@.len() implies !word.contains(
        #[trigger] earlier.omit_letters@[i],
    ) by {
        assert(earlier.omit_letters@[i] == later.omit_letters@[i]);
    }
    assert forall|i: int| 0 <= i < earlier.req_letters@.len() implies word.contains(
        #[trigger] earlier.req_letters@[i],
    ) by {
        assert(earlier.req_letters@[i] == later.req_letters@[i]);
    }
    assert forall|i: int| 0 <= i < earlier.cand_letters@.len() implies (
    #[trigger] earlier.cand_letters@[i]).admits(word) by {
        assert(earlier.cand_letters@[i] == later.cand_letters@[i]);
    }
}

/// Filtering by `then` what was filtered by `first` gives what `then` alone
/// gives, where `then` admits only what `first` admits.
proof fn lemma_filter_twice<A>(s: Seq<A>, first: spec_fn(A) -> bool, then: spec_fn(A) -> bool)
    requires
        forall|a: A| #[trigger] then(a) ==> first(a),
    ensures
        s.filter(first).filter(then) == s.filter(then),
    decreases s.len(),
{
    reveal(Seq::filter);
    if s.len() > 0 {
        lemma_filter_twice(s.drop_last(), first, then);
        if first(s.last()) {
            assert(s.filter(first).drop_last() =~= s.drop_last().filter(first));
        }
    }
}

/// Filtering a filtered pool again by the same hint changes nothing.
pub proof fn lemma_filter_idempotent(pool: Seq<Word>, hint: Hint)
    ensures
        filtered(filtered(pool, hint), hint) == filtered(pool, hint),
{
    lemma_filter_twice(pool, |w: Word| hint.admits(w@), |w: Word| hint.admits(w@));
}

/// Narrowing a pool round by round loses nothing: the pool filtered by an
/// earlier hint and then by its extension is the pool filtered by the
/// extension.
pub proof fn lemma_narrowing_composes(pool: Seq<Word>, earlier: Hint, later: Hint)
    requires
        later.extends(&earlier),
    ensures
        filtered(filtered(pool, earlier), later) == filtered(pool, later),
{
    let first = |w: Word| earlier.admits(w@);
    let then = |w: Word| later.admits(w@);
    assert forall|w: Word| #[trigger] then(w) implies first(w) by {
        lemma_candidate_monotonic(w@, earlier, later);
    }
    lemma_filter_twice(pool, first, then);
}

} // verus!
