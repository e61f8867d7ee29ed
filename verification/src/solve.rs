//! The solver's session: reported feedback is read into the hint, and the
//! pool is narrowed and ranked round by round.

use crate::hint::{filtered, FoundLetter, Hint};
use crate::score::{ranks, suggest};
use crate::word::{lower, ParseError, Word};
use std::collections::BTreeMap;
use vstd::prelude::*;
use vstd::std_specs::iter::IteratorSpec;
use vstd::string::StrSliceExecFns;

verus! {

/// A character that marks the next lowercase letter as absent from the
/// answer.
pub open spec fn is_marker(c: char) -> bool {
    c == '!' || c == '`' || c == '\''
}

pub open spec fn is_lowercase_letter(c: char) -> bool {
    'a' <= c && c <= 'z'
}

pub open spec fn is_capital(c: char) -> bool {
    'A' <= c && c <= 'Z'
}

/// The characters that a line of feedback may hold.
pub open spec fn is_feedback_char(c: char) -> bool {
    is_marker(c) || is_lowercase_letter(c) || is_capital(c)
}

/// What has been read of a line of feedback.
pub struct Scan {
    /// The number of letters read so far: the position in the guess of the
    /// next letter.
    pub position: nat,
    /// Whether a marker is waiting for its lowercase letter.
    pub negate: bool,
    pub omit: Seq<char>,
    pub req: Seq<char>,
    pub cand: Seq<FoundLetter>,
}

/// Reading one more character. A marker waits for the next lowercase
/// letter, also across capitals; a second marker before that letter adds
/// nothing. A lowercase letter after a marker is absent from the answer;
/// any other lowercase letter is in the answer, but not at its position. A
/// capital is in the answer at its position, and is kept in lowercase.
/// Every letter takes up one position.
pub open spec fn scan_step(before: Scan, c: char) -> Scan {
    if is_marker(c) {
        Scan { negate: true, ..before }
    } else if is_lowercase_letter(c) {
        if before.negate {
            Scan {
                position: before.position + 1,
                negate: false,
                omit: before.omit.push(c),
                ..before
            }
        } else {
            Scan {
                position: before.position + 1,
                req: before.req.push(c),
                cand: before.cand.push(
                    FoundLetter {
                        letter: c,
                        position: before.position as usize,
                        correct_location: false,
                    },
                ),
                ..before
            }
        }
    } else if is_capital(c) {
        Scan {
            position: before.position + 1,
            req: before.req.push(lower(c)),
            cand: before.cand.push(
                FoundLetter {
                    letter: lower(c),
                    position: before.position as usize,
                    correct_location: true,
                },
            ),
            ..before
        }
    } else {
        before
    }
}

/// Reading a line of feedback from left to right.
pub open spec fn scan(line: Seq<char>) -> Scan
    decreases line.len(),
{
    if line.len() == 0 {
        Scan { position: 0, negate: false, omit: seq![], req: seq![], cand: seq![] }
    } else {
        scan_step(scan(line.drop_last()), line.last())
    }
}

/// Why a line of feedback is refused: it holds a character that is neither
/// a letter of `a` to `z` or `A` to `Z` nor a marker.
#[derive(Clone, Copy, Debug, PartialEq, Eq, Structural)]
pub struct InvalidFeedbackSyntax {
    /// Where the first such character stands in the line, counted in
    /// characters from 0.
    pub index: usize,
    pub found: char,
}

/// Whether `e` reports the first character of a line that feedback may not
/// hold.
pub open spec fn first_invalid(line: Seq<char>, e: InvalidFeedbackSyntax) -> bool {
    &&& e.index < line.len()
    &&& e.found == line[e.index as int]
    &&& !is_feedback_char(e.found)
    &&& forall|i: int| 0 <= i < e.index ==> is_feedback_char(#[trigger] line[i])
}

/// Whether every character of a line may stand in feedback.
pub open spec fn is_feedback(line: Seq<char>) -> bool {
    forall|i: int| 0 <= i < line.len() ==> is_feedback_char(#[trigger] line[i])
}

/// A line holds no more letters than characters, and every observation
/// that is read from it points at one of its letters.
pub proof fn lemma_scan_positions(line: Seq<char>)
    requires
        line.len() <= usize::MAX,
    ensures
        scan(line).position <= line.len(),
        forall|i: int|
            0 <= i < scan(line).cand.len() ==> (#[trigger] scan(line).cand[i]).position < scan(
                line,
            ).position,
    decreases line.len(),
{
    if line.len() > 0 {
        lemma_scan_positions(line.drop_last());
    }
}

/// Reads one line of feedback on a guess. What it returns holds what the
/// line adds to a hint, and nothing else.
pub fn parse_feedback(line: &str) -> (r: Result<Hint, InvalidFeedbackSyntax>)
    ensures
        match r {
            Ok(found) => {
                &&& is_feedback(line@)
                &&& found.omit_letters@ == scan(line@).omit
                &&& found.req_letters@ == scan(line@).req
                &&& found.cand_letters@ == scan(line@).cand
                &&& scan(line@).position <= 5 ==> found.well_formed()
            },
            Err(e) => first_invalid(line@, e),
        },
{
    let length = line.unicode_len();
    let mut found = Hint::new();
    let mut position: usize = 0;
    let mut negate_next = false;
    let mut index: usize = 0;
    let iter = line.chars();
    let ghost text = iter.remaining();
    assert(text == line@);
    assert(found.omit_letters@ =~= scan(text.take(0)).omit);
    assert(found.req_letters@ =~= scan(text.take(0)).req);
    assert(found.cand_letters@ =~= scan(text.take(0)).cand);
    for c in it: iter
        invariant
            it.seq() == text,
            text == line@,
            length == text.len(),
            index == it.index(),
            position == scan(text.take(it.index())).position,
            negate_next == scan(text.take(it.index())).negate,
            found.omit_letters@ == scan(text.take(it.index())).omit,
            found.req_letters@ == scan(text.take(it.index())).req,
            found.cand_letters@ == scan(text.take(it.index())).cand,
            forall|i: int| 0 <= i < it.index() ==> is_feedback_char(#[trigger] text[i]),
    {
        let ghost at = it.index();
        proof {
            assert(text.take(at + 1).drop_last() =~= text.take(at));
            lemma_scan_positions(text.take(at));
        }
        if c == '!' || c == '`' || c == '\'' {
            negate_next = true;
        } else if 'a' <= c && c <= 'z' {
            if negate_next {
                found.omit_letters.push(c);
                negate_next = false;
            } else {
                found.req_letters.push(c);
                found.cand_letters.push(
                    FoundLetter { letter: c, position, correct_location: false },
                );
            }
            position += 1;
        } else if 'A' <= c && c <= 'Z' {
            let letter = c.to_ascii_lowercase();
            found.req_letters.push(letter);
            found.cand_letters.push(FoundLetter { letter, position, correct_location: true });
            position += 1;
        } else {
            return Err(InvalidFeedbackSyntax { index, found: c });
        }
        index += 1;
    }
    proof {
        assert(text.take(text.len() as int) =~= text);
        lemma_scan_positions(text);
    }
    Ok(found)
}

/// The texts that a pool is made of: the primary list, and after it the
/// extra list where more words are asked for.
pub open spec fn listed(primary: Seq<String>, extra: Seq<String>, more_words: bool) -> Seq<
    String,
> {
    if more_words {
        primary + extra
    } else {
        primary
    }
}

/// Whether `pool` holds the words that the texts parse to, in their order.
pub open spec fn parses_to(texts: Seq<String>, pool: Seq<Word>) -> bool {
    &&& pool.len() == texts.len()
    &&& forall|i: int|
        0 <= i < texts.len() ==> Word::parsed((#[trigger] texts[i])@) == Ok::<Word, ParseError>(
            pool[i],
        )
}

/// Whether `e` is why the first text that is no word is none.
pub open spec fn first_failure(texts: Seq<String>, e: ParseError) -> bool {
    exists|i: int|
        {
            &&& 0 <= i < texts.len()
            &&& Word::parsed((#[trigger] texts[i])@) == Err::<Word, ParseError>(e)
            &&& forall|j: int| 0 <= j < i ==> Word::parsed((#[trigger] texts[j])@) is Ok
        }
}

/// Appends the words that the texts parse to, up to the first text that
/// is no word. `done` is the texts that the pool was made of before.
fn parse_onto(
    pool: &mut Vec<Word>,
    texts: &Vec<String>,
    Ghost(done): Ghost<Seq<String>>,
) -> (r: Result<(), ParseError>)
    requires
        parses_to(done, old(pool)@),
    ensures
        match r {
            Ok(_) => parses_to(done + texts@, final(pool)@),
            Err(e) => first_failure(done + texts@, e),
        },
{
    let mut i: usize = 0;
    assert(done + texts@.take(0) =~= done);
    while i < texts.len()
        invariant
            i <= texts@.len(),
            parses_to(done + texts@.take(i as int), pool@),
        decreases texts@.len() - i,
    {
        let ghost so_far = done + texts@.take(i as int);
        match Word::parse(texts[i].as_str()) {
            Ok(word) => {
                pool.push(word);
            },
            Err(e) => {
                proof {
                    let all = done + texts@;
                    let at = done.len() + i;
                    assert(all[at] == texts@[i as int]);
                    assert forall|j: int| 0 <= j < at implies Word::parsed(
                        (#[trigger] all[j])@,
                    ) is Ok by {
                        assert(all[j] == so_far[j]);
                    }
                }
                return Err(e);
            },
        }
        proof {
            let next = done + texts@.take(i + 1);
            assert(next =~= so_far.push(texts@[i as int]));
            assert forall|j: int| 0 <= j < next.len() implies Word::parsed(
                (#[trigger] next[j])@,
            ) == Ok::<Word, ParseError>(pool@[j]) by {
                if j < so_far.len() {
                    assert(next[j] == so_far[j]);
                }
            }
        }
        i += 1;
    }
    assert(texts@.take(i as int) =~= texts@);
    Ok(())
}

/// Makes the pool that a session starts from: every text of the primary
/// list as a word, and after them those of the extra list where more words
/// are asked for. No text is left out and none is taken for another, also
/// where a word is listed twice. The first text that is no word ends it.
pub fn word_pool(primary: &Vec<String>, extra: &Vec<String>, more_words: bool) -> (r: Result<
    Vec<Word>,
    ParseError,
>)
    ensures
        match r {
            Ok(pool) => parses_to(listed(primary@, extra@, more_words), pool@),
            Err(e) => first_failure(listed(primary@, extra@, more_words), e),
        },
{
    let mut pool: Vec<Word> = Vec::new();
    let ghost none = Seq::<String>::empty();
    match parse_onto(&mut pool, primary, Ghost(none)) {
        Ok(_) => {},
        Err(e) => {
            proof {
                assert(none + primary@ =~= primary@);
                if more_words {
                    lemma_failure_stays(primary@, extra@, e);
                }
            }
            return Err(e);
        },
    }
    assert(none + primary@ =~= primary@);
    if more_words {
        match parse_onto(&mut pool, extra, Ghost(primary@)) {
            Ok(_) => {},
            Err(e) => {
                return Err(e);
            },
        }
    }
    Ok(pool)
}

proof fn lemma_failure_stays(texts: Seq<String>, more: Seq<String>, e: ParseError)
    requires
        first_failure(texts, e),
    ensures
        first_failure(texts + more, e),
{
    let i = choose|i: int|
        {
            &&& 0 <= i < texts.len()
            &&& Word::parsed((#[trigger] texts[i])@) == Err::<Word, ParseError>(e)
            &&& forall|j: int| 0 <= j < i ==> Word::parsed((#[trigger] texts[j])@) is Ok
        };
    let all = texts + more;
    assert(all[i] == texts[i]);
    assert forall|j: int| 0 <= j < i implies Word::parsed((#[trigger] all[j])@) is Ok by {
        assert(all[j] == texts[j]);
    }
}

/// A solving session: what is known of the answer, and the words that are
/// still in question.
#[derive(Debug)]
pub struct Solver {
    pub hint: Hint,
    pub pool: Vec<Word>,
}

impl Solver {
    /// A session that knows nothing yet, over a pool of words.
    pub fn new(pool: Vec<Word>) -> (s: Solver)
        ensures
            s.pool@ == pool@,
            s.hint.omit_letters@.len() == 0,
            s.hint.req_letters@.len() == 0,
            s.hint.cand_letters@.len() == 0,
            s.hint.well_formed(),
    {
        Solver { hint: Hint::new(), pool }
    }

    /// The first half of a round: the pool is narrowed to the words that
    /// the hint admits, and these are ranked. The hint stays as it is.
    pub fn advise(&mut self) -> (groups: BTreeMap<u128, Vec<Word>>)
        requires
            old(self).hint.well_formed(),
        ensures
            final(self).hint == old(self).hint,
            final(self).pool@ == filtered(old(self).pool@, old(self).hint),
            ranks(groups@, final(self).pool@, final(self).pool@),
    {
        let (kept, groups) = suggest(&self.hint, self.pool.as_slice());
        self.pool = kept;
        groups
    }

    /// The second half of a round: a line of feedback is read into the
    /// hint. A line that is refused changes nothing. The pool stays as it
    /// is either way.
    pub fn report(&mut self, line: &str) -> (r: Result<(), InvalidFeedbackSyntax>)
        ensures
            final(self).pool == old(self).pool,
            match r {
                Ok(_) => {
                    &&& is_feedback(line@)
                    &&& final(self).hint.omit_letters@ == old(self).hint.omit_letters@ + scan(
                        line@,
                    ).omit
                    &&& final(self).hint.req_letters@ == old(self).hint.req_letters@ + scan(
                        line@,
                    ).req
                    &&& final(self).hint.cand_letters@ == old(self).hint.cand_letters@ + scan(
                        line@,
                    ).cand
                    &&& final(self).hint.extends(&old(self).hint)
                    &&& old(self).hint.well_formed() && scan(line@).position <= 5
                        ==> final(self).hint.well_formed()
                },
                Err(e) => first_invalid(line@, e) && final(self).hint == old(self).hint,
            },
    {
        match parse_feedback(line) {
            Ok(found) => {
                self.hint.absorb(found);
                Ok(())
            },
            Err(e) => Err(e),
        }
    }
}

} // verus!
