//! The verdict on a guess, letter by letter.

use crate::paint::{ansi_background, ansi_foreground, background, foreground, Paint};
use crate::word::{lemma_word_len, upper, Word};
use vstd::prelude::*;
use vstd::string::StringExecFns;

verus! {

/// What one letter of a guess is worth against the answer.
#[derive(Clone, Copy, Debug, PartialEq, Eq, Structural)]
pub enum GuessLetter {
    /// No verdict yet.
    Empty,
    /// The answer has this letter at this position.
    Correct(char),
    /// The answer has this letter, at another position.
    Present(char),
    /// The answer does not have this letter.
    Incorrect(char),
}

/// The five verdicts on one guess, one for each position.
#[derive(Clone, Copy, Debug)]
pub struct GuessResult(pub [GuessLetter; 5]);

impl View for GuessResult {
    type V = Seq<GuessLetter>;

    open spec fn view(&self) -> Seq<GuessLetter> {
        self.0@
    }
}

impl GuessLetter {
    /// The colours in which a verdict is shown, the background first:
    /// black on green for `Correct`, black on yellow for `Present`, bright
    /// white on grey for `Incorrect`. `Empty` has none.
    pub open spec fn colours(self) -> Option<(Paint, Paint)> {
        match self {
            GuessLetter::Empty => None,
            GuessLetter::Correct(_) => Some((Paint::Green, Paint::Black)),
            GuessLetter::Present(_) => Some((Paint::Yellow, Paint::Black)),
            GuessLetter::Incorrect(_) => Some((Paint::BrightBlack, Paint::BrightWhite)),
        }
    }

    /// The character in which a verdict is shown: the guessed letter as a
    /// capital, or a blank for `Empty`.
    pub open spec fn face(self) -> char {
        match self {
            GuessLetter::Empty => ' ',
            GuessLetter::Correct(c) => upper(c),
            GuessLetter::Present(c) => upper(c),
            GuessLetter::Incorrect(c) => upper(c),
        }
    }

    /// A verdict as it is shown: its colours are set, where it has any,
    /// then comes its face, and then the colours are set back to white on
    /// black.
    pub open spec fn rendered(self) -> Seq<char> {
        let colours = match self.colours() {
            Some((back, fore)) => background(back) + foreground(fore),
            None => Seq::<char>::empty(),
        };
        colours + seq![self.face()] + background(Paint::Black) + foreground(Paint::White)
    }

    /// The verdict as text for a terminal.
    pub fn to_string(&self) -> (s: String)
        ensures
            s@ == self.rendered(),
    {
        let mut s = String::new();
        let shown = match *self {
            GuessLetter::Empty => None,
            GuessLetter::Correct(c) => Some((Paint::Green, Paint::Black, c)),
            GuessLetter::Present(c) => Some((Paint::Yellow, Paint::Black, c)),
            GuessLetter::Incorrect(c) => Some((Paint::BrightBlack, Paint::BrightWhite, c)),
        };
        match shown {
            Some((back, fore, c)) => {
                s.append(ansi_background(back).as_str());
                s.append(ansi_foreground(fore).as_str());
                s.push(c.to_ascii_uppercase());
            },
            None => {
                s.push(' ');
            },
        }
        s.append(ansi_background(Paint::Black).as_str());
        s.append(ansi_foreground(Paint::White).as_str());
        assert(s@ =~= self.rendered());
        s
    }
}

/// The verdict on position `i` of a guess. Each position is judged against
/// the whole answer by itself: a letter that the guess repeats is `Present`
/// at every position where it is not `Correct`, however often the answer
/// holds it.
pub open spec fn verdict(guess: Seq<char>, answer: Seq<char>, i: int) -> GuessLetter {
    if guess[i] == answer[i] {
        GuessLetter::Correct(guess[i])
    } else if answer.contains(guess[i]) {
        GuessLetter::Present(guess[i])
    } else {
        GuessLetter::Incorrect(guess[i])
    }
}

/// The verdicts on all five positions of a guess.
pub open spec fn evaluation(guess: Seq<char>, answer: Seq<char>) -> Seq<GuessLetter> {
    Seq::new(5, |i: int| verdict(guess, answer, i))
}

/// Compares a guess with the answer.
pub fn guess_word(guess: Word, answer: Word) -> (r: GuessResult)
    ensures
        r@ == evaluation(guess@, answer@),
{
    broadcast use lemma_word_len;

    let mut result = [GuessLetter::Empty; 5];
    let mut pos: usize = 0;
    while pos < 5
        invariant
            pos <= 5,
            forall|j: int| 0 <= j < pos ==> result@[j] == verdict(guess@, answer@, j),
        decreases 5 - pos,
    {
        let guess_char = guess.letter(pos);
        result[pos] = if guess_char == answer.letter(pos) {
            GuessLetter::Correct(guess_char)
        } else if answer.contains(guess_char) {
            GuessLetter::Present(guess_char)
        } else {
            GuessLetter::Incorrect(guess_char)
        };
        pos += 1;
    }
    assert(result@ =~= evaluation(guess@, answer@));
    GuessResult(result)
}

/// Verdicts as they are shown in a row, one after another with nothing
/// between them.
pub open spec fn rendered_row(verdicts: Seq<GuessLetter>) -> Seq<char>
    decreases verdicts.len(),
{
    if verdicts.len() == 0 {
        Seq::<char>::empty()
    } else {
        rendered_row(verdicts.drop_last()) + verdicts.last().rendered()
    }
}

impl GuessResult {
    /// The five verdicts as text for a terminal.
    pub fn to_string(&self) -> (s: String)
        ensures
            s@ == rendered_row(self@),
    {
        let mut s = String::new();
        let mut i: usize = 0;
        assert(self@.take(0) =~= Seq::<GuessLetter>::empty());
        while i < 5
            invariant
                i <= 5,
                s@ == rendered_row(self@.take(i as int)),
            decreases 5 - i,
        {
            proof {
                assert(self@.take(i + 1).drop_last() =~= self@.take(i as int));
            }
            s.append(self.0[i].to_string().as_str());
            i += 1;
        }
        assert(self@.take(5) =~= self@);
        s
    }
}

/// A guess that is the answer is correct at every position.
pub proof fn lemma_exact_guess_all_correct(word: Seq<char>)
    ensures
        forall|i: int|
            0 <= i < 5 ==> #[trigger] evaluation(word, word)[i] == GuessLetter::Correct(word[i]),
{
}

} // verus!
