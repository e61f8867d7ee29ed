//! The game: a secret answer, six rounds, and a verdict on every guess.

use crate::guess::{evaluation, guess_word, GuessResult};
use crate::word::{lemma_word_ext, ParseError, Word};
use vstd::prelude::*;

verus! {

/// The number of guesses that a player has.
pub const MAX_GUESSES: usize = 6;

/// Where a game stands.
#[derive(Clone, Copy, Debug, PartialEq, Eq, Structural)]
pub enum PlayState {
    /// The game waits for the guess of a round. Rounds are counted from 1.
    AwaitGuess { round: usize },
    /// The answer was found with this many guesses.
    Won { guesses: usize },
    /// The last round went by without the answer.
    Lost,
}

/// What a line of input did to a game.
#[derive(Clone, Copy, Debug)]
pub enum Turn {
    /// The line is no word. The round is not used up: ask again.
    Invalid(ParseError),
    /// The guess is the answer.
    Correct,
    /// The guess is a word other than the answer, with these verdicts.
    Missed(GuessResult),
    /// The game was over before the line came.
    Over,
}

/// The state that a game starts in.
pub open spec fn start() -> PlayState {
    PlayState::AwaitGuess { round: 1 }
}

/// The state after a line of input. A game that is won or lost stays so. A
/// line that is no word changes nothing. The answer wins in the round in
/// which it is guessed. Any other word uses up the round, and the last
/// round ends the game.
pub open spec fn next_state(state: PlayState, answer: Word, line: Seq<char>) -> PlayState {
    match state {
        PlayState::AwaitGuess { round } => match Word::parsed(line) {
            Err(_) => state,
            Ok(guess) => if guess == answer {
                PlayState::Won { guesses: round }
            } else if round < MAX_GUESSES {
                PlayState::AwaitGuess { round: (round + 1) as usize }
            } else {
                PlayState::Lost
            },
        },
        _ => state,
    }
}

/// Whether `turn` says what a line of input did in a state.
pub open spec fn describes(turn: Turn, state: PlayState, answer: Word, line: Seq<char>) -> bool {
    match turn {
        Turn::Invalid(e) => state is AwaitGuess && Word::parsed(line) == Err::<Word, ParseError>(e),
        Turn::Correct => state is AwaitGuess && Word::parsed(line) == Ok::<Word, ParseError>(
            answer,
        ),
        Turn::Missed(result) => {
            &&& state is AwaitGuess
            &&& Word::parsed(line) is Ok
            &&& Word::parsed(line).unwrap() != answer
            &&& result@ == evaluation(Word::parsed(line).unwrap()@, answer@)
        },
        Turn::Over => !(state is AwaitGuess),
    }
}

/// One step of a game: the state after a line of input, and what the line
/// did.
pub fn play_step(state: PlayState, answer: Word, line: &str) -> (r: (PlayState, Turn))
    ensures
        r.0 == next_state(state, answer, line@),
        describes(r.1, state, answer, line@),
{
    broadcast use lemma_word_ext;

    match state {
        PlayState::AwaitGuess { round } => match Word::parse(line) {
            Err(e) => (state, Turn::Invalid(e)),
            Ok(guess) => {
                if guess == answer {
                    (PlayState::Won { guesses: round }, Turn::Correct)
                } else {
                    let result = guess_word(guess, answer);
                    if round < MAX_GUESSES {
                        (PlayState::AwaitGuess { round: round + 1 }, Turn::Missed(result))
                    } else {
                        (PlayState::Lost, Turn::Missed(result))
                    }
                }
            },
        },
        _ => (state, Turn::Over),
    }
}

/// A game in progress: the answer, the state, and the verdicts on the
/// guesses that missed, in the order of the rounds.
#[derive(Debug)]
pub struct Game {
    pub answer: Word,
    pub state: PlayState,
    pub log: Vec<GuessResult>,
}

impl Game {
    /// The log holds one entry for each round that went by.
    pub open spec fn well_formed(&self) -> bool {
        match self.state {
            PlayState::AwaitGuess { round } => 1 <= round <= MAX_GUESSES && self.log@.len()
                == round - 1,
            PlayState::Won { guesses } => 1 <= guesses <= MAX_GUESSES && self.log@.len()
                == guesses - 1,
            PlayState::Lost => self.log@.len() == MAX_GUESSES,
        }
    }

    /// A game that waits for the first guess.
    pub fn new(answer: Word) -> (game: Game)
        ensures
            game.answer == answer,
            game.state == start(),
            game.log@.len() == 0,
            game.well_formed(),
    {
        Game { answer, state: PlayState::AwaitGuess { round: 1 }, log: Vec::new() }
    }

    /// Takes a line of input. A guess that misses is added to the log;
    /// nothing else changes the log.
    pub fn guess(&mut self, line: &str) -> (turn: Turn)
        ensures
            final(self).answer == old(self).answer,
            final(self).state == next_state(old(self).state, old(self).answer, line@),
            describes(turn, old(self).state, old(self).answer, line@),
            match turn {
                Turn::Missed(result) => final(self).log@ == old(self).log@.push(result),
                _ => final(self).log@ == old(self).log@,
            },
            old(self).well_formed() ==> final(self).well_formed(),
    {
        let (state, turn) = play_step(self.state, self.answer, line);
        self.state = state;
        if let Turn::Missed(result) = turn {
            self.log.push(result);
        }
        turn
    }
}

/// The state of a game after the lines of a script, fed in from the first.
pub open spec fn run(state: PlayState, answer: Word, lines: Seq<String>) -> PlayState
    decreases lines.len(),
{
    if lines.len() == 0 {
        state
    } else {
        next_state(run(state, answer, lines.drop_last()), answer, lines.last()@)
    }
}

/// Why a game ended without the answer.
#[derive(Clone, Copy, Debug, PartialEq, Eq, Structural)]
pub enum PlayError {
    /// The last round went by.
    OutOfGuesses,
    /// The input ended while the game waited for a guess.
    InputEnded,
}

/// What a game has come to when no more input comes: the number of guesses
/// that found the answer, or why it was not found.
pub open spec fn outcome(state: PlayState) -> Result<usize, PlayError> {
    match state {
        PlayState::Won { guesses } => Ok(guesses),
        PlayState::Lost => Err(PlayError::OutOfGuesses),
        PlayState::AwaitGuess { .. } => Err(PlayError::InputEnded),
    }
}

/// Whether a line is a guess that misses: a word other than the answer.
pub open spec fn is_miss(answer: Word, line: Seq<char>) -> bool {
    Word::parsed(line) is Ok && Word::parsed(line).unwrap() != answer
}

/// The number of lines of a script that are guesses that miss.
pub open spec fn misses(answer: Word, lines: Seq<String>) -> nat {
    lines.filter(|line: String| is_miss(answer, line@)).len()
}

/// Whether no line of a script is the answer.
pub open spec fn never_hits(answer: Word, lines: Seq<String>) -> bool {
    forall|i: int|
        0 <= i < lines.len() ==> Word::parsed((#[trigger] lines[i])@) != Ok::<Word, ParseError>(
            answer,
        )
}

/// A game that is won or lost stays as it is, whatever comes.
pub proof fn lemma_over_stays(state: PlayState, answer: Word, lines: Seq<String>)
    requires
        !(state is AwaitGuess),
    ensures
        run(state, answer, lines) == state,
    decreases lines.len(),
{
    if lines.len() > 0 {
        lemma_over_stays(state, answer, lines.drop_last());
    }
}

/// Feeding a script in two parts is feeding it whole.
pub proof fn lemma_run_split(state: PlayState, answer: Word, lines: Seq<String>, k: int)
    requires
        0 <= k <= lines.len(),
    ensures
        run(state, answer, lines) == run(
            run(state, answer, lines.take(k)),
            answer,
            lines.skip(k),
        ),
    decreases lines.len(),
{
    if k == lines.len() {
        assert(lines.take(k) =~= lines);
        assert(lines.skip(k) =~= Seq::<String>::empty());
    } else {
        lemma_run_split(state, answer, lines.drop_last(), k);
        assert(lines.drop_last().take(k) =~= lines.take(k));
        assert(lines.drop_last().skip(k) =~= lines.skip(k).drop_last());
    }
}

/// A script that never holds the answer loses with its sixth guess that is
/// a word, and not before: until then the game waits for the guess of the
/// round after the last miss. Lines that are no words change nothing.
pub proof fn lemma_misses_decide(answer: Word, lines: Seq<String>)
    requires
        never_hits(answer, lines),
    ensures
        run(start(), answer, lines) == if misses(answer, lines) >= MAX_GUESSES {
            PlayState::Lost
        } else {
            PlayState::AwaitGuess { round: (misses(answer, lines) + 1) as usize }
        },
    decreases lines.len(),
{
    reveal(Seq::filter);
    if lines.len() > 0 {
        let before = lines.drop_last();
        assert forall|i: int| 0 <= i < before.len() implies Word::parsed(
            (#[trigger] before[i])@,
        ) != Ok::<Word, ParseError>(answer) by {
            assert(before[i] == lines[i]);
        }
        lemma_misses_decide(answer, before);
        assert(Word::parsed(lines[lines.len() - 1]@) != Ok::<Word, ParseError>(answer));
    }
}

/// Plays a game from a script: the lines are taken as the guesses, from the
/// first, until the game is over or the script ends.
pub fn play(answer: Word, lines: &Vec<String>) -> (r: Result<usize, PlayError>)
    ensures
        r == outcome(run(start(), answer, lines@)),
{
    let mut state = PlayState::AwaitGuess { round: 1 };
    let mut i: usize = 0;
    assert(lines@.take(0) =~= Seq::<String>::empty());
    assert(lines@.len() == 0 ==> lines@ =~= Seq::<String>::empty());
    while i < lines.len()
        invariant_except_break
            i <= lines@.len(),
            state == run(start(), answer, lines@.take(i as int)),
            i == lines@.len() ==> state == run(start(), answer, lines@),
        ensures
            state == run(start(), answer, lines@),
        decreases lines@.len() - i,
    {
        proof {
            assert(lines@.take(i + 1).drop_last() =~= lines@.take(i as int));
            if i + 1 == lines@.len() {
                assert(lines@.take(i + 1) =~= lines@);
            }
        }
        let (next, _turn) = play_step(state, answer, lines[i].as_str());
        state = next;
        i += 1;
        match state {
            PlayState::AwaitGuess { .. } => {},
            _ => {
                proof {
                    lemma_run_split(start(), answer, lines@, i as int);
                    lemma_over_stays(state, answer, lines@.skip(i as int));
                }
                break ;
            },
        }
    }
    match state {
        PlayState::Won { guesses } => Ok(guesses),
        PlayState::Lost => Err(PlayError::OutOfGuesses),
        PlayState::AwaitGuess { .. } => Err(PlayError::InputEnded),
    }
}

/// `rand::random` draws a number from the thread's generator. Any `usize`
/// may come, and two draws need not agree.
#[verifier::external_body]
fn random_draw() -> usize {
    rand::random::<usize>()
}

/// The answer that a draw picks from a list: the text at the draw's
/// remainder by the length of the list, as a word.
pub fn pick_answer(words: &Vec<String>, draw: usize) -> (r: Result<Word, ParseError>)
    requires
        words@.len() > 0,
    ensures
        r == Word::parsed(words@[(draw as int) % (words@.len() as int)]@),
{
    Word::parse(words[draw % words.len()].as_str())
}

/// Draws an answer from a list at random.
pub fn random_answer(words: &Vec<String>) -> (r: Result<Word, ParseError>)
    requires
        words@.len() > 0,
    ensures
        exists|i: int| 0 <= i < words@.len() && r == Word::parsed((#[trigger] words@[i])@),
{
    pick_answer(words, random_draw())
}

} // verus!
