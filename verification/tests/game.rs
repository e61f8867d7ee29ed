use wordle_engine::guess::GuessLetter;
use wordle_engine::play::{
    pick_answer, play, play_step, random_answer, Game, PlayError, PlayState, Turn, MAX_GUESSES,
};
use wordle_engine::word::{ParseError, Word};

fn word(text: &str) -> Word {
    Word::parse(text).unwrap()
}

fn texts(list: &[&str]) -> Vec<String> {
    list.iter().map(|t| t.to_string()).collect()
}

#[test]
fn six_misses_lose_and_the_answer_is_revealed() {
    let mut game = Game::new(word("zebra"));
    assert_eq!(game.state, PlayState::AwaitGuess { round: 1 });
    let guesses = ["crane", "blast", "cloud", "couch", "chest", "dimly"];
    for (i, guess) in guesses.iter().enumerate() {
        assert_eq!(game.state, PlayState::AwaitGuess { round: i + 1 });
        let turn = game.guess(guess);
        assert!(matches!(turn, Turn::Missed(_)));
        assert_eq!(game.log.len(), i + 1);
    }
    assert_eq!(game.state, PlayState::Lost);
    assert_eq!(game.answer.to_string(), "zebra");
    assert_eq!(play(word("zebra"), &texts(&guesses)), Err(PlayError::OutOfGuesses));
}

#[test]
fn the_answer_wins_in_its_round() {
    let mut game = Game::new(word("zebra"));
    assert!(matches!(game.guess("crane"), Turn::Missed(_)));
    assert!(matches!(game.guess("blast"), Turn::Missed(_)));
    assert!(matches!(game.guess("ZEBRA"), Turn::Correct));
    assert_eq!(game.state, PlayState::Won { guesses: 3 });
    assert_eq!(game.log.len(), 2);
    assert_eq!(play(word("zebra"), &texts(&["crane", "blast", "zebra"])), Ok(3));
    assert_eq!(play(word("zebra"), &texts(&["zebra"])), Ok(1));
}

#[test]
fn the_last_round_can_still_win() {
    let lines = texts(&["crane", "blast", "cloud", "couch", "chest", "zebra", "dimly"]);
    assert_eq!(play(word("zebra"), &lines), Ok(6));
    assert_eq!(MAX_GUESSES, 6);
}

#[test]
fn a_line_that_is_no_word_uses_no_round() {
    let mut game = Game::new(word("zebra"));
    match game.guess("zebr") {
        Turn::Invalid(e) => assert_eq!(e, ParseError { found: 4 }),
        other => panic!("{:?}", other),
    }
    assert_eq!(game.state, PlayState::AwaitGuess { round: 1 });
    assert!(game.log.is_empty());
    assert!(matches!(game.guess(""), Turn::Invalid(_)));
    assert!(matches!(game.guess("zebras"), Turn::Invalid(_)));
    assert_eq!(game.state, PlayState::AwaitGuess { round: 1 });
    let lines = texts(&["", "nope", "crane", "toolong", "zebra"]);
    assert_eq!(play(word("zebra"), &lines), Ok(2));
}

#[test]
fn a_finished_game_stays_finished() {
    let mut game = Game::new(word("zebra"));
    assert!(matches!(game.guess("zebra"), Turn::Correct));
    assert!(matches!(game.guess("crane"), Turn::Over));
    assert!(matches!(game.guess("zebra"), Turn::Over));
    assert!(matches!(game.guess("x"), Turn::Over));
    assert_eq!(game.state, PlayState::Won { guesses: 1 });
    assert!(game.log.is_empty());
    let (state, turn) = play_step(PlayState::Lost, word("zebra"), "zebra");
    assert_eq!(state, PlayState::Lost);
    assert!(matches!(turn, Turn::Over));
}

#[test]
fn a_script_that_ends_early_ends_the_game_unfinished() {
    assert_eq!(play(word("zebra"), &Vec::new()), Err(PlayError::InputEnded));
    let lines = texts(&["crane", "bad", "blast"]);
    assert_eq!(play(word("zebra"), &lines), Err(PlayError::InputEnded));
}

#[test]
fn lines_after_the_end_are_not_read() {
    let lines = texts(&["crane", "blast", "cloud", "couch", "chest", "dimly", "zebra"]);
    assert_eq!(play(word("zebra"), &lines), Err(PlayError::OutOfGuesses));
    let lines = texts(&["zebra", "crane", "blast", "cloud", "couch", "chest", "dimly"]);
    assert_eq!(play(word("zebra"), &lines), Ok(1));
}

#[test]
fn a_miss_is_logged_with_its_verdicts() {
    let mut game = Game::new(word("bacfe"));
    let turn = game.guess("abcde");
    let expected = [
        GuessLetter::Present('a'),
        GuessLetter::Present('b'),
        GuessLetter::Correct('c'),
        GuessLetter::Incorrect('d'),
        GuessLetter::Correct('e'),
    ];
    match turn {
        Turn::Missed(result) => assert_eq!(result.0, expected),
        other => panic!("{:?}", other),
    }
    assert_eq!(game.log.len(), 1);
    assert_eq!(game.log[0].0, expected);
    assert_eq!(game.state, PlayState::AwaitGuess { round: 2 });
}

#[test]
fn a_step_advances_the_round() {
    let (state, turn) = play_step(PlayState::AwaitGuess { round: 5 }, word("zebra"), "crane");
    assert_eq!(state, PlayState::AwaitGuess { round: 6 });
    assert!(matches!(turn, Turn::Missed(_)));
    let (state, _) = play_step(PlayState::AwaitGuess { round: 6 }, word("zebra"), "crane");
    assert_eq!(state, PlayState::Lost);
    let (state, turn) = play_step(PlayState::AwaitGuess { round: 6 }, word("zebra"), "zebra");
    assert_eq!(state, PlayState::Won { guesses: 6 });
    assert!(matches!(turn, Turn::Correct));
}

#[test]
fn a_draw_picks_by_its_remainder() {
    let list = texts(&["crane", "BLAST", "cloud"]);
    assert_eq!(pick_answer(&list, 0), Ok(word("crane")));
    assert_eq!(pick_answer(&list, 1), Ok(word("blast")));
    assert_eq!(pick_answer(&list, 2), Ok(word("cloud")));
    assert_eq!(pick_answer(&list, 3), Ok(word("crane")));
    assert_eq!(pick_answer(&list, 3001), Ok(word("blast")));
    assert_eq!(pick_answer(&list, usize::MAX), pick_answer(&list, usize::MAX % 3));
    let list = texts(&["crane", "no"]);
    assert_eq!(pick_answer(&list, 1), Err(ParseError { found: 2 }));
}

#[test]
fn a_random_answer_is_one_of_the_list() {
    let list = texts(&["crane", "blast", "cloud", "couch"]);
    let pool: Vec<Word> = list.iter().map(|t| word(t)).collect();
    let mut seen = Vec::new();
    for _ in 0..200 {
        let answer = random_answer(&list).unwrap();
        assert!(pool.contains(&answer));
        if !seen.contains(&answer) {
            seen.push(answer);
        }
    }
    assert!(seen.len() > 1);
    assert_eq!(random_answer(&vec!["Zebra".to_string()]), Ok(word("zebra")));
}
