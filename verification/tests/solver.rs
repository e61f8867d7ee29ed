use std::collections::BTreeMap;
use wordle_engine::hint::{filter_pool, is_candidate, FoundLetter, Hint};
use wordle_engine::score::{
    letter_frequencies, rank, suggest, top_suggestions, word_score, SHOWN_GROUPS,
};
use wordle_engine::solve::{parse_feedback, word_pool, InvalidFeedbackSyntax, Solver};
use wordle_engine::word::{ParseError, Word};

fn word(text: &str) -> Word {
    Word::parse(text).unwrap()
}

fn words(texts: &[&str]) -> Vec<Word> {
    texts.iter().map(|t| word(t)).collect()
}

fn texts(list: &[&str]) -> Vec<String> {
    list.iter().map(|t| t.to_string()).collect()
}

fn shown(pool: &[Word]) -> Vec<String> {
    pool.iter().map(|w| w.to_string()).collect()
}

fn hint(omit: &str, req: &str, cand: &[(char, usize, bool)]) -> Hint {
    Hint {
        omit_letters: omit.chars().collect(),
        req_letters: req.chars().collect(),
        cand_letters: cand
            .iter()
            .map(|&(letter, position, correct_location)| FoundLetter {
                letter,
                position,
                correct_location,
            })
            .collect(),
    }
}

#[test]
fn the_empty_hint_admits_every_word() {
    let h = Hint::new();
    assert!(h.omit_letters.is_empty() && h.req_letters.is_empty() && h.cand_letters.is_empty());
    assert!(is_candidate(&word("crane"), &h));
    assert!(is_candidate(&word("zzzzz"), &h));
}

#[test]
fn omitted_letters_refuse_a_word() {
    let h = hint("xr", "", &[]);
    assert!(!is_candidate(&word("crane"), &h));
    assert!(is_candidate(&word("lousy"), &h));
    assert!(!is_candidate(&word("proxy"), &h));
}

#[test]
fn an_omitted_letter_may_be_listed_twice() {
    let h = hint("aa", "", &[]);
    assert!(!is_candidate(&word("crane"), &h));
    assert!(is_candidate(&word("lousy"), &h));
}

#[test]
fn required_letters_must_occur_once() {
    let h = hint("", "ee", &[]);
    assert!(is_candidate(&word("crane"), &h));
    assert!(is_candidate(&word("geese"), &h));
    assert!(!is_candidate(&word("lousy"), &h));
    let h = hint("", "ce", &[]);
    assert!(is_candidate(&word("crane"), &h));
    assert!(!is_candidate(&word("geese"), &h));
}

#[test]
fn located_letters_bind_their_position() {
    let h = hint("", "", &[('c', 0, true)]);
    assert!(is_candidate(&word("crane"), &h));
    assert!(!is_candidate(&word("ocean"), &h));
    let h = hint("", "", &[('c', 0, false)]);
    assert!(!is_candidate(&word("crane"), &h));
    assert!(is_candidate(&word("ocean"), &h));
    assert!(is_candidate(&word("lousy"), &h));
    let h = hint("", "", &[('e', 4, true), ('a', 2, true), ('r', 0, false)]);
    assert!(is_candidate(&word("crane"), &h));
    assert!(!is_candidate(&word("reads"), &h));
}

#[test]
fn all_three_lists_must_agree() {
    let h = hint("s", "a", &[('a', 1, false), ('e', 4, true)]);
    assert!(is_candidate(&word("crane"), &h));
    assert!(!is_candidate(&word("cause"), &h));
    assert!(!is_candidate(&word("eagle"), &h));
    assert!(!is_candidate(&word("chile"), &h));
    assert!(!is_candidate(&word("crank"), &h));
}

#[test]
fn well_formedness_is_tested() {
    assert!(Hint::new().is_well_formed());
    assert!(hint("", "", &[('a', 4, true), ('b', 0, false)]).is_well_formed());
    assert!(!hint("", "", &[('a', 4, true), ('b', 5, false)]).is_well_formed());
}

#[test]
fn a_longer_hint_admits_no_more() {
    let pool = words(&["crane", "blast", "cloud", "ocean", "geese", "lousy", "acorn"]);
    let stages = [
        hint("", "", &[]),
        hint("s", "", &[]),
        hint("s", "c", &[]),
        hint("s", "c", &[('c', 0, false)]),
        hint("sl", "co", &[('c', 0, false), ('o', 0, false)]),
    ];
    for pair in stages.windows(2) {
        for w in &pool {
            if is_candidate(w, &pair[1]) {
                assert!(is_candidate(w, &pair[0]));
            }
        }
    }
    assert_eq!(shown(&filter_pool(&pool, &stages[4])), ["acorn"]);
}

#[test]
fn filtering_keeps_the_order() {
    let pool = words(&["crane", "blast", "cloud", "ocean", "crane", "acorn"]);
    let h = hint("", "c", &[]);
    assert_eq!(
        shown(&filter_pool(&pool, &h)),
        ["crane", "cloud", "ocean", "crane", "acorn"]
    );
    assert!(filter_pool(&[], &h).is_empty());
}

#[test]
fn filtering_twice_is_filtering_once() {
    let pool = words(&["crane", "blast", "cloud", "ocean", "geese", "lousy", "acorn"]);
    let h = hint("g", "o", &[('o', 0, false), ('n', 4, true)]);
    let once = filter_pool(&pool, &h);
    let twice = filter_pool(&once, &h);
    assert_eq!(once, twice);
    assert_eq!(shown(&once), ["acorn"]);
}

#[test]
fn narrowing_in_rounds_is_narrowing_at_once() {
    let pool = words(&["crane", "blast", "cloud", "ocean", "geese", "lousy", "acorn"]);
    let early = hint("g", "o", &[]);
    let late = hint("gy", "oc", &[('c', 0, false)]);
    let in_rounds = filter_pool(&filter_pool(&pool, &early), &late);
    assert_eq!(in_rounds, filter_pool(&pool, &late));
    assert_eq!(shown(&in_rounds), ["ocean", "acorn"]);
}

#[test]
fn frequencies_count_every_occurrence() {
    let pool = words(&["sheet", "wheel"]);
    let freq = letter_frequencies(&pool);
    let mut expected = BTreeMap::new();
    for (letter, count) in [('s', 1), ('h', 2), ('e', 4), ('t', 1), ('w', 1), ('l', 1)] {
        expected.insert(letter as u32, count as u128);
    }
    assert_eq!(freq, expected);
    assert!(letter_frequencies(&[]).is_empty());
}

#[test]
fn a_repeated_letter_scores_once() {
    let pool = words(&["sheet", "wheel"]);
    let freq = letter_frequencies(&pool);
    assert_eq!(word_score(&word("sheet"), &freq), Some(8));
    assert_eq!(word_score(&word("wheel"), &freq), Some(8));
    assert_eq!(word_score(&word("eeeee"), &freq), Some(4));
    assert_eq!(word_score(&word("zzzzz"), &freq), Some(0));
    assert_eq!(word_score(&word("these"), &freq), Some(8));
}

#[test]
fn a_word_of_one_letter_scores_that_letter_once() {
    let pool = words(&["eeeee", "eeeee", "eeeee"]);
    let freq = letter_frequencies(&pool);
    assert_eq!(freq.get(&('e' as u32)), Some(&15));
    assert_eq!(word_score(&word("eeeee"), &freq), Some(15));
    let groups = rank(&pool);
    assert_eq!(groups.len(), 1);
    assert_eq!(shown(&groups[&15]), ["eeeee", "eeeee", "eeeee"]);
}

#[test]
fn a_score_beyond_the_range_is_none() {
    let mut freq = BTreeMap::new();
    freq.insert('a' as u32, u128::MAX);
    freq.insert('b' as u32, 1);
    assert_eq!(word_score(&word("aaaaa"), &freq), Some(u128::MAX));
    assert_eq!(word_score(&word("aabaa"), &freq), None);
}

#[test]
fn ranking_groups_by_score_in_pool_order() {
    let pool = words(&["abcde", "edcba", "aaaaa", "vwxyz", "zyxwv", "abcdz"]);
    let groups = rank(&pool);
    // a: 8, b: 3, c: 3, d: 3, e: 2, v: 2, w: 2, x: 2, y: 2, z: 3
    let scores: Vec<u128> = groups.keys().copied().collect();
    assert_eq!(scores, [8, 11, 19, 20]);
    assert_eq!(shown(&groups[&19]), ["abcde", "edcba"]);
    assert_eq!(shown(&groups[&8]), ["aaaaa"]);
    assert_eq!(shown(&groups[&11]), ["vwxyz", "zyxwv"]);
    assert_eq!(shown(&groups[&20]), ["abcdz"]);
    assert!(rank(&[]).is_empty());
}

#[test]
fn suggest_filters_and_ranks_what_is_left() {
    let pool = words(&["sheet", "crane", "wheel", "blast"]);
    let h = hint("a", "e", &[]);
    let (kept, groups) = suggest(&h, &pool);
    assert_eq!(shown(&kept), ["sheet", "wheel"]);
    assert_eq!(groups.len(), 1);
    assert_eq!(shown(&groups[&8]), ["sheet", "wheel"]);
}

#[test]
fn suggest_scores_among_the_words_that_are_left() {
    let pool = words(&["abcde", "abcdf", "zzzzz"]);
    let (kept, groups) = suggest(&hint("z", "", &[]), &pool);
    assert_eq!(shown(&kept), ["abcde", "abcdf"]);
    assert_eq!(shown(&groups[&9]), ["abcde", "abcdf"]);
    let (kept, groups) = suggest(&Hint::new(), &pool);
    assert_eq!(kept.len(), 3);
    assert_eq!(shown(&groups[&5]), ["zzzzz"]);
    assert_eq!(shown(&groups[&9]), ["abcde", "abcdf"]);
}

#[test]
fn the_top_groups_are_shown_lowest_first() {
    let mut groups: BTreeMap<u128, Vec<Word>> = BTreeMap::new();
    for score in 1..=12u128 {
        groups.insert(score * 3, vec![word("crane")]);
    }
    assert_eq!(SHOWN_GROUPS, 10);
    let rows = top_suggestions(&groups, SHOWN_GROUPS);
    let scores: Vec<u128> = rows.iter().map(|row| row.0).collect();
    assert_eq!(scores, [9, 12, 15, 18, 21, 24, 27, 30, 33, 36]);
    let rows = top_suggestions(&groups, 2);
    let scores: Vec<u128> = rows.iter().map(|row| row.0).collect();
    assert_eq!(scores, [33, 36]);
    assert!(top_suggestions(&groups, 0).is_empty());
}

#[test]
fn fewer_groups_than_the_limit_are_all_shown() {
    let pool = words(&["abcde", "edcba", "aaaaa", "vwxyz"]);
    let groups = rank(&pool);
    let rows = top_suggestions(&groups, SHOWN_GROUPS);
    // a: 7, b: 2, c: 2, d: 2, e: 2, v: 1, w: 1, x: 1, y: 1, z: 1
    assert_eq!(rows.len(), 3);
    assert_eq!(rows[0].0, 5);
    assert_eq!(shown(rows[0].1), ["vwxyz"]);
    assert_eq!(rows[1].0, 7);
    assert_eq!(shown(rows[1].1), ["aaaaa"]);
    assert_eq!(rows[2].0, 15);
    assert_eq!(shown(rows[2].1), ["abcde", "edcba"]);
    assert!(top_suggestions(&BTreeMap::new(), SHOWN_GROUPS).is_empty());
}

#[test]
fn feedback_is_read_letter_by_letter() {
    let found = parse_feedback("C!r!a!n!e").unwrap();
    assert_eq!(found.omit_letters, ['r', 'a', 'n', 'e']);
    assert_eq!(found.req_letters, ['c']);
    assert_eq!(
        found.cand_letters,
        [FoundLetter { letter: 'c', position: 0, correct_location: true }]
    );
}

#[test]
fn a_lowercase_letter_is_elsewhere_in_the_answer() {
    let found = parse_feedback("a!bCd").unwrap();
    assert_eq!(found.omit_letters, ['b']);
    assert_eq!(found.req_letters, ['a', 'c', 'd']);
    assert_eq!(
        found.cand_letters,
        [
            FoundLetter { letter: 'a', position: 0, correct_location: false },
            FoundLetter { letter: 'c', position: 2, correct_location: true },
            FoundLetter { letter: 'd', position: 3, correct_location: false },
        ]
    );
}

#[test]
fn every_marker_negates() {
    for line in ["!a", "`a", "'a", "!!a", "!`'a"] {
        let found = parse_feedback(line).unwrap();
        assert_eq!(found.omit_letters, ['a']);
        assert!(found.req_letters.is_empty());
        assert!(found.cand_letters.is_empty());
    }
}

#[test]
fn a_marker_waits_for_the_next_lowercase_letter() {
    let found = parse_feedback("!Ab").unwrap();
    assert_eq!(found.omit_letters, ['b']);
    assert_eq!(found.req_letters, ['a']);
    assert_eq!(
        found.cand_letters,
        [FoundLetter { letter: 'a', position: 0, correct_location: true }]
    );
    let found = parse_feedback("!ab").unwrap();
    assert_eq!(found.omit_letters, ['a']);
    assert_eq!(found.req_letters, ['b']);
    assert_eq!(
        found.cand_letters,
        [FoundLetter { letter: 'b', position: 1, correct_location: false }]
    );
}

#[test]
fn an_empty_line_adds_nothing() {
    for line in ["", "!", "'`"] {
        let found = parse_feedback(line).unwrap();
        assert!(found.omit_letters.is_empty());
        assert!(found.req_letters.is_empty());
        assert!(found.cand_letters.is_empty());
    }
}

#[test]
fn other_characters_are_refused() {
    assert_eq!(
        parse_feedback("ab1cd").unwrap_err(),
        InvalidFeedbackSyntax { index: 2, found: '1' }
    );
    assert_eq!(
        parse_feedback(" crane").unwrap_err(),
        InvalidFeedbackSyntax { index: 0, found: ' ' }
    );
    assert_eq!(
        parse_feedback("!a!b?c#").unwrap_err(),
        InvalidFeedbackSyntax { index: 4, found: '?' }
    );
    assert_eq!(
        parse_feedback("abé").unwrap_err(),
        InvalidFeedbackSyntax { index: 2, found: 'é' }
    );
}

#[test]
fn absorbing_appends() {
    let mut h = hint("x", "a", &[('a', 1, false)]);
    h.absorb(parse_feedback("!yBc").unwrap());
    assert_eq!(h.omit_letters, ['x', 'y']);
    assert_eq!(h.req_letters, ['a', 'b', 'c']);
    assert_eq!(
        h.cand_letters,
        [
            FoundLetter { letter: 'a', position: 1, correct_location: false },
            FoundLetter { letter: 'b', position: 1, correct_location: true },
            FoundLetter { letter: 'c', position: 2, correct_location: false },
        ]
    );
}

#[test]
fn a_pool_is_made_of_the_lists() {
    let primary = texts(&["crane", "BLAST"]);
    let extra = texts(&["cloud", "crane"]);
    let pool = word_pool(&primary, &extra, false).unwrap();
    assert_eq!(shown(&pool), ["crane", "blast"]);
    let pool = word_pool(&primary, &extra, true).unwrap();
    assert_eq!(shown(&pool), ["crane", "blast", "cloud", "crane"]);
    assert!(word_pool(&Vec::new(), &extra, false).unwrap().is_empty());
}

#[test]
fn a_pool_fails_on_the_first_text_that_is_no_word() {
    let primary = texts(&["crane", "toolong", "no"]);
    let extra = texts(&["abc"]);
    assert_eq!(word_pool(&primary, &extra, true).unwrap_err(), ParseError { found: 7 });
    assert_eq!(word_pool(&primary, &extra, false).unwrap_err(), ParseError { found: 7 });
    let primary = texts(&["crane"]);
    assert_eq!(word_pool(&primary, &extra, true).unwrap_err(), ParseError { found: 3 });
    assert_eq!(shown(&word_pool(&primary, &extra, false).unwrap()), ["crane"]);
}

#[test]
fn a_round_of_solving() {
    let pool = words(&["crane", "blast", "cloud", "couch", "chest", "dimly", "cubic"]);
    let mut solver = Solver::new(pool);
    let groups = solver.advise();
    assert_eq!(solver.pool.len(), 7);
    assert_eq!(groups.values().map(|g| g.len()).sum::<usize>(), 7);
    assert_eq!(solver.report("C!r!a!n!e"), Ok(()));
    assert_eq!(solver.pool.len(), 7);
    let groups = solver.advise();
    assert_eq!(shown(&solver.pool), ["cloud", "couch", "cubic"]);
    for w in &solver.pool {
        assert_eq!(w.letter(0), 'c');
        for absent in ['r', 'a', 'n', 'e'] {
            assert!(!w.contains(absent));
        }
    }
    // c: 5, l: 1, o: 2, u: 3, d: 1, h: 1, b: 1, i: 1
    assert_eq!(shown(&groups[&12]), ["cloud"]);
    assert_eq!(shown(&groups[&11]), ["couch"]);
    assert_eq!(shown(&groups[&10]), ["cubic"]);
    assert_eq!(groups.len(), 3);
}

#[test]
fn a_refused_line_changes_nothing() {
    let mut solver = Solver::new(words(&["crane", "blast"]));
    assert_eq!(solver.report("!cR"), Ok(()));
    assert_eq!(
        solver.report("ab cd"),
        Err(InvalidFeedbackSyntax { index: 2, found: ' ' })
    );
    assert_eq!(solver.hint.omit_letters, ['c']);
    assert_eq!(solver.hint.req_letters, ['r']);
    assert_eq!(
        solver.hint.cand_letters,
        [FoundLetter { letter: 'r', position: 1, correct_location: true }]
    );
    assert_eq!(shown(&solver.pool), ["crane", "blast"]);
    solver.advise();
    assert!(solver.pool.is_empty());
}

#[test]
fn a_line_of_six_letters_is_read_but_ill_formed() {
    let found = parse_feedback("abcdef").unwrap();
    assert_eq!(found.cand_letters.len(), 6);
    assert_eq!(found.cand_letters[5].position, 5);
    assert!(!found.is_well_formed());
    assert!(parse_feedback("abcde").unwrap().is_well_formed());
}
