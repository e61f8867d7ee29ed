//! Ranking the words of a pool by how common their letters are in it.

use crate::hint::{filter_pool, filtered, Hint};
use crate::word::{lemma_word_len, Word};
use itertools::Itertools;
use std::collections::BTreeMap;
use vstd::prelude::*;
use vstd::std_specs::btree::increasing_seq;
use vstd::std_specs::cmp::OrdSpec;
use vstd::std_specs::iter::IteratorSpec;

verus! {

broadcast use {vstd::std_specs::btree::group_btree_axioms, vstd::laws_cmp::group_laws_cmp};

/// How often a letter stands in a text.
pub open spec fn occurrences(s: Seq<char>, c: char) -> nat {
    s.filter(|x: char| x == c).len()
}

/// How often a letter stands in the words of a pool, every occurrence
/// counted, also those within one word.
pub open spec fn letter_count(pool: Seq<Word>, c: char) -> nat
    decreases pool.len(),
{
    if pool.len() == 0 {
        0
    } else {
        letter_count(pool.drop_last(), c) + occurrences(pool.last()@, c)
    }
}

/// The letters of a text, each once, in the order in which they first occur.
pub open spec fn first_occurrences(s: Seq<char>) -> Seq<char>
    decreases s.len(),
{
    if s.len() == 0 {
        s
    } else {
        let before = first_occurrences(s.drop_last());
        if before.contains(s.last()) {
            before
        } else {
            before.push(s.last())
        }
    }
}

/// The first occurrences of a text hold every letter of the text, and none
/// twice.
pub proof fn lemma_first_occurrences_distinct(s: Seq<char>)
    ensures
        first_occurrences(s).no_duplicates(),
        forall|c: char| first_occurrences(s).contains(c) <==> s.contains(c),
    decreases s.len(),
{
    if s.len() > 0 {
        let before = s.drop_last();
        lemma_first_occurrences_distinct(before);
        let found = first_occurrences(s);
        assert forall|c: char| found.contains(c) <==> s.contains(c) by {
            if s.contains(c) {
                let i = choose|i: int| 0 <= i < s.len() && s[i] == c;
                if i < before.len() {
                    assert(before[i] == c);
                    assert(before.contains(c));
                    assert(first_occurrences(before).contains(c));
                    let j = choose|j: int|
                        0 <= j < first_occurrences(before).len() && first_occurrences(before)[j]
                            == c;
                    assert(found[j] == c);
                } else if !first_occurrences(before).contains(c) {
                    assert(found[found.len() - 1] == c);
                }
            }
            if found.contains(c) {
                let j = choose|j: int| 0 <= j < found.len() && found[j] == c;
                if j < first_occurrences(before).len() {
                    assert(first_occurrences(before)[j] == c);
                    assert(before.contains(c));
                    let i = choose|i: int| 0 <= i < before.len() && before[i] == c;
                    assert(s[i] == c);
                } else {
                    assert(s[s.len() - 1] == c);
                }
            }
        }
    }
}

/// `Itertools::unique` hands on each item the first time it meets it and
/// drops it every time after, so what comes out is the distinct letters in
/// the order of their first occurrence.
#[verifier::external_body]
fn unique_letters(letters: &[char; 5]) -> (r: Vec<char>)
    ensures
        r@ == first_occurrences(letters@),
{
    letters.iter().copied().unique().collect()
}

/// The key under which a table of frequencies holds a letter: its code
/// point.
pub open spec fn code(c: char) -> u32 {
    c as u32
}

/// Two letters with one code point are one letter.
pub proof fn lemma_code_injective(c: char, d: char)
    ensures
        code(c) == code(d) <==> c == d,
{
}

/// The count that a table of frequencies holds for a letter: 0 where it
/// holds none.
pub open spec fn tally(freq: Map<u32, u128>, c: char) -> nat {
    if freq.contains_key(code(c)) {
        freq[code(c)] as nat
    } else {
        0
    }
}

/// Whether every key of a table of frequencies is the code point of a
/// letter.
pub open spec fn keyed_by_letters(freq: Map<u32, u128>) -> bool {
    forall|k: u32| #[trigger] freq.contains_key(k) ==> exists|c: char| code(c) == k
}

/// Whether a table of frequencies is that of a pool: it holds the letters
/// that occur in the pool, each with the number of its occurrences, and
/// nothing else.
pub open spec fn is_histogram(freq: Map<u32, u128>, pool: Seq<Word>) -> bool {
    &&& keyed_by_letters(freq)
    &&& forall|c: char| #[trigger] freq.contains_key(code(c)) <==> letter_count(pool, c) > 0
    &&& forall|c: char| #[trigger] tally(freq, c) == letter_count(pool, c)
}

proof fn lemma_occurrences_step(s: Seq<char>, j: int, c: char)
    requires
        0 <= j < s.len(),
    ensures
        occurrences(s.take(j + 1), c) == occurrences(s.take(j), c) + if s[j] == c {
            1nat
        } else {
            0nat
        },
        occurrences(s.take(0), c) == 0,
        occurrences(s.take(j), c) <= j,
{
    reveal(Seq::filter);
    assert(s.take(j + 1).drop_last() =~= s.take(j));
    s.take(j).lemma_filter_len(|x: char| x == c);
}

proof fn lemma_letter_count_step(pool: Seq<Word>, i: int, c: char)
    requires
        0 <= i < pool.len(),
    ensures
        letter_count(pool.take(i + 1), c) == letter_count(pool.take(i), c) + occurrences(
            pool[i]@,
            c,
        ),
{
    assert(pool.take(i + 1).drop_last() =~= pool.take(i));
}

proof fn lemma_letter_count_bound(pool: Seq<Word>, c: char)
    ensures
        letter_count(pool, c) <= 5 * pool.len(),
    decreases pool.len(),
{
    broadcast use lemma_word_len;

    if pool.len() > 0 {
        lemma_letter_count_bound(pool.drop_last(), c);
        pool.last()@.lemma_filter_len(|x: char| x == c);
    }
}

/// The key of a letter.
fn code_of(c: char) -> (k: u32)
    ensures
        k == code(c),
{
    c as u32
}

/// Counts the letters of a pool.
pub fn letter_frequencies(pool: &[Word]) -> (freq: BTreeMap<u32, u128>)
    ensures
        is_histogram(freq@, pool@),
{
    broadcast use lemma_word_len;

    let mut freq: BTreeMap<u32, u128> = BTreeMap::new();
    let mut i: usize = 0;
    assert(pool@.take(0) =~= Seq::<Word>::empty());
    while i < pool.len()
        invariant
            i <= pool@.len(),
            is_histogram(freq@, pool@.take(i as int)),
        decreases pool@.len() - i,
    {
        let letters = pool[i].letters();
        let mut j: usize = 0;
        proof {
            assert forall|c: char| occurrences(letters@.take(0), c) == 0 by {
                lemma_occurrences_step(letters@, 0, c);
            }
        }
        while j < 5
            invariant
                j <= 5,
                i < pool@.len(),
                letters@ == pool@[i as int]@,
                letters@.len() == 5,
                keyed_by_letters(freq@),
                forall|c: char| #[trigger]
                    freq@.contains_key(code(c)) <==> letter_count(pool@.take(i as int), c)
                        + occurrences(letters@.take(j as int), c) > 0,
                forall|c: char| #[trigger]
                    tally(freq@, c) == letter_count(pool@.take(i as int), c) + occurrences(
                        letters@.take(j as int),
                        c,
                    ),
            decreases 5 - j,
        {
            let letter = letters[j];
            let key = code_of(letter);
            let seen: u128 = match freq.get(&key) {
                Some(n) => *n,
                None => 0,
            };
            proof {
                assert(seen == tally(freq@, letter));
                lemma_letter_count_bound(pool@.take(i as int), letter);
                lemma_occurrences_step(letters@, j as int, letter);
            }
            let ghost before = freq@;
            freq.insert(key, seen + 1);
            proof {
                assert forall|k: u32| #[trigger] freq@.contains_key(k) implies exists|c: char|
                    code(c) == k by {
                    if k != key {
                        assert(before.contains_key(k));
                    }
                }
                assert forall|c: char| #[trigger]
                    tally(freq@, c) == letter_count(pool@.take(i as int), c) + occurrences(
                        letters@.take(j + 1),
                        c,
                    ) by {
                    lemma_occurrences_step(letters@, j as int, c);
                    lemma_code_injective(c, letter);
                    assert(tally(before, c) == letter_count(pool@.take(i as int), c)
                        + occurrences(letters@.take(j as int), c));
                }
                assert forall|c: char| #[trigger]
                    freq@.contains_key(code(c)) <==> letter_count(pool@.take(i as int), c)
                        + occurrences(letters@.take(j + 1), c) > 0 by {
                    lemma_occurrences_step(letters@, j as int, c);
                    lemma_code_injective(c, letter);
                    assert(before.contains_key(code(c)) <==> letter_count(
                        pool@.take(i as int),
                        c,
                    ) + occurrences(letters@.take(j as int), c) > 0);
                }
            }
            j += 1;
        }
        proof {
            assert(letters@.take(5) =~= letters@);
            assert forall|c: char| #[trigger]
                tally(freq@, c) == letter_count(pool@.take(i + 1), c) by {
                lemma_letter_count_step(pool@, i as int, c);
            }
            assert forall|c: char| #[trigger]
                freq@.contains_key(code(c)) <==> letter_count(pool@.take(i + 1), c) > 0 by {
                lemma_letter_count_step(pool@, i as int, c);
            }
        }
        i += 1;
    }
    assert(pool@.take(i as int) =~= pool@);
    freq
}

/// The counts of a list of letters in a pool, added up.
pub open spec fn count_sum(letters: Seq<char>, pool: Seq<Word>) -> nat
    decreases letters.len(),
{
    if letters.len() == 0 {
        0
    } else {
        count_sum(letters.drop_last(), pool) + letter_count(pool, letters.last())
    }
}

/// The score of a word in a pool: the pool's counts of the word's letters
/// added up, a letter that the word repeats taken once.
pub open spec fn score(word: Seq<char>, pool: Seq<Word>) -> nat {
    count_sum(first_occurrences(word), pool)
}

/// What a table of frequencies holds for a list of letters, added up.
pub open spec fn tally_sum(freq: Map<u32, u128>, letters: Seq<char>) -> nat
    decreases letters.len(),
{
    if letters.len() == 0 {
        0
    } else {
        tally_sum(freq, letters.drop_last()) + tally(freq, letters.last())
    }
}

proof fn lemma_tally_sum_prefix(freq: Map<u32, u128>, letters: Seq<char>, k: int)
    requires
        0 <= k <= letters.len(),
    ensures
        tally_sum(freq, letters.take(k)) <= tally_sum(freq, letters),
        k < letters.len() ==> tally_sum(freq, letters.take(k + 1)) == tally_sum(
            freq,
            letters.take(k),
        ) + tally(freq, letters[k]),
    decreases letters.len() - k,
{
    if k < letters.len() {
        assert(letters.take(k + 1).drop_last() =~= letters.take(k));
        lemma_tally_sum_prefix(freq, letters, k + 1);
    } else {
        assert(letters.take(k) =~= letters);
    }
}

proof fn lemma_first_occurrences_len(s: Seq<char>)
    ensures
        first_occurrences(s).len() <= s.len(),
    decreases s.len(),
{
    if s.len() > 0 {
        lemma_first_occurrences_len(s.drop_last());
    }
}

proof fn lemma_count_sum_bound(letters: Seq<char>, pool: Seq<Word>)
    ensures
        count_sum(letters, pool) <= letters.len() * (5 * pool.len()),
    decreases letters.len(),
{
    if letters.len() > 0 {
        lemma_count_sum_bound(letters.drop_last(), pool);
        lemma_letter_count_bound(pool, letters.last());
        assert((letters.len() - 1) * (5 * pool.len()) + 5 * pool.len() == letters.len() * (5
            * pool.len())) by (nonlinear_arith);
    }
}

/// A word's score in a pool is at most 25 for each word of the pool.
pub proof fn lemma_score_bound(word: Word, pool: Seq<Word>)
    ensures
        score(word@, pool) <= 25 * pool.len(),
{
    broadcast use lemma_word_len;

    let letters = first_occurrences(word@);
    lemma_first_occurrences_len(word@);
    lemma_count_sum_bound(letters, pool);
    assert(letters.len() * (5 * pool.len()) <= 5 * (5 * pool.len())) by (nonlinear_arith)
        requires
            letters.len() <= 5,
    ;
}

proof fn lemma_tally_sum_of_histogram(freq: Map<u32, u128>, pool: Seq<Word>, letters: Seq<char>)
    requires
        is_histogram(freq, pool),
    ensures
        tally_sum(freq, letters) == count_sum(letters, pool),
    decreases letters.len(),
{
    if letters.len() > 0 {
        lemma_tally_sum_of_histogram(freq, pool, letters.drop_last());
    }
}

/// Adds up what a table of frequencies holds for the letters of a word, a
/// letter that the word repeats taken once. `None` where the sum is beyond
/// `u128`.
pub fn word_score(word: &Word, freq: &BTreeMap<u32, u128>) -> (r: Option<u128>)
    ensures
        match r {
            Some(s) => s == tally_sum(freq@, first_occurrences(word@)),
            None => tally_sum(freq@, first_occurrences(word@)) > u128::MAX,
        },
{
    let letters = word.letters();
    let distinct = unique_letters(&letters);
    let mut total: u128 = 0;
    let mut k: usize = 0;
    assert(distinct@.take(0) =~= Seq::<char>::empty());
    while k < distinct.len()
        invariant
            k <= distinct@.len(),
            distinct@ == first_occurrences(word@),
            total == tally_sum(freq@, distinct@.take(k as int)),
        decreases distinct@.len() - k,
    {
        let key = code_of(distinct[k]);
        let held: u128 = match freq.get(&key) {
            Some(n) => *n,
            None => 0,
        };
        proof {
            assert(held == tally(freq@, distinct@[k as int]));
            lemma_tally_sum_prefix(freq@, distinct@, k as int);
            lemma_tally_sum_prefix(freq@, distinct@, k + 1);
        }
        match total.checked_add(held) {
            Some(t) => {
                total = t;
            },
            None => {
                return None;
            },
        }
        k += 1;
    }
    assert(distinct@.take(k as int) =~= distinct@);
    Some(total)
}

/// The words of `part` whose score in `pool` is `s`, in their order.
pub open spec fn scored(part: Seq<Word>, pool: Seq<Word>, s: nat) -> Seq<Word> {
    part.filter(|w: Word| score(w@, pool) == s)
}

/// Whether a table of groups ranks the words of `part` by their score in
/// `pool`: under each score that a word of `part` has stand the words with
/// that score, in their order in `part`, and no other score has a group.
pub open spec fn ranks(groups: Map<u128, Vec<Word>>, part: Seq<Word>, pool: Seq<Word>) -> bool {
    &&& forall|s: u128| #[trigger]
        groups.contains_key(s) <==> scored(part, pool, s as nat).len() > 0
    &&& forall|s: u128| #[trigger]
        groups.contains_key(s) ==> groups[s]@ == scored(part, pool, s as nat)
}

proof fn lemma_scored_step(pool: Seq<Word>, i: int, s: nat)
    requires
        0 <= i < pool.len(),
    ensures
        scored(pool.take(0), pool, s).len() == 0,
        scored(pool.take(i + 1), pool, s) == if score(pool[i]@, pool) == s {
            scored(pool.take(i), pool, s).push(pool[i])
        } else {
            scored(pool.take(i), pool, s)
        },
{
    reveal(Seq::filter);
    assert(pool.take(i + 1).drop_last() =~= pool.take(i));
}

/// Groups the words of a pool by their score in it.
pub fn rank(pool: &[Word]) -> (groups: BTreeMap<u128, Vec<Word>>)
    ensures
        ranks(groups@, pool@, pool@),
{
    let freq = letter_frequencies(pool);
    let mut groups: BTreeMap<u128, Vec<Word>> = BTreeMap::new();
    let mut i: usize = 0;
    proof {
        assert forall|s: u128| scored(pool@.take(0), pool@, s as nat).len() == 0 by {
            reveal(Seq::filter);
        }
    }
    while i < pool.len()
        invariant
            i <= pool@.len(),
            is_histogram(freq@, pool@),
            ranks(groups@, pool@.take(i as int), pool@),
        decreases pool@.len() - i,
    {
        let word = pool[i];
        proof {
            lemma_tally_sum_of_histogram(freq@, pool@, first_occurrences(word@));
            lemma_score_bound(word, pool@);
        }
        let points = word_score(&word, &freq).unwrap();
        let ghost before = groups@;
        let mut group: Vec<Word> = match groups.remove(&points) {
            Some(g) => g,
            None => Vec::new(),
        };
        assert(group@ == scored(pool@.take(i as int), pool@, points as nat));
        group.push(word);
        groups.insert(points, group);
        proof {
            assert forall|s: u128| #[trigger]
                groups@.contains_key(s) <==> scored(pool@.take(i + 1), pool@, s as nat).len()
                    > 0 by {
                lemma_scored_step(pool@, i as int, s as nat);
                assert(before.contains_key(s) <==> scored(
                    pool@.take(i as int),
                    pool@,
                    s as nat,
                ).len() > 0);
            }
            assert forall|s: u128| #[trigger] groups@.contains_key(s) implies groups@[s]@
                == scored(pool@.take(i + 1), pool@, s as nat) by {
                lemma_scored_step(pool@, i as int, s as nat);
                if s != points {
                    assert(before.contains_key(s));
                }
            }
        }
        i += 1;
    }
    assert(pool@.take(i as int) =~= pool@);
    groups
}

/// Narrows a pool by a hint and ranks what is left: the words that the hint
/// admits, in their order, and those words grouped by their score among
/// themselves.
pub fn suggest(hint: &Hint, words: &[Word]) -> (r: (Vec<Word>, BTreeMap<u128, Vec<Word>>))
    requires
        hint.well_formed(),
    ensures
        r.0@ == filtered(words@, *hint),
        ranks(r.1@, r.0@, r.0@),
{
    let kept = filter_pool(words, hint);
    let groups = rank(kept.as_slice());
    (kept, groups)
}

/// How many groups a table of suggestions shows.
pub const SHOWN_GROUPS: usize = 10;

/// The groups of a table in ascending order of score.
fn groups_ascending<'a>(groups: &'a BTreeMap<u128, Vec<Word>>) -> (rows: Vec<(u128, &'a Vec<Word>)>)
    ensures
        rows@.len() == groups@.len(),
        forall|i: int|
            0 <= i < rows@.len() ==> groups@.contains_key(#[trigger] rows@[i].0) && *rows@[i].1
                == groups@[rows@[i].0],
        forall|i: int, j: int| 0 <= i < j < rows@.len() ==> rows@[i].0 < rows@[j].0,
        forall|k: u128|
            groups@.contains_key(k) ==> exists|i: int| 0 <= i < rows@.len() && rows@[i].0 == k,
{
    let mut rows: Vec<(u128, &'a Vec<Word>)> = Vec::new();
    let iter = groups.iter();
    let ghost entries = iter.remaining();
    proof {
        let keys = entries.map_values(|kv: (&u128, &Vec<Word>)| *kv.0);
        assert(increasing_seq(keys));
        assert forall|i: int, j: int| 0 <= i < j < entries.len() implies *entries[i].0
            < *entries[j].0 by {
            assert(keys[i] == *entries[i].0);
            assert(keys[j] == *entries[j].0);
            assert(keys[i].cmp_spec(&keys[j]) is Less);
        }
        assert forall|i: int| 0 <= i < entries.len() implies groups@.contains_key(
            *(#[trigger] entries[i]).0,
        ) && groups@[*entries[i].0] == *entries[i].1 by {
            assert(groups@.contains_key(*entries[i].0));
        }
    }
    for entry in it: iter
        invariant
            it.seq() == entries,
            rows@.len() == it.index(),
            forall|i: int, j: int|
                0 <= i < j < entries.len() ==> *(#[trigger] entries[i]).0 < *(
                #[trigger] entries[j]).0,
            forall|i: int|
                0 <= i < entries.len() ==> groups@.contains_key(*(#[trigger] entries[i]).0)
                    && groups@[*entries[i].0] == *entries[i].1,
            forall|i: int|
                0 <= i < rows@.len() ==> rows@[i].0 == *entries[i].0 && rows@[i].1
                    == entries[i].1,
    {
        rows.push((*entry.0, entry.1));
    }
    proof {
        assert forall|i: int| 0 <= i < rows@.len() implies groups@.contains_key(
            #[trigger] rows@[i].0,
        ) && *rows@[i].1 == groups@[rows@[i].0] by {
            assert(rows@[i].0 == *entries[i].0);
        }
        assert forall|i: int, j: int| 0 <= i < j < rows@.len() implies rows@[i].0
            < rows@[j].0 by {
            assert(rows@[i].0 == *entries[i].0);
            assert(rows@[j].0 == *entries[j].0);
        }
    }
    rows
}

/// The rows of a table of suggestions: the `limit` groups with the highest
/// scores, or all groups where there are fewer, each with its score, from
/// the lowest of them to the highest.
pub fn top_suggestions<'a>(groups: &'a BTreeMap<u128, Vec<Word>>, limit: usize) -> (rows: Vec<
    (u128, &'a Vec<Word>),
>)
    ensures
        groups@.len() <= limit ==> rows@.len() == groups@.len(),
        groups@.len() > limit ==> rows@.len() == limit,
        forall|i: int|
            0 <= i < rows@.len() ==> groups@.contains_key(#[trigger] rows@[i].0) && *rows@[i].1
                == groups@[rows@[i].0],
        forall|i: int, j: int| 0 <= i < j < rows@.len() ==> rows@[i].0 < rows@[j].0,
        forall|k: u128, i: int|
            groups@.contains_key(k) && 0 <= i < rows@.len() && rows@[i].0 < k ==> exists|j: int|
                0 <= j < rows@.len() && rows@[j].0 == k,
{
    let all = groups_ascending(groups);
    let skipped: usize = if all.len() > limit {
        all.len() - limit
    } else {
        0
    };
    let mut rows: Vec<(u128, &'a Vec<Word>)> = Vec::new();
    let mut n: usize = skipped;
    while n < all.len()
        invariant
            skipped <= n <= all@.len(),
            rows@.len() == n - skipped,
            forall|i: int| 0 <= i < rows@.len() ==> rows@[i] == all@[skipped + i],
        decreases all@.len() - n,
    {
        rows.push(all[n]);
        n += 1;
    }
    proof {
        assert forall|k: u128, i: int|
            groups@.contains_key(k) && 0 <= i < rows@.len() && rows@[i].0 < k implies exists|
            j: int,
        |
            0 <= j < rows@.len() && rows@[j].0 == k by {
            let a = choose|a: int| 0 <= a < all@.len() && all@[a].0 == k;
            assert(rows@[i] == all@[skipped + i]);
            assert(a > skipped + i);
            assert(rows@[a - skipped] == all@[skipped + (a - skipped)]);
        }
    }
    rows
}

/// A word that is one letter over and over has that letter's count as its
/// score: the letter is taken once, not once for each place where it
/// stands.
pub proof fn lemma_repeated_letter_scores_once(word: Seq<char>, pool: Seq<Word>, c: char)
    requires
        word.len() > 0,
        forall|i: int| 0 <= i < word.len() ==> word[i] == c,
    ensures
        score(word, pool) == letter_count(pool, c),
    decreases word.len(),
{
    if word.len() == 1 {
        assert(first_occurrences(word.drop_last()) =~= Seq::<char>::empty());
        assert(first_occurrences(word) =~= seq![c]);
        assert(seq![c].drop_last() =~= Seq::<char>::empty());
        assert(count_sum(Seq::<char>::empty(), pool) == 0);
    } else {
        let before = word.drop_last();
        lemma_repeated_letter_scores_once(before, pool, c);
        lemma_first_occurrences_distinct(before);
        assert(before[0] == c);
        assert(before.contains(c));
        assert(first_occurrences(before).contains(word.last()));
    }
}

} // verus!
