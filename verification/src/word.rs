//! Five-letter words.

use vstd::prelude::*;
use vstd::std_specs::cmp::PartialEqSpecImpl;
use vstd::std_specs::convert::TryFromSpecImpl;
use vstd::string::StrSliceExecFns;

verus! {

/// The lowercase form of an ASCII capital; every other character is itself.
pub open spec fn lower(c: char) -> char {
    if 'A' <= c && c <= 'Z' {
        ((c as u32) + 32) as char
    } else {
        c
    }
}

/// A text with every character lowered.
pub open spec fn lowercase(s: Seq<char>) -> Seq<char> {
    Seq::new(s.len(), |i: int| lower(s[i]))
}

/// `char::to_ascii_lowercase` maps the capitals `A` to `Z` to `a` to `z`
/// and leaves every other character unchanged.
pub assume_specification[ char::to_ascii_lowercase ](c: &char) -> (r: char)
    ensures
        r == lower(*c),
;

/// The capital of an ASCII lowercase letter; every other character is
/// itself.
pub open spec fn upper(c: char) -> char {
    if 'a' <= c && c <= 'z' {
        ((c as u32) - 32) as char
    } else {
        c
    }
}

/// `char::to_ascii_uppercase` maps the letters `a` to `z` to `A` to `Z`
/// and leaves every other character unchanged.
pub assume_specification[ char::to_ascii_uppercase ](c: &char) -> (r: char)
    ensures
        r == upper(*c),
;

/// `String::push` appends one character to the end of the string.
pub assume_specification[ String::push ](s: &mut String, ch: char)
    ensures
        final(s)@ == old(s)@.push(ch),
;

/// Why a text is no word.
#[derive(Clone, Copy, Debug, PartialEq, Eq, Structural)]
pub struct ParseError {
    /// The number of characters found in place of five.
    pub found: usize,
}

/// Five characters in order, none of them an ASCII capital.
#[derive(Clone, Copy, Debug, Hash, Eq)]
pub struct Word([char; 5]);

impl View for Word {
    type V = Seq<char>;

    closed spec fn view(&self) -> Seq<char> {
        self.0@
    }
}

/// A word has five letters.
pub broadcast proof fn lemma_word_len(w: Word)
    ensures
        #[trigger] w@.len() == 5,
{
}

/// Two words with the same letters are the same word.
pub broadcast proof fn lemma_word_ext(a: Word, b: Word)
    requires
        #[trigger] a@ == #[trigger] b@,
    ensures
        a == b,
{
    assert(a.0 =~= b.0);
}

impl Word {
    #[verifier::type_invariant]
    spec fn inv(self) -> bool {
        self.is_folded()
    }

    /// No letter of the word is an ASCII capital.
    pub open spec fn is_folded(self) -> bool {
        forall|i: int| 0 <= i < 5 ==> lower(#[trigger] self@[i]) == self@[i]
    }

    /// What a text parses to: its five characters lowered, or the count of
    /// its characters where that is not five.
    pub closed spec fn parsed(s: Seq<char>) -> Result<Word, ParseError> {
        if s.len() == 5 {
            Ok(Word([lower(s[0]), lower(s[1]), lower(s[2]), lower(s[3]), lower(s[4])]))
        } else {
            Err(ParseError { found: s.len() as usize })
        }
    }

    /// A text of five characters parses to its lowercase form, and no other
    /// text parses.
    pub broadcast proof fn lemma_parsed(s: Seq<char>)
        ensures
            #![trigger Word::parsed(s)]
            s.len() == 5 ==> Word::parsed(s) is Ok && Word::parsed(s).unwrap()@ == lowercase(s),
            s.len() != 5 ==> Word::parsed(s) == Err::<Word, ParseError>(
                ParseError { found: s.len() as usize },
            ),
    {
        if s.len() == 5 {
            assert(Word::parsed(s).unwrap()@ =~= lowercase(s));
        }
    }

    /// Two texts parse to the same word exactly if they are the same but for
    /// the case of their letters.
    pub proof fn lemma_parsed_same(s: Seq<char>, t: Seq<char>)
        requires
            s.len() == 5,
            t.len() == 5,
        ensures
            Word::parsed(s) == Word::parsed(t) <==> lowercase(s) == lowercase(t),
    {
        Word::lemma_parsed(s);
        Word::lemma_parsed(t);
        if lowercase(s) == lowercase(t) {
            lemma_word_ext(Word::parsed(s).unwrap(), Word::parsed(t).unwrap());
        }
    }

    /// Reads a word from a text of exactly five characters, lowering each.
    /// Nothing is trimmed.
    pub fn parse(s: &str) -> (r: Result<Word, ParseError>)
        ensures
            r == Word::parsed(s@),
            r is Ok <==> s@.len() == 5,
            r matches Ok(w) ==> w@ == lowercase(s@) && w.is_folded(),
            r matches Err(e) ==> e.found == s@.len(),
    {
        proof {
            Word::lemma_parsed(s@);
        }
        let n = s.unicode_len();
        if n != 5 {
            return Err(ParseError { found: n });
        }
        let mut letters: [char; 5] = ['a'; 5];
        let mut i: usize = 0;
        while i < 5
            invariant
                i <= 5,
                s@.len() == 5,
                forall|j: int| 0 <= j < i ==> letters@[j] == lower(s@[j]),
            decreases 5 - i,
        {
            let c = s.get_char(i);
            letters[i] = c.to_ascii_lowercase();
            i += 1;
        }
        let w = Word(letters);
        assert(w.0 =~= Word::parsed(s@).unwrap().0);
        Ok(w)
    }

    /// The letter at a position.
    pub fn letter(&self, i: usize) -> (c: char)
        requires
            i < 5,
        ensures
            c == self@[i as int],
            lower(c) == c,
    {
        proof {
            use_type_invariant(self);
        }
        self.0[i]
    }

    /// The five letters.
    pub fn letters(&self) -> (r: [char; 5])
        ensures
            r@ == self@,
    {
        self.0
    }

    /// Whether a letter occurs in the word.
    pub fn contains(&self, c: char) -> (r: bool)
        ensures
            r == self@.contains(c),
    {
        let mut i: usize = 0;
        while i < 5
            invariant
                i <= 5,
                forall|j: int| 0 <= j < i ==> self@[j] != c,
            decreases 5 - i,
        {
            if self.0[i] == c {
                return true;
            }
            i += 1;
        }
        false
    }

    /// The word as text: its five letters, with nothing between them.
    pub fn to_string(&self) -> (s: String)
        ensures
            s@ == self@,
    {
        let mut s = String::new();
        let mut i: usize = 0;
        while i < 5
            invariant
                i <= 5,
                s@ == self@.take(i as int),
            decreases 5 - i,
        {
            s.push(self.0[i]);
            i += 1;
        }
        s
    }
}

impl PartialEq for Word {
    fn eq(&self, other: &Word) -> (r: bool) {
        let mut i: usize = 0;
        while i < 5
            invariant
                i <= 5,
                forall|j: int| 0 <= j < i ==> self@[j] == other@[j],
            decreases 5 - i,
        {
            if self.0[i] != other.0[i] {
                return false;
            }
            i += 1;
        }
        assert(self@ =~= other@);
        true
    }
}

impl PartialEqSpecImpl for Word {
    open spec fn obeys_eq_spec() -> bool {
        true
    }

    open spec fn eq_spec(&self, other: &Word) -> bool {
        self@ == other@
    }
}

impl TryFrom<&str> for Word {
    type Error = ParseError;

    fn try_from(value: &str) -> (r: Result<Word, ParseError>) {
        Word::parse(value)
    }
}

impl TryFromSpecImpl<&str> for Word {
    open spec fn obeys_try_from_spec() -> bool {
        true
    }

    open spec fn try_from_spec(v: &str) -> Result<Word, ParseError> {
        Word::parsed(v@)
    }
}

} // verus!
