//! Titles for the outline: a base name with its underscores taken as spaces
//! and each word starting with a capital.

use crate::model::views;
use crate::text::{char_at, chars_of, string_of};
use vstd::prelude::*;

verus! {

/// Whether Unicode counts `c` as white space, as `char::is_whitespace` tells.
pub uninterp spec fn is_whitespace_char(c: char) -> bool;

/// The upper-case form of `c`, one character or several, as
/// `char::to_uppercase` gives it.
pub uninterp spec fn uppercase_of(c: char) -> Seq<char>;

/// Calls `char::is_whitespace`, which looks `c` up in the Unicode property
/// `White_Space`. The answer depends on `c` alone and is given the name
/// `is_whitespace_char`; nothing more is claimed of it.
#[verifier::external_body]
fn is_whitespace(c: char) -> (blank: bool)
    ensures
        blank == is_whitespace_char(c),
{
    c.is_whitespace()
}

/// Calls `char::to_uppercase` and collects the characters that its iterator
/// yields. They depend on `c` alone and are given the name `uppercase_of`;
/// nothing more is claimed of them.
#[verifier::external_body]
fn uppercase(c: char) -> (upper: Vec<char>)
    ensures
        upper@ == uppercase_of(c),
{
    c.to_uppercase().collect()
}

/// A character together with what is known of it: whether it is white
/// space, and its upper-case form.
#[derive(Debug, PartialEq, Eq)]
pub struct Letter {
    pub symbol: char,
    pub blank: bool,
    pub upper: Vec<char>,
}

/// What a `Letter` stands for.
pub struct LetterView {
    pub symbol: char,
    pub blank: bool,
    pub upper: Seq<char>,
}

impl View for Letter {
    type V = LetterView;

    open spec fn view(&self) -> LetterView {
        LetterView { symbol: self.symbol, blank: self.blank, upper: self.upper@ }
    }
}

/// The character `c` with what Unicode says of it.
pub open spec fn letter_of(c: char) -> LetterView {
    LetterView { symbol: c, blank: is_whitespace_char(c), upper: uppercase_of(c) }
}

/// The characters of `s`, each with what Unicode says of it.
pub open spec fn letters_of(s: Seq<char>) -> Seq<LetterView> {
    s.map_values(|c: char| letter_of(c))
}

/// The characters that the letters are.
pub open spec fn symbols(letters: Seq<LetterView>) -> Seq<char> {
    letters.map_values(|letter: LetterView| letter.symbol)
}

/// The number of letters in front of the first white space.
pub open spec fn word_len(letters: Seq<LetterView>) -> nat
    decreases letters.len(),
{
    if letters.len() == 0 || letters[0].blank {
        0
    } else {
        1 + word_len(letters.skip(1))
    }
}

/// A word ends where the text does, at the latest.
pub proof fn lemma_word_len_bound(letters: Seq<LetterView>)
    ensures
        word_len(letters) <= letters.len(),
    decreases letters.len(),
{
    if letters.len() > 0 && !letters[0].blank {
        lemma_word_len_bound(letters.skip(1));
    }
}

/// The words of a text: its longest stretches without white space, in order.
pub open spec fn words(letters: Seq<LetterView>) -> Seq<Seq<LetterView>>
    decreases letters.len(),
    via words_decreases
{
    if letters.len() == 0 {
        Seq::empty()
    } else if letters[0].blank {
        words(letters.skip(1))
    } else {
        let len = word_len(letters) as int;
        seq![letters.take(len)] + words(letters.skip(len))
    }
}

#[via_fn]
proof fn words_decreases(letters: Seq<LetterView>) {
    lemma_word_len_bound(letters);
}

/// `word` with its first letter in upper case.
pub open spec fn capitalized(word: Seq<LetterView>) -> Seq<char> {
    if word.len() == 0 {
        Seq::empty()
    } else {
        word[0].upper + symbols(word.skip(1))
    }
}

/// `parts` one after the other, with one space between neighbours.
pub open spec fn joined(parts: Seq<Seq<char>>) -> Seq<char>
    decreases parts.len(),
{
    if parts.len() == 0 {
        Seq::empty()
    } else if parts.len() == 1 {
        parts[0]
    } else {
        joined(parts.drop_last()) + seq![' '] + parts.last()
    }
}

/// The words of a text, each capitalized, with one space between them.
pub open spec fn capitalized_letters(letters: Seq<LetterView>) -> Seq<char> {
    joined(words(letters).map_values(|word: Seq<LetterView>| capitalized(word)))
}

/// The words of `s`, each capitalized, with one space between them, white
/// space and upper case being what Unicode says they are.
pub open spec fn capitalized_spec(s: Seq<char>) -> Seq<char> {
    capitalized_letters(letters_of(s))
}

/// `s` with a space in place of each underscore.
pub open spec fn spaced(s: Seq<char>) -> Seq<char> {
    s.map_values(
        |c: char|
            if c == '_' {
                ' '
            } else {
                c
            },
    )
}

/// The title that a base name stands for.
pub open spec fn title_spec(base_name: Seq<char>) -> Seq<char> {
    capitalized_spec(spaced(base_name))
}

/// The first word of a text ends at `len` when no white space stands in
/// front of that place and the text ends there or goes on with white space.
pub proof fn lemma_word_len(letters: Seq<LetterView>, len: int)
    requires
        0 <= len <= letters.len(),
        forall|j: int| 0 <= j < len ==> !letters[j].blank,
        len < letters.len() ==> letters[len].blank,
    ensures
        word_len(letters) == len,
    decreases len,
{
    if len > 0 {
        let rest = letters.skip(1);
        assert forall|j: int| 0 <= j < len - 1 implies !rest[j].blank by {
            assert(rest[j] == letters[j + 1]);
        }
        lemma_word_len(rest, len - 1);
    }
}

/// Joining one more part puts a space in front of it, unless it is the first.
pub proof fn lemma_joined_push(parts: Seq<Seq<char>>, part: Seq<char>)
    ensures
        joined(parts.push(part)) == if parts.len() == 0 {
            part
        } else {
            joined(parts) + seq![' '] + part
        },
{
    let all = parts.push(part);
    assert(all.drop_last() =~= parts);
    assert(all.last() == part);
}

/// The text word by word: each word with its first letter in upper case,
/// one space between two words, no white space at either end. What is white
/// space and what the upper case of a letter is, the letters say themselves.
pub fn capitalize_letters(letters: &Vec<Letter>) -> (out: Vec<char>)
    ensures
        out@ == capitalized_letters(views(letters@)),
{
    let ghost all = views(letters@);
    let ghost cap = |word: Seq<LetterView>| capitalized(word);
    let ghost mut done: Seq<Seq<LetterView>> = Seq::empty();
    let mut out: Vec<char> = Vec::new();
    let mut any: bool = false;
    let mut i: usize = 0;
    assert(all.skip(0) =~= all);
    assert(done.map_values(cap) =~= Seq::<Seq<char>>::empty());
    while i < letters.len()
        invariant
            i <= letters.len(),
            all == views(letters@),
            cap == |word: Seq<LetterView>| capitalized(word),
            words(all) == done + words(all.skip(i as int)),
            out@ == joined(done.map_values(cap)),
            any == (done.len() > 0),
        decreases letters.len() - i,
    {
        let ghost here = all.skip(i as int);
        assert(here[0] == letters@[i as int]@);
        if letters[i].blank {
            assert(here.skip(1) =~= all.skip(i + 1));
            i += 1;
        } else {
            let ghost before = out@;
            if any {
                out.push(' ');
            }
            let ghost separated = out@;
            let start = i;
            let upper = &letters[start].upper;
            let mut u: usize = 0;
            while u < upper.len()
                invariant
                    u <= upper.len(),
                    out@ == separated + upper@.take(u as int),
                decreases upper.len() - u,
            {
                out.push(upper[u]);
                u += 1;
                assert(upper@.take(u as int) =~= upper@.take(u - 1).push(upper@[u - 1]));
                assert(out@ =~= separated + upper@.take(u as int));
            }
            assert(upper@.take(upper.len() as int) =~= upper@);
            assert(out@ =~= separated + all[start as int].upper + symbols(
                all.subrange(start + 1, start + 1),
            ));
            i += 1;
            while i < letters.len() && !letters[i].blank
                invariant
                    start < i <= letters.len(),
                    all == views(letters@),
                    forall|j: int| start <= j < i ==> !all[j].blank,
                    out@ == separated + all[start as int].upper + symbols(
                        all.subrange(start + 1, i as int),
                    ),
                decreases letters.len() - i,
            {
                out.push(letters[i].symbol);
                i += 1;
                assert(symbols(all.subrange(start + 1, i as int)) =~= symbols(
                    all.subrange(start + 1, i - 1),
                ).push(all[i - 1].symbol));
            }
            proof {
                let len = i - start;
                let word = all.subrange(start as int, i as int);
                assert forall|j: int| 0 <= j < len implies !here[j].blank by {
                    assert(here[j] == all[start + j]);
                }
                if len < here.len() {
                    assert(here[len] == all[i as int]);
                }
                lemma_word_len(here, len);
                assert(here.take(len) =~= word);
                assert(here.skip(len) =~= all.skip(i as int));
                assert(words(here) == seq![word] + words(all.skip(i as int)));
                assert(done + (seq![word] + words(all.skip(i as int))) =~= done.push(word)
                    + words(all.skip(i as int)));
                assert(word.skip(1) =~= all.subrange(start + 1, i as int));
                assert(word[0] == all[start as int]);
                assert(out@ == separated + capitalized(word));
                assert(done.push(word).map_values(cap) =~= done.map_values(cap).push(
                    capitalized(word),
                ));
                lemma_joined_push(done.map_values(cap), capitalized(word));
                if any {
                    assert(separated == before.push(' '));
                    assert(before.push(' ') + capitalized(word) =~= before + seq![' ']
                        + capitalized(word));
                } else {
                    assert(separated =~= Seq::<char>::empty());
                    assert(separated + capitalized(word) =~= capitalized(word));
                }
                done = done.push(word);
            }
            any = true;
        }
    }
    assert(all.skip(letters.len() as int) =~= Seq::<LetterView>::empty());
    assert(done + Seq::<Seq<LetterView>>::empty() =~= done);
    out
}

/// Each character of `cs` with what Unicode says of it.
pub fn classify(cs: &Vec<char>) -> (letters: Vec<Letter>)
    ensures
        views(letters@) == letters_of(cs@),
{
    let mut letters: Vec<Letter> = Vec::new();
    let mut i: usize = 0;
    while i < cs.len()
        invariant
            i <= cs.len(),
            letters@.len() == i,
            forall|j: int| 0 <= j < i ==> (#[trigger] letters@[j])@ == letter_of(cs@[j]),
        decreases cs.len() - i,
    {
        let c = char_at(cs, i);
        let blank = is_whitespace(c);
        let upper = uppercase(c);
        letters.push(Letter { symbol: c, blank, upper });
        i += 1;
    }
    assert(views(letters@) =~= letters_of(cs@));
    letters
}

/// Splits `s` into words at white space, puts the first letter of each word
/// in upper case and joins the words with single spaces.
pub fn capitalize_first_letter_of_each_word(s: &str) -> (out: String)
    ensures
        out@ == capitalized_spec(s@),
{
    let cs = chars_of(s);
    let capitalized = capitalize_letters(&classify(&cs));
    string_of(&capitalized)
}

/// The title for a base name: underscores become spaces, then each word is
/// capitalized.
pub fn title_of(base_name: &str) -> (out: String)
    ensures
        out@ == title_spec(base_name@),
{
    let cs = chars_of(base_name);
    let mut with_spaces: Vec<char> = Vec::new();
    let mut i: usize = 0;
    while i < cs.len()
        invariant
            i <= cs.len(),
            with_spaces@ == spaced(cs@.take(i as int)),
        decreases cs.len() - i,
    {
        let c = cs[i];
        with_spaces.push(if c == '_' { ' ' } else { c });
        i += 1;
        assert(with_spaces@ =~= spaced(cs@.take(i as int)));
    }
    assert(cs@.take(cs.len() as int) =~= cs@);
    let capitalized = capitalize_letters(&classify(&with_spaces));
    string_of(&capitalized)
}

} // verus!
