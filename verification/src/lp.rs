//! The linguistic processor: from raw text to the tokens under which a
//! document is indexed — stemmed words, character trigrams over the stemmed
//! words, and one marker per word for the character it begins with.

use crate::text::{
    from_chars, join_text, join_words, normalize, normalize_text, split_text, split_words, texts,
    to_chars,
};
use ngrams::Ngram;
use rust_stemmers::{Algorithm, Stemmer};
use vstd::prelude::*;
use vstd::string::StrSliceExecFns;
use vstd::string::StringExecFns;

verus! {

/// The stem that the English Snowball stemmer gives a word.
pub uninterp spec fn stem_of(word: Seq<char>) -> Seq<char>;

/// The lower-case form that the standard library gives a text.
pub uninterp spec fn lowercase_of(text: Seq<char>) -> Seq<char>;

/// Calls `rust_stemmers::Stemmer::stem` with the English algorithm. The stem
/// depends on the word alone; nothing more is claimed of it.
#[verifier::external_body]
fn stem_word(word: &str) -> (out: String)
    ensures
        out@ == stem_of(word@),
{
    Stemmer::create(Algorithm::English).stem(word).into_owned()
}

/// Calls `str::to_lowercase`. The result depends on the text alone; nothing
/// more is claimed of it.
#[verifier::external_body]
fn lowercase(text: &str) -> (out: String)
    ensures
        out@ == lowercase_of(text@),
{
    text.to_lowercase()
}

/// Calls `ngrams::Ngram::ngrams` with a width of three on the characters of
/// `text`. Without padding the adaptor yields each run of three neighbouring
/// characters, from left to right; it needs two characters to start from.
#[verifier::external_body]
fn char_trigrams(text: &str) -> (out: Vec<String>)
    requires
        text@.len() >= 2,
    ensures
        texts(out@) == trigrams(text@),
{
    text.chars().ngrams(3).map(|gram| gram.into_iter().collect()).collect()
}

/// Every run of three neighbouring characters of `s`, from left to right.
pub open spec fn trigrams(s: Seq<char>) -> Seq<Seq<char>> {
    Seq::new(
        if s.len() >= 3 {
            (s.len() - 2) as nat
        } else {
            0
        },
        |i: int| s.subrange(i, i + 3),
    )
}

/// The marker for the character a word begins with: `$` and that character,
/// or `$` alone for an empty word.
pub open spec fn first_char_marker(word: Seq<char>) -> Seq<char> {
    if word.len() == 0 {
        seq!['$']
    } else {
        seq!['$', word[0]]
    }
}

/// The stems of the words that have at least two characters, in order.
pub open spec fn stems_of_long_words(words: Seq<Seq<char>>) -> Seq<Seq<char>>
    decreases words.len(),
{
    if words.len() == 0 {
        Seq::<Seq<char>>::empty()
    } else {
        let before = stems_of_long_words(words.drop_last());
        if words.last().len() >= 2 {
            before.push(stem_of(words.last()))
        } else {
            before
        }
    }
}

/// The word tokens of a text: normalize, cut at spaces, drop what is shorter
/// than two characters, stem the rest.
pub open spec fn spec_clean_words(s: Seq<char>) -> Seq<Seq<char>> {
    stems_of_long_words(split_words(normalize(s)))
}

/// The lower-cased first-character markers of the space-separated words of `s`.
pub open spec fn initial_markers(s: Seq<char>) -> Seq<Seq<char>> {
    split_words(s).map_values(|w: Seq<char>| lowercase_of(first_char_marker(w)))
}

/// The gram tokens of a text.
pub open spec fn spec_gramify(s: Seq<char>) -> Seq<Seq<char>> {
    if s.len() == 0 {
        Seq::<Seq<char>>::empty()
    } else if s.len() == 1 {
        seq![seq!['$', s[0]]]
    } else if s.len() == 2 {
        seq![seq!['$', s[0]], seq![s[1], '$']]
    } else {
        trigrams(join_words(spec_clean_words(s))) + initial_markers(s)
    }
}

/// For each word `$` and its first character; `$` alone for an empty word.
pub fn get_first_chars(words: Vec<String>) -> (out: Vec<String>)
    ensures
        texts(out@) == texts(words@).map_values(|w: Seq<char>| first_char_marker(w)),
{
    let mut out: Vec<String> = Vec::new();
    let mut i: usize = 0;
    while i < words.len()
        invariant
            i <= words.len(),
            texts(out@) == texts(words@).take(i as int).map_values(
                |w: Seq<char>| first_char_marker(w),
            ),
        decreases words.len() - i,
    {
        let word = words[i].as_str();
        let mut marker: Vec<char> = Vec::new();
        marker.push('$');
        if word.unicode_len() > 0 {
            marker.push(word.get_char(0));
        }
        assert(marker@ =~= first_char_marker(word@));
        let ghost before = texts(out@);
        out.push(from_chars(&marker));
        assert(texts(out@) =~= before.push(marker@));
        assert(texts(out@) =~= texts(words@).take(i as int + 1).map_values(
            |w: Seq<char>| first_char_marker(w),
        ));
        i = i + 1;
    }
    assert(texts(words@).take(words.len() as int) =~= texts(words@));
    out
}

/// `s` between two `$`.
pub fn pad_string(s: String) -> (out: String)
    ensures
        out@ == seq!['$'] + s@ + seq!['$'],
{
    proof {
        reveal_strlit("$");
    }
    let mut out = String::from_str("$");
    out.append(s.as_str());
    out.append("$");
    assert("$"@ =~= seq!['$']);
    out
}

/// The pieces of `s` between single spaces.
pub fn get_words(s: String) -> (out: Vec<String>)
    ensures
        texts(out@) == split_words(s@),
{
    let chars = to_chars(s.as_str());
    split_text(&chars)
}

/// The stemmed word tokens of `s`, in the order of the text, repeats kept.
pub fn clean_words(s: String) -> (out: Vec<String>)
    ensures
        texts(out@) == spec_clean_words(s@),
{
    let chars = to_chars(s.as_str());
    let normal = normalize_text(&chars);
    let words = split_text(&normal);
    let mut out: Vec<String> = Vec::new();
    let mut i: usize = 0;
    while i < words.len()
        invariant
            i <= words.len(),
            texts(out@) == stems_of_long_words(texts(words@).take(i as int)),
        decreases words.len() - i,
    {
        let ghost upto = texts(words@).take(i as int + 1);
        assert(upto.drop_last() =~= texts(words@).take(i as int));
        assert(upto.last() == words@[i as int]@);
        let word = words[i].as_str();
        if word.unicode_len() >= 2 {
            let ghost before = texts(out@);
            out.push(stem_word(word));
            assert(texts(out@) =~= before.push(stem_of(word@)));
        }
        i = i + 1;
    }
    assert(texts(words@).take(words.len() as int) =~= texts(words@));
    out
}

/// The gram tokens of `s`: for one character `$` and the character; for two,
/// `$` with the first and the second with `$`; for more, every trigram of the
/// stemmed words joined by spaces, then the lower-cased first-character
/// marker of each space-separated word of `s`.
pub fn gramify(s: String) -> (out: Vec<String>)
    ensures
        texts(out@) == spec_gramify(s@),
{
    let chars = to_chars(s.as_str());
    let mut out: Vec<String> = Vec::new();
    if chars.len() == 0 {
        assert(texts(out@) =~= spec_gramify(s@));
        return out;
    }
    if chars.len() == 1 {
        let mut first: Vec<char> = Vec::new();
        first.push('$');
        first.push(chars[0]);
        out.push(from_chars(&first));
        assert(first@ =~= seq!['$', s@[0]]);
        assert(texts(out@) =~= seq![first@]);
        return out;
    }
    if chars.len() == 2 {
        let mut first: Vec<char> = Vec::new();
        first.push('$');
        first.push(chars[0]);
        let mut second: Vec<char> = Vec::new();
        second.push(chars[1]);
        second.push('$');
        out.push(from_chars(&first));
        out.push(from_chars(&second));
        assert(first@ =~= seq!['$', s@[0]]);
        assert(second@ =~= seq![s@[1], '$']);
        assert(texts(out@) =~= seq![first@, second@]);
        return out;
    }
    let words = clean_words(s.clone());
    let prepared = join_text(&words);
    if prepared.len() >= 2 {
        let prepared_text = from_chars(&prepared);
        out = char_trigrams(prepared_text.as_str());
    }
    assert(texts(out@) =~= trigrams(join_words(spec_clean_words(s@))));
    let markers = get_first_chars(split_text(&chars));
    let ghost raw = texts(markers@);
    let ghost grams = texts(out@);
    let mut i: usize = 0;
    while i < markers.len()
        invariant
            i <= markers.len(),
            raw == texts(markers@),
            texts(out@) == grams + raw.take(i as int).map_values(|t: Seq<char>| lowercase_of(t)),
        decreases markers.len() - i,
    {
        let ghost before = texts(out@);
        out.push(lowercase(markers[i].as_str()));
        assert(texts(out@) =~= before.push(lowercase_of(raw[i as int])));
        assert(texts(out@) =~= grams + raw.take(i as int + 1).map_values(
            |t: Seq<char>| lowercase_of(t),
        ));
        i = i + 1;
    }
    assert(raw.take(markers.len() as int) =~= raw);
    assert(raw.map_values(|t: Seq<char>| lowercase_of(t)) =~= initial_markers(s@));
    out
}

} // verus!
