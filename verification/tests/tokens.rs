use fulltext_index::lp::{clean_words, get_first_chars, get_words, gramify, pad_string};
use fulltext_index::text::{from_chars, normalize_text, split_chars, split_text, to_chars, trim};

fn strings(items: &[&str]) -> Vec<String> {
    items.iter().map(|s| s.to_string()).collect()
}

#[test]
fn chars_round_trip() {
    let chars = to_chars("héllo wörld");
    assert_eq!(chars.len(), 11);
    assert_eq!(from_chars(&chars), "héllo wörld");
    assert_eq!(to_chars(""), Vec::<char>::new());
}

#[test]
fn trim_removes_outer_whitespace_only() {
    assert_eq!(trim("  hello world \t\n"), "hello world");
    assert_eq!(trim(""), "");
    assert_eq!(trim(" \u{3000}\u{a0} "), "");
    assert_eq!(trim("a"), "a");
    assert_eq!(trim("\u{2003}x y\u{85}"), "x y");
}

#[test]
fn trim_agrees_with_std_on_every_whitespace_character() {
    let mut code: u32 = 0;
    while code < 0x3100 {
        if let Some(c) = char::from_u32(code) {
            let text = format!("{}a{}", c, c);
            assert_eq!(trim(&text), text.trim(), "U+{:04X}", code);
        }
        code += 1;
    }
}

#[test]
fn normalize_lowers_letters_and_blanks_the_rest() {
    let out = normalize_text(&to_chars("Hello, World-2é"));
    assert_eq!(from_chars(&out), "hello  world 2 ");
}

#[test]
fn split_keeps_empty_pieces() {
    assert_eq!(split_text(&to_chars("a  b ")), strings(&["a", "", "b", ""]));
    assert_eq!(split_text(&to_chars("")), strings(&[""]));
    assert_eq!(split_chars(&to_chars("a.b..c"), '.'), strings(&["a", "b", "", "c"]));
}

#[test]
fn get_words_splits_on_single_spaces() {
    assert_eq!(get_words("hello big  world".to_string()), strings(&["hello", "big", "", "world"]));
    assert_eq!(get_words("one".to_string()), strings(&["one"]));
}

#[test]
fn get_first_chars_marks_each_word() {
    let out = get_first_chars(strings(&["Hello", "world", "", "éa"]));
    assert_eq!(out, strings(&["$H", "$w", "$", "$é"]));
}

#[test]
fn pad_string_wraps_in_dollars() {
    assert_eq!(pad_string("abc".to_string()), "$abc$");
    assert_eq!(pad_string(String::new()), "$$");
}

#[test]
fn clean_words_stems_and_drops_short_words() {
    assert_eq!(
        clean_words("Running a fruitlessly-long RACE, I".to_string()),
        strings(&["run", "fruitless", "long", "race"])
    );
    assert_eq!(clean_words("".to_string()), Vec::<String>::new());
    assert_eq!(clean_words("a b c".to_string()), Vec::<String>::new());
}

#[test]
fn clean_words_keeps_repeats_in_order() {
    assert_eq!(
        clean_words("cats dogs cats".to_string()),
        strings(&["cat", "dog", "cat"])
    );
}

#[test]
fn gramify_of_short_texts() {
    assert_eq!(gramify("".to_string()), Vec::<String>::new());
    assert_eq!(gramify("A".to_string()), strings(&["$A"]));
    assert_eq!(gramify("Ab".to_string()), strings(&["$A", "b$"]));
}

#[test]
fn gramify_of_one_word() {
    assert_eq!(gramify("Hello".to_string()), strings(&["hel", "ell", "llo", "$h"]));
}

#[test]
fn gramify_slides_over_the_space_between_stems() {
    assert_eq!(
        gramify("Hello World".to_string()),
        strings(&["hel", "ell", "llo", "lo ", "o w", " wo", "wor", "orl", "rld", "$h", "$w"])
    );
}

#[test]
fn gramify_uses_stems_for_grams_and_raw_words_for_markers() {
    assert_eq!(
        gramify("Running  x".to_string()),
        strings(&["run", "$r", "$", "$x"])
    );
}

#[test]
fn gramify_without_long_words_gives_markers_only() {
    assert_eq!(gramify("a b c".to_string()), strings(&["$a", "$b", "$c"]));
    assert_eq!(gramify("ab c".to_string()), strings(&["$a", "$c"]));
}
