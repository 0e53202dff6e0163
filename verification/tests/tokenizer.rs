use captain_crunch::tokenizer::{tokenize, ESCAPE, SEPARATOR};

fn strings(items: &[&str]) -> Vec<String> {
    items.iter().map(|s| s.to_string()).collect()
}

#[test]
fn separator_and_escape_are_fixed() {
    assert_eq!(SEPARATOR, '|');
    assert_eq!(ESCAPE, '\\');
}

#[test]
fn plain_text_is_one_token() {
    assert_eq!(tokenize("password"), strings(&["password"]));
    assert_eq!(tokenize("two words"), strings(&["two words"]));
}

#[test]
fn empty_text_is_one_empty_token() {
    assert_eq!(tokenize(""), strings(&[""]));
}

#[test]
fn separator_splits() {
    assert_eq!(tokenize("a|b|c"), strings(&["a", "b", "c"]));
}

#[test]
fn escaped_separator_does_not_split() {
    assert_eq!(tokenize("a\\|b|c"), strings(&["a|b", "c"]));
}

#[test]
fn escaped_escape_is_kept_once() {
    assert_eq!(tokenize("a\\\\b"), strings(&["a\\b"]));
    assert_eq!(tokenize("a\\\\|b"), strings(&["a\\", "b"]));
}

#[test]
fn escape_before_ordinary_character_is_dropped() {
    assert_eq!(tokenize("\\a\\b"), strings(&["ab"]));
}

#[test]
fn escape_at_the_end_is_dropped() {
    assert_eq!(tokenize("ab\\"), strings(&["ab"]));
    assert_eq!(tokenize("a|\\"), strings(&["a", ""]));
    assert_eq!(tokenize("\\"), strings(&[""]));
}

#[test]
fn separators_at_the_edges_give_empty_tokens() {
    assert_eq!(tokenize("|a|"), strings(&["", "a", ""]));
    assert_eq!(tokenize("|"), strings(&["", ""]));
    assert_eq!(tokenize("a||b"), strings(&["a", "", "b"]));
}

#[test]
fn characters_outside_ascii_pass_through() {
    assert_eq!(tokenize("é|ß\\|ü|日本"), strings(&["é", "ß|ü", "日本"]));
}

#[test]
fn repeated_tokens_are_kept() {
    assert_eq!(tokenize("a|a"), strings(&["a", "a"]));
}

#[test]
fn gluing_two_texts_joins_the_tokens_at_the_seam() {
    let left = tokenize("x|ab");
    let right = tokenize("cd|y");
    let whole = tokenize("x|abcd|y");
    assert_eq!(left, strings(&["x", "ab"]));
    assert_eq!(right, strings(&["cd", "y"]));
    assert_eq!(whole, strings(&["x", "abcd", "y"]));
}
