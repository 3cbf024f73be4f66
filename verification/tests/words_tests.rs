use hay::words::{Word, WordTokens, Words};

fn tokens_from(sources: &[&str]) -> WordTokens {
    let words: Vec<Word> = sources.iter().map(|s| Word::new(s)).collect();
    WordTokens::new(words)
}

fn chars_to_string(v: &Vec<char>) -> String {
    v.iter().collect()
}

#[test]
fn word_fields_strip_and_lowercase() {
    let w = Word::new("Hello,");
    assert_eq!(chars_to_string(w.source_chars()), "Hello,");
    assert_eq!(chars_to_string(w.depunct_chars()), "Hello");
    assert_eq!(chars_to_string(w.bare_chars()), "hello");
}

#[test]
fn word_strips_every_non_word_character() {
    let w = Word::new("don't!?");
    assert_eq!(chars_to_string(w.source_chars()), "don't!?");
    assert_eq!(chars_to_string(w.depunct_chars()), "dont");
    assert_eq!(chars_to_string(w.bare_chars()), "dont");
}

#[test]
fn equality_ignores_case_and_punctuation() {
    let a = tokens_from(&["Hello,", "World!"]);
    let b = tokens_from(&["hello", "world"]);
    assert!(a == b);
    assert_ne!(a.render(), b.render());
    assert_eq!(a.render(), "Hello, World! ");
    assert_eq!(b.render(), "hello world ");
}

#[test]
fn equality_is_positional() {
    let a = tokens_from(&["one", "two"]);
    let b = tokens_from(&["two", "one"]);
    assert!(a != b);
    let c = tokens_from(&["one"]);
    assert!(a != c);
}

#[test]
fn render_appends_a_space_after_every_word() {
    let t = tokens_from(&["a"]);
    assert_eq!(t.render(), "a ");
    let empty = WordTokens::new(Vec::new());
    assert_eq!(empty.render(), "");
}

#[test]
fn words_split_on_whitespace_runs() {
    let ws = Words::new("  the cat\t\tsat \n on ");
    assert_eq!(ws.len(), 4);
    let none = Words::new("   \t\n ");
    assert_eq!(none.len(), 0);
}
