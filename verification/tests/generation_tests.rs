use hay::hay::Hay;
use hay::sample::Rand;

#[test]
fn range_and_tail_utilities_count_characters() {
    assert_eq!(Hay::get_range("hello", 1, 3), "ell");
    assert_eq!(Hay::get_range("a\u{e9}c", 1, 2), "\u{e9}c");
    assert_eq!(Hay::get_seq(&vec!['a', 'b', 'c'], 2), vec!['b', 'c']);
}

#[test]
fn frequencies_count_every_follower() {
    // Source "aaab", tail "a": followers are a (after index 0), a (after
    // index 1) and b (after index 2), so the table reads {a: 2, b: 1}.
    let hay = Hay::new("aaab", 1, false);
    let freq = hay.follow_frequencies(&vec!['a']);
    assert_eq!(freq.len(), 129);
    assert_eq!(freq['a' as usize], 2);
    assert_eq!(freq['b' as usize], 1);
    for (slot, &count) in freq.iter().enumerate() {
        if slot != 'a' as usize && slot != 'b' as usize {
            assert_eq!(count, 0);
        }
    }
}

#[test]
fn frequencies_allow_overlapping_occurrences() {
    // Tail "aa" occurs at 0, 1 and 2 in "aaaa": overlaps all count, and only
    // the first two have followers.
    let hay = Hay::new("aaaa", 2, false);
    let freq = hay.follow_frequencies(&vec!['a', 'a']);
    assert_eq!(freq['a' as usize], 2);
}

#[test]
fn word_matcher_finds_the_other_occurrence() {
    let source = "the cat sat on the mat the cat ran far away now";
    let hay = Hay::new(source, 2, true);
    let tail = hay.get_words(0);
    // "the cat" starts at 0 and 6; with the draw fixed on the second
    // candidate the matcher lands on 6, and the next chunk is "ran far".
    let mut rand = Rand::fixed(vec![1]);
    assert_eq!(hay.get_next_index(&tail, &mut rand), Some(6));
    assert_eq!(hay.get_words(6 + 2).render(), "ran far ");
    let mut rand = Rand::fixed(vec![0]);
    assert_eq!(hay.get_next_index(&tail, &mut rand), Some(0));
}

#[test]
fn word_matcher_reports_a_unique_tail() {
    // "the cat" recurs at index 6, but the scan stops at the safe bound
    // (content length minus twice the sequence length, here 5), so the only
    // match is the tail's own seed and no continuation exists.
    let source = "the cat sat on the mat the cat ran";
    let hay = Hay::new(source, 2, true);
    let tail = hay.get_words(0);
    let mut rand = Rand::fixed(vec![0]);
    assert_eq!(hay.get_next_index(&tail, &mut rand), None);
}

#[test]
fn char_output_never_invents_ngrams() {
    let source = "abracadabra abracadabra zabra";
    let hay = Hay::new(source, 3, false);
    let text: Vec<char> = hay.characters().clone();
    let mut rand = Rand::ambient();
    let out: Vec<char> = hay.generate_output(60, &mut rand).chars().collect();
    assert!(out.len() >= 3);
    assert!(out.len() <= 63);
    for window in out.windows(3) {
        assert!(
            text.windows(3).any(|w| w == window),
            "window {:?} is not in the source",
            window
        );
    }
}

#[test]
fn degenerate_request_still_returns_the_seed() {
    let mut rand = Rand::ambient();
    let word_hay = Hay::new("one two three four five six", 2, true);
    let out = word_hay.generate_output(0, &mut rand);
    assert!(!out.is_empty());
    let char_hay = Hay::new("abcdef", 3, false);
    let out = char_hay.generate_output(0, &mut rand);
    assert_eq!(out.chars().count(), 3);
}

#[test]
fn backtracking_terminates_on_a_dead_end() {
    // In "ab" the tail "b" has no follower anywhere: the generator pops back
    // to the seed, retries, and settles without looping forever.
    let hay = Hay::new("ab", 1, false);
    let mut rand = Rand::fixed(vec![0]);
    let out = hay.generate_output(3, &mut rand);
    assert_eq!(out, "ab");
}

#[test]
fn single_symbol_source_extends_to_the_budget() {
    let hay = Hay::new("aa", 1, false);
    let mut rand = Rand::fixed(vec![0]);
    let out = hay.generate_output(5, &mut rand);
    assert_eq!(out, "aaaaaa");
}

#[test]
fn word_output_exceeds_the_requested_length() {
    let source = "the cat sat on the mat the cat ran far away now and then";
    let hay = Hay::new(source, 2, true);
    let mut rand = Rand::ambient();
    let out = hay.generate_output(40, &mut rand);
    assert!(out.chars().count() > 40);
    // Every emitted word is a word of the source.
    for word in out.split_whitespace() {
        assert!(source.split_whitespace().any(|w| w == word));
    }
}

#[test]
fn readiness_reflects_the_input_size() {
    assert!(Hay::new("abcdef", 3, false).can_generate());
    assert!(!Hay::new("abc", 3, false).can_generate());
    assert!(Hay::new("a b c d e", 2, true).can_generate());
    assert!(!Hay::new("a b c d", 2, true).can_generate());
    assert!(!Hay::new("abcdef", 0, false).can_generate());
}

#[test]
fn content_length_follows_the_mode() {
    assert_eq!(Hay::new("ab cd ef", 1, true).content_length(), 3);
    assert_eq!(Hay::new("ab cd ef", 1, false).content_length(), 8);
    let hay = Hay::new("ab cd ef", 1, true);
    assert_eq!(hay.last_safe_index(), 1);
}
