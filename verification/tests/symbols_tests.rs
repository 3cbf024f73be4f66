use hay::symbols::CharIdxMap;
use hay::hay::Hay;

#[test]
fn ascii_maps_to_its_own_code_point() {
    let m = CharIdxMap::new("abc");
    assert_eq!(m.index_for('a'), 97);
    assert_eq!(m.index_for('Z'), 90);
    assert_eq!(m.char_at(97), 'a');
    assert_eq!(m.char_at(0), '\u{0}');
}

#[test]
fn round_trip_on_every_non_ascii_character() {
    let source = "ab\u{e9}\u{6f22}x\u{e9}";
    let m = CharIdxMap::new(source);
    for c in source.chars() {
        assert_eq!(m.char_at(m.index_for(c)), c);
    }
    assert_eq!(m.index_for('\u{e9}'), 129);
    assert_eq!(m.index_for('\u{6f22}'), 130);
    assert_eq!(m.char_at(129), '\u{e9}');
    assert_eq!(m.char_at(130), '\u{6f22}');
}

#[test]
fn unused_high_slot_yields_replacement_character() {
    let m = CharIdxMap::new("plain ascii");
    assert_eq!(m.char_at(200), '\u{fffd}');
    assert_eq!(m.char_at(129), '\u{fffd}');
}

#[test]
fn index_is_built_over_the_nfc_form() {
    // The source spells e-acute as 'e' plus a combining accent; NFC composes
    // it, so the one registered non-ASCII character is the composed form.
    let hay = Hay::new("e\u{301}x e\u{301}x", 1, false);
    assert_eq!(hay.symbol_index().char_at(129), '\u{e9}');
    assert_eq!(hay.symbol_index().index_for('\u{e9}'), 129);
}

#[test]
fn characters_are_collapsed_to_single_spaces() {
    let hay = Hay::new(" a  b\t\nc ", 1, false);
    let text: String = hay.characters().iter().collect();
    assert_eq!(text, "a b c");
}
