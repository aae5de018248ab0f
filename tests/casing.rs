use git_cliff_core::casing::upper_first;

#[test]
fn upper_first_capitalizes_first_letter() {
    assert_eq!(upper_first("add xyz"), "Add xyz");
    assert_eq!(upper_first("fix abc"), "Fix abc");
}

#[test]
fn upper_first_empty_stays_empty() {
    assert_eq!(upper_first(""), "");
}

#[test]
fn upper_first_single_character() {
    assert_eq!(upper_first("a"), "A");
    assert_eq!(upper_first("Z"), "Z");
    assert_eq!(upper_first("1"), "1");
}

#[test]
fn upper_first_keeps_capitalized_ascii() {
    assert_eq!(upper_first("Hello world"), "Hello world");
    assert_eq!(upper_first("# heading"), "# heading");
}

#[test]
fn upper_first_twice_is_once() {
    for s in ["add xyz", "Fix", "x", "", "9 lives", "a B c"] {
        let once = upper_first(s);
        assert_eq!(upper_first(&once), once);
    }
}

#[test]
fn upper_first_multi_character_expansion() {
    assert_eq!(upper_first("\u{df}traße"), "SStraße");
}

#[test]
fn upper_first_non_ascii_first_character() {
    assert_eq!(upper_first("\u{e9}t\u{e9}"), "\u{c9}t\u{e9}");
    assert_eq!(upper_first("\u{3b1}\u{3b2}"), "\u{391}\u{3b2}");
}
