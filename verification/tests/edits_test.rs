use forgetmenot::edits::replace_in_body;

const BODY: &str = "Cut bench power at the wall.\nCheck the wall socket.";

#[test]
fn a_snippet_found_once_is_replaced_and_the_body_ends_with_a_newline() {
    assert_eq!(
        replace_in_body(BODY, "bench power", "the bench supply", false),
        Ok("Cut the bench supply at the wall.\nCheck the wall socket.\n".to_string())
    );
}

#[test]
fn a_snippet_found_several_times_is_refused_unless_every_one_is_replaced() {
    assert_eq!(
        replace_in_body(BODY, "wall", "mains", false),
        Err("old_string appears 2 times in this memory's body; send replace_all to replace every one of them"
            .to_string())
    );
    assert_eq!(
        replace_in_body(BODY, "wall", "mains", true),
        Ok("Cut bench power at the mains.\nCheck the mains socket.\n".to_string())
    );
}

#[test]
fn an_empty_or_absent_snippet_is_refused() {
    assert_eq!(
        replace_in_body(BODY, "", "x", true),
        Err("old_string is empty: a replacement needs the text it replaces".to_string())
    );
    assert_eq!(
        replace_in_body(BODY, "soldering iron", "x", true),
        Err("old_string does not appear in this memory's body, so there is nothing to replace".to_string())
    );
}

#[test]
fn occurrences_are_counted_from_the_left_without_overlapping() {
    // "aa" occurs twice in "aaaa" and not three times.
    assert_eq!(
        replace_in_body("aaaa\n", "aa", "b", false),
        Err("old_string appears 2 times in this memory's body; send replace_all to replace every one of them"
            .to_string())
    );
    assert_eq!(replace_in_body("aaa\n", "aa", "b", false), Ok("ba\n".to_string()));
    assert_eq!(replace_in_body("aaaa\n", "aa", "b", true), Ok("bb\n".to_string()));
    // A replacement that empties the body leaves it empty.
    assert_eq!(replace_in_body("gone", "gone", "", false), Ok(String::new()));
    // Characters of any width are one character each.
    assert_eq!(replace_in_body("é-é", "-", "→", false), Ok("é→é\n".to_string()));
}
