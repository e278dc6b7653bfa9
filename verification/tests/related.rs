use budget::related::related;

fn list(texts: &[&str]) -> Vec<String> {
    texts.iter().map(|t| t.to_string()).collect()
}

#[test]
fn related_leaves_out_what_was_requested() {
    let out = related(&list(&["car", "food", "home"]), &list(&["food"]));
    assert_eq!(out, list(&["car", "home"]));
}

#[test]
fn related_with_nothing_requested_is_all_seen() {
    let seen = list(&["car", "food", "home"]);
    assert_eq!(related(&seen, &list(&[])), seen);
}

#[test]
fn related_is_unchanged_by_seeing_the_requested() {
    let seen = list(&["car", "food"]);
    let requested = list(&["food", "rent"]);
    let mut both = seen.clone();
    both.extend(requested.clone());
    assert_eq!(related(&both, &requested), related(&seen, &requested));
    assert_eq!(related(&seen, &requested), list(&["car"]));
}

#[test]
fn related_compares_letter_for_letter() {
    let out = related(&list(&["Food", "food", "foo"]), &list(&["food", "!foo"]));
    assert_eq!(out, list(&["Food", "foo"]));
}

#[test]
fn related_of_nothing_seen_is_nothing() {
    assert!(related(&list(&[]), &list(&["food"])).is_empty());
}
