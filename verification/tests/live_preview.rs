use helix_move::apply_rules_to_list;
use helix_move::build_rules;
use helix_move::normalize_rules;
use helix_move::LiveNormalizer;

fn s(v: &[&str]) -> Vec<String> {
    v.iter().map(|x| x.to_string()).collect()
}

#[test]
fn flattening_shows_destinations_and_sentinels() {
    let rules = normalize_rules(&build_rules(
        &s(&["a/", "a/x", "gone"]),
        &s(&["b/", "a/x", "- "]),
    ));
    assert_eq!(apply_rules_to_list(&rules), s(&["b/", "b/x", "- "]));
}

#[test]
fn an_edit_pushes_the_normalized_listing_back() {
    let mut live = LiveNormalizer::new(s(&["a/", "a/x"]));
    let reply = live.on_edit(&s(&["b/", "a/x"]));
    assert_eq!(reply, Some(s(&["b/", "b/x"])));
}

#[test]
fn events_during_an_inflight_replacement_are_dropped() {
    let mut live = LiveNormalizer::new(s(&["a/", "a/x"]));
    let reply = live.on_edit(&s(&["b/", "a/x"]));
    assert!(reply.is_some());
    // The editor has not confirmed the replacement yet: drop this event.
    assert_eq!(live.on_edit(&s(&["c/", "a/x"])), None);
    live.replacement_applied();
    // The echoed replacement arrives as one more change event; it matches
    // the tracked listing, so nothing further is pushed.
    assert_eq!(live.on_edit(&s(&["b/", "b/x"])), None);
}

#[test]
fn an_edit_of_the_wrong_length_is_ignored() {
    let mut live = LiveNormalizer::new(s(&["a/", "a/x"]));
    assert_eq!(live.on_edit(&s(&["a/"])), None);
    assert_eq!(live.on_edit(&s(&["a/", "a/x", "extra"])), None);
    // The tracked listing is untouched: a normal edit still works.
    assert_eq!(live.on_edit(&s(&["b/", "a/x"])), Some(s(&["b/", "b/x"])));
}

#[test]
fn an_edit_that_changes_nothing_pushes_nothing() {
    let mut live = LiveNormalizer::new(s(&["a/", "a/x"]));
    assert_eq!(live.on_edit(&s(&["a/", "a/x"])), None);
    // A plain leaf rename needs no cascade, so the text is already right.
    assert_eq!(live.on_edit(&s(&["a/", "a/y"])), None);
}

#[test]
fn deleting_a_directory_rewrites_its_descendants_lines() {
    let mut live = LiveNormalizer::new(s(&["a/", "a/x"]));
    let reply = live.on_edit(&s(&["- ", "a/x"]));
    assert_eq!(reply, Some(s(&["- ", "- "])));
}

#[test]
fn original_listing_and_padding_width_serve_the_annotations() {
    let live = LiveNormalizer::new(s(&["a/", "a/x", "longer/name"]));
    assert_eq!(live.original_lines(), &s(&["a/", "a/x", "longer/name"]));
    assert_eq!(live.max_entry_len(), 11);
}

#[test]
fn padding_width_of_an_empty_listing_is_zero() {
    let live = LiveNormalizer::new(Vec::new());
    assert_eq!(live.max_entry_len(), 0);
}
