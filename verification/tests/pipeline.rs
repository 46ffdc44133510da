use helix_move::add_missing_directories;
use helix_move::build_rules;
use helix_move::create_edit_rules;
use helix_move::filter_full_rules;
use helix_move::normalize_rules;
use helix_move::EditRule;
use helix_move::FullRule;
use helix_move::Rule;

fn s(v: &[&str]) -> Vec<String> {
    v.iter().map(|x| x.to_string()).collect()
}

fn unchanged(p: &str) -> Rule {
    Rule::Unchanged { path: p.to_string() }
}

fn renamed(f: &str, t: &str) -> Rule {
    Rule::Renamed { from: f.to_string(), to: t.to_string() }
}

fn deleted(p: &str) -> Rule {
    Rule::Deleted { path: p.to_string() }
}

#[test]
fn build_rules_classifies_each_slot() {
    let original = s(&["keep", "old/", "gone"]);
    let edited = s(&["keep", "new/", "- "]);
    let rules = build_rules(&original, &edited);
    assert_eq!(rules, vec![unchanged("keep"), renamed("old/", "new/"), deleted("gone")]);
}

#[test]
fn build_rules_length_matches_input() {
    let original = s(&["a", "b", "c", "d/"]);
    let edited = s(&["a", "x", "- ", "d/"]);
    assert_eq!(build_rules(&original, &edited).len(), original.len());
}

#[test]
fn build_rules_sentinel_on_both_sides_is_a_rename() {
    // A line that already started with the sentinel cannot be deleted by it.
    let original = s(&["- odd"]);
    let edited = s(&["- other"]);
    let rules = build_rules(&original, &edited);
    assert_eq!(rules, vec![renamed("- odd", "- other")]);
}

#[test]
fn round_trip_example() {
    // original ["a/", "a/x"], edited ["b/", "a/x"]
    let rules = build_rules(&s(&["a/", "a/x"]), &s(&["b/", "a/x"]));
    assert_eq!(rules, vec![renamed("a/", "b/"), unchanged("a/x")]);

    let normalized = normalize_rules(&rules);
    assert_eq!(normalized, vec![renamed("a/", "b/"), renamed("a/x", "b/x")]);

    let full = add_missing_directories(&normalized);
    assert_eq!(
        full,
        vec![
            FullRule::Renamed { from: "a/".to_string(), to: "b/".to_string() },
            FullRule::Renamed { from: "a/x".to_string(), to: "b/x".to_string() },
        ]
    );

    let edits = create_edit_rules(&full);
    assert_eq!(
        edits,
        vec![
            EditRule::Renamed { from: "a/".to_string(), to: "b/".to_string() },
            EditRule::Renamed { from: "a/x".to_string(), to: "b/x".to_string() },
        ]
    );
}

#[test]
fn deletion_example() {
    // original ["a/", "a/x"], edited ["- ", "a/x"]: the cascade deletes both.
    let rules = build_rules(&s(&["a/", "a/x"]), &s(&["- ", "a/x"]));
    assert_eq!(rules, vec![deleted("a/"), unchanged("a/x")]);

    let normalized = normalize_rules(&rules);
    assert_eq!(normalized, vec![deleted("a/"), deleted("a/x")]);

    let full = add_missing_directories(&normalized);
    let filtered = filter_full_rules(&full);
    let lines: Vec<String> = filtered.iter().map(|r| r.render()).collect();
    assert_eq!(lines, vec!["- a/".to_string(), "- a/x".to_string()]);

    // Deletions demand no action: applying yields an empty plan.
    assert_eq!(create_edit_rules(&full), vec![]);
}

#[test]
fn delete_cascade_ignores_edits_of_descendants() {
    let original = s(&["a/", "a/x", "a/y", "b"]);
    let edited = s(&["- ", "a/renamed", "a/y", "b"]);
    let normalized = normalize_rules(&build_rules(&original, &edited));
    assert_eq!(
        normalized,
        vec![deleted("a/"), deleted("a/x"), deleted("a/y"), unchanged("b")]
    );
}

#[test]
fn delete_cascade_matches_whole_segments_only() {
    let original = s(&["a/", "ab/", "ab/x"]);
    let edited = s(&["- ", "ab/", "ab/x"]);
    let normalized = normalize_rules(&build_rules(&original, &edited));
    // "ab/" is not under "a/": only the deleted directory itself goes.
    assert_eq!(normalized, vec![deleted("a/"), unchanged("ab/"), unchanged("ab/x")]);
}

#[test]
fn rename_cascade_rewrites_descendants() {
    let rules = build_rules(
        &s(&["./testdel/abc/d", "./testdel/abc/d/test3"]),
        &s(&["./testdel/abxc/d", "./testdel/abc/d/test3"]),
    );
    let normalized = normalize_rules(&rules);
    assert_eq!(
        normalized,
        vec![
            renamed("./testdel/abc/d", "./testdel/abxc/d"),
            renamed("./testdel/abc/d/test3", "./testdel/abxc/d/test3"),
        ]
    );
    assert_eq!(normalized, normalize_rules(&normalized));
}

#[test]
fn rename_of_both_lines_is_not_rewritten_twice() {
    let rules = build_rules(
        &s(&["./testdel/abc/d", "./testdel/abc/d/test3"]),
        &s(&["./testdel/abxc/d", "./testdel/abxc/d/test3"]),
    );
    let normalized = normalize_rules(&rules);
    assert_eq!(
        normalized,
        vec![
            renamed("./testdel/abc/d", "./testdel/abxc/d"),
            renamed("./testdel/abc/d/test3", "./testdel/abxc/d/test3"),
        ]
    );
    assert_eq!(normalized, normalize_rules(&normalized));
}

#[test]
fn normalize_is_idempotent_on_deletions() {
    let rules = build_rules(&s(&["a/", "a/x", "a/x/y"]), &s(&["- ", "kept", "- "]));
    let once = normalize_rules(&rules);
    assert_eq!(once, normalize_rules(&once));
}

#[test]
fn shallow_renames_propagate_before_deep_ones() {
    // Renaming "a/" and "a/b/" in one edit: the outer rename, being
    // shallower, runs first and rewrites both later destinations; the inner
    // rename's own destination moves to "z/c/", but the leaf's destination
    // has already left the "a/b/" subtree, so the inner rename no longer
    // touches it.
    let original = s(&["a/", "a/b/", "a/b/f"]);
    let edited = s(&["z/", "a/c/", "a/b/f"]);
    let normalized = normalize_rules(&build_rules(&original, &edited));
    assert_eq!(
        normalized,
        vec![renamed("a/", "z/"), renamed("a/b/", "z/c/"), renamed("a/b/f", "z/b/f")]
    );
    assert_eq!(normalized, normalize_rules(&normalized));
}

#[test]
fn nested_rename_chain_resolves_outer_to_inner() {
    // Only the outermost directory is renamed: every descendant, including
    // the deeper directory line, follows it exactly once.
    let original = s(&["a/", "a/b/", "a/b/f"]);
    let edited = s(&["z/", "a/b/", "a/b/f"]);
    let normalized = normalize_rules(&build_rules(&original, &edited));
    assert_eq!(
        normalized,
        vec![renamed("a/", "z/"), renamed("a/b/", "z/b/"), renamed("a/b/f", "z/b/f")]
    );
    assert_eq!(normalized, normalize_rules(&normalized));
}

#[test]
fn synthesis_adds_each_missing_parent_once() {
    let normalized = vec![renamed("x", "n/a"), renamed("y", "n/b")];
    let full = add_missing_directories(&normalized);
    assert_eq!(
        full,
        vec![
            FullRule::Added { path: "n/".to_string() },
            FullRule::Renamed { from: "x".to_string(), to: "n/a".to_string() },
            FullRule::Renamed { from: "y".to_string(), to: "n/b".to_string() },
        ]
    );
}

#[test]
fn synthesis_creates_parent_chain_top_down() {
    let normalized = vec![renamed("x", "a/b/c")];
    let full = add_missing_directories(&normalized);
    assert_eq!(
        full,
        vec![
            FullRule::Added { path: "a/".to_string() },
            FullRule::Added { path: "a/b/".to_string() },
            FullRule::Renamed { from: "x".to_string(), to: "a/b/c".to_string() },
        ]
    );
}

#[test]
fn synthesis_skips_parents_an_earlier_rule_provides() {
    let normalized = vec![unchanged("a/"), renamed("x", "a/y")];
    let full = add_missing_directories(&normalized);
    assert_eq!(
        full,
        vec![
            FullRule::Unchanged { path: "a/".to_string() },
            FullRule::Renamed { from: "x".to_string(), to: "a/y".to_string() },
        ]
    );
}

#[test]
fn synthesis_only_knows_destinations_seen_so_far() {
    // The known set grows left to right: a destination that only a later
    // rule provides does not suppress synthesis for an earlier rename.
    let normalized = vec![renamed("x", "a/y"), unchanged("a/")];
    let full = add_missing_directories(&normalized);
    assert_eq!(
        full,
        vec![
            FullRule::Added { path: "a/".to_string() },
            FullRule::Renamed { from: "x".to_string(), to: "a/y".to_string() },
            FullRule::Unchanged { path: "a/".to_string() },
        ]
    );
}

#[test]
fn filter_drops_only_unchanged_rules() {
    let full = vec![
        FullRule::Unchanged { path: "k".to_string() },
        FullRule::Added { path: "d/".to_string() },
        FullRule::Renamed { from: "a".to_string(), to: "d/a".to_string() },
        FullRule::Deleted { path: "z".to_string() },
    ];
    let filtered = filter_full_rules(&full);
    assert_eq!(filtered, full[1..].to_vec());
}

#[test]
fn edit_rules_keep_order_and_drop_deletions() {
    let full = vec![
        FullRule::Unchanged { path: "k".to_string() },
        FullRule::Deleted { path: "z".to_string() },
        FullRule::Added { path: "d/".to_string() },
        FullRule::Renamed { from: "a".to_string(), to: "d/a".to_string() },
    ];
    let edits = create_edit_rules(&full);
    assert_eq!(
        edits,
        vec![
            EditRule::Unchanged { path: "k".to_string() },
            EditRule::Added { path: "d/".to_string() },
            EditRule::Renamed { from: "a".to_string(), to: "d/a".to_string() },
        ]
    );
}

#[test]
fn empty_listings_give_an_empty_plan() {
    let rules = build_rules(&s(&[]), &s(&[]));
    assert_eq!(rules, vec![]);
    let normalized = normalize_rules(&rules);
    assert_eq!(normalized, vec![]);
    let full = add_missing_directories(&normalized);
    assert_eq!(full, vec![]);
    assert_eq!(filter_full_rules(&full), vec![]);
    assert_eq!(create_edit_rules(&full), vec![]);
}

#[test]
fn pipeline_handles_paths_beyond_ascii() {
    let original = s(&["ordner ä/", "ordner ä/datei ü"]);
    let edited = s(&["ordner ö/", "ordner ä/datei ü"]);
    let normalized = normalize_rules(&build_rules(&original, &edited));
    assert_eq!(
        normalized,
        vec![
            renamed("ordner ä/", "ordner ö/"),
            renamed("ordner ä/datei ü", "ordner ö/datei ü"),
        ]
    );
    assert_eq!(normalized, normalize_rules(&normalized));
}

#[test]
fn render_shows_the_four_line_shapes() {
    assert_eq!(FullRule::Unchanged { path: "a".to_string() }.render(), "! a");
    assert_eq!(
        FullRule::Renamed { from: "a".to_string(), to: "b".to_string() }.render(),
        "~ a -> b"
    );
    assert_eq!(FullRule::Deleted { path: "a".to_string() }.render(), "- a");
    assert_eq!(FullRule::Added { path: "d/".to_string() }.render(), "+ d/");
}
