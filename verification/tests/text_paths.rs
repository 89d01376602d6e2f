use roflux::paths::{child, join, join_with, split};
use roflux::text::{compare_str, decimal_of, trim_matches};

fn owned(parts: &[&str]) -> Vec<String> {
    parts.iter().map(|p| p.to_string()).collect()
}

#[test]
fn split_separates_on_slashes_dots_and_backslashes() {
    assert_eq!(split("ReplicatedStorage/Shared.Greeting\\Inner"), owned(&["ReplicatedStorage", "Shared", "Greeting", "Inner"]));
}

#[test]
fn split_drops_empty_and_trims_parts() {
    assert_eq!(split("//  A / B //"), owned(&["A", "B"]));
    assert!(split("").is_empty());
    assert!(split(" / . ").is_empty());
}

#[test]
fn join_puts_slashes_between() {
    assert_eq!(join(&owned(&["A", "B", "C"])), "A/B/C");
    assert_eq!(join(&owned(&[])), "");
    assert_eq!(join_with(&owned(&["x", "y"]), ", "), "x, y");
}

#[test]
fn split_undoes_join_for_plain_parts() {
    let parts = owned(&["Workspace", "Map", "Spawn"]);
    assert_eq!(split(&join(&parts)), parts);
}

#[test]
fn child_of_empty_parent_is_the_name() {
    assert_eq!(child("", "Workspace"), "Workspace");
    assert_eq!(child("Workspace", "Map"), "Workspace/Map");
}

#[test]
fn split_of_child_appends_the_name() {
    assert_eq!(split(&child("A/B", "C")), owned(&["A", "B", "C"]));
}

#[test]
fn decimal_writes_numbers() {
    assert_eq!(decimal_of(0), "0");
    assert_eq!(decimal_of(7), "7");
    assert_eq!(decimal_of(34872), "34872");
}

#[test]
fn trim_matches_strips_both_ends() {
    assert_eq!(trim_matches("//a/b//", '/'), "a/b");
    assert_eq!(trim_matches("///", '/'), "");
}

#[test]
fn compare_orders_like_strings() {
    assert_eq!(compare_str("a", "b"), -1);
    assert_eq!(compare_str("b", "a"), 1);
    assert_eq!(compare_str("ab", "ab"), 0);
    assert_eq!(compare_str("B", "a"), -1);
    assert_eq!(compare_str("a", "ab"), -1);
}
