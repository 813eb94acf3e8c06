use rustywind::catalog::default_sort_order;
use rustywind::options::{parse_custom_sorter, Sorter};
use rustywind::sorting::{lookup_variant, sort_classes, sort_classes_vec, sort_variant_classes};
use rustywind::catalog::variant_prefixes;

fn table() -> Vec<String> {
    default_sort_order()
}

fn custom(names: &[&str]) -> Vec<String> {
    match parse_custom_sorter(names.iter().map(|s| s.to_string()).collect()) {
        Sorter::CustomSorter(v) => v,
        Sorter::DefaultSorter => panic!("expected a custom sorter"),
    }
}

#[test]
fn test_sort_classes_vec() {
    assert_eq!(
        sort_classes_vec(
            vec!["inline", "inline-block", "random-class", "py-2", "justify-end", "px-2", "flex"],
            &table()
        ),
        vec!["inline-block", "inline", "flex", "justify-end", "py-2", "px-2", "random-class"]
    )
}

#[test]
fn sort_empty_string_gives_empty() {
    assert_eq!(sort_classes("", &table(), true), "");
    assert_eq!(sort_classes("   \t\n ", &table(), false), "");
}

#[test]
fn variants_follow_canonical_in_catalog_order() {
    let out = sort_classes("hover:bg-black md:flex sm:p-2 hover:unknown custom flex", &table(), true);
    assert_eq!(out, "flex sm:p-2 md:flex hover:bg-black custom hover:unknown");
}

#[test]
fn variant_group_sorted_by_suffix_rank() {
    let out = sort_classes("md:px-2 md:py-2 md:flex", &table(), true);
    assert_eq!(out, "md:flex md:py-2 md:px-2");
}

#[test]
fn unknown_suffix_variants_go_to_custom_tail_in_catalog_order() {
    let out = sort_classes("hover:zzz sm:yyy aaa sm:p-2", &table(), true);
    assert_eq!(out, "sm:p-2 aaa sm:yyy hover:zzz");
}

#[test]
fn bare_prefix_is_custom() {
    assert_eq!(sort_classes("hover sm flex", &table(), true), "flex hover sm");
    assert_eq!(sort_classes("sm: flex", &table(), true), "flex sm:");
}

#[test]
fn prefix_needs_separator() {
    let vs = variant_prefixes();
    assert_eq!(lookup_variant(&vs, "smooth"), None);
    assert_eq!(lookup_variant(&vs, "sm:p-2"), Some(0));
    assert_eq!(lookup_variant(&vs, "focus-visible:p-2"), Some(19));
    assert_eq!(lookup_variant(&vs, "focus:p-2"), Some(18));
}

#[test]
fn duplicates_kept_when_allowed() {
    assert_eq!(sort_classes("p-2 flex p-2", &table(), true), "flex p-2 p-2");
}

#[test]
fn duplicates_removed_when_not_allowed() {
    assert_eq!(sort_classes("p-2 flex p-2 x x", &table(), false), "flex p-2 x");
}

#[test]
fn canonical_order_ignores_input_order() {
    assert_eq!(sort_classes("px-2 py-2", &table(), true), "py-2 px-2");
    assert_eq!(sort_classes("py-2 px-2", &table(), true), "py-2 px-2");
}

#[test]
fn custom_tokens_keep_relative_order() {
    assert_eq!(sort_classes("zeta flex alpha mid", &table(), true), "flex zeta alpha mid");
}

#[test]
fn whitespace_is_normalised() {
    assert_eq!(sort_classes("  flex\t\n  block  ", &table(), true), "block flex");
}

#[test]
fn sorting_twice_is_sorting_once() {
    let once = sort_classes("hover:x py-2 b a flex md:p-2 flex", &table(), false);
    assert_eq!(sort_classes(&once, &table(), false), once);
}

#[test]
fn custom_table_replaces_builtin() {
    let names = custom(&["b", "a"]);
    assert_eq!(sort_classes("flex a b c", &names, true), "b a flex c");
}

#[test]
fn custom_table_rank_is_last_position() {
    let names = custom(&["a", "b", "a"]);
    assert_eq!(sort_classes("a b", &names, true), "b a");
}

#[test]
fn sort_variant_classes_splits_known_and_unknown() {
    let (sorted, customs) = sort_variant_classes(
        vec!["md:px-2", "md:nope", "md:flex"],
        vec!["c"],
        3,
        &table(),
    );
    assert_eq!(sorted, vec!["md:flex", "md:px-2"]);
    assert_eq!(customs, vec!["c", "md:nope"]);
}

#[test]
fn tokens_preserved_with_duplicates() {
    let input = "b a flex a md:p-2 hover:zz";
    let out = sort_classes(input, &table(), true);
    let mut before: Vec<&str> = input.split_whitespace().collect();
    let mut after: Vec<&str> = out.split_whitespace().collect();
    before.sort();
    after.sort();
    assert_eq!(before, after);
    assert_eq!(out, "flex md:p-2 b a a hover:zz");
}

#[test]
fn sort_variant_classes_skips_bytes() {
    let names = custom(&["flex"]);
    let (sorted, customs) = sort_variant_classes(vec!["é:flex", "é:zz"], vec![], 3, &names);
    assert_eq!(sorted, vec!["é:flex"]);
    assert_eq!(customs, vec!["é:zz"]);
    let (sorted, customs) = sort_variant_classes(vec!["é:flex"], vec![], 1, &names);
    assert!(sorted.is_empty());
    assert_eq!(customs, vec!["é:flex"]);
}
