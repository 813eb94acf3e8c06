use rustywind::options::{
    choose_finder_regex, get_custom_regex_from_cli, get_starting_path_from_cli,
    get_write_mode_from_cli, parse_custom_regex, Cli, CustomRegexEntryInput, FinderRegex, Options,
    Sorter, WriteMode,
};
use rustywind::pattern::{Pattern, PatternError};
use rustywind::utils::{has_classes, sort_file_contents};

fn cli() -> Cli {
    Cli {
        file_or_dir: vec!["a".to_string(), "b/c".to_string()],
        write: false,
        dry_run: false,
        check_formatted: false,
        stdin: false,
        allow_duplicates: false,
        custom_regex: None,
        config_file: None,
        ignored_files: None,
    }
}

fn options(regex: FinderRegex, allow_duplicates: bool) -> Options {
    Options {
        stdin: None,
        write_mode: WriteMode::DryRun,
        regex,
        default_regex: Pattern::default_pattern().ok().unwrap(),
        sorter: Sorter::DefaultSorter,
        starting_paths: vec![],
        allow_duplicates,
        search_paths: vec![],
        ignored_files: vec![],
    }
}

#[test]
fn default_pattern_rewrites_class_attributes() {
    let o = options(FinderRegex::DefaultRegex, false);
    let text = "<div class=\"p-2 flex\">x</div>\n<p className='px-2 py-2 block'></p>";
    assert_eq!(
        sort_file_contents(text, &o),
        "<div class=\"flex p-2\">x</div>\n<p className='block py-2 px-2'></p>"
    );
}

#[test]
fn text_without_matches_is_unchanged() {
    let o = options(FinderRegex::DefaultRegex, false);
    let text = "no attributes here: p-2 flex";
    assert!(!has_classes(text, &o));
    assert_eq!(sort_file_contents(text, &o), text);
}

#[test]
fn rewriting_twice_is_rewriting_once() {
    let o = options(FinderRegex::DefaultRegex, true);
    let once = sort_file_contents("<a class=\"md:p-2 x flex hover:y\"></a>", &o);
    assert_eq!(sort_file_contents(&once, &o), once);
}

#[test]
fn custom_pattern_uses_group_one() {
    let p = Pattern::new_with_group(r"tw`([^`]*)`").ok().unwrap();
    let o = options(FinderRegex::CustomRegex(p), false);
    assert!(has_classes("x tw`p-2 flex` y", &o));
    assert_eq!(sort_file_contents("x tw`p-2 flex` y tw`block` z", &o), "x tw`flex p-2` y tw`block` z");
}

#[test]
fn container_entry_without_class_pattern_sorts_container() {
    let entries = parse_custom_regex(vec![CustomRegexEntryInput::String(r"cx\(([^)]*)\)".to_string())])
        .ok()
        .unwrap();
    let o = options(FinderRegex::CustomRegexEntries(entries), false);
    assert_eq!(sort_file_contents("a cx(p-2 flex) b", &o), "a cx(flex p-2) b");
}

#[test]
fn container_entry_with_class_pattern_sorts_inner_spans() {
    let entries = parse_custom_regex(vec![CustomRegexEntryInput::Pair((
        r"cva\(([^)]*)\)".to_string(),
        r#""([^"]*)""#.to_string(),
    ))])
    .ok()
    .unwrap();
    let o = options(FinderRegex::CustomRegexEntries(entries), false);
    assert!(has_classes("cva(\"p-2 flex\", \"px-2 block\")", &o));
    assert_eq!(
        sort_file_contents("cva(\"p-2 flex\", \"px-2 block\") <i class=\"p-2 flex\">", &o),
        "cva(\"flex p-2\", \"block px-2\") <i class=\"flex p-2\">"
    );
    assert_eq!(sort_file_contents("cva(no quotes here)", &o), "cva(no quotes here)");
}

#[test]
fn entries_check_only_container_patterns() {
    let entries = parse_custom_regex(vec![CustomRegexEntryInput::Pair((
        r"cva\(([^)]*)\)".to_string(),
        r#"'([^']*)'"#.to_string(),
    ))])
    .ok()
    .unwrap();
    let o = options(FinderRegex::CustomRegexEntries(entries), false);
    assert!(has_classes("cva(nothing quoted)", &o));
    assert!(!has_classes("plain", &o));
}

#[test]
fn bad_pattern_is_a_compile_error() {
    let r = parse_custom_regex(vec![
        CustomRegexEntryInput::String("ok(.*)".to_string()),
        CustomRegexEntryInput::String("(unclosed".to_string()),
    ]);
    assert!(matches!(r, Err(PatternError::Compile(_))));
    let mut c = cli();
    c.custom_regex = Some("[".to_string());
    assert!(matches!(get_custom_regex_from_cli(&c), Err(PatternError::Compile(_))));
}

#[test]
fn pattern_without_group_is_a_shape_error() {
    let mut c = cli();
    c.custom_regex = Some("class".to_string());
    assert!(matches!(get_custom_regex_from_cli(&c), Err(PatternError::Shape)));
    c.custom_regex = Some("class=(.*)".to_string());
    assert!(matches!(get_custom_regex_from_cli(&c), Ok(FinderRegex::CustomRegex(_))));
    assert!(matches!(get_custom_regex_from_cli(&cli()), Ok(FinderRegex::DefaultRegex)));
}

#[test]
fn cli_pattern_wins_over_config() {
    let entries = parse_custom_regex(vec![]).ok().unwrap();
    let p = Pattern::new("a(b)").ok().unwrap();
    assert!(matches!(
        choose_finder_regex(FinderRegex::CustomRegex(p), Some(entries)),
        FinderRegex::CustomRegex(_)
    ));
    let entries = parse_custom_regex(vec![]).ok().unwrap();
    assert!(matches!(
        choose_finder_regex(FinderRegex::DefaultRegex, Some(entries)),
        FinderRegex::CustomRegexEntries(_)
    ));
    assert!(matches!(choose_finder_regex(FinderRegex::DefaultRegex, None), FinderRegex::DefaultRegex));
}

#[test]
fn write_mode_priorities() {
    let mut c = cli();
    assert!(matches!(get_write_mode_from_cli(&c), WriteMode::DryRun));
    c.stdin = true;
    assert!(matches!(get_write_mode_from_cli(&c), WriteMode::ToStdOut));
    c.check_formatted = true;
    assert!(matches!(get_write_mode_from_cli(&c), WriteMode::CheckFormatted));
    c.write = true;
    assert!(matches!(get_write_mode_from_cli(&c), WriteMode::ToFile));
    c.dry_run = true;
    assert!(matches!(get_write_mode_from_cli(&c), WriteMode::DryRun));
}

#[test]
fn starting_paths_are_the_arguments() {
    assert_eq!(get_starting_path_from_cli(&cli()), vec!["a".to_string(), "b/c".to_string()]);
}

#[test]
fn pattern_keeps_its_source() {
    let p = Pattern::new("x(y)").ok().unwrap();
    assert_eq!(p.as_str(), "x(y)");
    assert!(p.is_match("axyz"));
    assert!(!p.is_match("abc"));
}

#[test]
fn entries_also_check_builtin_pattern() {
    let entries = parse_custom_regex(vec![CustomRegexEntryInput::String(r"tw`([^`]*)`".to_string())])
        .ok()
        .unwrap();
    let o = options(FinderRegex::CustomRegexEntries(entries), false);
    let text = "<div class=\"p-2 flex\"></div>";
    assert!(has_classes(text, &o));
    assert_eq!(sort_file_contents(text, &o), "<div class=\"flex p-2\"></div>");
    assert_eq!(sort_file_contents("tw`px-2 flex inline`", &o), "tw`inline flex px-2`");
}
