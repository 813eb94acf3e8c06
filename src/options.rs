//! Resolved run options: what to search with, how to rank, where to write.
use crate::pattern::{regex_capture_slots, regex_compiles, Pattern, PatternError};
use vstd::prelude::*;

verus! {

/// What to do with a rewritten text.
pub enum WriteMode {
    ToFile,
    DryRun,
    ToConsole,
    ToStdOut,
    CheckFormatted,
}

/// One entry of the configured pattern list: a container pattern alone, or a
/// container pattern with a class pattern to run inside each container match.
pub enum CustomRegexEntryInput {
    String(String),
    Pair((String, String)),
}

/// A container pattern and an optional class pattern.
pub type RegexPair = (Pattern, Option<Pattern>);

/// The active pattern set.
pub enum FinderRegex {
    DefaultRegex,
    CustomRegex(Pattern),
    CustomRegexEntries(Vec<RegexPair>),
}

/// The active precedence table: the built-in one, or a list of class names whose
/// rank is their position in it.
pub enum Sorter {
    DefaultSorter,
    CustomSorter(Vec<String>),
}

/// The command-line switches that options are resolved from.
pub struct Cli {
    pub file_or_dir: Vec<String>,
    pub write: bool,
    pub dry_run: bool,
    pub check_formatted: bool,
    pub stdin: bool,
    pub allow_duplicates: bool,
    pub custom_regex: Option<String>,
    pub config_file: Option<String>,
    pub ignored_files: Option<Vec<String>>,
}

/// Everything a run needs, resolved before any text is processed.
pub struct Options {
    pub stdin: Option<String>,
    pub write_mode: WriteMode,
    pub regex: FinderRegex,
    pub default_regex: Pattern,
    pub sorter: Sorter,
    pub starting_paths: Vec<String>,
    pub allow_duplicates: bool,
    pub search_paths: Vec<String>,
    pub ignored_files: Vec<String>,
}

/// The source texts of a pattern entry.
pub open spec fn entry_view(e: RegexPair) -> (Seq<char>, Option<Seq<char>>) {
    (
        e.0@,
        match e.1 {
            Some(q) => Some(q@),
            None => None,
        },
    )
}

/// The source texts of a configured pattern list.
pub open spec fn entries_view(es: Seq<RegexPair>) -> Seq<(Seq<char>, Option<Seq<char>>)> {
    Seq::new(es.len(), |i: int| entry_view(es[i]))
}

/// The source texts of configured pattern inputs.
pub open spec fn inputs_view(es: Seq<CustomRegexEntryInput>) -> Seq<(Seq<char>, Option<Seq<char>>)> {
    Seq::new(
        es.len(),
        |i: int|
            match es[i] {
                CustomRegexEntryInput::String(c) => (c@, None),
                CustomRegexEntryInput::Pair((c, k)) => (c@, Some(k@)),
            },
    )
}

/// Every pattern text of the inputs compiles.
pub open spec fn inputs_compile(es: Seq<CustomRegexEntryInput>) -> bool {
    forall|i: int|
        0 <= i < es.len() ==> match #[trigger] es[i] {
            CustomRegexEntryInput::String(c) => regex_compiles(c@),
            CustomRegexEntryInput::Pair((c, k)) => regex_compiles(c@) && regex_compiles(k@),
        }
}


/// The write mode the switches ask for: a dry run first, then writing to files,
/// then checking, then writing to standard output, and a dry run by default.
pub fn get_write_mode_from_cli(cli: &Cli) -> (r: WriteMode)
    ensures
        r == (if cli.dry_run {
            WriteMode::DryRun
        } else if cli.write {
            WriteMode::ToFile
        } else if cli.check_formatted {
            WriteMode::CheckFormatted
        } else if cli.stdin {
            WriteMode::ToStdOut
        } else {
            WriteMode::DryRun
        }),
{
    if cli.dry_run {
        WriteMode::DryRun
    } else if cli.write {
        WriteMode::ToFile
    } else if cli.check_formatted {
        WriteMode::CheckFormatted
    } else if cli.stdin {
        WriteMode::ToStdOut
    } else {
        WriteMode::DryRun
    }
}

/// The paths named on the command line, in order.
pub fn get_starting_path_from_cli(cli: &Cli) -> (r: Vec<String>)
    ensures
        r.deep_view() == cli.file_or_dir.deep_view(),
{
    let mut r: Vec<String> = Vec::new();
    let mut i: usize = 0;
    while i < cli.file_or_dir.len()
        invariant
            i <= cli.file_or_dir.len(),
            r.deep_view() == cli.file_or_dir.deep_view().subrange(0, i as int),
        decreases cli.file_or_dir.len() - i,
    {
        let ghost before = r.deep_view();
        let path: String = cli.file_or_dir[i].clone();
        assert(path@ == cli.file_or_dir.deep_view()[i as int]);
        r.push(path);
        i = i + 1;
        proof {
            assert(r.deep_view() =~= before.push(path@));
            assert(r.deep_view() =~= cli.file_or_dir.deep_view().subrange(0, i as int));
        }
    }
    proof {
        assert(cli.file_or_dir.deep_view().subrange(0, i as int) =~= cli.file_or_dir.deep_view());
    }
    r
}

/// The custom precedence table made from a list of class names.
pub fn parse_custom_sorter(contents: Vec<String>) -> (r: Sorter)
    ensures
        r matches Sorter::CustomSorter(names) && names.deep_view() == contents.deep_view(),
{
    Sorter::CustomSorter(contents)
}

/// Compiles the configured pattern list, or reports the first pattern that does not compile.
pub fn parse_custom_regex(entries: Vec<CustomRegexEntryInput>) -> (r: Result<
    Vec<RegexPair>,
    PatternError,
>)
    ensures
        r is Ok <==> inputs_compile(entries@),
        r matches Ok(es) ==> entries_view(es@) == inputs_view(entries@),
        r matches Err(e) ==> e is Compile,
{
    let mut r: Vec<RegexPair> = Vec::new();
    let mut i: usize = 0;
    while i < entries.len()
        invariant
            i <= entries.len(),
            r.len() == i,
            inputs_compile(entries@.subrange(0, i as int)),
            entries_view(r@) == inputs_view(entries@.subrange(0, i as int)),
        decreases entries.len() - i,
    {
        let ghost before = r@;
        let entry = &entries[i];
        let pair = match entry {
            CustomRegexEntryInput::String(container) => {
                match Pattern::new(container.as_str()) {
                    Ok(c) => (c, None),
                    Err(e) => {
                        proof {
                            assert(entries@[i as int] == *entry);
                        }
                        return Err(e);
                    },
                }
            },
            CustomRegexEntryInput::Pair((container, class)) => {
                match (Pattern::new(container.as_str()), Pattern::new(class.as_str())) {
                    (Ok(c), Ok(k)) => (c, Some(k)),
                    (Err(e), _) | (_, Err(e)) => {
                        proof {
                            assert(entries@[i as int] == *entry);
                        }
                        return Err(e);
                    },
                }
            },
        };
        proof {
            assert(entries@[i as int] == *entry);
            assert(entry_view(pair) == inputs_view(seq![*entry])[0]);
        }
        r.push(pair);
        i = i + 1;
        proof {
            assert(r@ == before.push(pair));
            let done = entries@.subrange(0, i as int);
            assert(done.subrange(0, i - 1) =~= entries@.subrange(0, i - 1));
            assert forall|j: int| 0 <= j < done.len() implies match #[trigger] done[j] {
                CustomRegexEntryInput::String(c) => regex_compiles(c@),
                CustomRegexEntryInput::Pair((c, k)) => regex_compiles(c@) && regex_compiles(k@),
            } by {
                if j < i - 1 {
                    assert(done[j] == entries@.subrange(0, i - 1)[j]);
                }
            }
            assert(entries_view(r@) =~= inputs_view(done)) by {
                assert(entries_view(r@)[i - 1] == entry_view(pair));
                assert(inputs_view(done)[i - 1] == inputs_view(seq![*entry])[0]);
                assert forall|j: int| 0 <= j < i - 1 implies entries_view(r@)[j] == inputs_view(done)[j] by {
                    assert(r@[j] == before.push(pair)[j]);
                    assert(done[j] == entries@.subrange(0, i - 1)[j]);
                    assert(entries_view(before)[j] == inputs_view(entries@.subrange(0, i - 1))[j]);
                }
            }
        }
    }
    proof {
        assert(entries@.subrange(0, i as int) =~= entries@);
    }
    Ok(r)
}

/// The custom pattern given on the command line, which needs a class group.
pub fn get_custom_regex_from_cli(cli: &Cli) -> (r: Result<FinderRegex, PatternError>)
    ensures
        cli.custom_regex is None ==> r matches Ok(FinderRegex::DefaultRegex),
        cli.custom_regex matches Some(s) ==> {
            &&& (r is Ok <==> regex_compiles(s@) && regex_capture_slots(s@) >= 2)
            &&& (r matches Ok(f) ==> f matches FinderRegex::CustomRegex(p) && p@ == s@)
            &&& (r matches Err(e) ==> (e is Compile <==> !regex_compiles(s@)))
        },
{
    match &cli.custom_regex {
        Some(source) => {
            let p = Pattern::new_with_group(source.as_str())?;
            Ok(FinderRegex::CustomRegex(p))
        },
        None => Ok(FinderRegex::DefaultRegex),
    }
}


/// The pattern set in force: a command-line pattern first, then a configured list,
/// then the built-in pattern.
pub fn choose_finder_regex(cli_regex: FinderRegex, config_regex: Option<Vec<RegexPair>>) -> (r:
    FinderRegex)
    requires
        !(cli_regex is CustomRegexEntries),
    ensures
        cli_regex is CustomRegex ==> r == cli_regex,
        cli_regex is DefaultRegex ==> r == match config_regex {
            Some(es) => FinderRegex::CustomRegexEntries(es),
            None => FinderRegex::DefaultRegex,
        },
{
    match cli_regex {
        FinderRegex::DefaultRegex => match config_regex {
            Some(entries) => FinderRegex::CustomRegexEntries(entries),
            None => FinderRegex::DefaultRegex,
        },
        other => other,
    }
}

} // verus!
