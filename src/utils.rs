//! The match predicate and the rewriter over a whole text.
use crate::catalog::{builtin_order, default_sort_order};
use crate::options::{entries_view, entry_view, FinderRegex, Options, RegexPair, Sorter};
use crate::pattern::{
    capture_text, captures_fit, DEFAULT_CLASS_PATTERN, captures_of, group_text, regex_captures, splice, spliced, Capture,
    Pattern,
};
use crate::sorting::{sort_classes, sorted_class_string};
use vstd::prelude::*;
use vstd::string::StringSliceAdditionalSpecFns;

verus! {

/// The precedence table that a sorter stands for.
pub open spec fn table_of(sorter: Sorter) -> Seq<Seq<char>> {
    match sorter {
        Sorter::DefaultSorter => builtin_order(),
        Sorter::CustomSorter(names) => names.deep_view(),
    }
}

/// The replacement of each capture: its class group sorted.
pub open spec fn sorted_reps(
    names: Seq<Seq<char>>,
    allow_duplicates: bool,
    text: Seq<char>,
    caps: Seq<Capture>,
) -> Seq<Seq<char>> {
    Seq::new(
        caps.len(),
        |k: int|
            if caps[k].2 is Some {
                sorted_class_string(names, group_text(text, caps[k]), allow_duplicates)
            } else {
                Seq::empty()
            },
    )
}

/// `text` with the class group of every match of `pattern` sorted.
pub open spec fn rewritten_classes(
    names: Seq<Seq<char>>,
    allow_duplicates: bool,
    pattern: Seq<char>,
    text: Seq<char>,
) -> Seq<char> {
    let caps = regex_captures(pattern, text);
    spliced(text, caps, sorted_reps(names, allow_duplicates, text, caps))
}

/// The replacement of each container capture: with a class pattern, the container
/// text with its class groups sorted; without one, the container text sorted whole.
pub open spec fn container_reps(
    names: Seq<Seq<char>>,
    allow_duplicates: bool,
    class_pattern: Option<Seq<char>>,
    text: Seq<char>,
    caps: Seq<Capture>,
) -> Seq<Seq<char>> {
    Seq::new(
        caps.len(),
        |k: int|
            if caps[k].2 is Some {
                match class_pattern {
                    Some(q) => rewritten_classes(
                        names,
                        allow_duplicates,
                        q,
                        group_text(text, caps[k]),
                    ),
                    None => sorted_class_string(names, group_text(text, caps[k]), allow_duplicates),
                }
            } else {
                Seq::empty()
            },
    )
}

/// `text` rewritten by one container entry.
pub open spec fn rewritten_container(
    names: Seq<Seq<char>>,
    allow_duplicates: bool,
    entry: (Seq<char>, Option<Seq<char>>),
    text: Seq<char>,
) -> Seq<char> {
    let caps = regex_captures(entry.0, text);
    spliced(text, caps, container_reps(names, allow_duplicates, entry.1, text, caps))
}

/// `text` rewritten by the first `k` entries, each working on the result of the one before.
pub open spec fn rewritten_entries(
    names: Seq<Seq<char>>,
    allow_duplicates: bool,
    entries: Seq<(Seq<char>, Option<Seq<char>>)>,
    text: Seq<char>,
    k: nat,
) -> Seq<char>
    decreases k,
{
    if k == 0 {
        text
    } else {
        rewritten_container(
            names,
            allow_duplicates,
            entries[k - 1],
            rewritten_entries(names, allow_duplicates, entries, text, (k - 1) as nat),
        )
    }
}

/// The entries in force with a configured list: the built-in pattern, then the list.
pub open spec fn all_entries(default_regex: Seq<char>, es: Seq<RegexPair>) -> Seq<
    (Seq<char>, Option<Seq<char>>),
> {
    seq![(default_regex, None::<Seq<char>>)] + entries_view(es)
}

/// What `sort_file_contents` makes of `text`.
pub open spec fn rewritten_file(options: Options, text: Seq<char>) -> Seq<char> {
    let names = table_of(options.sorter);
    let dup = options.allow_duplicates;
    match options.regex {
        FinderRegex::DefaultRegex => rewritten_classes(names, dup, options.default_regex@, text),
        FinderRegex::CustomRegex(p) => rewritten_classes(names, dup, p@, text),
        FinderRegex::CustomRegexEntries(es) => {
            let all = all_entries(options.default_regex@, es@);
            rewritten_entries(names, dup, all, text, all.len())
        },
    }
}

/// Whether `text` holds a class span under the active pattern set.
pub open spec fn has_classes_spec(options: Options, text: Seq<char>) -> bool {
    match options.regex {
        FinderRegex::DefaultRegex => regex_captures(options.default_regex@, text).len() > 0,
        FinderRegex::CustomRegex(p) => regex_captures(p@, text).len() > 0,
        FinderRegex::CustomRegexEntries(es) => regex_captures(options.default_regex@, text).len() > 0
            || some_entry_matches(es@, text),
    }
}

/// The options' built-in pattern is the built-in class-attribute pattern.
pub open spec fn options_valid(options: Options) -> bool {
    options.default_regex@ == DEFAULT_CLASS_PATTERN@
}

/// Whether the container pattern of some entry matches in `text`.
pub open spec fn some_entry_matches(es: Seq<RegexPair>, text: Seq<char>) -> bool {
    exists|i: int| 0 <= i < es.len() && regex_captures((#[trigger] es[i]).0@, text).len() > 0
}

/// Whether the active pattern set matches anywhere in `file_contents` (for a
/// configured list: whether the built-in pattern or any container pattern does).
pub fn has_classes(file_contents: &str, options: &Options) -> (r: bool)
    requires
        options_valid(*options),
    ensures
        r == has_classes_spec(*options, file_contents@),
{
    match &options.regex {
        FinderRegex::DefaultRegex => options.default_regex.is_match(file_contents),
        FinderRegex::CustomRegex(regex) => regex.is_match(file_contents),
        FinderRegex::CustomRegexEntries(entries) => {
            if options.default_regex.is_match(file_contents) {
                return true;
            }
            let mut i: usize = 0;
            while i < entries.len()
                invariant
                    i <= entries.len(),
                    options.regex == FinderRegex::CustomRegexEntries(*entries),
                    regex_captures(options.default_regex@, file_contents@).len() == 0,
                    forall|j: int|
                        0 <= j < i ==> regex_captures((#[trigger] entries@[j]).0@, file_contents@).len() == 0,
                decreases entries.len() - i,
            {
                if entries[i].0.is_match(file_contents) {
                    proof {
                        let es = entries@;
                        assert(0 <= i < es.len() && regex_captures(es[i as int].0@, file_contents@).len() > 0);
                        assert(some_entry_matches(es, file_contents@));
                    }
                    return true;
                }
                i = i + 1;
            }
            false
        },
    }
}

/// The precedence table of a sorter.
pub fn sorter_table(sorter: &Sorter) -> (r: Vec<String>)
    ensures
        r.deep_view() == table_of(*sorter),
{
    match sorter {
        Sorter::DefaultSorter => default_sort_order(),
        Sorter::CustomSorter(names) => {
            let r = names.clone();
            proof {
                assert(r.deep_view() =~= names.deep_view());
            }
            r
        },
    }
}

/// `text` with the class group of every match of `p` sorted.
pub fn rewrite_classes(p: &Pattern, text: &str, sorter: &Vec<String>, allow_duplicates: bool) -> (r:
    String)
    ensures
        r@ == rewritten_classes(sorter.deep_view(), allow_duplicates, p@, text@),
{
    let caps = captures_of(p, text);
    let mut reps: Vec<String> = Vec::new();
    let mut k: usize = 0;
    while k < caps.len()
        invariant
            k <= caps.len(),
            captures_fit(caps@, text.spec_bytes()),
            reps.len() == k,
            forall|j: int|
                0 <= j < k ==> (#[trigger] reps[j])@ == sorted_reps(
                    sorter.deep_view(),
                    allow_duplicates,
                    text@,
                    caps@,
                )[j],
        decreases caps.len() - k,
    {
        let c = caps[k];
        proof {
            assert(seq![c][0] == caps@[k as int]);
        }
        if c.2.is_some() {
            let classes = capture_text(text, c);
            reps.push(sort_classes(classes, sorter, allow_duplicates));
        } else {
            reps.push(String::new());
        }
        k = k + 1;
    }
    proof {
        assert(reps.deep_view() =~= sorted_reps(sorter.deep_view(), allow_duplicates, text@, caps@));
    }
    splice(text, &caps, &reps)
}

/// `text` rewritten by one container entry.
pub fn rewrite_container(entry: &RegexPair, text: &str, sorter: &Vec<String>, allow_duplicates: bool) -> (r:
    String)
    ensures
        r@ == rewritten_container(
            sorter.deep_view(),
            allow_duplicates,
            entry_view(*entry),
            text@,
        ),
{
    let ghost ev = entry_view(*entry);
    let caps = captures_of(&entry.0, text);
    let mut reps: Vec<String> = Vec::new();
    let mut k: usize = 0;
    while k < caps.len()
        invariant
            k <= caps.len(),
            ev == entry_view(*entry),
            captures_fit(caps@, text.spec_bytes()),
            caps@ == regex_captures(ev.0, text@),
            reps.len() == k,
            forall|j: int|
                0 <= j < k ==> (#[trigger] reps[j])@ == container_reps(
                    sorter.deep_view(),
                    allow_duplicates,
                    ev.1,
                    text@,
                    caps@,
                )[j],
        decreases caps.len() - k,
    {
        let c = caps[k];
        proof {
            assert(seq![c][0] == caps@[k as int]);
        }
        if c.2.is_some() {
            let container = capture_text(text, c);
            let rep = match &entry.1 {
                Some(class_pattern) => rewrite_classes(class_pattern, container, sorter, allow_duplicates),
                None => sort_classes(container, sorter, allow_duplicates),
            };
            reps.push(rep);
        } else {
            reps.push(String::new());
        }
        k = k + 1;
    }
    proof {
        assert(reps.deep_view() =~= container_reps(sorter.deep_view(), allow_duplicates, ev.1, text@, caps@));
    }
    splice(text, &caps, &reps)
}

/// Rewrites every class span of `file_contents` under the active pattern set.
pub fn sort_file_contents(file_contents: &str, options: &Options) -> (r: String)
    requires
        options_valid(*options),
    ensures
        r@ == rewritten_file(*options, file_contents@),
{
    let sorter = sorter_table(&options.sorter);
    let dup = options.allow_duplicates;
    match &options.regex {
        FinderRegex::DefaultRegex => rewrite_classes(&options.default_regex, file_contents, &sorter, dup),
        FinderRegex::CustomRegex(regex) => rewrite_classes(regex, file_contents, &sorter, dup),
        FinderRegex::CustomRegexEntries(entries) => {
            let ghost all = all_entries(options.default_regex@, entries@);
            let mut result = rewrite_classes(&options.default_regex, file_contents, &sorter, dup);
            proof {
                assert(all[0] == (options.default_regex@, None::<Seq<char>>));
                assert(rewritten_entries(sorter.deep_view(), dup, all, file_contents@, 0) == file_contents@);
                assert(rewritten_entries(sorter.deep_view(), dup, all, file_contents@, 1) == rewritten_container(sorter.deep_view(), dup, all[0], file_contents@));
                assert(result@ == rewritten_entries(sorter.deep_view(), dup, all, file_contents@, 1)) by {
                    let caps = regex_captures(options.default_regex@, file_contents@);
                    assert(container_reps(sorter.deep_view(), dup, None, file_contents@, caps) =~= sorted_reps(sorter.deep_view(), dup, file_contents@, caps));
                }
            }
            let mut i: usize = 0;
            while i < entries.len()
                invariant
                    i <= entries.len(),
                    all == all_entries(options.default_regex@, entries@),
                    result@ == rewritten_entries(sorter.deep_view(), dup, all, file_contents@, (i + 1) as nat),
                decreases entries.len() - i,
            {
                let next = rewrite_container(&entries[i], result.as_str(), &sorter, dup);
                proof {
                    assert(entry_view(entries@[i as int]) == all[i + 1]);
                }
                result = next;
                i = i + 1;
            }
            result
        },
    }
}

} // verus!
