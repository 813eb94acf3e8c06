//! Whitespace tokenizing, joining and the small string helpers the sorter needs.
use itertools::Itertools;
use vstd::prelude::*;

verus! {

/// The ASCII whitespace characters: space, tab, line feed, form feed, carriage return.
pub open spec fn is_ws(c: char) -> bool {
    c == ' ' || c == '\t' || c == '\n' || c == '\x0C' || c == '\r'
}

/// The maximal runs of non-whitespace characters of `s`, left to right.
pub open spec fn words(s: Seq<char>) -> Seq<Seq<char>>
    decreases s.len(),
{
    if s.len() == 0 {
        Seq::empty()
    } else {
        let w = words(s.drop_last());
        let c = s.last();
        if is_ws(c) {
            w
        } else if s.len() > 1 && !is_ws(s[s.len() - 2]) {
            w.drop_last().push(w.last().push(c))
        } else {
            w.push(seq![c])
        }
    }
}

/// A token: nonempty and free of whitespace.
pub open spec fn is_token(t: Seq<char>) -> bool {
    t.len() > 0 && forall|i: int| 0 <= i < t.len() ==> !is_ws(#[trigger] t[i])
}

/// The tokens joined by single spaces.
pub open spec fn join(ts: Seq<Seq<char>>) -> Seq<char>
    decreases ts.len(),
{
    if ts.len() == 0 {
        Seq::empty()
    } else if ts.len() == 1 {
        ts[0]
    } else {
        join(ts.drop_last()) + seq![' '] + ts.last()
    }
}

/// `ts` without repeats, each kept at its first occurrence.
pub open spec fn first_occurrences(ts: Seq<Seq<char>>) -> Seq<Seq<char>>
    decreases ts.len(),
{
    if ts.len() == 0 {
        Seq::empty()
    } else {
        let d = first_occurrences(ts.drop_last());
        if d.contains(ts.last()) {
            d
        } else {
            d.push(ts.last())
        }
    }
}

/// Relies on str::split_ascii_whitespace: the slices between runs of ASCII whitespace.
#[verifier::external_body]
pub(crate) fn split_whitespace<'a>(s: &'a str) -> (r: Vec<&'a str>)
    ensures
        r.deep_view() == words(s@),
{
    s.split_ascii_whitespace().collect()
}

/// Relies on itertools::Itertools::unique: first occurrences, in their order.
#[verifier::external_body]
pub(crate) fn unique_tokens<'a>(v: Vec<&'a str>) -> (r: Vec<&'a str>)
    ensures
        r.deep_view() == first_occurrences(v.deep_view()),
{
    v.into_iter().unique().collect()
}

/// `t` begins with `p`.
pub open spec fn starts_with(t: Seq<char>, p: Seq<char>) -> bool {
    p.len() <= t.len() && t.subrange(0, p.len() as int) == p
}

/// Relies on str::strip_prefix: `Some(rest)` exactly when `s` begins with `p`,
/// `rest` being what follows it.
#[verifier::external_body]
pub(crate) fn strip_prefix<'a>(s: &'a str, p: &str) -> (r: Option<&'a str>)
    ensures
        match r {
            Some(rest) => starts_with(s@, p@) && rest@ == s@.skip(p@.len() as int),
            None => !starts_with(s@, p@),
        },
{
    s.strip_prefix(p)
}

/// Relies on `str == str`: equal exactly when the characters are.
#[verifier::external_body]
pub(crate) fn str_equal(a: &str, b: &str) -> (r: bool)
    ensures
        r == (a@ == b@),
{
    a == b
}

/// Joins tokens with single spaces.
pub fn join_tokens(ts: &Vec<&str>) -> (r: String)
    ensures
        r@ == join(ts.deep_view()),
{
    let mut r = String::new();
    let mut i: usize = 0;
    while i < ts.len()
        invariant
            i <= ts.len(),
            r@ == join(ts.deep_view().subrange(0, i as int)),
        decreases ts.len() - i,
    {
        proof {
            let s = ts.deep_view().subrange(0, i as int + 1);
            assert(s.drop_last() =~= ts.deep_view().subrange(0, i as int));
        }
        let ghost before = r@;
        if i > 0 {
            r.append(" ");
            proof {
                reveal_strlit(" ");
            }
        }
        r.append(ts[i]);
        proof {
            let s = ts.deep_view().subrange(0, i as int + 1);
            assert(s.last() == ts[i as int]@);
            if i == 0 {
                assert(r@ =~= s[0]);
            } else {
                assert(r@ =~= before + seq![' '] + s.last());
            }
        }
        i = i + 1;
    }
    proof {
        assert(ts.deep_view().subrange(0, i as int) =~= ts.deep_view());
    }
    r
}

} // verus!
