//! Ordering of class tokens: canonical classes by rank, then variant-prefixed
//! classes grouped by prefix, then everything else in the order met.
use crate::catalog::{lemma_variant_catalog_short, variant_catalog, variant_prefixes};
use crate::tokens::{
    first_occurrences, join, join_tokens, split_whitespace, starts_with, str_equal, strip_prefix,
    unique_tokens, words,
};
use crate::pattern::byte_slice;
use vstd::prelude::*;
use vstd::string::StringSliceAdditionalSpecFns;
use vstd::utf8::{
    decode_utf8, encode_utf8, encode_utf8_decode_utf8, encode_utf8_valid_utf8, is_char_boundary,
    is_char_boundary_start_end_of_seq,
};

verus! {

/// Rank of `t` in the precedence list `names`: the last position at which it stands.
pub open spec fn rank(names: Seq<Seq<char>>, t: Seq<char>) -> Option<usize>
    decreases names.len(),
{
    if names.len() == 0 {
        None
    } else if names.last() == t {
        Some((names.len() - 1) as usize)
    } else {
        rank(names.drop_last(), t)
    }
}

/// The tokens of `ts` whose key is `Some(k)`, in their order (`keys` runs beside `ts`).
pub open spec fn keyed(ts: Seq<Seq<char>>, keys: Seq<Option<usize>>, k: nat) -> Seq<Seq<char>>
    decreases ts.len(),
{
    if ts.len() == 0 {
        Seq::empty()
    } else {
        let p = keyed(ts.drop_last(), keys.subrange(0, ts.len() - 1), k);
        if keys[ts.len() - 1] matches Some(x) && x == k {
            p.push(ts.last())
        } else {
            p
        }
    }
}

/// The tokens of `ts` that have no key, in their order.
pub open spec fn unkeyed(ts: Seq<Seq<char>>, keys: Seq<Option<usize>>) -> Seq<Seq<char>>
    decreases ts.len(),
{
    if ts.len() == 0 {
        Seq::empty()
    } else {
        let p = unkeyed(ts.drop_last(), keys.subrange(0, ts.len() - 1));
        if keys[ts.len() - 1] is None {
            p.push(ts.last())
        } else {
            p
        }
    }
}

/// Stable sort by key of the tokens whose key is below `n`: all tokens of key 0
/// in their order, then those of key 1, and so on.
pub open spec fn by_key(ts: Seq<Seq<char>>, keys: Seq<Option<usize>>, n: nat) -> Seq<Seq<char>>
    decreases n,
{
    if n == 0 {
        Seq::empty()
    } else {
        by_key(ts, keys, (n - 1) as nat) + keyed(ts, keys, (n - 1) as nat)
    }
}

/// The rank of each token.
pub open spec fn rank_keys(names: Seq<Seq<char>>, ts: Seq<Seq<char>>) -> Seq<Option<usize>> {
    Seq::new(ts.len(), |i: int| rank(names, ts[i]))
}

/// The first catalog entry, from position `i` on, that `t` starts with, followed by `:`.
pub open spec fn variant_from(vs: Seq<Seq<char>>, t: Seq<char>, i: int) -> Option<usize>
    decreases vs.len() - i,
{
    if i < 0 || i >= vs.len() {
        None
    } else if starts_with(t, vs[i] + seq![':']) {
        Some(i as usize)
    } else {
        variant_from(vs, t, i + 1)
    }
}

/// The variant prefix of `t`: the first catalog entry that `t` starts with, followed by `:`.
pub open spec fn variant_of(vs: Seq<Seq<char>>, t: Seq<char>) -> Option<usize> {
    variant_from(vs, t, 0)
}

pub open spec fn variant_keys(vs: Seq<Seq<char>>, ts: Seq<Seq<char>>) -> Seq<Option<usize>> {
    Seq::new(ts.len(), |i: int| variant_of(vs, ts[i]))
}

/// What follows the first `skip` bytes of the UTF-8 encoding of `t`, when that
/// offset falls on a character boundary.
pub open spec fn suffix_after(t: Seq<char>, skip: nat) -> Option<Seq<char>> {
    let b = encode_utf8(t);
    if is_char_boundary(b, skip as int) {
        Some(decode_utf8(b.subrange(skip as int, b.len() as int)))
    } else {
        None
    }
}

/// The rank of what follows the first `skip` bytes of `t`.
pub open spec fn suffix_rank_of(names: Seq<Seq<char>>, t: Seq<char>, skip: nat) -> Option<usize> {
    match suffix_after(t, skip) {
        Some(rest) => rank(names, rest),
        None => None,
    }
}

/// The byte offset of what follows prefix `v` and its `:` separator.
pub open spec fn prefix_skip(v: Seq<char>) -> nat {
    encode_utf8(v).len() + 1
}

/// The rank of what follows the first `skip` bytes of each token.
pub open spec fn suffix_keys(names: Seq<Seq<char>>, ts: Seq<Seq<char>>, skip: nat) -> Seq<
    Option<usize>,
> {
    Seq::new(ts.len(), |i: int| suffix_rank_of(names, ts[i], skip))
}

/// Tokens that are not canonical, in their order.
pub open spec fn non_canonical(names: Seq<Seq<char>>, ts: Seq<Seq<char>>) -> Seq<Seq<char>> {
    unkeyed(ts, rank_keys(names, ts))
}

/// Canonical tokens sorted by rank.
pub open spec fn canonical_part(names: Seq<Seq<char>>, ts: Seq<Seq<char>>) -> Seq<Seq<char>> {
    by_key(ts, rank_keys(names, ts), names.len())
}

/// Tokens that are neither canonical nor variant-prefixed, in their order.
pub open spec fn plain_custom(names: Seq<Seq<char>>, vs: Seq<Seq<char>>, ts: Seq<Seq<char>>) -> Seq<
    Seq<char>,
> {
    let rest = non_canonical(names, ts);
    unkeyed(rest, variant_keys(vs, rest))
}

/// Non-canonical tokens with variant prefix `i`, in their order.
pub open spec fn variant_group(
    names: Seq<Seq<char>>,
    vs: Seq<Seq<char>>,
    ts: Seq<Seq<char>>,
    i: nat,
) -> Seq<Seq<char>> {
    let rest = non_canonical(names, ts);
    keyed(rest, variant_keys(vs, rest), i)
}

/// The tokens of variant group `i` whose suffix is canonical, sorted by the suffix's rank.
pub open spec fn variant_sorted(
    names: Seq<Seq<char>>,
    vs: Seq<Seq<char>>,
    ts: Seq<Seq<char>>,
    i: nat,
) -> Seq<Seq<char>> {
    let g = variant_group(names, vs, ts, i);
    by_key(g, suffix_keys(names, g, prefix_skip(vs[i as int])), names.len())
}

/// The tokens of variant group `i` whose suffix is not canonical, in their order.
pub open spec fn variant_unknown(
    names: Seq<Seq<char>>,
    vs: Seq<Seq<char>>,
    ts: Seq<Seq<char>>,
    i: nat,
) -> Seq<Seq<char>> {
    let g = variant_group(names, vs, ts, i);
    unkeyed(g, suffix_keys(names, g, prefix_skip(vs[i as int])))
}

/// Sorted variant groups of the first `k` prefixes, in catalog order.
pub open spec fn variants_upto(
    names: Seq<Seq<char>>,
    vs: Seq<Seq<char>>,
    ts: Seq<Seq<char>>,
    k: nat,
) -> Seq<Seq<char>>
    decreases k,
{
    if k == 0 {
        Seq::empty()
    } else {
        variants_upto(names, vs, ts, (k - 1) as nat) + variant_sorted(names, vs, ts, (k - 1) as nat)
    }
}

/// Plain custom tokens, then the unknown-suffix tokens of the first `k` variant groups.
pub open spec fn customs_upto(
    names: Seq<Seq<char>>,
    vs: Seq<Seq<char>>,
    ts: Seq<Seq<char>>,
    k: nat,
) -> Seq<Seq<char>>
    decreases k,
{
    if k == 0 {
        plain_custom(names, vs, ts)
    } else {
        customs_upto(names, vs, ts, (k - 1) as nat) + variant_unknown(names, vs, ts, (k - 1) as nat)
    }
}

/// The full order: canonical tokens by rank, then each variant group in catalog
/// order sorted by the rank of its suffix, then custom tokens and the variant
/// tokens whose suffix is not canonical.
pub open spec fn sorted_tokens(names: Seq<Seq<char>>, vs: Seq<Seq<char>>, ts: Seq<Seq<char>>) -> Seq<
    Seq<char>,
> {
    canonical_part(names, ts) + variants_upto(names, vs, ts, vs.len()) + customs_upto(
        names,
        vs,
        ts,
        vs.len(),
    )
}

proof fn lemma_keyed_step(ts: Seq<Seq<char>>, keys: Seq<Option<usize>>, j: int, k: nat)
    requires
        0 <= j < ts.len(),
        ts.len() == keys.len(),
    ensures
        keyed(ts.subrange(0, j + 1), keys.subrange(0, j + 1), k) == if keys[j] matches Some(x) && x == k {
            keyed(ts.subrange(0, j), keys.subrange(0, j), k).push(ts[j])
        } else {
            keyed(ts.subrange(0, j), keys.subrange(0, j), k)
        },
        unkeyed(ts.subrange(0, j + 1), keys.subrange(0, j + 1)) == if keys[j] is None {
            unkeyed(ts.subrange(0, j), keys.subrange(0, j)).push(ts[j])
        } else {
            unkeyed(ts.subrange(0, j), keys.subrange(0, j))
        },
{
    assert(ts.subrange(0, j + 1).drop_last() =~= ts.subrange(0, j));
    assert(keys.subrange(0, j + 1).subrange(0, j) =~= keys.subrange(0, j));
}

/// The tokens whose key is `Some(k)`, in order.
fn select_keyed<'a>(ts: &Vec<&'a str>, keys: &Vec<Option<usize>>, k: usize) -> (r: Vec<&'a str>)
    requires
        ts.len() == keys.len(),
    ensures
        r.deep_view() == keyed(ts.deep_view(), keys@, k as nat),
{
    let mut r: Vec<&'a str> = Vec::new();
    let mut j: usize = 0;
    while j < ts.len()
        invariant
            j <= ts.len(),
            ts.len() == keys.len(),
            r.deep_view() == keyed(ts.deep_view().subrange(0, j as int), keys@.subrange(0, j as int), k as nat),
        decreases ts.len() - j,
    {
        proof {
            lemma_keyed_step(ts.deep_view(), keys@, j as int, k as nat);
        }
        if keys[j] == Some(k) {
            let ghost before = r.deep_view();
            r.push(ts[j]);
            proof {
                assert(r.deep_view() =~= before.push(ts[j as int]@));
            }
        }
        j = j + 1;
    }
    proof {
        assert(ts.deep_view().subrange(0, j as int) =~= ts.deep_view());
        assert(keys@.subrange(0, j as int) =~= keys@);
    }
    r
}

/// The tokens that have no key, appended to `r` in order.
fn append_unkeyed<'a>(r: &mut Vec<&'a str>, ts: &Vec<&'a str>, keys: &Vec<Option<usize>>)
    requires
        ts.len() == keys.len(),
    ensures
        final(r).deep_view() == old(r).deep_view() + unkeyed(ts.deep_view(), keys@),
{
    let mut j: usize = 0;
    while j < ts.len()
        invariant
            j <= ts.len(),
            ts.len() == keys.len(),
            r.deep_view() == old(r).deep_view() + unkeyed(
                ts.deep_view().subrange(0, j as int),
                keys@.subrange(0, j as int),
            ),
        decreases ts.len() - j,
    {
        proof {
            lemma_keyed_step(ts.deep_view(), keys@, j as int, 0);
        }
        if keys[j].is_none() {
            let ghost before = r.deep_view();
            r.push(ts[j]);
            proof {
                assert(r.deep_view() =~= before.push(ts[j as int]@));
            }
        }
        j = j + 1;
    }
    proof {
        assert(ts.deep_view().subrange(0, j as int) =~= ts.deep_view());
        assert(keys@.subrange(0, j as int) =~= keys@);
    }
}

/// Stable sort by key of the tokens whose key is below `n`.
fn sort_by_key<'a>(ts: &Vec<&'a str>, keys: &Vec<Option<usize>>, n: usize) -> (r: Vec<&'a str>)
    requires
        ts.len() == keys.len(),
    ensures
        r.deep_view() == by_key(ts.deep_view(), keys@, n as nat),
{
    let mut r: Vec<&'a str> = Vec::new();
    let mut k: usize = 0;
    while k < n
        invariant
            k <= n,
            ts.len() == keys.len(),
            r.deep_view() == by_key(ts.deep_view(), keys@, k as nat),
        decreases n - k,
    {
        let mut part = select_keyed(ts, keys, k);
        r.append(&mut part);
        k = k + 1;
    }
    r
}

/// A character takes at most four bytes.
pub proof fn lemma_encode_utf8_len(s: Seq<char>)
    ensures
        encode_utf8(s).len() <= 4 * s.len(),
    decreases s.len(),
{
    if s.len() > 0 {
        lemma_encode_utf8_len(s.drop_first());
    }
}

/// Position of `t` in `names` (the last one, if it stands there twice).
pub fn lookup_rank(names: &Vec<String>, t: &str) -> (r: Option<usize>)
    ensures
        r == rank(names.deep_view(), t@),
{
    let mut i: usize = names.len();
    proof {
        assert(names.deep_view().subrange(0, i as int) =~= names.deep_view());
    }
    while i > 0
        invariant
            i <= names.len(),
            rank(names.deep_view(), t@) == rank(names.deep_view().subrange(0, i as int), t@),
        decreases i,
    {
        proof {
            assert(names.deep_view().subrange(0, i as int).drop_last() =~= names.deep_view().subrange(
                0,
                i - 1,
            ));
        }
        if str_equal(names[i - 1].as_str(), t) {
            return Some(i - 1);
        }
        i = i - 1;
    }
    None
}

/// Whether `t` is `v`, then `:`, then anything.
fn has_variant_prefix(v: &str, t: &str) -> (r: bool)
    ensures
        r == starts_with(t@, v@ + seq![':']),
{
    proof {
        reveal_strlit(":");
    }
    match strip_prefix(t, v) {
        Some(rest) => {
            let sep = strip_prefix(rest, ":");
            proof {
                let w = v@ + seq![':'];
                let vl = v@.len() as int;
                assert(":"@ =~= seq![':']);
                assert(t@.len() == vl + rest@.len());
                assert(forall|i: int| 0 <= i < rest@.len() ==> rest@[i] == t@[vl + i]);
                if starts_with(t@, w) {
                    assert(t@.subrange(0, w.len() as int)[vl] == w[vl]);
                    assert(rest@.subrange(0, 1) =~= seq![':']);
                }
                if sep is Some {
                    assert(rest@.subrange(0, 1)[0] == ':');
                    assert(t@.subrange(0, vl) == v@);
                    assert forall|i: int| 0 <= i < w.len() implies t@.subrange(0, w.len() as int)[i]
                        == w[i] by {
                        if i < vl {
                            assert(t@.subrange(0, vl)[i] == v@[i]);
                        }
                    }
                    assert(t@.subrange(0, w.len() as int) =~= w);
                }
            }
            sep.is_some()
        },
        None => {
            proof {
                let w = v@ + seq![':'];
                if starts_with(t@, w) {
                    assert(t@.subrange(0, v@.len() as int) =~= w.subrange(0, v@.len() as int));
                    assert(w.subrange(0, v@.len() as int) =~= v@);
                }
            }
            false
        },
    }
}

/// The first catalog entry that `t` starts with, followed by `:`.
pub fn lookup_variant(vs: &Vec<&str>, t: &str) -> (r: Option<usize>)
    ensures
        r == variant_of(vs.deep_view(), t@),
{
    let mut i: usize = 0;
    while i < vs.len()
        invariant
            i <= vs.len(),
            variant_of(vs.deep_view(), t@) == variant_from(vs.deep_view(), t@, i as int),
        decreases vs.len() - i,
    {
        if has_variant_prefix(vs[i], t) {
            return Some(i);
        }
        i = i + 1;
    }
    None
}

/// The rank of each token.
fn ranks_of(names: &Vec<String>, ts: &Vec<&str>) -> (r: Vec<Option<usize>>)
    ensures
        r@ == rank_keys(names.deep_view(), ts.deep_view()),
{
    let mut r: Vec<Option<usize>> = Vec::new();
    let mut j: usize = 0;
    while j < ts.len()
        invariant
            j <= ts.len(),
            r.len() == j,
            forall|i: int| 0 <= i < j ==> r[i] == rank(names.deep_view(), ts[i]@),
        decreases ts.len() - j,
    {
        r.push(lookup_rank(names, ts[j]));
        j = j + 1;
    }
    proof {
        assert(r@ =~= rank_keys(names.deep_view(), ts.deep_view()));
    }
    r
}

/// The variant prefix of each token.
fn variants_of(vs: &Vec<&str>, ts: &Vec<&str>) -> (r: Vec<Option<usize>>)
    ensures
        r@ == variant_keys(vs.deep_view(), ts.deep_view()),
{
    let mut r: Vec<Option<usize>> = Vec::new();
    let mut j: usize = 0;
    while j < ts.len()
        invariant
            j <= ts.len(),
            r.len() == j,
            forall|i: int| 0 <= i < j ==> r[i] == variant_of(vs.deep_view(), ts[i]@),
        decreases ts.len() - j,
    {
        r.push(lookup_variant(vs, ts[j]));
        j = j + 1;
    }
    proof {
        assert(r@ =~= variant_keys(vs.deep_view(), ts.deep_view()));
    }
    r
}

/// Sorts the tokens of one variant group by the rank of what follows their first
/// `class_after` bytes (none where that offset is not a character boundary). Those whose remainder is not ranked are appended to
/// `custom_classes`, in order. Returns the sorted group and the extended customs.
pub fn sort_variant_classes<'a>(
    classes: Vec<&'a str>,
    custom_classes: Vec<&'a str>,
    class_after: usize,
    sorter: &Vec<String>,
) -> (r: (Vec<&'a str>, Vec<&'a str>))
    ensures
        r.0.deep_view() == by_key(
            classes.deep_view(),
            suffix_keys(sorter.deep_view(), classes.deep_view(), class_after as nat),
            sorter.len() as nat,
        ),
        r.1.deep_view() == custom_classes.deep_view() + unkeyed(
            classes.deep_view(),
            suffix_keys(sorter.deep_view(), classes.deep_view(), class_after as nat),
        ),
{
    let mut keys: Vec<Option<usize>> = Vec::new();
    let mut j: usize = 0;
    while j < classes.len()
        invariant
            j <= classes.len(),
            keys.len() == j,
            forall|i: int|
                0 <= i < j ==> keys[i] == suffix_keys(
                    sorter.deep_view(),
                    classes.deep_view(),
                    class_after as nat,
                )[i],
        decreases classes.len() - j,
    {
        let class = classes[j];
        proof {
            encode_utf8_valid_utf8(class@);
            is_char_boundary_start_end_of_seq(class.spec_bytes());
            assert(classes.deep_view()[j as int] == class@);
        }
        if class.is_char_boundary(class_after) {
            let n = class.as_bytes().len();
            let rest = byte_slice(class, class_after, n);
            proof {
                encode_utf8_decode_utf8(rest@);
            }
            keys.push(lookup_rank(sorter, rest));
        } else {
            keys.push(None);
        }
        j = j + 1;
    }
    proof {
        assert(keys@ =~= suffix_keys(sorter.deep_view(), classes.deep_view(), class_after as nat));
    }
    let sorted = sort_by_key(&classes, &keys, sorter.len());
    let mut custom = custom_classes;
    append_unkeyed(&mut custom, &classes, &keys);
    (sorted, custom)
}

/// Puts tokens in their final order (see `sorted_tokens`) against the precedence
/// table `sorter` and the built-in variant catalog.
pub fn sort_classes_vec<'a>(classes: Vec<&'a str>, sorter: &Vec<String>) -> (r: Vec<&'a str>)
    ensures
        r.deep_view() == sorted_tokens(sorter.deep_view(), variant_catalog(), classes.deep_view()),
{
    let ghost names = sorter.deep_view();
    let ghost ts = classes.deep_view();
    let keys = ranks_of(sorter, &classes);
    let mut result = sort_by_key(&classes, &keys, sorter.len());
    let mut rest: Vec<&'a str> = Vec::new();
    append_unkeyed(&mut rest, &classes, &keys);
    proof {
        assert(rest.deep_view() =~= non_canonical(names, ts));
    }
    let vs = variant_prefixes();
    let vkeys = variants_of(&vs, &rest);
    let mut custom: Vec<&'a str> = Vec::new();
    append_unkeyed(&mut custom, &rest, &vkeys);
    proof {
        assert(custom.deep_view() =~= plain_custom(names, vs.deep_view(), ts));
        lemma_variant_catalog_short();
    }
    let mut variant_classes: Vec<&'a str> = Vec::new();
    let mut i: usize = 0;
    while i < vs.len()
        invariant
            i <= vs.len(),
            vs.deep_view() == variant_catalog(),
            names == sorter.deep_view(),
            ts == classes.deep_view(),
            rest.deep_view() == non_canonical(names, ts),
            vkeys@ == variant_keys(vs.deep_view(), rest.deep_view()),
            forall|k: int| 0 <= k < variant_catalog().len() ==> #[trigger] variant_catalog()[k].len() <= 20,
            variant_classes.deep_view() == variants_upto(names, vs.deep_view(), ts, i as nat),
            custom.deep_view() == customs_upto(names, vs.deep_view(), ts, i as nat),
        decreases vs.len() - i,
    {
        let group = select_keyed(&rest, &vkeys, i);
        proof {
            assert(vs.deep_view()[i as int] == vs[i as int]@);
            lemma_encode_utf8_len(vs[i as int]@);
        }
        let class_after = vs[i].as_bytes().len() + 1;
        let (mut sorted, new_custom) = sort_variant_classes(group, custom, class_after, sorter);
        variant_classes.append(&mut sorted);
        custom = new_custom;
        i = i + 1;
    }
    result.append(&mut variant_classes);
    result.append(&mut custom);
    result
}

/// The tokens of `s`, without repeats unless `allow_duplicates`.
pub open spec fn class_tokens(s: Seq<char>, allow_duplicates: bool) -> Seq<Seq<char>> {
    if allow_duplicates {
        words(s)
    } else {
        first_occurrences(words(s))
    }
}

/// A class string rewritten: its tokens in order, joined by single spaces.
pub open spec fn sorted_class_string(
    names: Seq<Seq<char>>,
    s: Seq<char>,
    allow_duplicates: bool,
) -> Seq<char> {
    join(sorted_tokens(names, variant_catalog(), class_tokens(s, allow_duplicates)))
}

/// Sorts a whitespace-separated class string.
pub fn sort_classes(class_string: &str, sorter: &Vec<String>, allow_duplicates: bool) -> (r: String)
    ensures
        r@ == sorted_class_string(sorter.deep_view(), class_string@, allow_duplicates),
{
    let tokens = split_whitespace(class_string);
    let tokens = if allow_duplicates {
        tokens
    } else {
        unique_tokens(tokens)
    };
    let sorted = sort_classes_vec(tokens, sorter);
    join_tokens(&sorted)
}

} // verus!
