//! Properties of the sorter and the rewriter, proved over their specifications.
use crate::sorting::{
    by_key, canonical_part, customs_upto, keyed, non_canonical, plain_custom, rank, rank_keys,
    sorted_tokens, suffix_keys, unkeyed, variant_from, variant_group, variant_keys, variant_of,
    variant_sorted, variant_unknown, variants_upto,
};
use crate::catalog::variant_catalog;
use crate::pattern::{regex_captures, spliced};
use crate::sorting::{class_tokens, prefix_skip, sorted_class_string, suffix_after, suffix_rank_of};
use crate::tokens::{first_occurrences, is_token, is_ws, join, words};
use crate::utils::{rewritten_classes, rewritten_container};
use vstd::multiset::Multiset;
use vstd::prelude::*;
use vstd::utf8::encode_utf8_decode_utf8;
use vstd::seq_lib::{group_to_multiset_ensures, lemma_multiset_commutative};

verus! {

broadcast use group_to_multiset_ensures, lemma_multiset_commutative;

/// Keys below `n`, where there is one.
pub open spec fn keys_below(keys: Seq<Option<usize>>, n: nat) -> bool {
    forall|i: int| 0 <= i < keys.len() ==> (#[trigger] keys[i] matches Some(k) ==> k < n)
}

proof fn lemma_rank_below(names: Seq<Seq<char>>, t: Seq<char>)
    ensures
        rank(names, t) matches Some(r) ==> r < names.len(),
    decreases names.len(),
{
    if names.len() > 0 {
        lemma_rank_below(names.drop_last(), t);
    }
}

proof fn lemma_variant_below(vs: Seq<Seq<char>>, t: Seq<char>, i: int)
    ensures
        variant_from(vs, t, i) matches Some(k) ==> k < vs.len(),
    decreases vs.len() - i,
{
    if 0 <= i < vs.len() {
        lemma_variant_below(vs, t, i + 1);
    }
}

proof fn lemma_rank_keys_below(names: Seq<Seq<char>>, ts: Seq<Seq<char>>)
    ensures
        keys_below(rank_keys(names, ts), names.len()),
{
    assert forall|i: int| 0 <= i < ts.len() implies (#[trigger] rank_keys(names, ts)[i] matches Some(
        k,
    ) ==> k < names.len()) by {
        lemma_rank_below(names, ts[i]);
    }
}

proof fn lemma_suffix_keys_below(names: Seq<Seq<char>>, ts: Seq<Seq<char>>, skip: nat)
    ensures
        keys_below(suffix_keys(names, ts, skip), names.len()),
{
    assert forall|i: int| 0 <= i < ts.len() implies (#[trigger] suffix_keys(names, ts, skip)[i] matches Some(
        k,
    ) ==> k < names.len()) by {
        if let Some(rest) = suffix_after(ts[i], skip) {
            lemma_rank_below(names, rest);
        }
    }
}

proof fn lemma_variant_keys_below(vs: Seq<Seq<char>>, ts: Seq<Seq<char>>)
    ensures
        keys_below(variant_keys(vs, ts), vs.len()),
{
    assert forall|i: int| 0 <= i < ts.len() implies (#[trigger] variant_keys(vs, ts)[i] matches Some(
        k,
    ) ==> k < vs.len()) by {
        lemma_variant_below(vs, ts[i], 0);
    }
}

/// What the last token adds to the multiset of a stable sort by key.
proof fn lemma_by_key_last(ts: Seq<Seq<char>>, keys: Seq<Option<usize>>, n: nat)
    requires
        ts.len() == keys.len(),
        ts.len() > 0,
    ensures
        by_key(ts, keys, n).to_multiset() == by_key(
            ts.drop_last(),
            keys.subrange(0, ts.len() - 1),
            n,
        ).to_multiset().add(
            if keys.last() matches Some(k) && k < n {
                Multiset::singleton(ts.last())
            } else {
                Multiset::empty()
            },
        ),
    decreases n,
{
    broadcast use vstd::multiset::group_multiset_axioms;

    let ts0 = ts.drop_last();
    let keys0 = keys.subrange(0, ts.len() - 1);
    if n == 0 {
        assert(by_key(ts, keys, n).to_multiset() =~= by_key(ts0, keys0, n).to_multiset().add(
            Multiset::empty(),
        ));
    } else {
        let m = (n - 1) as nat;
        lemma_by_key_last(ts, keys, m);
        let a = keyed(ts, keys, m);
        let a0 = keyed(ts0, keys0, m);
        assert(by_key(ts, keys, n) == by_key(ts, keys, m) + a);
        assert(by_key(ts0, keys0, n) == by_key(ts0, keys0, m) + a0);
        if keys.last() matches Some(x) && x == m {
            assert(a == a0.push(ts.last()));
        } else {
            assert(a == a0);
        }
        assert(by_key(ts, keys, n).to_multiset() =~= by_key(ts0, keys0, n).to_multiset().add(
            if keys.last() matches Some(k) && k < n {
                Multiset::singleton(ts.last())
            } else {
                Multiset::empty()
            },
        ));
    }
}

/// Sorting by key and keeping the keyless tokens after loses and adds nothing.
proof fn lemma_partition(ts: Seq<Seq<char>>, keys: Seq<Option<usize>>, n: nat)
    requires
        ts.len() == keys.len(),
        keys_below(keys, n),
    ensures
        by_key(ts, keys, n).to_multiset().add(unkeyed(ts, keys).to_multiset()) == ts.to_multiset(),
    decreases ts.len(),
{
    broadcast use vstd::multiset::group_multiset_axioms;

    if ts.len() == 0 {
        lemma_by_key_empty(ts, keys, n);
        assert(by_key(ts, keys, n).to_multiset().add(unkeyed(ts, keys).to_multiset())
            =~= ts.to_multiset());
    } else {
        let ts0 = ts.drop_last();
        let keys0 = keys.subrange(0, ts.len() - 1);
        assert(keys_below(keys0, n)) by {
            assert forall|i: int| 0 <= i < keys0.len() implies (#[trigger] keys0[i] matches Some(k)
                ==> k < n) by {
                assert(keys0[i] == keys[i]);
            }
        }
        lemma_partition(ts0, keys0, n);
        lemma_by_key_last(ts, keys, n);
        assert(ts0.push(ts.last()) == ts);
        assert(keys[ts.len() - 1] == keys.last());
        assert(by_key(ts, keys, n).to_multiset().add(unkeyed(ts, keys).to_multiset())
            =~= ts.to_multiset());
    }
}

proof fn lemma_by_key_empty(ts: Seq<Seq<char>>, keys: Seq<Option<usize>>, n: nat)
    requires
        ts.len() == 0,
    ensures
        by_key(ts, keys, n) == Seq::<Seq<char>>::empty(),
    decreases n,
{
    if n > 0 {
        lemma_by_key_empty(ts, keys, (n - 1) as nat);
        assert(by_key(ts, keys, n) =~= Seq::<Seq<char>>::empty());
    }
}

proof fn lemma_variant_parts(names: Seq<Seq<char>>, vs: Seq<Seq<char>>, ts: Seq<Seq<char>>, k: nat)
    requires
        k <= vs.len(),
    ensures
        variants_upto(names, vs, ts, k).to_multiset().add(customs_upto(names, vs, ts, k).to_multiset())
            == by_key(
            non_canonical(names, ts),
            variant_keys(vs, non_canonical(names, ts)),
            k,
        ).to_multiset().add(plain_custom(names, vs, ts).to_multiset()),
    decreases k,
{
    broadcast use vstd::multiset::group_multiset_axioms;

    let rest = non_canonical(names, ts);
    let vk = variant_keys(vs, rest);
    if k == 0 {
        assert(variants_upto(names, vs, ts, k).to_multiset().add(
            customs_upto(names, vs, ts, k).to_multiset(),
        ) =~= by_key(rest, vk, k).to_multiset().add(plain_custom(names, vs, ts).to_multiset()));
    } else {
        let i = (k - 1) as nat;
        lemma_variant_parts(names, vs, ts, (k - 1) as nat);
        let g = variant_group(names, vs, ts, i);
        let skip = prefix_skip(vs[i as int]);
        lemma_suffix_keys_below(names, g, skip);
        lemma_partition(g, suffix_keys(names, g, skip), names.len());
        assert(variant_sorted(names, vs, ts, i).to_multiset().add(
            variant_unknown(names, vs, ts, i).to_multiset(),
        ) == g.to_multiset());
        assert(by_key(rest, vk, k) == by_key(rest, vk, (k - 1) as nat) + g);
        assert(variants_upto(names, vs, ts, k) == variants_upto(names, vs, ts, (k - 1) as nat)
            + variant_sorted(names, vs, ts, i));
        assert(customs_upto(names, vs, ts, k) == customs_upto(names, vs, ts, (k - 1) as nat)
            + variant_unknown(names, vs, ts, i));
        assert((by_key(rest, vk, (k - 1) as nat) + g).to_multiset() == by_key(rest, vk, (k - 1) as nat).to_multiset().add(g.to_multiset()));
        let va = variants_upto(names, vs, ts, (k - 1) as nat);
        let cu = customs_upto(names, vs, ts, (k - 1) as nat);
        let sv = variant_sorted(names, vs, ts, i);
        let un = variant_unknown(names, vs, ts, i);
        let bk = by_key(rest, vk, (k - 1) as nat);
        lemma_multiset_commutative(va, sv);
        lemma_multiset_commutative(cu, un);
        lemma_multiset_commutative(bk, g);
        let lhs = variants_upto(names, vs, ts, k).to_multiset().add(
            customs_upto(names, vs, ts, k).to_multiset(),
        );
        let rhs = by_key(rest, vk, k).to_multiset().add(plain_custom(names, vs, ts).to_multiset());
        assert forall|x: Seq<char>| lhs.count(x) == rhs.count(x) by {
            assert(va.to_multiset().add(cu.to_multiset()).count(x) == bk.to_multiset().add(
                plain_custom(names, vs, ts).to_multiset(),
            ).count(x));
            assert(sv.to_multiset().add(un.to_multiset()).count(x) == g.to_multiset().count(x));
        }
        assert(lhs =~= rhs);
    }
}

/// Sorting keeps every token as often as it occurs: the output is a rearrangement
/// of the input.
pub proof fn lemma_sorted_tokens_permutation(
    names: Seq<Seq<char>>,
    vs: Seq<Seq<char>>,
    ts: Seq<Seq<char>>,
)
    ensures
        sorted_tokens(names, vs, ts).to_multiset() == ts.to_multiset(),
{
    broadcast use vstd::multiset::group_multiset_axioms;

    let rest = non_canonical(names, ts);
    let vk = variant_keys(vs, rest);
    lemma_rank_keys_below(names, ts);
    lemma_partition(ts, rank_keys(names, ts), names.len());
    lemma_variant_keys_below(vs, rest);
    lemma_partition(rest, vk, vs.len());
    lemma_variant_parts(names, vs, ts, vs.len());
    assert(sorted_tokens(names, vs, ts).to_multiset() =~= ts.to_multiset());
}

/// Every word is a token, and text ending in a non-space has a last word.
pub proof fn lemma_words_are_tokens(s: Seq<char>)
    ensures
        forall|i: int| 0 <= i < words(s).len() ==> is_token(#[trigger] words(s)[i]),
        s.len() > 0 && !is_ws(s.last()) ==> words(s).len() > 0,
    decreases s.len(),
{
    if s.len() > 0 {
        let s0 = s.drop_last();
        lemma_words_are_tokens(s0);
        let w = words(s0);
        let c = s.last();
        if !is_ws(c) {
            if s.len() > 1 && !is_ws(s[s.len() - 2]) {
                assert(s0.last() == s[s.len() - 2]);
                let t = w.last().push(c);
                assert(is_token(w.last()));
                assert(is_token(t)) by {
                    assert forall|j: int| 0 <= j < t.len() implies !is_ws(#[trigger] t[j]) by {
                        if j < t.len() - 1 {
                            assert(t[j] == w.last()[j]);
                        }
                    }
                }
                assert forall|i: int| 0 <= i < words(s).len() implies is_token(#[trigger] words(s)[i]) by {
                    if i < w.len() - 1 {
                        assert(words(s)[i] == w[i]);
                    }
                }
            } else {
                let t = seq![c];
                assert(is_token(t));
                assert forall|i: int| 0 <= i < words(s).len() implies is_token(#[trigger] words(s)[i]) by {
                    if i < w.len() {
                        assert(words(s)[i] == w[i]);
                    }
                }
            }
        }
    }
}

/// Words of `a` followed by a token, where `a` is empty or ends in whitespace.
proof fn lemma_words_append_token(a: Seq<char>, w: Seq<char>)
    requires
        is_token(w),
        a.len() == 0 || is_ws(a.last()),
    ensures
        words(a + w) == words(a).push(w),
    decreases w.len(),
{
    let s = a + w;
    if w.len() == 1 {
        assert(s.drop_last() =~= a);
        assert(!is_ws(w[0]));
        assert(seq![s.last()] =~= w);
    } else {
        let w0 = w.drop_last();
        assert(is_token(w0)) by {
            assert forall|j: int| 0 <= j < w0.len() implies !is_ws(#[trigger] w0[j]) by {
                assert(w0[j] == w[j]);
            }
        }
        lemma_words_append_token(a, w0);
        assert(s.drop_last() =~= a + w0);
        assert(s[s.len() - 2] == w[w.len() - 2]);
        assert(!is_ws(w[w.len() - 2]));
        assert(!is_ws(w[w.len() - 1]));
        assert(words(a + w0).last() == w0);
        assert(words(a + w0).drop_last() =~= words(a));
        assert(w0.push(s.last()) =~= w);
    }
}

/// Splitting tokens joined by single spaces gives the tokens back.
pub proof fn lemma_words_of_join(ts: Seq<Seq<char>>)
    requires
        forall|i: int| 0 <= i < ts.len() ==> is_token(#[trigger] ts[i]),
    ensures
        words(join(ts)) == ts,
    decreases ts.len(),
{
    if ts.len() == 1 {
        lemma_words_append_token(Seq::empty(), ts[0]);
        assert(Seq::<char>::empty() + ts[0] =~= ts[0]);
        assert(Seq::<Seq<char>>::empty().push(ts[0]) =~= ts);
    } else if ts.len() > 1 {
        let ts0 = ts.drop_last();
        assert forall|i: int| 0 <= i < ts0.len() implies is_token(#[trigger] ts0[i]) by {
            assert(ts0[i] == ts[i]);
        }
        lemma_words_of_join(ts0);
        let a = join(ts0) + seq![' '];
        assert(words(a) == words(join(ts0))) by {
            assert(a.drop_last() =~= join(ts0));
        }
        assert(is_token(ts[ts.len() - 1]));
        lemma_words_append_token(a, ts.last());
        assert(ts0.push(ts.last()) =~= ts);
    } else {
        assert(words(join(ts)) =~= ts);
    }
}

/// `first_occurrences` has no repeats and holds exactly the items of its input.
proof fn lemma_first_occurrences(ts: Seq<Seq<char>>)
    ensures
        first_occurrences(ts).no_duplicates(),
        forall|t: Seq<char>| first_occurrences(ts).contains(t) <==> ts.contains(t),
    decreases ts.len(),
{
    if ts.len() > 0 {
        let ts0 = ts.drop_last();
        lemma_first_occurrences(ts0);
        let d = first_occurrences(ts0);
        assert forall|t: Seq<char>| first_occurrences(ts).contains(t) <==> ts.contains(t) by {
            if ts.contains(t) {
                let j = choose|j: int| 0 <= j < ts.len() && ts[j] == t;
                if j < ts.len() - 1 {
                    assert(ts0[j] == t);
                }
            }
            if ts0.contains(t) {
                let j = choose|j: int| 0 <= j < ts0.len() && ts0[j] == t;
                assert(ts[j] == t);
            }
            if first_occurrences(ts).contains(t) && !d.contains(t) {
                assert(first_occurrences(ts) == d.push(ts.last()));
                let j = choose|j: int| 0 <= j < first_occurrences(ts).len() && first_occurrences(ts)[j] == t;
                if j < d.len() {
                    assert(d[j] == t);
                }
            }
            if d.contains(t) && !d.contains(ts.last()) {
                let j = choose|j: int| 0 <= j < d.len() && d[j] == t;
                assert(d.push(ts.last())[j] == t);
            }
            if t == ts.last() && !d.contains(t) {
                assert(d.push(ts.last())[d.len() as int] == t);
            }
        }
    }
}

/// The tokens of a rewritten class string are the tokens of the input, each as
/// often as it occurs there, when duplicates are allowed.
pub proof fn lemma_tokens_preserved(names: Seq<Seq<char>>, s: Seq<char>)
    ensures
        words(sorted_class_string(names, s, true)).to_multiset() == words(s).to_multiset(),
{
    let ts = class_tokens(s, true);
    let out = sorted_tokens(names, variant_catalog(), ts);
    lemma_sorted_tokens_permutation(names, variant_catalog(), ts);
    lemma_words_are_tokens(s);
    lemma_outputs_are_tokens(ts, out);
    lemma_words_of_join(out);
}

/// Items of a rearrangement of tokens are tokens.
proof fn lemma_outputs_are_tokens(ts: Seq<Seq<char>>, out: Seq<Seq<char>>)
    requires
        out.to_multiset() == ts.to_multiset(),
        forall|i: int| 0 <= i < ts.len() ==> is_token(#[trigger] ts[i]),
    ensures
        forall|i: int| 0 <= i < out.len() ==> is_token(#[trigger] out[i]),
{
    assert forall|i: int| 0 <= i < out.len() implies is_token(#[trigger] out[i]) by {
        assert(out.contains(out[i]));
        assert(out.to_multiset().count(out[i]) > 0);
        assert(ts.contains(out[i]));
    }
}

/// With duplicates disallowed, a rewritten class string holds each distinct token
/// of the input exactly once, and nothing else.
pub proof fn lemma_duplicates_removed(names: Seq<Seq<char>>, s: Seq<char>)
    ensures
        words(sorted_class_string(names, s, false)).no_duplicates(),
        forall|t: Seq<char>|
            words(sorted_class_string(names, s, false)).contains(t) <==> words(s).contains(t),
{
    let ts = class_tokens(s, false);
    let out = sorted_tokens(names, variant_catalog(), ts);
    lemma_sorted_tokens_permutation(names, variant_catalog(), ts);
    lemma_first_occurrences(words(s));
    lemma_words_are_tokens(s);
    assert forall|i: int| 0 <= i < ts.len() implies is_token(#[trigger] ts[i]) by {
        assert(ts.contains(ts[i]));
        assert(words(s).contains(ts[i]));
        let j = choose|j: int| 0 <= j < words(s).len() && words(s)[j] == ts[i];
        assert(is_token(words(s)[j]));
    }
    lemma_outputs_are_tokens(ts, out);
    lemma_words_of_join(out);
    ts.lemma_multiset_has_no_duplicates();
    assert forall|t: Seq<char>| out.to_multiset().contains(t) implies out.to_multiset().count(t) == 1 by {
        assert(ts.to_multiset().contains(t));
    }
    out.lemma_multiset_has_no_duplicates_conv();
    assert forall|t: Seq<char>| out.contains(t) <==> words(s).contains(t) by {
        assert(out.contains(t) <==> out.to_multiset().count(t) > 0);
        assert(ts.contains(t) <==> ts.to_multiset().count(t) > 0);
    }
}

/// Each token kept by `keyed` has key `k` under `f`, and each kept by `unkeyed` has none.
proof fn lemma_selected_keys(
    ts: Seq<Seq<char>>,
    keys: Seq<Option<usize>>,
    f: spec_fn(Seq<char>) -> Option<usize>,
    k: nat,
)
    requires
        ts.len() == keys.len(),
        forall|i: int| 0 <= i < ts.len() ==> #[trigger] keys[i] == f(ts[i]),
    ensures
        forall|p: int|
            0 <= p < keyed(ts, keys, k).len() ==> (f(#[trigger] keyed(ts, keys, k)[p]) matches Some(
                x,
            ) && x == k),
        forall|p: int|
            0 <= p < unkeyed(ts, keys).len() ==> f(#[trigger] unkeyed(ts, keys)[p]) is None,
    decreases ts.len(),
{
    if ts.len() > 0 {
        let ts0 = ts.drop_last();
        let keys0 = keys.subrange(0, ts.len() - 1);
        assert forall|i: int| 0 <= i < ts0.len() implies #[trigger] keys0[i] == f(ts0[i]) by {
            assert(keys0[i] == keys[i]);
        }
        lemma_selected_keys(ts0, keys0, f, k);
        assert(keys[ts.len() - 1] == f(ts[ts.len() - 1]));
        let a = keyed(ts, keys, k);
        let a0 = keyed(ts0, keys0, k);
        assert forall|p: int| 0 <= p < a.len() implies (f(#[trigger] a[p]) matches Some(x) && x == k) by {
            if p < a0.len() {
                assert(a[p] == a0[p]);
            }
        }
        let u = unkeyed(ts, keys);
        let u0 = unkeyed(ts0, keys0);
        assert forall|p: int| 0 <= p < u.len() implies f(#[trigger] u[p]) is None by {
            if p < u0.len() {
                assert(u[p] == u0[p]);
            }
        }
    }
}

/// A stable sort by key puts tokens in nondecreasing order of key, every key below `n`.
proof fn lemma_by_key_ordered(
    ts: Seq<Seq<char>>,
    keys: Seq<Option<usize>>,
    f: spec_fn(Seq<char>) -> Option<usize>,
    n: nat,
)
    requires
        ts.len() == keys.len(),
        forall|i: int| 0 <= i < ts.len() ==> #[trigger] keys[i] == f(ts[i]),
    ensures
        forall|p: int|
            0 <= p < by_key(ts, keys, n).len() ==> (f(#[trigger] by_key(ts, keys, n)[p]) matches Some(
                x,
            ) && x < n),
        forall|p: int, q: int|
            0 <= p < q < by_key(ts, keys, n).len() ==> f(#[trigger] by_key(ts, keys, n)[p])->Some_0
                <= f(#[trigger] by_key(ts, keys, n)[q])->Some_0,
    decreases n,
{
    if n > 0 {
        let m = (n - 1) as nat;
        lemma_by_key_ordered(ts, keys, f, m);
        lemma_selected_keys(ts, keys, f, m);
        let b = by_key(ts, keys, m);
        let a = keyed(ts, keys, m);
        let c = by_key(ts, keys, n);
        assert(c == b + a);
        assert forall|p: int| 0 <= p < c.len() implies (f(#[trigger] c[p]) matches Some(x) && x < n) by {
            if p < b.len() {
                assert(c[p] == b[p]);
            } else {
                assert(c[p] == a[p - b.len()]);
            }
        }
        assert forall|p: int, q: int| 0 <= p < q < c.len() implies f(#[trigger] c[p])->Some_0 <= f(
            #[trigger] c[q],
        )->Some_0 by {
            if q < b.len() {
                assert(c[p] == b[p]);
                assert(c[q] == b[q]);
            } else if p < b.len() {
                assert(c[p] == b[p]);
                assert(c[q] == a[q - b.len()]);
            } else {
                assert(c[p] == a[p - b.len()]);
                assert(c[q] == a[q - b.len()]);
            }
        }
    }
}

/// Everything after the canonical tokens is a rearrangement of the non-canonical ones.
proof fn lemma_tail_is_rest(names: Seq<Seq<char>>, vs: Seq<Seq<char>>, ts: Seq<Seq<char>>)
    ensures
        (variants_upto(names, vs, ts, vs.len()) + customs_upto(names, vs, ts, vs.len())).to_multiset()
            == non_canonical(names, ts).to_multiset(),
{
    let rest = non_canonical(names, ts);
    lemma_variant_keys_below(vs, rest);
    lemma_partition(rest, variant_keys(vs, rest), vs.len());
    lemma_variant_parts(names, vs, ts, vs.len());
}

/// Canonical tokens come first, ordered by rank: of two ranked tokens in the output,
/// the one of lower rank stands first, whatever the input order; an earlier ranked
/// token never has a higher rank; and no unranked token precedes a ranked one.
pub proof fn lemma_canonical_order(names: Seq<Seq<char>>, vs: Seq<Seq<char>>, ts: Seq<Seq<char>>)
    ensures
        forall|i: int, j: int|
            0 <= i < sorted_tokens(names, vs, ts).len() && 0 <= j < sorted_tokens(names, vs, ts).len()
                && rank(names, #[trigger] sorted_tokens(names, vs, ts)[i]) is Some && rank(
                names,
                #[trigger] sorted_tokens(names, vs, ts)[j],
            ) is Some && rank(names, sorted_tokens(names, vs, ts)[i])->Some_0 < rank(
                names,
                sorted_tokens(names, vs, ts)[j],
            )->Some_0 ==> i < j,
        forall|i: int, j: int|
            0 <= i < j < sorted_tokens(names, vs, ts).len() && rank(
                names,
                #[trigger] sorted_tokens(names, vs, ts)[i],
            ) is Some && rank(names, #[trigger] sorted_tokens(names, vs, ts)[j]) is Some ==> rank(
                names,
                sorted_tokens(names, vs, ts)[i],
            )->Some_0 <= rank(names, sorted_tokens(names, vs, ts)[j])->Some_0,
        forall|i: int, j: int|
            0 <= i < j < sorted_tokens(names, vs, ts).len() && rank(
                names,
                #[trigger] sorted_tokens(names, vs, ts)[i],
            ) is None ==> rank(names, #[trigger] sorted_tokens(names, vs, ts)[j]) is None,
{
    let out = sorted_tokens(names, vs, ts);
    let f = |t: Seq<char>| rank(names, t);
    let rk = rank_keys(names, ts);
    let canon = canonical_part(names, ts);
    let tail = variants_upto(names, vs, ts, vs.len()) + customs_upto(names, vs, ts, vs.len());
    let rest = non_canonical(names, ts);
    assert(out == canon + tail);
    lemma_by_key_ordered(ts, rk, f, names.len());
    lemma_selected_keys(ts, rk, f, 0);
    lemma_tail_is_rest(names, vs, ts);
    assert forall|p: int| 0 <= p < tail.len() implies rank(names, #[trigger] tail[p]) is None by {
        assert(tail.contains(tail[p]));
        assert(tail.to_multiset().count(tail[p]) > 0);
        assert(rest.contains(tail[p]));
        let r = choose|r: int| 0 <= r < rest.len() && rest[r] == tail[p];
        assert(f(rest[r]) is None);
    }
    assert forall|i: int, j: int|
        0 <= i < out.len() && 0 <= j < out.len() && rank(names, #[trigger] out[i]) is Some && rank(
            names,
            #[trigger] out[j],
        ) is Some && rank(names, out[i])->Some_0 < rank(names, out[j])->Some_0 implies i < j by {
        if i >= canon.len() {
            assert(out[i] == tail[i - canon.len()]);
        } else if j >= canon.len() {
            assert(out[j] == tail[j - canon.len()]);
        } else {
            assert(out[i] == canon[i]);
            assert(out[j] == canon[j]);
            if j < i {
                assert(f(canon[j])->Some_0 <= f(canon[i])->Some_0);
            }
        }
    }
    assert forall|i: int, j: int|
        0 <= i < j < out.len() && rank(names, #[trigger] out[i]) is Some && rank(
            names,
            #[trigger] out[j],
        ) is Some implies rank(names, out[i])->Some_0 <= rank(names, out[j])->Some_0 by {
        if j >= canon.len() {
            assert(out[j] == tail[j - canon.len()]);
        } else {
            assert(out[i] == canon[i]);
            assert(out[j] == canon[j]);
        }
    }
    assert forall|i: int, j: int|
        0 <= i < j < out.len() && rank(names, #[trigger] out[i]) is None implies rank(
            names,
            #[trigger] out[j],
        ) is None by {
        if i < canon.len() {
            assert(out[i] == canon[i]);
        } else {
            assert(out[j] == tail[j - canon.len()]);
        }
    }
}

/// Text with no captures comes out of a splice unchanged.
proof fn lemma_splice_nothing(text: Seq<char>, reps: Seq<Seq<char>>)
    ensures
        spliced(text, Seq::empty(), reps) == text,
{
    let bytes = vstd::utf8::encode_utf8(text);
    encode_utf8_decode_utf8(text);
    assert(bytes.subrange(0, bytes.len() as int) =~= bytes);
    assert(spliced(text, Seq::empty(), reps) =~= text);
}

/// Rewriting text in which the pattern finds no match returns it unchanged.
pub proof fn lemma_no_match_unchanged(
    names: Seq<Seq<char>>,
    allow_duplicates: bool,
    pattern: Seq<char>,
    text: Seq<char>,
)
    requires
        regex_captures(pattern, text).len() == 0,
    ensures
        rewritten_classes(names, allow_duplicates, pattern, text) == text,
        forall|class_pattern: Option<Seq<char>>|
            rewritten_container(names, allow_duplicates, (pattern, class_pattern), text) == text,
{
    let caps = regex_captures(pattern, text);
    assert(caps =~= Seq::empty());
    lemma_splice_nothing(text, crate::utils::sorted_reps(names, allow_duplicates, text, caps));
    assert forall|class_pattern: Option<Seq<char>>|
        rewritten_container(names, allow_duplicates, (pattern, class_pattern), text) == text by {
        lemma_splice_nothing(
            text,
            crate::utils::container_reps(names, allow_duplicates, class_pattern, text, caps),
        );
    }
}

/// The variant part of the output: tokens whose remainder after prefix and `:` is
/// canonical, grouped by prefix in catalog order.
proof fn lemma_variant_blocks(names: Seq<Seq<char>>, vs: Seq<Seq<char>>, ts: Seq<Seq<char>>, k: nat)
    requires
        k <= vs.len(),
    ensures
        forall|p: int|
            0 <= p < variants_upto(names, vs, ts, k).len() ==> {
                let t = #[trigger] variants_upto(names, vs, ts, k)[p];
                &&& variant_of(vs, t) matches Some(i) && i < k
                &&& suffix_rank_of(names, t, prefix_skip(vs[variant_of(vs, t)->Some_0 as int])) is Some
            },
        forall|p: int, q: int|
            0 <= p < q < variants_upto(names, vs, ts, k).len() ==> variant_of(
                vs,
                #[trigger] variants_upto(names, vs, ts, k)[p],
            )->Some_0 <= variant_of(vs, #[trigger] variants_upto(names, vs, ts, k)[q])->Some_0,
    decreases k,
{
    if k > 0 {
        let i = (k - 1) as nat;
        lemma_variant_blocks(names, vs, ts, i);
        let rest = non_canonical(names, ts);
        let vk = variant_keys(vs, rest);
        let fv = |t: Seq<char>| variant_of(vs, t);
        lemma_selected_keys(rest, vk, fv, i);
        let g = variant_group(names, vs, ts, i);
        let skip = prefix_skip(vs[i as int]);
        let sk = suffix_keys(names, g, skip);
        let fs = suffix_rank(names, skip);
        lemma_by_key_ordered(g, sk, fs, names.len());
        lemma_suffix_keys_below(names, g, skip);
        lemma_partition(g, sk, names.len());
        let b = variants_upto(names, vs, ts, i);
        let a = variant_sorted(names, vs, ts, i);
        let c = variants_upto(names, vs, ts, k);
        assert(c == b + a);
        assert forall|p: int| 0 <= p < a.len() implies fv(#[trigger] a[p]) is Some && fv(a[p])->Some_0
            == i && fs(a[p]) is Some by {
            broadcast use vstd::multiset::group_multiset_axioms;

            assert(a == by_key(g, sk, names.len()));
            assert(a.contains(a[p]));
            assert(a.to_multiset().count(a[p]) > 0);
            assert(a.to_multiset().add(unkeyed(g, sk).to_multiset()).count(a[p]) > 0);
            assert(g.to_multiset().count(a[p]) > 0);
            assert(g.contains(a[p]));
            let r = choose|r: int| 0 <= r < g.len() && g[r] == a[p];
            assert(sk[r] == fs(g[r]));
        }
        assert forall|p: int| 0 <= p < c.len() implies {
            let t = #[trigger] c[p];
            &&& variant_of(vs, t) matches Some(j) && j < k
            &&& suffix_rank_of(names, t, prefix_skip(vs[variant_of(vs, t)->Some_0 as int])) is Some
        } by {
            if p < b.len() {
                assert(c[p] == b[p]);
            } else {
                assert(c[p] == a[p - b.len()]);
                assert(fv(a[p - b.len()]) is Some);
                assert(fs(a[p - b.len()]) is Some);
            }
        }
        assert forall|p: int, q: int| 0 <= p < q < c.len() implies variant_of(vs, #[trigger] c[p])->Some_0
            <= variant_of(vs, #[trigger] c[q])->Some_0 by {
            if q < b.len() {
                assert(c[p] == b[p]);
                assert(c[q] == b[q]);
            } else if p < b.len() {
                assert(c[p] == b[p]);
                assert(c[q] == a[q - b.len()]);
                assert(fv(a[q - b.len()]) is Some);
            } else {
                assert(c[p] == a[p - b.len()]);
                assert(c[q] == a[q - b.len()]);
                assert(fv(a[p - b.len()]) is Some);
                assert(fv(a[q - b.len()]) is Some);
            }
        }
    }
}

/// After the canonical tokens come the variant-prefixed ones, grouped by prefix in
/// catalog order; only those whose remainder after the prefix and `:` is canonical
/// stand there, the others going to the custom tail.
pub proof fn lemma_variant_grouping(names: Seq<Seq<char>>, vs: Seq<Seq<char>>, ts: Seq<Seq<char>>)
    ensures
        ({
            let out = sorted_tokens(names, vs, ts);
            let start = canonical_part(names, ts).len();
            let end = start + variants_upto(names, vs, ts, vs.len()).len();
            &&& forall|p: int| 0 <= p < start ==> rank(names, #[trigger] out[p]) is Some
            &&& forall|p: int|
                start <= p < end ==> {
                    let t = #[trigger] out[p];
                    &&& rank(names, t) is None
                    &&& variant_of(vs, t) is Some
                    &&& suffix_rank_of(names, t, prefix_skip(vs[variant_of(vs, t)->Some_0 as int])) is Some
                }
            &&& forall|p: int, q: int|
                start <= p < q < end ==> variant_of(vs, #[trigger] out[p])->Some_0 <= variant_of(
                    vs,
                    #[trigger] out[q],
                )->Some_0
        }),
{
    let out = sorted_tokens(names, vs, ts);
    let canon = canonical_part(names, ts);
    let v = variants_upto(names, vs, ts, vs.len());
    let tail = v + customs_upto(names, vs, ts, vs.len());
    let rest = non_canonical(names, ts);
    let f = |t: Seq<char>| rank(names, t);
    let rk = rank_keys(names, ts);
    assert(out == canon + tail);
    lemma_by_key_ordered(ts, rk, f, names.len());
    lemma_selected_keys(ts, rk, f, 0);
    lemma_tail_is_rest(names, vs, ts);
    lemma_variant_blocks(names, vs, ts, vs.len());
    assert forall|p: int| 0 <= p < canon.len() implies rank(names, #[trigger] out[p]) is Some by {
        assert(out[p] == canon[p]);
    }
    assert forall|p: int| 0 <= p < tail.len() implies rank(names, #[trigger] tail[p]) is None by {
        broadcast use vstd::multiset::group_multiset_axioms;

        assert(tail.contains(tail[p]));
        assert(tail.to_multiset().count(tail[p]) > 0);
        assert(rest.contains(tail[p]));
        let r = choose|r: int| 0 <= r < rest.len() && rest[r] == tail[p];
        assert(f(rest[r]) is None);
    }
    assert forall|p: int| canon.len() <= p < canon.len() + v.len() implies {
        let t = #[trigger] out[p];
        &&& rank(names, t) is None
        &&& variant_of(vs, t) is Some
        &&& suffix_rank_of(names, t, prefix_skip(vs[variant_of(vs, t)->Some_0 as int])) is Some
    } by {
        assert(out[p] == tail[p - canon.len()]);
        assert(tail[p - canon.len()] == v[p - canon.len()]);
    }
    assert forall|p: int, q: int| canon.len() <= p < q < canon.len() + v.len() implies variant_of(
        vs,
        #[trigger] out[p],
    )->Some_0 <= variant_of(vs, #[trigger] out[q])->Some_0 by {
        assert(out[p] == v[p - canon.len()]);
        assert(out[q] == v[q - canon.len()]);
    }
}

/// A token that is neither canonical nor variant-prefixed.
pub open spec fn is_plain_custom(names: Seq<Seq<char>>, vs: Seq<Seq<char>>, t: Seq<char>) -> bool {
    rank(names, t) is None && variant_of(vs, t) is None
}

proof fn lemma_plain_custom_filter(names: Seq<Seq<char>>, vs: Seq<Seq<char>>, ts: Seq<Seq<char>>)
    ensures
        plain_custom(names, vs, ts) == ts.filter(|t: Seq<char>| is_plain_custom(names, vs, t)),
    decreases ts.len(),
{
    reveal(Seq::filter);
    let pred = |t: Seq<char>| is_plain_custom(names, vs, t);
    if ts.len() == 0 {
        assert(plain_custom(names, vs, ts) =~= ts.filter(pred));
    } else {
        let ts0 = ts.drop_last();
        lemma_plain_custom_filter(names, vs, ts0);
        let rk = rank_keys(names, ts);
        assert(rk.subrange(0, ts.len() - 1) =~= rank_keys(names, ts0));
        let rest = non_canonical(names, ts);
        let rest0 = non_canonical(names, ts0);
        let t = ts.last();
        assert(rk[ts.len() - 1] == rank(names, t));
        if rank(names, t) is None {
            assert(rest == rest0.push(t));
            let vk = variant_keys(vs, rest);
            assert(vk.subrange(0, rest.len() - 1) =~= variant_keys(vs, rest0));
            assert(rest.drop_last() =~= rest0);
            assert(vk[rest.len() - 1] == variant_of(vs, t));
        } else {
            assert(rest == rest0);
        }
    }
}

/// Tokens that are neither canonical nor variant-prefixed come out unchanged and in
/// their input order, right after the variant groups.
pub proof fn lemma_custom_passthrough(names: Seq<Seq<char>>, vs: Seq<Seq<char>>, ts: Seq<Seq<char>>)
    ensures
        ({
            let out = sorted_tokens(names, vs, ts);
            let start = canonical_part(names, ts).len() + variants_upto(names, vs, ts, vs.len()).len();
            let plain = ts.filter(|t: Seq<char>| is_plain_custom(names, vs, t));
            &&& start + plain.len() <= out.len()
            &&& out.subrange(start as int, start + plain.len() as int) == plain
        }),
{
    lemma_plain_custom_filter(names, vs, ts);
    lemma_customs_start(names, vs, ts, vs.len());
    let out = sorted_tokens(names, vs, ts);
    let canon = canonical_part(names, ts);
    let v = variants_upto(names, vs, ts, vs.len());
    let c = customs_upto(names, vs, ts, vs.len());
    let plain = plain_custom(names, vs, ts);
    let start = canon.len() + v.len();
    assert(out == canon + v + c);
    assert(out.subrange(start as int, start + plain.len() as int) =~= c.subrange(0, plain.len() as int));
}

proof fn lemma_customs_start(names: Seq<Seq<char>>, vs: Seq<Seq<char>>, ts: Seq<Seq<char>>, k: nat)
    ensures
        plain_custom(names, vs, ts).len() <= customs_upto(names, vs, ts, k).len(),
        customs_upto(names, vs, ts, k).subrange(0, plain_custom(names, vs, ts).len() as int)
            == plain_custom(names, vs, ts),
    decreases k,
{
    if k == 0 {
        let p = plain_custom(names, vs, ts);
        assert(p.subrange(0, p.len() as int) =~= p);
    } else {
        lemma_customs_start(names, vs, ts, (k - 1) as nat);
        let p = plain_custom(names, vs, ts);
        let c0 = customs_upto(names, vs, ts, (k - 1) as nat);
        let c = customs_upto(names, vs, ts, k);
        assert(c == c0 + variant_unknown(names, vs, ts, (k - 1) as nat));
        assert(c.subrange(0, p.len() as int) =~= c0.subrange(0, p.len() as int));
    }
}

/// The key of each token under `f`.
pub open spec fn keys_of(f: spec_fn(Seq<char>) -> Option<usize>, ts: Seq<Seq<char>>) -> Seq<
    Option<usize>,
> {
    Seq::new(ts.len(), |i: int| f(ts[i]))
}

proof fn lemma_keys_of_prefix(f: spec_fn(Seq<char>) -> Option<usize>, ts: Seq<Seq<char>>)
    requires
        ts.len() > 0,
    ensures
        keys_of(f, ts).subrange(0, ts.len() - 1) == keys_of(f, ts.drop_last()),
        keys_of(f, ts)[ts.len() - 1] == f(ts.last()),
{
    assert(keys_of(f, ts).subrange(0, ts.len() - 1) =~= keys_of(f, ts.drop_last()));
}

/// Selecting by key distributes over concatenation.
proof fn lemma_select_concat(
    f: spec_fn(Seq<char>) -> Option<usize>,
    a: Seq<Seq<char>>,
    b: Seq<Seq<char>>,
    k: nat,
)
    ensures
        keyed(a + b, keys_of(f, a + b), k) == keyed(a, keys_of(f, a), k) + keyed(b, keys_of(f, b), k),
        unkeyed(a + b, keys_of(f, a + b)) == unkeyed(a, keys_of(f, a)) + unkeyed(b, keys_of(f, b)),
    decreases b.len(),
{
    if b.len() == 0 {
        assert(a + b =~= a);
        assert(keyed(a, keys_of(f, a), k) + keyed(b, keys_of(f, b), k) =~= keyed(a, keys_of(f, a), k));
        assert(unkeyed(a, keys_of(f, a)) + unkeyed(b, keys_of(f, b)) =~= unkeyed(a, keys_of(f, a)));
    } else {
        let b0 = b.drop_last();
        lemma_select_concat(f, a, b0, k);
        lemma_keys_of_prefix(f, a + b);
        lemma_keys_of_prefix(f, b);
        assert((a + b).drop_last() =~= a + b0);
        assert((a + b).last() == b.last());
        if f(b.last()) matches Some(x) && x == k {
            assert(keyed(a, keys_of(f, a), k) + keyed(b, keys_of(f, b), k) =~= (keyed(
                a,
                keys_of(f, a),
                k,
            ) + keyed(b0, keys_of(f, b0), k)).push(b.last()));
        }
        if f(b.last()) is None {
            assert(unkeyed(a, keys_of(f, a)) + unkeyed(b, keys_of(f, b)) =~= (unkeyed(a, keys_of(f, a))
                + unkeyed(b0, keys_of(f, b0))).push(b.last()));
        }
    }
}

/// Selecting from tokens that all share one key keeps all or nothing.
proof fn lemma_select_uniform(f: spec_fn(Seq<char>) -> Option<usize>, a: Seq<Seq<char>>, k: nat)
    ensures
        (forall|i: int| 0 <= i < a.len() ==> (f(#[trigger] a[i]) matches Some(x) && x == k)) ==> keyed(
            a,
            keys_of(f, a),
            k,
        ) == a && unkeyed(a, keys_of(f, a)) == Seq::<Seq<char>>::empty(),
        (forall|i: int| 0 <= i < a.len() ==> !(f(#[trigger] a[i]) matches Some(x) && x == k)) ==> keyed(
            a,
            keys_of(f, a),
            k,
        ) == Seq::<Seq<char>>::empty(),
        (forall|i: int| 0 <= i < a.len() ==> f(#[trigger] a[i]) is None) ==> unkeyed(a, keys_of(f, a))
            == a,
    decreases a.len(),
{
    if a.len() == 0 {
        assert(keyed(a, keys_of(f, a), k) =~= a);
    } else {
        let a0 = a.drop_last();
        lemma_select_uniform(f, a0, k);
        lemma_keys_of_prefix(f, a);
        assert(a0.push(a.last()) =~= a);
        assert(a.last() == a[a.len() - 1]);
        if forall|i: int| 0 <= i < a.len() ==> (f(#[trigger] a[i]) matches Some(x) && x == k) {
            assert forall|i: int| 0 <= i < a0.len() implies (f(#[trigger] a0[i]) matches Some(x) && x
                == k) by {
                assert(a0[i] == a[i]);
            }
        }
        if forall|i: int| 0 <= i < a.len() ==> !(f(#[trigger] a[i]) matches Some(x) && x == k) {
            assert forall|i: int| 0 <= i < a0.len() implies !(f(#[trigger] a0[i]) matches Some(x) && x
                == k) by {
                assert(a0[i] == a[i]);
            }
        }
        if forall|i: int| 0 <= i < a.len() ==> f(#[trigger] a[i]) is None {
            assert forall|i: int| 0 <= i < a0.len() implies f(#[trigger] a0[i]) is None by {
                assert(a0[i] == a[i]);
            }
        }
    }
}

/// Selecting key `m` from a sorted sequence gives back what it gave before sorting.
proof fn lemma_keyed_of_sorted(f: spec_fn(Seq<char>) -> Option<usize>, ts: Seq<Seq<char>>, n: nat, m: nat)
    ensures
        ({
            let b = by_key(ts, keys_of(f, ts), n);
            &&& m < n ==> keyed(b, keys_of(f, b), m) == keyed(ts, keys_of(f, ts), m)
            &&& m >= n ==> keyed(b, keys_of(f, b), m) == Seq::<Seq<char>>::empty()
            &&& unkeyed(b, keys_of(f, b)) == Seq::<Seq<char>>::empty()
        }),
    decreases n,
{
    let kt = keys_of(f, ts);
    if n == 0 {
        let b = by_key(ts, kt, n);
        assert(b =~= Seq::<Seq<char>>::empty());
        assert(keyed(b, keys_of(f, b), m) =~= Seq::<Seq<char>>::empty());
        assert(unkeyed(b, keys_of(f, b)) =~= Seq::<Seq<char>>::empty());
    } else {
        let n0 = (n - 1) as nat;
        lemma_keyed_of_sorted(f, ts, n0, m);
        let b0 = by_key(ts, kt, n0);
        let blk = keyed(ts, kt, n0);
        let b = by_key(ts, kt, n);
        assert(b == b0 + blk);
        lemma_select_concat(f, b0, blk, m);
        assert forall|i: int| 0 <= i < kt.len() implies #[trigger] kt[i] == f(ts[i]) by {}
        lemma_selected_keys(ts, kt, f, n0);
        lemma_select_uniform(f, blk, m);
        lemma_select_uniform(f, blk, n0);
        assert(keyed(b0, keys_of(f, b0), m) + keyed(blk, keys_of(f, blk), m) == keyed(b, keys_of(f, b), m));
        if m == n0 {
            assert(keyed(b0, keys_of(f, b0), m) + blk =~= blk);
        } else if m < n0 {
            assert(keyed(b0, keys_of(f, b0), m) + Seq::<Seq<char>>::empty() =~= keyed(b0, keys_of(f, b0), m));
        } else {
            assert(Seq::<Seq<char>>::empty() + Seq::<Seq<char>>::empty() =~= Seq::<Seq<char>>::empty());
        }
        assert forall|i: int| 0 <= i < blk.len() implies !(f(#[trigger] blk[i]) is None) by {}
        assert(unkeyed(blk, keys_of(f, blk)) =~= Seq::<Seq<char>>::empty()) by {
            lemma_select_uniform(f, blk, n0);
        }
        assert(Seq::<Seq<char>>::empty() + Seq::<Seq<char>>::empty() =~= Seq::<Seq<char>>::empty());
    }
}

/// Sorting a sorted sequence again changes nothing.
proof fn lemma_by_key_idempotent(f: spec_fn(Seq<char>) -> Option<usize>, ts: Seq<Seq<char>>, n: nat, m: nat)
    requires
        m <= n,
    ensures
        ({
            let b = by_key(ts, keys_of(f, ts), n);
            by_key(b, keys_of(f, b), m) == by_key(ts, keys_of(f, ts), m)
        }),
    decreases m,
{
    if m > 0 {
        lemma_by_key_idempotent(f, ts, n, (m - 1) as nat);
        lemma_keyed_of_sorted(f, ts, n, (m - 1) as nat);
    }
}

/// A property held by every token is held by every token selected or sorted.
proof fn lemma_select_preserves(
    ts: Seq<Seq<char>>,
    keys: Seq<Option<usize>>,
    q: spec_fn(Seq<char>) -> bool,
    k: nat,
    n: nat,
)
    requires
        ts.len() == keys.len(),
        forall|i: int| 0 <= i < ts.len() ==> q(#[trigger] ts[i]),
    ensures
        forall|p: int| 0 <= p < keyed(ts, keys, k).len() ==> q(#[trigger] keyed(ts, keys, k)[p]),
        forall|p: int| 0 <= p < unkeyed(ts, keys).len() ==> q(#[trigger] unkeyed(ts, keys)[p]),
        forall|p: int| 0 <= p < by_key(ts, keys, n).len() ==> q(#[trigger] by_key(ts, keys, n)[p]),
    decreases ts.len() + n,
{
    if n > 0 {
        lemma_select_preserves(ts, keys, q, (n - 1) as nat, (n - 1) as nat);
        lemma_select_preserves(ts, keys, q, k, 0);
        let b0 = by_key(ts, keys, (n - 1) as nat);
        let blk = keyed(ts, keys, (n - 1) as nat);
        assert(by_key(ts, keys, n) == b0 + blk);
        assert forall|p: int| 0 <= p < by_key(ts, keys, n).len() implies q(
            #[trigger] by_key(ts, keys, n)[p],
        ) by {
            if p < b0.len() {
                assert(by_key(ts, keys, n)[p] == b0[p]);
            } else {
                assert(by_key(ts, keys, n)[p] == blk[p - b0.len()]);
            }
        }
    } else if ts.len() > 0 {
        let ts0 = ts.drop_last();
        let keys0 = keys.subrange(0, ts.len() - 1);
        assert forall|i: int| 0 <= i < ts0.len() implies q(#[trigger] ts0[i]) by {
            assert(ts0[i] == ts[i]);
        }
        lemma_select_preserves(ts0, keys0, q, k, 0);
        assert(q(ts[ts.len() - 1]));
        let a = keyed(ts, keys, k);
        let a0 = keyed(ts0, keys0, k);
        assert forall|p: int| 0 <= p < a.len() implies q(#[trigger] a[p]) by {
            if p < a0.len() {
                assert(a[p] == a0[p]);
            }
        }
        let u = unkeyed(ts, keys);
        let u0 = unkeyed(ts0, keys0);
        assert forall|p: int| 0 <= p < u.len() implies q(#[trigger] u[p]) by {
            if p < u0.len() {
                assert(u[p] == u0[p]);
            }
        }
        assert(by_key(ts, keys, 0) =~= Seq::<Seq<char>>::empty());
    } else {
        assert(by_key(ts, keys, 0) =~= Seq::<Seq<char>>::empty());
    }
}

/// Keyless tokens appended after a sequence do not change its sort.
proof fn lemma_by_key_ignore_tail(
    f: spec_fn(Seq<char>) -> Option<usize>,
    a: Seq<Seq<char>>,
    t: Seq<Seq<char>>,
    m: nat,
)
    requires
        forall|i: int| 0 <= i < t.len() ==> f(#[trigger] t[i]) is None,
    ensures
        by_key(a + t, keys_of(f, a + t), m) == by_key(a, keys_of(f, a), m),
        unkeyed(a + t, keys_of(f, a + t)) == unkeyed(a, keys_of(f, a)) + t,
    decreases m,
{
    lemma_select_concat(f, a, t, 0);
    lemma_select_uniform(f, t, 0);
    if m > 0 {
        let k = (m - 1) as nat;
        lemma_by_key_ignore_tail(f, a, t, k);
        lemma_select_concat(f, a, t, k);
        lemma_select_uniform(f, t, k);
        assert(keyed(a, keys_of(f, a), k) + Seq::<Seq<char>>::empty() =~= keyed(a, keys_of(f, a), k));
    }
}

/// The keys of what follows the first `skip` bytes.
pub open spec fn suffix_rank(names: Seq<Seq<char>>, skip: nat) -> spec_fn(Seq<char>) -> Option<usize> {
    |t: Seq<char>| suffix_rank_of(names, t, skip)
}

/// What each part of the output is made of.
proof fn lemma_part_keys(names: Seq<Seq<char>>, vs: Seq<Seq<char>>, ts: Seq<Seq<char>>, i: nat)
    requires
        i < vs.len(),
    ensures
        forall|p: int|
            0 <= p < variant_sorted(names, vs, ts, i).len() ==> {
                let t = #[trigger] variant_sorted(names, vs, ts, i)[p];
                &&& variant_of(vs, t) matches Some(x) && x == i
                &&& rank(names, t) is None
                &&& suffix_rank(names, prefix_skip(vs[i as int]))(t) is Some
            },
        forall|p: int|
            0 <= p < variant_unknown(names, vs, ts, i).len() ==> {
                let t = #[trigger] variant_unknown(names, vs, ts, i)[p];
                &&& variant_of(vs, t) matches Some(x) && x == i
                &&& rank(names, t) is None
                &&& suffix_rank(names, prefix_skip(vs[i as int]))(t) is None
            },
        forall|p: int|
            0 <= p < plain_custom(names, vs, ts).len() ==> {
                let t = #[trigger] plain_custom(names, vs, ts)[p];
                &&& variant_of(vs, t) is None
                &&& rank(names, t) is None
            },
{
    let fr = |t: Seq<char>| rank(names, t);
    let fv = |t: Seq<char>| variant_of(vs, t);
    let rk = rank_keys(names, ts);
    lemma_selected_keys(ts, rk, fr, 0);
    let rest = non_canonical(names, ts);
    let vk = variant_keys(vs, rest);
    lemma_selected_keys(rest, vk, fv, i);
    let q1 = |t: Seq<char>| rank(names, t) is None;
    lemma_select_preserves(rest, vk, q1, i, 0);
    let g = variant_group(names, vs, ts, i);
    let skip = prefix_skip(vs[i as int]);
    let fs = suffix_rank(names, skip);
    let sk = suffix_keys(names, g, skip);
    assert forall|j: int| 0 <= j < g.len() implies #[trigger] sk[j] == fs(g[j]) by {}
    lemma_selected_keys(g, sk, fs, 0);
    lemma_by_key_ordered(g, sk, fs, names.len());
    let q2 = |t: Seq<char>| (variant_of(vs, t) matches Some(x) && x == i) && rank(names, t) is None;
    assert forall|j: int| 0 <= j < g.len() implies q2(#[trigger] g[j]) by {
        assert(fv(g[j]) matches Some(x) && x == i);
        assert(q1(g[j]));
    }
    lemma_select_preserves(g, sk, q2, 0, names.len());
}

/// Selecting by variant from the variant part gives back its groups.
proof fn lemma_variant_part_select(
    names: Seq<Seq<char>>,
    vs: Seq<Seq<char>>,
    ts: Seq<Seq<char>>,
    k: nat,
    i: nat,
)
    requires
        k <= vs.len(),
    ensures
        ({
            let fv = |t: Seq<char>| variant_of(vs, t);
            let v = variants_upto(names, vs, ts, k);
            let c = customs_upto(names, vs, ts, k);
            &&& keyed(v, keys_of(fv, v), i) == (if i < k {
                variant_sorted(names, vs, ts, i)
            } else {
                Seq::<Seq<char>>::empty()
            })
            &&& unkeyed(v, keys_of(fv, v)) == Seq::<Seq<char>>::empty()
            &&& keyed(c, keys_of(fv, c), i) == (if i < k {
                variant_unknown(names, vs, ts, i)
            } else {
                Seq::<Seq<char>>::empty()
            })
            &&& unkeyed(c, keys_of(fv, c)) == plain_custom(names, vs, ts)
        }),
    decreases k,
{
    let fv = |t: Seq<char>| variant_of(vs, t);
    if k == 0 {
        let p = plain_custom(names, vs, ts);
        let v = variants_upto(names, vs, ts, k);
        assert(v =~= Seq::<Seq<char>>::empty());
        assert(keyed(v, keys_of(fv, v), i) =~= Seq::<Seq<char>>::empty());
        assert(unkeyed(v, keys_of(fv, v)) =~= Seq::<Seq<char>>::empty());
        lemma_plain_keys(names, vs, ts);
        lemma_select_uniform(fv, p, i);
    } else {
        let j = (k - 1) as nat;
        lemma_variant_part_select(names, vs, ts, j, i);
        lemma_part_keys(names, vs, ts, j);
        let sv = variant_sorted(names, vs, ts, j);
        let un = variant_unknown(names, vs, ts, j);
        let v0 = variants_upto(names, vs, ts, j);
        let c0 = customs_upto(names, vs, ts, j);
        assert(variants_upto(names, vs, ts, k) == v0 + sv);
        assert(customs_upto(names, vs, ts, k) == c0 + un);
        lemma_select_concat(fv, v0, sv, i);
        lemma_select_concat(fv, c0, un, i);
        lemma_select_uniform(fv, sv, i);
        lemma_select_uniform(fv, un, i);
        lemma_select_uniform(fv, sv, j);
        lemma_select_uniform(fv, un, j);
        assert forall|p: int| 0 <= p < sv.len() implies !(fv(#[trigger] sv[p]) is None) by {}
        assert forall|p: int| 0 <= p < un.len() implies !(fv(#[trigger] un[p]) is None) by {}
        lemma_unkeyed_all_keyed(fv, sv);
        lemma_unkeyed_all_keyed(fv, un);
        if i < j {
            assert(keyed(v0, keys_of(fv, v0), i) + Seq::<Seq<char>>::empty() =~= keyed(v0, keys_of(fv, v0), i));
            assert(keyed(c0, keys_of(fv, c0), i) + Seq::<Seq<char>>::empty() =~= keyed(c0, keys_of(fv, c0), i));
        } else if i == j {
            assert(Seq::<Seq<char>>::empty() + sv =~= sv);
            assert(Seq::<Seq<char>>::empty() + un =~= un);
        } else {
            assert(Seq::<Seq<char>>::empty() + Seq::<Seq<char>>::empty() =~= Seq::<Seq<char>>::empty());
        }
        assert(Seq::<Seq<char>>::empty() + Seq::<Seq<char>>::empty() =~= Seq::<Seq<char>>::empty());
        assert(plain_custom(names, vs, ts) + Seq::<Seq<char>>::empty() =~= plain_custom(names, vs, ts));
    }
}

proof fn lemma_plain_keys(names: Seq<Seq<char>>, vs: Seq<Seq<char>>, ts: Seq<Seq<char>>)
    ensures
        forall|p: int|
            0 <= p < plain_custom(names, vs, ts).len() ==> variant_of(
                vs,
                #[trigger] plain_custom(names, vs, ts)[p],
            ) is None && rank(names, plain_custom(names, vs, ts)[p]) is None,
{
    let fr = |t: Seq<char>| rank(names, t);
    let fv = |t: Seq<char>| variant_of(vs, t);
    lemma_selected_keys(ts, rank_keys(names, ts), fr, 0);
    let rest = non_canonical(names, ts);
    lemma_selected_keys(rest, variant_keys(vs, rest), fv, 0);
    let q1 = |t: Seq<char>| rank(names, t) is None;
    lemma_select_preserves(rest, variant_keys(vs, rest), q1, 0, 0);
}

/// Tokens that all have a key leave nothing keyless.
proof fn lemma_unkeyed_all_keyed(f: spec_fn(Seq<char>) -> Option<usize>, a: Seq<Seq<char>>)
    requires
        forall|i: int| 0 <= i < a.len() ==> !(f(#[trigger] a[i]) is None),
    ensures
        unkeyed(a, keys_of(f, a)) == Seq::<Seq<char>>::empty(),
    decreases a.len(),
{
    if a.len() == 0 {
        assert(unkeyed(a, keys_of(f, a)) =~= Seq::<Seq<char>>::empty());
    } else {
        let a0 = a.drop_last();
        assert forall|i: int| 0 <= i < a0.len() implies !(f(#[trigger] a0[i]) is None) by {
            assert(a0[i] == a[i]);
        }
        lemma_unkeyed_all_keyed(f, a0);
        lemma_keys_of_prefix(f, a);
        assert(!(f(a[a.len() - 1]) is None));
    }
}

/// The output's canonical tokens are the canonical part, and the rest is the tail.
proof fn lemma_output_split(names: Seq<Seq<char>>, vs: Seq<Seq<char>>, ts: Seq<Seq<char>>)
    ensures
        ({
            let out = sorted_tokens(names, vs, ts);
            let tail = variants_upto(names, vs, ts, vs.len()) + customs_upto(names, vs, ts, vs.len());
            &&& canonical_part(names, out) == canonical_part(names, ts)
            &&& non_canonical(names, out) == tail
        }),
{
    let fr = |t: Seq<char>| rank(names, t);
    let out = sorted_tokens(names, vs, ts);
    let canon = canonical_part(names, ts);
    let tail = variants_upto(names, vs, ts, vs.len()) + customs_upto(names, vs, ts, vs.len());
    let rest = non_canonical(names, ts);
    assert(out == canon + tail);
    assert(rank_keys(names, ts) =~= keys_of(fr, ts));
    assert(rank_keys(names, out) =~= keys_of(fr, out));
    lemma_selected_keys(ts, rank_keys(names, ts), fr, 0);
    lemma_tail_is_rest(names, vs, ts);
    assert forall|p: int| 0 <= p < tail.len() implies fr(#[trigger] tail[p]) is None by {
        broadcast use vstd::multiset::group_multiset_axioms;

        assert(tail.contains(tail[p]));
        assert(tail.to_multiset().count(tail[p]) > 0);
        assert(rest.contains(tail[p]));
        let r = choose|r: int| 0 <= r < rest.len() && rest[r] == tail[p];
        assert(fr(rest[r]) is None);
    }
    lemma_by_key_ignore_tail(fr, canon, tail, names.len());
    lemma_by_key_idempotent(fr, ts, names.len(), names.len());
    lemma_keyed_of_sorted(fr, ts, names.len(), 0);
    assert(Seq::<Seq<char>>::empty() + tail =~= tail);
}

/// Each variant group of the output sorts to the same group again.
proof fn lemma_output_groups(names: Seq<Seq<char>>, vs: Seq<Seq<char>>, ts: Seq<Seq<char>>, i: nat)
    requires
        i < vs.len(),
    ensures
        variant_sorted(names, vs, sorted_tokens(names, vs, ts), i) == variant_sorted(names, vs, ts, i),
        variant_unknown(names, vs, sorted_tokens(names, vs, ts), i) == variant_unknown(names, vs, ts, i),
        plain_custom(names, vs, sorted_tokens(names, vs, ts)) == plain_custom(names, vs, ts),
{
    let fv = |t: Seq<char>| variant_of(vs, t);
    let out = sorted_tokens(names, vs, ts);
    let v = variants_upto(names, vs, ts, vs.len());
    let c = customs_upto(names, vs, ts, vs.len());
    let tail = v + c;
    lemma_output_split(names, vs, ts);
    assert(variant_keys(vs, tail) =~= keys_of(fv, tail));
    lemma_variant_part_select(names, vs, ts, vs.len(), i);
    lemma_select_concat(fv, v, c, i);
    let sv = variant_sorted(names, vs, ts, i);
    let un = variant_unknown(names, vs, ts, i);
    let g2 = variant_group(names, vs, out, i);
    assert(g2 == sv + un);
    assert(Seq::<Seq<char>>::empty() + plain_custom(names, vs, ts) =~= plain_custom(names, vs, ts));
    let skip = prefix_skip(vs[i as int]);
    let fs = suffix_rank(names, skip);
    let g = variant_group(names, vs, ts, i);
    assert(suffix_keys(names, g2, skip) =~= keys_of(fs, g2));
    assert(suffix_keys(names, g, skip) =~= keys_of(fs, g));
    lemma_part_keys(names, vs, ts, i);
    assert forall|p: int| 0 <= p < un.len() implies fs(#[trigger] un[p]) is None by {}
    lemma_by_key_ignore_tail(fs, sv, un, names.len());
    lemma_by_key_idempotent(fs, g, names.len(), names.len());
    lemma_keyed_of_sorted(fs, g, names.len(), 0);
    assert(Seq::<Seq<char>>::empty() + un =~= un);
}

proof fn lemma_output_parts(names: Seq<Seq<char>>, vs: Seq<Seq<char>>, ts: Seq<Seq<char>>, k: nat)
    requires
        k <= vs.len(),
    ensures
        variants_upto(names, vs, sorted_tokens(names, vs, ts), k) == variants_upto(names, vs, ts, k),
        customs_upto(names, vs, sorted_tokens(names, vs, ts), k) == customs_upto(names, vs, ts, k),
    decreases k,
{
    if k == 0 {
        if vs.len() > 0 {
            lemma_output_groups(names, vs, ts, 0);
        } else {
            lemma_output_plain_empty_catalog(names, vs, ts);
        }
    } else {
        lemma_output_parts(names, vs, ts, (k - 1) as nat);
        lemma_output_groups(names, vs, ts, (k - 1) as nat);
    }
}

proof fn lemma_output_plain_empty_catalog(names: Seq<Seq<char>>, vs: Seq<Seq<char>>, ts: Seq<Seq<char>>)
    requires
        vs.len() == 0,
    ensures
        plain_custom(names, vs, sorted_tokens(names, vs, ts)) == plain_custom(names, vs, ts),
{
    let fv = |t: Seq<char>| variant_of(vs, t);
    let v = variants_upto(names, vs, ts, vs.len());
    let c = customs_upto(names, vs, ts, vs.len());
    lemma_output_split(names, vs, ts);
    assert(variant_keys(vs, v + c) =~= keys_of(fv, v + c));
    lemma_variant_part_select(names, vs, ts, vs.len(), 0);
    lemma_select_concat(fv, v, c, 0);
    assert(Seq::<Seq<char>>::empty() + plain_custom(names, vs, ts) =~= plain_custom(names, vs, ts));
}

/// Sorting sorted tokens again changes nothing.
pub proof fn lemma_sorted_tokens_idempotent(names: Seq<Seq<char>>, vs: Seq<Seq<char>>, ts: Seq<Seq<char>>)
    ensures
        sorted_tokens(names, vs, sorted_tokens(names, vs, ts)) == sorted_tokens(names, vs, ts),
{
    lemma_output_split(names, vs, ts);
    lemma_output_parts(names, vs, ts, vs.len());
}

proof fn lemma_first_occurrences_distinct(ts: Seq<Seq<char>>)
    requires
        ts.no_duplicates(),
    ensures
        first_occurrences(ts) == ts,
    decreases ts.len(),
{
    if ts.len() > 0 {
        let ts0 = ts.drop_last();
        assert(ts0.no_duplicates());
        lemma_first_occurrences_distinct(ts0);
        assert(!ts0.contains(ts.last()));
        assert(ts0.push(ts.last()) =~= ts);
    }
}

/// Rewriting a class string that was already rewritten changes nothing.
pub proof fn lemma_sort_idempotent(names: Seq<Seq<char>>, s: Seq<char>, allow_duplicates: bool)
    ensures
        sorted_class_string(names, sorted_class_string(names, s, allow_duplicates), allow_duplicates)
            == sorted_class_string(names, s, allow_duplicates),
{
    let vs = variant_catalog();
    let ts = class_tokens(s, allow_duplicates);
    let out = sorted_tokens(names, vs, ts);
    lemma_sorted_tokens_permutation(names, vs, ts);
    lemma_words_are_tokens(s);
    if allow_duplicates {
        lemma_outputs_are_tokens(ts, out);
    } else {
        lemma_duplicates_removed(names, s);
        lemma_first_occurrences(words(s));
        assert forall|i: int| 0 <= i < ts.len() implies is_token(#[trigger] ts[i]) by {
            assert(ts.contains(ts[i]));
            assert(words(s).contains(ts[i]));
            let j = choose|j: int| 0 <= j < words(s).len() && words(s)[j] == ts[i];
            assert(is_token(words(s)[j]));
        }
        lemma_outputs_are_tokens(ts, out);
        lemma_words_of_join(out);
        lemma_first_occurrences_distinct(out);
    }
    lemma_words_of_join(out);
    lemma_sorted_tokens_idempotent(names, vs, ts);
}

/// Tokens of the custom tail are plain custom tokens or variant tokens whose
/// remainder is not canonical.
proof fn lemma_customs_keys(names: Seq<Seq<char>>, vs: Seq<Seq<char>>, ts: Seq<Seq<char>>, k: nat)
    requires
        k <= vs.len(),
    ensures
        forall|p: int|
            0 <= p < customs_upto(names, vs, ts, k).len() ==> {
                let t = #[trigger] customs_upto(names, vs, ts, k)[p];
                &&& rank(names, t) is None
                &&& (variant_of(vs, t) is None || suffix_rank_of(
                    names,
                    t,
                    prefix_skip(vs[variant_of(vs, t)->Some_0 as int]),
                ) is None)
            },
    decreases k,
{
    if k == 0 {
        lemma_plain_keys(names, vs, ts);
    } else {
        let i = (k - 1) as nat;
        lemma_customs_keys(names, vs, ts, i);
        lemma_part_keys(names, vs, ts, i);
        let c0 = customs_upto(names, vs, ts, i);
        let un = variant_unknown(names, vs, ts, i);
        let c = customs_upto(names, vs, ts, k);
        assert(c == c0 + un);
        assert forall|p: int| 0 <= p < c.len() implies {
            let t = #[trigger] c[p];
            &&& rank(names, t) is None
            &&& (variant_of(vs, t) is None || suffix_rank_of(
                names,
                t,
                prefix_skip(vs[variant_of(vs, t)->Some_0 as int]),
            ) is None)
        } by {
            if p < c0.len() {
                assert(c[p] == c0[p]);
            } else {
                assert(c[p] == un[p - c0.len()]);
                assert(suffix_rank(names, prefix_skip(vs[i as int]))(un[p - c0.len()]) is None);
            }
        }
    }
}

/// After the variant groups come only tokens that are neither canonical nor
/// variant-prefixed with a canonical remainder: unknown-suffix variant tokens land
/// in the custom tail.
pub proof fn lemma_custom_tail(names: Seq<Seq<char>>, vs: Seq<Seq<char>>, ts: Seq<Seq<char>>)
    ensures
        ({
            let out = sorted_tokens(names, vs, ts);
            let end = canonical_part(names, ts).len() + variants_upto(names, vs, ts, vs.len()).len();
            forall|p: int|
                end <= p < out.len() ==> {
                    let t = #[trigger] out[p];
                    &&& rank(names, t) is None
                    &&& (variant_of(vs, t) is None || suffix_rank_of(
                        names,
                        t,
                        prefix_skip(vs[variant_of(vs, t)->Some_0 as int]),
                    ) is None)
                }
        }),
{
    let out = sorted_tokens(names, vs, ts);
    let canon = canonical_part(names, ts);
    let v = variants_upto(names, vs, ts, vs.len());
    let c = customs_upto(names, vs, ts, vs.len());
    assert(out == canon + v + c);
    lemma_customs_keys(names, vs, ts, vs.len());
    assert forall|p: int| canon.len() + v.len() <= p < out.len() implies {
        let t = #[trigger] out[p];
        &&& rank(names, t) is None
        &&& (variant_of(vs, t) is None || suffix_rank_of(
            names,
            t,
            prefix_skip(vs[variant_of(vs, t)->Some_0 as int]),
        ) is None)
    } by {
        assert(out[p] == c[p - canon.len() - v.len()]);
    }
}

} // verus!
