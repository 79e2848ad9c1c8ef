//! Facts about filtering sequences and keeping first occurrences.
use vstd::prelude::*;

verus! {

broadcast use vstd::seq_lib::group_seq_properties;

/// A filter that keeps every element leaves the sequence as it is.
pub proof fn lemma_filter_keeps_all<A>(s: Seq<A>, f: spec_fn(A) -> bool)
    requires
        forall|i: int| 0 <= i < s.len() ==> f(#[trigger] s[i]),
    ensures
        s.filter(f) == s,
    decreases s.len(),
{
    reveal(Seq::filter);
    if s.len() > 0 {
        lemma_filter_keeps_all(s.drop_last(), f);
        assert(s.drop_last().push(s.last()) =~= s);
    }
}

/// A filter that keeps no element leaves nothing.
pub proof fn lemma_filter_drops_all<A>(s: Seq<A>, f: spec_fn(A) -> bool)
    requires
        forall|i: int| 0 <= i < s.len() ==> !f(#[trigger] s[i]),
    ensures
        s.filter(f) == Seq::<A>::empty(),
    decreases s.len(),
{
    reveal(Seq::filter);
    if s.len() > 0 {
        lemma_filter_drops_all(s.drop_last(), f);
    }
}

/// Where `f` holds of exactly the first `k` elements, filtering keeps those.
pub proof fn lemma_filter_front<A>(s: Seq<A>, f: spec_fn(A) -> bool, k: int)
    requires
        0 <= k <= s.len(),
        forall|i: int| 0 <= i < k ==> f(#[trigger] s[i]),
        forall|i: int| k <= i < s.len() ==> !f(#[trigger] s[i]),
    ensures
        s.filter(f) == s.take(k),
{
    assert(s =~= s.take(k) + s.skip(k));
    Seq::filter_distributes_over_add(s.take(k), s.skip(k), f);
    lemma_filter_keeps_all(s.take(k), f);
    lemma_filter_drops_all(s.skip(k), f);
    assert(s.take(k) + Seq::<A>::empty() =~= s.take(k));
}

/// Where `f` holds of exactly the elements from `k` on, filtering keeps those.
pub proof fn lemma_filter_back<A>(s: Seq<A>, f: spec_fn(A) -> bool, k: int)
    requires
        0 <= k <= s.len(),
        forall|i: int| 0 <= i < k ==> !f(#[trigger] s[i]),
        forall|i: int| k <= i < s.len() ==> f(#[trigger] s[i]),
    ensures
        s.filter(f) == s.skip(k),
{
    assert(s =~= s.take(k) + s.skip(k));
    Seq::filter_distributes_over_add(s.take(k), s.skip(k), f);
    lemma_filter_drops_all(s.take(k), f);
    lemma_filter_keeps_all(s.skip(k), f);
    assert(Seq::<A>::empty() + s.skip(k) =~= s.skip(k));
}

/// Where `f` fails only at index `k`, filtering removes that element.
pub proof fn lemma_filter_one_out<A>(s: Seq<A>, f: spec_fn(A) -> bool, k: int)
    requires
        0 <= k < s.len(),
        !f(s[k]),
        forall|i: int| 0 <= i < s.len() && i != k ==> f(#[trigger] s[i]),
    ensures
        s.filter(f) == s.remove(k),
{
    let front = s.take(k);
    let middle = seq![s[k]];
    let back = s.skip(k + 1);
    assert(s =~= front + middle + back);
    Seq::filter_distributes_over_add(front + middle, back, f);
    Seq::filter_distributes_over_add(front, middle, f);
    lemma_filter_keeps_all(front, f);
    lemma_filter_drops_all(middle, f);
    assert forall|i: int| 0 <= i < back.len() implies f(#[trigger] back[i]) by {
        assert(back[i] == s[k + 1 + i]);
    }
    lemma_filter_keeps_all(back, f);
    assert(front + Seq::<A>::empty() + back =~= s.remove(k));
}

/// Two filters may be applied in either order.
pub proof fn lemma_filters_commute<A>(s: Seq<A>, f: spec_fn(A) -> bool, g: spec_fn(A) -> bool)
    ensures
        s.filter(f).filter(g) == s.filter(g).filter(f),
    decreases s.len(),
{
    reveal(Seq::filter);
    if s.len() > 0 {
        let rest = s.drop_last();
        let x = s.last();
        lemma_filters_commute(rest, f, g);
        assert(s =~= rest.push(x));
        rest.lemma_filter_push(x, f);
        rest.lemma_filter_push(x, g);
        rest.filter(f).lemma_filter_push(x, g);
        rest.filter(g).lemma_filter_push(x, f);
    }
}

/// Filtering before mapping is filtering the mapped elements.
pub proof fn lemma_filter_then_map<A, B>(
    s: Seq<A>,
    f: spec_fn(A) -> bool,
    h: spec_fn(A) -> B,
    g: spec_fn(B) -> bool,
)
    requires
        forall|a: A| #[trigger] f(a) == g(h(a)),
    ensures
        s.filter(f).map_values(h) == s.map_values(h).filter(g),
    decreases s.len(),
{
    reveal(Seq::filter);
    if s.len() > 0 {
        let rest = s.drop_last();
        let x = s.last();
        lemma_filter_then_map(rest, f, h, g);
        assert(s =~= rest.push(x));
        assert(s.map_values(h) =~= rest.map_values(h).push(h(x)));
        rest.lemma_filter_push(x, f);
        rest.map_values(h).lemma_filter_push(h(x), g);
        assert(rest.filter(f).push(x).map_values(h) =~= rest.filter(f).map_values(h).push(h(x)));
    }
}

/// Each element at its first occurrence, in order; later repeats are dropped.
pub open spec fn first_occurrences<A>(s: Seq<A>) -> Seq<A>
    decreases s.len(),
{
    if s.len() == 0 {
        s
    } else {
        let seen = first_occurrences(s.drop_last());
        if seen.contains(s.last()) {
            seen
        } else {
            seen.push(s.last())
        }
    }
}

/// The first `n` elements, or all of them where there are fewer.
pub open spec fn first_n<A>(s: Seq<A>, n: nat) -> Seq<A> {
    if n < s.len() {
        s.take(n as int)
    } else {
        s
    }
}

pub proof fn lemma_first_occurrences_contains<A>(s: Seq<A>, x: A)
    ensures
        first_occurrences(s).contains(x) <==> s.contains(x),
    decreases s.len(),
{
    if s.len() > 0 {
        lemma_first_occurrences_contains(s.drop_last(), x);
        assert(s =~= s.drop_last().push(s.last()));
    }
}

pub proof fn lemma_first_occurrences_distinct<A>(s: Seq<A>)
    ensures
        first_occurrences(s).no_duplicates(),
    decreases s.len(),
{
    if s.len() > 0 {
        lemma_first_occurrences_distinct(s.drop_last());
    }
}

/// Keeping first occurrences of a prefix gives a prefix of the result on
/// the whole.
pub proof fn lemma_first_occurrences_prefix<A>(s: Seq<A>, m: int)
    requires
        0 <= m <= s.len(),
    ensures
        first_occurrences(s.take(m)).len() <= first_occurrences(s).len(),
        first_occurrences(s).take(first_occurrences(s.take(m)).len() as int) == first_occurrences(s.take(m)),
    decreases s.len(),
{
    if m == s.len() {
        assert(s.take(m) =~= s);
        assert(first_occurrences(s).take(first_occurrences(s).len() as int) =~= first_occurrences(s));
    } else {
        let rest = s.drop_last();
        lemma_first_occurrences_prefix(rest, m);
        assert(rest.take(m) =~= s.take(m));
        let a = first_occurrences(s.take(m));
        if !first_occurrences(rest).contains(s.last()) {
            assert(first_occurrences(s).take(a.len() as int) =~= first_occurrences(rest).take(a.len() as int));
        }
    }
}

/// Where the first occurrences in the first `m` elements already number
/// `c`, or all there are, they are the first `c` of the whole.
pub proof fn lemma_first_n_of_prefix<A>(s: Seq<A>, m: int, c: nat, bound: nat)
    requires
        0 <= m <= s.len(),
        first_occurrences(s).len() <= bound,
        first_occurrences(s.take(m)).len() <= c,
        first_occurrences(s.take(m)).len() == c || first_occurrences(s.take(m)).len() == bound,
    ensures
        first_n(first_occurrences(s), c) == first_occurrences(s.take(m)),
{
    lemma_first_occurrences_prefix(s, m);
    let all = first_occurrences(s);
    let part = first_occurrences(s.take(m));
    if part.len() == all.len() {
        assert(all.take(all.len() as int) =~= all);
    }
}

/// The first element is always kept first.
pub proof fn lemma_first_occurrences_head<A>(s: Seq<A>)
    requires
        s.len() > 0,
    ensures
        first_occurrences(s).len() > 0,
        first_occurrences(s)[0] == s[0],
{
    lemma_first_occurrences_prefix(s, 1);
    let one = s.take(1);
    assert(one.drop_last() =~= Seq::<A>::empty());
    assert(first_occurrences(one.drop_last()) == Seq::<A>::empty());
    assert(!Seq::<A>::empty().contains(one.last()));
    assert(first_occurrences(one) =~= seq![s[0]]);
    assert(first_occurrences(s).take(1)[0] == first_occurrences(s)[0]);
}

/// Keeping first occurrences commutes with leaving out one value.
pub proof fn lemma_first_occurrences_without<A>(s: Seq<A>, t: A)
    ensures
        first_occurrences(s.filter(|x: A| x != t)) == first_occurrences(s).filter(|x: A| x != t),
    decreases s.len(),
{
    let f = |x: A| x != t;
    reveal(Seq::filter);
    if s.len() > 0 {
        let rest = s.drop_last();
        let x = s.last();
        lemma_first_occurrences_without(rest, t);
        assert(s =~= rest.push(x));
        rest.lemma_filter_push(x, f);
        let seen = first_occurrences(rest);
        if seen.contains(x) {
            if x != t {
                let m = choose|m: int| 0 <= m < seen.len() && seen[m] == x;
                seen.lemma_filter_contains(f, m);
                assert(rest.filter(f).push(x).drop_last() =~= rest.filter(f));
            }
        } else {
            seen.lemma_filter_push(x, f);
            if x != t {
                assert(rest.filter(f).push(x).drop_last() =~= rest.filter(f));
                if seen.filter(f).contains(x) {
                    seen.lemma_filter_contains_rev(f, x);
                }
            }
        }
    }
}

/// A sequence without repeats, all of whose elements occur in `t`, is no
/// longer than `t`'s distinct elements.
pub proof fn lemma_distinct_within<A>(s: Seq<A>, t: Seq<A>)
    requires
        s.no_duplicates(),
        forall|i: int| 0 <= i < s.len() ==> t.contains(#[trigger] s[i]),
    ensures
        s.len() <= t.to_set().len(),
{
    s.unique_seq_to_set();
    assert(s.to_set().subset_of(t.to_set()));
    vstd::set_lib::lemma_len_subset(s.to_set(), t.to_set());
}

} // verus!
