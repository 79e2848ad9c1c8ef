//! What holds of every ring and every lookup.
use vstd::prelude::*;

use crate::hashing::HasherView;
use crate::model::{
    at_or_over, below, from_position, lemma_walk_registered, owned_by_other, registers_other, under,
    walk, RingView,
};
use crate::sequences::{
    first_n, first_occurrences, lemma_distinct_within, lemma_filter_one_out,
    lemma_filter_then_map, lemma_filters_commute, lemma_first_occurrences_contains,
    lemma_first_occurrences_distinct, lemma_first_occurrences_head,
    lemma_first_occurrences_without,
};

verus! {

broadcast use vstd::seq_lib::group_seq_properties;

/// Lookups depend on the ring's settings and contents and on the resource
/// alone: asked twice, or asked of two rings built by the same calls, a
/// ring gives the same answers.
pub proof fn lemma_lookups_determined(a: RingView, b: RingView, resource: Seq<char>, count: nat)
    requires
        a == b,
    ensures
        a.lookup(resource) == b.lookup(resource),
        a.lookup_list(resource, count) == b.lookup_list(resource, count),
{
}

/// A lookup returns a registered target.
pub proof fn lemma_lookup_is_registered(v: RingView, resource: Seq<char>)
    requires
        v.wf(),
        v.lookup(resource) is Some,
    ensures
        v.has_target(v.lookup(resource)->0),
{
    if v.registry.len() == 1 {
        assert(v.names()[0] == v.registry[0].0);
    } else {
        let route = walk(v.index, v.hasher.position_of(resource));
        let x = v.lookup(resource)->0;
        assert(first_occurrences(route).contains(x));
        lemma_first_occurrences_contains(route, x);
        lemma_walk_registered(v, v.hasher.position_of(resource));
    }
}

/// The targets of a lookup are pairwise distinct.
pub proof fn lemma_lookup_list_distinct(v: RingView, resource: Seq<char>, count: nat)
    ensures
        v.lookup_list(resource, count).no_duplicates(),
{
    if v.registry.len() >= 2 {
        let route = walk(v.index, v.hasher.position_of(resource));
        lemma_first_occurrences_distinct(route);
    }
}

/// Where every target owns a position, a lookup of `count` targets returns
/// `count` of them, or all there are.
pub proof fn lemma_lookup_list_count(v: RingView, resource: Seq<char>, count: nat)
    requires
        v.wf(),
        count >= 1,
        v.every_target_placed(),
    ensures
        v.lookup_list(resource, count).len() == if count < v.registry.len() {
            count
        } else {
            v.registry.len()
        },
{
    if v.registry.len() >= 2 {
        let p = v.hasher.position_of(resource);
        let route = walk(v.index, p);
        let found = first_occurrences(route);
        lemma_walk_registered(v, p);
        lemma_first_occurrences_distinct(route);
        assert forall|j: int| 0 <= j < found.len() implies v.names().contains(#[trigger] found[j]) by {
            lemma_first_occurrences_contains(route, found[j]);
            let m = choose|m: int| 0 <= m < route.len() && route[m] == found[j];
            assert(v.has_target(route[m]));
        }
        lemma_distinct_within(found, v.names());
        v.names().unique_seq_to_set();
        let upper = from_position(v.index, p);
        let lower = below(v.index, p);
        assert forall|j: int| 0 <= j < v.names().len() implies found.contains(#[trigger] v.names()[j]) by {
            let t = v.names()[j];
            assert(v.has_target(t));
            let i = choose|i: int| 0 <= i < v.index.len() && #[trigger] v.index[i].1 == t;
            let e = v.index[i];
            if e.0 >= p {
                v.index.lemma_filter_contains(at_or_over(p), i);
                let u = choose|u: int| 0 <= u < upper.len() && upper[u] == e;
                assert((upper + lower)[u] == e);
                assert(route[u] == t);
            } else {
                v.index.lemma_filter_contains(under(p), i);
                let u = choose|u: int| 0 <= u < lower.len() && lower[u] == e;
                assert((upper + lower)[upper.len() + u] == e);
                assert(route[upper.len() + u] == t);
            }
            assert(route.contains(t));
            lemma_first_occurrences_contains(route, t);
        }
        lemma_distinct_within(v.names(), found);
        found.unique_seq_to_set();
    }
}

/// Removing a target leaves every lookup that found another target as it
/// was.
pub proof fn lemma_removal_keeps_other_lookups(v: RingView, t: Seq<char>, resource: Seq<char>)
    requires
        v.wf(),
        v.has_target(t),
        v.lookup(resource) is Some,
        v.lookup(resource)->0 != t,
    ensures
        v.without_target(t).lookup(resource) == v.lookup(resource),
{
    let x = v.lookup(resource)->0;
    let w = v.without_target(t);
    let k = choose|k: int| 0 <= k < v.names().len() && v.names()[k] == t;
    if v.registry.len() == 1 {
        assert(v.names()[0] == v.registry[0].0);
    } else {
        lemma_lookup_is_registered(v, resource);
        let f = registers_other(t);
        assert forall|j: int| 0 <= j < v.registry.len() && j != k implies f(#[trigger] v.registry[j]) by {
            assert(v.names()[j] == v.registry[j].0);
        }
        assert(v.names()[k] == v.registry[k].0);
        lemma_filter_one_out(v.registry, f, k);
        assert(w.registry == v.registry.remove(k));
        if w.registry.len() == 1 {
            let n = choose|n: int| 0 <= n < v.names().len() && v.names()[n] == x;
            if n < k {
                assert(w.registry[n].0 == x);
            } else {
                assert(n != k);
                assert(w.registry[n - 1].0 == x);
            }
        } else {
            let p = v.hasher.position_of(resource);
            let route = walk(v.index, p);
            assert(route.len() > 0);
            lemma_first_occurrences_head(route);
            let ne = owned_by_other(t);
            let ge = at_or_over(p);
            let lt = under(p);
            let owner = |e: (u128, Seq<char>)| e.1;
            let other = |s: Seq<char>| s != t;
            lemma_filters_commute(v.index, ne, ge);
            lemma_filters_commute(v.index, ne, lt);
            let both = from_position(v.index, p) + below(v.index, p);
            Seq::filter_distributes_over_add(from_position(v.index, p), below(v.index, p), ne);
            lemma_filter_then_map(both, ne, owner, other);
            assert(walk(w.index, p) == route.filter(other));
            lemma_first_occurrences_without(route, t);
            assert(route =~= seq![route[0]] + route.drop_first());
            route.drop_first().lemma_filter_prepend(route[0], other);
            lemma_first_occurrences_head(route.filter(other));
        }
    }
}

} // verus!
