//! What a ring is, as mathematics: an ascending index of positions and
//! owners, a registry of targets, and what each operation makes of them.
use vstd::prelude::*;

use crate::hashing::{decimal_text, HasherView};
use crate::sequences::{
    first_n, first_occurrences, lemma_distinct_within, lemma_filter_back, lemma_filter_front,
    lemma_first_occurrences_contains, lemma_first_occurrences_distinct,
};

verus! {

broadcast use vstd::seq_lib::group_seq_properties;

/// An entry lies below position `p`.
pub open spec fn under(p: u128) -> spec_fn((u128, Seq<char>)) -> bool {
    |e: (u128, Seq<char>)| e.0 < p
}

/// An entry lies above position `p`.
pub open spec fn over(p: u128) -> spec_fn((u128, Seq<char>)) -> bool {
    |e: (u128, Seq<char>)| e.0 > p
}

/// An entry lies at position `p` or above.
pub open spec fn at_or_over(p: u128) -> spec_fn((u128, Seq<char>)) -> bool {
    |e: (u128, Seq<char>)| e.0 >= p
}

/// An entry is owned by a target other than `t`.
pub open spec fn owned_by_other(t: Seq<char>) -> spec_fn((u128, Seq<char>)) -> bool {
    |e: (u128, Seq<char>)| e.1 != t
}

/// A registration is of a target other than `t`.
pub open spec fn registers_other(t: Seq<char>) -> spec_fn((Seq<char>, Seq<u128>)) -> bool {
    |e: (Seq<char>, Seq<u128>)| e.0 != t
}

/// The index entries whose position lies below `p`, in order.
pub open spec fn below(index: Seq<(u128, Seq<char>)>, p: u128) -> Seq<(u128, Seq<char>)> {
    index.filter(under(p))
}

/// The index entries whose position lies above `p`, in order.
pub open spec fn above(index: Seq<(u128, Seq<char>)>, p: u128) -> Seq<(u128, Seq<char>)> {
    index.filter(over(p))
}

/// The index entries whose position is `p` or above, in order.
pub open spec fn from_position(index: Seq<(u128, Seq<char>)>, p: u128) -> Seq<(u128, Seq<char>)> {
    index.filter(at_or_over(p))
}

/// Positions strictly increase along the index.
pub open spec fn ascending(index: Seq<(u128, Seq<char>)>) -> bool {
    forall|i: int, j: int| 0 <= i < j < index.len() ==> index[i].0 < index[j].0
}

/// The index with position `p` given to `t`: an entry already at `p` is replaced.
pub open spec fn place(index: Seq<(u128, Seq<char>)>, p: u128, t: Seq<char>) -> Seq<(u128, Seq<char>)> {
    below(index, p).push((p, t)) + above(index, p)
}

/// The index with each of `ps` given to `t`, in order.
pub open spec fn place_all(index: Seq<(u128, Seq<char>)>, ps: Seq<u128>, t: Seq<char>) -> Seq<(u128, Seq<char>)>
    decreases ps.len(),
{
    if ps.len() == 0 {
        index
    } else {
        place(place_all(index, ps.drop_last(), t), ps.last(), t)
    }
}

/// The positions of the first `count` replicas of `t`: the hash of `t`
/// followed by each replica number in decimal.
pub open spec fn replica_positions(hasher: HasherView, t: Seq<char>, count: nat) -> Seq<u128> {
    Seq::new(count, |i: int| hasher.position_of(t + decimal_text(i as nat)))
}

/// The owners met on a walk round the ring that starts at position `p`:
/// upward from `p`, then on from the lowest position.
pub open spec fn walk(index: Seq<(u128, Seq<char>)>, p: u128) -> Seq<Seq<char>> {
    (from_position(index, p) + below(index, p)).map_values(|e: (u128, Seq<char>)| e.1)
}

/// What a ring is: its settings, its index and its registry of targets.
pub struct RingView {
    pub replicas: u32,
    pub hasher: HasherView,
    /// Entries of position and owning target, by ascending position.
    pub index: Seq<(u128, Seq<char>)>,
    /// Each target with the positions generated for it, in order of addition.
    pub registry: Seq<(Seq<char>, Seq<u128>)>,
}

impl RingView {
    /// The names of the registered targets, in order of addition.
    pub open spec fn names(self) -> Seq<Seq<char>> {
        self.registry.map_values(|e: (Seq<char>, Seq<u128>)| e.0)
    }

    /// `t` is registered.
    pub open spec fn has_target(self, t: Seq<char>) -> bool {
        self.names().contains(t)
    }

    /// The hasher is usable, positions ascend, no target is registered
    /// twice, and each entry's owner is registered with that position
    /// among those generated for it.
    pub open spec fn wf(self) -> bool {
        &&& self.hasher.wf()
        &&& ascending(self.index)
        &&& self.names().no_duplicates()
        &&& forall|i: int| 0 <= i < self.index.len() ==> self.has_target(#[trigger] self.index[i].1)
        &&& forall|i: int|
            0 <= i < self.index.len() ==> self.recorded(#[trigger] self.index[i].1, self.index[i].0)
    }

    /// The registry records position `p` for target `t`.
    pub open spec fn recorded(self, t: Seq<char>, p: u128) -> bool {
        exists|j: int| 0 <= j < self.registry.len() && self.registry[j].0 == t && #[trigger] self.registry[j].1.contains(p)
    }

    /// Every registered target owns at least one entry of the index: none
    /// was added without positions or had all of them taken over.
    pub open spec fn every_target_placed(self) -> bool {
        forall|t: Seq<char>|
            self.has_target(t) ==> exists|i: int| 0 <= i < self.index.len() && #[trigger] self.index[i].1 == t
    }

    /// The ring after `t` is added with `weight`.
    pub open spec fn with_target(self, t: Seq<char>, weight: u32) -> RingView {
        let ps = replica_positions(self.hasher, t, self.replicas as nat * weight as nat);
        RingView {
            replicas: self.replicas,
            hasher: self.hasher,
            index: place_all(self.index, ps, t),
            registry: self.registry.push((t, ps)),
        }
    }

    /// The targets that a lookup of `resource` for `count` of them returns.
    /// With two or more targets registered, the distinct owners met on the
    /// walk from the resource's position, at most `count` of them; with one,
    /// that one.
    pub open spec fn lookup_list(self, resource: Seq<char>, count: nat) -> Seq<Seq<char>> {
        if self.registry.len() == 0 {
            Seq::empty()
        } else if self.registry.len() == 1 {
            seq![self.registry[0].0]
        } else {
            first_n(first_occurrences(walk(self.index, self.hasher.position_of(resource))), count)
        }
    }

    /// The target that a lookup of `resource` returns, if any.
    pub open spec fn lookup(self, resource: Seq<char>) -> Option<Seq<char>> {
        let found = self.lookup_list(resource, 1);
        if found.len() == 0 {
            None
        } else {
            Some(found[0])
        }
    }

    /// The ring after adding each of `ts` with weight 1, in order, up to
    /// the first that is already registered.
    pub open spec fn with_targets(self, ts: Seq<Seq<char>>) -> RingView
        decreases ts.len(),
    {
        if ts.len() == 0 || self.has_target(ts[0]) {
            self
        } else {
            self.with_target(ts[0], 1).with_targets(ts.drop_first())
        }
    }

    /// The first of `ts` that is already registered when its turn comes.
    pub open spec fn first_clash(self, ts: Seq<Seq<char>>) -> Option<Seq<char>>
        decreases ts.len(),
    {
        if ts.len() == 0 {
            None
        } else if self.has_target(ts[0]) {
            Some(ts[0])
        } else {
            self.with_target(ts[0], 1).first_clash(ts.drop_first())
        }
    }

    /// The ring after `t` is removed: every entry that `t` still owns goes,
    /// and so does its registration.
    pub open spec fn without_target(self, t: Seq<char>) -> RingView {
        RingView {
            replicas: self.replicas,
            hasher: self.hasher,
            index: self.index.filter(owned_by_other(t)),
            registry: self.registry.filter(registers_other(t)),
        }
    }
}

/// Every owner met on a walk is registered.
pub proof fn lemma_walk_registered(v: RingView, p: u128)
    requires
        v.wf(),
    ensures
        forall|i: int| 0 <= i < walk(v.index, p).len() ==> v.has_target(#[trigger] walk(v.index, p)[i]),
{
    let upper = from_position(v.index, p);
    let lower = below(v.index, p);
    assert forall|i: int| 0 <= i < walk(v.index, p).len() implies v.has_target(#[trigger] walk(v.index, p)[i]) by {
        let e = (upper + lower)[i];
        assert(walk(v.index, p)[i] == e.1);
        if i < upper.len() {
            assert(upper.contains(e));
            v.index.lemma_filter_contains_rev(at_or_over(p), e);
        } else {
            assert(lower.contains(e));
            v.index.lemma_filter_contains_rev(under(p), e);
        }
        let m = choose|m: int| 0 <= m < v.index.len() && v.index[m] == e;
        assert(v.has_target(v.index[m].1));
    }
}

/// No more distinct owners are met on a walk than there are targets.
pub proof fn lemma_walk_bound(v: RingView, p: u128)
    requires
        v.wf(),
    ensures
        first_occurrences(walk(v.index, p)).len() <= v.registry.len(),
{
    let route = walk(v.index, p);
    lemma_walk_registered(v, p);
    lemma_first_occurrences_distinct(route);
    assert forall|j: int| 0 <= j < first_occurrences(route).len() implies v.names().contains(
        #[trigger] first_occurrences(route)[j],
    ) by {
        let x = first_occurrences(route)[j];
        lemma_first_occurrences_contains(route, x);
        let m = choose|m: int| 0 <= m < route.len() && route[m] == x;
        assert(v.has_target(route[m]));
    }
    lemma_distinct_within(first_occurrences(route), v.names());
    v.names().unique_seq_to_set();
}

/// Filtering keeps positions ascending.
pub proof fn lemma_filter_ascending(index: Seq<(u128, Seq<char>)>, f: spec_fn((u128, Seq<char>)) -> bool)
    requires
        ascending(index),
    ensures
        ascending(index.filter(f)),
    decreases index.len(),
{
    reveal(Seq::filter);
    if index.len() > 0 {
        let rest = index.drop_last();
        lemma_filter_ascending(rest, f);
        if f(index.last()) {
            let kept = rest.filter(f);
            assert forall|j: int| 0 <= j < kept.len() implies kept[j].0 < index.last().0 by {
                rest.lemma_filter_contains_rev(f, kept[j]);
                let m = choose|m: int| 0 <= m < rest.len() && rest[m] == kept[j];
                assert(index[m] == rest[m]);
            }
        }
    }
}

/// Where `k` holds the entry at `p`, placing `p` replaces that entry.
pub proof fn lemma_place_replaces(index: Seq<(u128, Seq<char>)>, p: u128, t: Seq<char>, k: int)
    requires
        ascending(index),
        0 <= k < index.len(),
        index[k].0 == p,
        forall|j: int| 0 <= j < k ==> index[j].0 < p,
    ensures
        place(index, p, t) == index.update(k, (p, t)),
        ascending(index.update(k, (p, t))),
{
    assert forall|j: int| k < j < index.len() implies index[j].0 > p by {
        assert(index[k].0 < index[j].0);
    }
    lemma_filter_front(index, under(p), k);
    lemma_filter_back(index, over(p), k + 1);
    assert(index.take(k).push((p, t)) + index.skip(k + 1) =~= index.update(k, (p, t)));
}

/// Where no entry sits at `p` and `k` is where `p` belongs, placing `p`
/// inserts an entry at `k`.
#[verifier::rlimit(30)]
pub proof fn lemma_place_inserts(index: Seq<(u128, Seq<char>)>, p: u128, t: Seq<char>, k: int)
    requires
        ascending(index),
        0 <= k <= index.len(),
        forall|j: int| 0 <= j < k ==> index[j].0 < p,
        forall|j: int| k <= j < index.len() ==> index[j].0 >= p,
        k < index.len() ==> index[k].0 != p,
    ensures
        place(index, p, t) == index.insert(k, (p, t)),
        ascending(index.insert(k, (p, t))),
{
    assert forall|j: int| k <= j < index.len() implies index[j].0 > p by {
        if j > k {
            assert(index[k].0 < index[j].0);
        }
    }
    lemma_filter_front(index, under(p), k);
    lemma_filter_back(index, over(p), k);
    let placed = index.insert(k, (p, t));
    assert(index.take(k).push((p, t)) + index.skip(k) =~= placed);
    assert forall|i: int, j: int| 0 <= i < j < placed.len() implies placed[i].0 < placed[j].0 by {
        if j < k {
            assert(placed[i] == index[i] && placed[j] == index[j]);
        } else if j == k {
            assert(placed[i] == index[i]);
        } else if i < k {
            assert(placed[i] == index[i] && placed[j] == index[j - 1]);
        } else if i == k {
            assert(placed[j] == index[j - 1]);
        } else {
            assert(placed[i] == index[i - 1] && placed[j] == index[j - 1]);
        }
    }
}

} // verus!
