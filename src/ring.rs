//! The ring itself: settings, an index kept in ascending order of
//! position, and a registry of targets in order of addition.
use vstd::prelude::*;
use vstd::string::StringExecFns;

use crate::hashing::{hash, replica_key, Hasher, HasherView, Position};
use crate::model::{
    ascending, lemma_filter_ascending, lemma_place_inserts, lemma_place_replaces, lemma_walk_bound,
    owned_by_other, place, place_all, registers_other, replica_positions, walk, at_or_over, under,
    RingView,
};
use crate::sequences::{
    first_occurrences, lemma_filter_back, lemma_filter_front, lemma_filter_one_out,
    lemma_first_n_of_prefix, lemma_first_occurrences_prefix,
};
use crate::text::{
    debug_list, debug_list_of, lemma_insert_sorted, lemma_text_less_total, strictly_sorted, text_less,
    text_lt, texts,
};

verus! {

broadcast use vstd::seq_lib::group_seq_properties;

/// The name of a backend that resources are mapped to.
pub type Target = String;

/// Why a ring operation was refused.
#[derive(Debug, PartialEq, Eq)]
pub enum FlexihashError {
    /// The target is already on the ring.
    DuplicateTarget(String),
    /// The target is not on the ring.
    UnknownTarget(String),
    /// A lookup asked for no targets at all.
    InvalidCount,
    /// A lookup found no target.
    EmptyRing,
}

/// A consistent hash ring.
#[derive(Debug)]
pub struct Flexihash {
    replicas: u32,
    hasher: Hasher,
    index: Vec<(Position, Target)>,
    registry: Vec<(Target, Vec<Position>)>,
}

impl View for Flexihash {
    type V = RingView;

    closed spec fn view(&self) -> RingView {
        RingView {
            replicas: self.replicas,
            hasher: self.hasher@,
            index: self.index@.map_values(|e: (Position, Target)| (e.0, e.1@)),
            registry: self.registry@.map_values(|e: (Target, Vec<Position>)| (e.0@, e.1@)),
        }
    }
}

impl Flexihash {
    /// The ring's invariant: see `RingView::wf`.
    pub open spec fn wf(&self) -> bool {
        self@.wf()
    }

    /// An empty ring with the CRC-32 hasher and 64 replicas per unit of weight.
    pub fn new() -> (r: Flexihash)
        ensures
            r.wf(),
            r@ == (RingView {
                replicas: 64,
                hasher: HasherView::Crc32,
                index: Seq::empty(),
                registry: Seq::empty(),
            }),
    {
        let r = Flexihash { hasher: Hasher::Crc32, replicas: 64, index: Vec::new(), registry: Vec::new() };
        assert(r@.index =~= Seq::empty());
        assert(r@.registry =~= Seq::empty());
        assert(r@.names() =~= Seq::empty());
        r
    }

    /// Sets the hasher for the targets added from now on and for lookups.
    pub fn set_hasher(&mut self, hasher: Hasher)
        requires
            old(self).wf(),
            hasher@.wf(),
        ensures
            final(self).wf(),
            final(self)@ == (RingView { hasher: hasher@, ..old(self)@ }),
    {
        self.hasher = hasher;
        assert(self@.names() =~= old(self)@.names());
    }

    /// Sets the replica count for the targets added from now on.
    pub fn set_replicas(&mut self, replicas: u32)
        requires
            old(self).wf(),
        ensures
            final(self).wf(),
            final(self)@ == (RingView { replicas, ..old(self)@ }),
    {
        self.replicas = replicas;
        assert(self@.names() =~= old(self)@.names());
    }

    /// Adds `target` with `replicas * weight` positions: replica `i` sits at
    /// the hash of the target's name followed by `i` in decimal. A later
    /// replica takes a position over from an earlier one or from another
    /// target. The registry records every generated position.
    pub fn add_target(&mut self, target: &str, weight: u32) -> (r: Result<(), FlexihashError>)
        requires
            old(self).wf(),
        ensures
            final(self).wf(),
            old(self)@.has_target(target@) ==> final(self)@ == old(self)@,
            old(self)@.has_target(target@) ==> (r matches Err(FlexihashError::DuplicateTarget(name))
                && name@ == target@),
            !old(self)@.has_target(target@) ==> r is Ok
                && final(self)@ == old(self)@.with_target(target@, weight),
    {
        let name = target.to_owned();
        if self.find_target(&name).is_some() {
            return Err(FlexihashError::DuplicateTarget(name));
        }
        let ghost start = self@;
        proof {
            let (r, w) = (self.replicas as int, weight as int);
            assert(r * w <= u64::MAX) by (nonlinear_arith)
                requires 0 <= r <= u32::MAX, 0 <= w <= u32::MAX;
        }
        let count: u64 = self.replicas as u64 * weight as u64;
        let mut positions: Vec<Position> = Vec::new();
        let mut i: u64 = 0;
        assert(positions@ =~= replica_positions(start.hasher, name@, 0));
        assert forall|j: int| 0 <= j < self@.index.len() implies self@.index[j].1 != name@ by {
            assert(start.has_target(start.index[j].1));
        }
        while i < count
            invariant
                i <= count,
                count == start.replicas as nat * weight as nat,
                self@.replicas == start.replicas,
                self@.hasher == start.hasher,
                self@.registry == start.registry,
                self.hasher@ == start.hasher,
                start.wf(),
                ascending(self@.index),
                positions@ == replica_positions(start.hasher, name@, i as nat),
                self@.index == place_all(start.index, positions@, name@),
                forall|j: int|
                    0 <= j < self@.index.len() ==> #[trigger] self@.index[j].1 == name@
                        || start.has_target(self@.index[j].1),
                forall|j: int|
                    0 <= j < self@.index.len() ==> if #[trigger] self@.index[j].1 == name@ {
                        positions@.contains(self@.index[j].0)
                    } else {
                        start.recorded(self@.index[j].1, self@.index[j].0)
                    },
                !start.has_target(name@),
            decreases count - i,
        {
            let key = replica_key(name.as_str(), i);
            let p = hash(&self.hasher, key.as_str());
            let ghost before_index = self@.index;
            positions.push(p);
            self.place_position(p, &name);
            proof {
                assert(positions@.drop_last() =~= replica_positions(start.hasher, name@, i as nat));
                assert(positions@ =~= replica_positions(start.hasher, name@, i as nat + 1));
                assert forall|j: int| 0 <= j < self@.index.len() implies #[trigger] self@.index[j].1 == name@
                    || start.has_target(self@.index[j].1) by {
                    if self@.index[j] != (p, name@) {
                        let m = choose|m: int| 0 <= m < before_index.len() && before_index[m] == self@.index[j];
                        assert(before_index[m].1 == name@ || start.has_target(before_index[m].1));
                    }
                }
                assert forall|j: int| 0 <= j < self@.index.len() implies if #[trigger] self@.index[j].1 == name@ {
                    positions@.contains(self@.index[j].0)
                } else {
                    start.recorded(self@.index[j].1, self@.index[j].0)
                } by {
                    if self@.index[j] == (p, name@) {
                        assert(positions@.last() == p);
                    } else {
                        let m = choose|m: int| 0 <= m < before_index.len() && before_index[m] == self@.index[j];
                        if before_index[m].1 == name@ {
                            assert(positions@.drop_last().contains(before_index[m].0));
                        }
                    }
                }
            }
            i = i + 1;
        }
        self.registry.push((name, positions));
        assert(self@.registry =~= start.registry.push((target@, replica_positions(start.hasher, target@, count as nat))));
        assert(self@.names() =~= start.names().push(target@));
        assert forall|j: int| 0 <= j < self@.index.len() implies self@.has_target(#[trigger] self@.index[j].1) by {
            if self@.index[j].1 != target@ {
                assert(start.has_target(self@.index[j].1));
                let m = choose|m: int| 0 <= m < start.names().len() && start.names()[m] == self@.index[j].1;
                assert(self@.names()[m] == self@.index[j].1);
            } else {
                assert(self@.names()[start.names().len() as int] == target@);
            }
        }
        assert forall|j: int| 0 <= j < self@.index.len() implies self@.recorded(
            #[trigger] self@.index[j].1,
            self@.index[j].0,
        ) by {
            let (p, t) = (self@.index[j].0, self@.index[j].1);
            if t == target@ {
                assert(positions@.contains(p));
                assert(self@.registry[start.registry.len() as int] == (t, positions@));
                assert(self@.registry[start.registry.len() as int].1.contains(p));
            } else {
                let m = choose|m: int| 0 <= m < start.registry.len() && start.registry[m].0 == t && #[trigger] start.registry[m].1.contains(p);
                assert(self@.registry[m] == start.registry[m]);
            }
        }
        Ok(())
    }

    /// Adds each of `targets` with weight 1, in order. The first that is
    /// already registered stops the work; those before it stay added.
    pub fn add_targets(&mut self, targets: Vec<Target>) -> (r: Result<(), FlexihashError>)
        requires
            old(self).wf(),
        ensures
            final(self).wf(),
            final(self)@ == old(self)@.with_targets(texts(targets@)),
            old(self)@.first_clash(texts(targets@)) is None ==> r is Ok,
            old(self)@.first_clash(texts(targets@)) is Some ==> (r matches Err(
                FlexihashError::DuplicateTarget(name),
            ) && name@ == old(self)@.first_clash(texts(targets@))->0),
    {
        let ghost ts = texts(targets@);
        let mut i: usize = 0;
        while i < targets.len()
            invariant
                self.wf(),
                ts == texts(targets@),
                i <= ts.len(),
                old(self)@.with_targets(ts) == self@.with_targets(ts.skip(i as int)),
                old(self)@.first_clash(ts) == self@.first_clash(ts.skip(i as int)),
            decreases ts.len() - i,
        {
            assert(ts.skip(i as int)[0] == targets@[i as int]@);
            assert(ts.skip(i as int).drop_first() =~= ts.skip(i + 1));
            let added = self.add_target(targets[i].as_str(), 1);
            if added.is_err() {
                return added;
            }
            i = i + 1;
        }
        assert(ts.skip(i as int) =~= Seq::<Seq<char>>::empty());
        Ok(())
    }

    /// Removes `target`: each position recorded for it goes from the index
    /// where the target still owns it, and the target leaves the registry.
    pub fn remove_target(&mut self, target: &str) -> (r: Result<(), FlexihashError>)
        requires
            old(self).wf(),
        ensures
            final(self).wf(),
            !old(self)@.has_target(target@) ==> final(self)@ == old(self)@,
            !old(self)@.has_target(target@) ==> (r matches Err(FlexihashError::UnknownTarget(name))
                && name@ == target@),
            old(self)@.has_target(target@) ==> r is Ok
                && final(self)@ == old(self)@.without_target(target@),
            old(self)@.has_target(target@) ==> forall|e: (u128, Seq<char>)|
                #[trigger] final(self)@.index.contains(e) <==> old(self)@.index.contains(e) && !(
                e.1 == target@ && old(self)@.recorded(target@, e.0)),
    {
        let name = target.to_owned();
        let k = match self.find_target(&name) {
            Some(k) => k,
            None => {
                return Err(FlexihashError::UnknownTarget(name));
            },
        };
        let ghost start = self@;
        let mut kept: Vec<(Position, Target)> = Vec::new();
        let mut i: usize = 0;
        while i < self.index.len()
            invariant
                self@ == start,
                i <= start.index.len(),
                kept@.map_values(|e: (Position, Target)| (e.0, e.1@)) == start.index.take(i as int).filter(
                    owned_by_other(name@),
                ),
            decreases start.index.len() - i,
        {
            let ghost before = kept@.map_values(|e: (Position, Target)| (e.0, e.1@));
            assert(start.index[i as int] == (self.index@[i as int].0, self.index@[i as int].1@));
            if !(self.index[i].1 == name) {
                kept.push((self.index[i].0, self.index[i].1.clone()));
                assert(kept@.map_values(|e: (Position, Target)| (e.0, e.1@)) =~= before.push(start.index[i as int]));
            } else {
                assert(kept@.map_values(|e: (Position, Target)| (e.0, e.1@)) =~= before);
            }
            proof {
                assert(start.index.take(i + 1) =~= start.index.take(i as int).push(start.index[i as int]));
                start.index.take(i as int).lemma_filter_push(start.index[i as int], owned_by_other(name@));
            }
            i = i + 1;
        }
        self.index = kept;
        self.registry.remove(k);
        proof {
            assert(start.index.take(start.index.len() as int) =~= start.index);
            let f = registers_other(target@);
            assert forall|j: int| 0 <= j < start.registry.len() && j != k implies f(#[trigger] start.registry[j]) by {
                assert(start.names()[j] == start.registry[j].0);
                assert(start.names()[k as int] == start.registry[k as int].0);
            }
            lemma_filter_one_out(start.registry, f, k as int);
            assert(self@.registry =~= start.registry.remove(k as int));
            assert(self@.names() =~= start.names().remove(k as int));
            lemma_filter_ascending(start.index, owned_by_other(target@));
            assert forall|j: int| 0 <= j < self@.index.len() implies self@.has_target(#[trigger] self@.index[j].1) by {
                let e = self@.index[j];
                start.index.lemma_filter_contains_rev(owned_by_other(target@), e);
                start.index.lemma_filter_pred(owned_by_other(target@), j);
                let m = choose|m: int| 0 <= m < start.index.len() && start.index[m] == e;
                assert(start.has_target(start.index[m].1));
                let n = choose|n: int| 0 <= n < start.names().len() && start.names()[n] == e.1;
                if n < k {
                    assert(self@.names()[n] == e.1);
                } else {
                    assert(n != k);
                    assert(self@.names()[n - 1] == e.1);
                }
            }
            assert forall|e: (u128, Seq<char>)| #[trigger] self@.index.contains(e) <==> start.index.contains(e)
                && !(e.1 == target@ && start.recorded(target@, e.0)) by {
                if self@.index.contains(e) {
                    start.index.lemma_filter_contains_rev(owned_by_other(target@), e);
                    let j = choose|j: int| 0 <= j < self@.index.len() && self@.index[j] == e;
                    start.index.lemma_filter_pred(owned_by_other(target@), j);
                }
                if start.index.contains(e) && e.1 != target@ {
                    let j = choose|j: int| 0 <= j < start.index.len() && start.index[j] == e;
                    start.index.lemma_filter_contains(owned_by_other(target@), j);
                }
                if start.index.contains(e) && e.1 == target@ {
                    let j = choose|j: int| 0 <= j < start.index.len() && start.index[j] == e;
                    assert(start.recorded(start.index[j].1, start.index[j].0));
                }
            }
            assert forall|j: int| 0 <= j < self@.index.len() implies self@.recorded(
                #[trigger] self@.index[j].1,
                self@.index[j].0,
            ) by {
                let e = self@.index[j];
                start.index.lemma_filter_contains_rev(owned_by_other(target@), e);
                start.index.lemma_filter_pred(owned_by_other(target@), j);
                let m = choose|m: int| 0 <= m < start.index.len() && start.index[m] == e;
                assert(start.recorded(start.index[m].1, start.index[m].0));
                let n = choose|n: int| 0 <= n < start.registry.len() && start.registry[n].0 == e.1 && #[trigger] start.registry[n].1.contains(e.0);
                assert(start.names()[k as int] == start.registry[k as int].0);
                if n < k {
                    assert(self@.registry[n] == start.registry[n]);
                } else {
                    assert(n != k);
                    assert(self@.registry[n - 1] == start.registry[n]);
                }
            }
        }
        Ok(())
    }

    /// Every registered target, in lexicographic order.
    pub fn get_all_targets(&self) -> (r: Vec<Target>)
        requires
            self.wf(),
        ensures
            strictly_sorted(texts(r@)),
            forall|t: Seq<char>| texts(r@).contains(t) <==> self@.has_target(t),
    {
        let ghost names = self@.names();
        let mut sorted: Vec<Target> = Vec::new();
        let mut i: usize = 0;
        while i < self.registry.len()
            invariant
                self.wf(),
                names == self@.names(),
                i <= names.len(),
                strictly_sorted(texts(sorted@)),
                forall|t: Seq<char>| texts(sorted@).contains(t) <==> names.take(i as int).contains(t),
            decreases names.len() - i,
        {
            let name = &self.registry[i].0;
            assert(names[i as int] == name@);
            let mut k: usize = 0;
            while k < sorted.len()
                invariant
                    k <= sorted@.len(),
                    forall|j: int| 0 <= j < k ==> text_less(#[trigger] texts(sorted@)[j], name@),
                ensures
                    k <= sorted@.len(),
                    forall|j: int| 0 <= j < k ==> text_less(#[trigger] texts(sorted@)[j], name@),
                    k < sorted@.len() ==> !text_less(texts(sorted@)[k as int], name@),
                decreases sorted@.len() - k,
            {
                assert(texts(sorted@)[k as int] == sorted@[k as int]@);
                if !text_lt(sorted[k].as_str(), name.as_str()) {
                    break;
                }
                k = k + 1;
            }
            let ghost before = texts(sorted@);
            proof {
                assert(!names.take(i as int).contains(name@)) by {
                    if names.take(i as int).contains(name@) {
                        let m = choose|m: int| 0 <= m < i && names.take(i as int)[m] == name@;
                        assert(names[m] == names[i as int]);
                    }
                }
                if k < before.len() {
                    assert(before.contains(before[k as int]));
                    lemma_text_less_total(before[k as int], name@);
                    assert(text_less(name@, before[k as int]));
                }
            }
            sorted.insert(k, name.clone());
            proof {
                assert(texts(sorted@) =~= before.insert(k as int, name@));
                lemma_insert_sorted(before, name@, k as int);
                assert(names.take(i + 1) =~= names.take(i as int).push(name@));
                assert forall|t: Seq<char>| texts(sorted@).contains(t) <==> names.take(i + 1).contains(t) by {
                    assert(before.insert(k as int, name@).contains(t) <==> (before.contains(t) || t == name@));
                }
            }
            i = i + 1;
        }
        assert(names.take(names.len() as int) =~= names);
        sorted
    }

    /// The target for `resource`: the first that `lookup_list` gives for it.
    pub fn lookup(&self, resource: &str) -> (r: Result<Target, FlexihashError>)
        requires
            self.wf(),
        ensures
            self@.lookup(resource@) is None ==> r matches Err(FlexihashError::EmptyRing),
            self@.lookup(resource@) is Some ==> (r matches Ok(t) && t@ == self@.lookup(resource@)->0),
    {
        let found = self.lookup_list(resource, 1);
        match found {
            Ok(list) => {
                if list.len() == 0 {
                    Err(FlexihashError::EmptyRing)
                } else {
                    assert(list@[0]@ == texts(list@)[0]);
                    Ok(list[0].clone())
                }
            },
            Err(_) => Err(FlexihashError::EmptyRing),
        }
    }

    /// Up to `requested_count` distinct targets for `resource`, in the order
    /// of a walk round the ring from the resource's position: the first
    /// position at or above it, upward, then on from the lowest position.
    /// An empty ring gives none; a ring of one target gives that target
    /// without hashing.
    pub fn lookup_list(&self, resource: &str, requested_count: u32) -> (r: Result<Vec<Target>, FlexihashError>)
        requires
            self.wf(),
        ensures
            requested_count == 0 ==> r matches Err(FlexihashError::InvalidCount),
            requested_count > 0 ==> (r matches Ok(found)
                && texts(found@) == self@.lookup_list(resource@, requested_count as nat)),
    {
        if requested_count == 0 {
            return Err(FlexihashError::InvalidCount);
        }
        let n_targets = self.registry.len();
        if n_targets == 0 {
            let found: Vec<Target> = Vec::new();
            assert(texts(found@) =~= Seq::empty());
            return Ok(found);
        }
        if n_targets == 1 {
            let mut found: Vec<Target> = Vec::new();
            found.push(self.registry[0].0.clone());
            assert(texts(found@) =~= seq![self@.registry[0].0]);
            return Ok(found);
        }
        let p = hash(&self.hasher, resource);
        let k = self.successor(p);
        let len = self.index.len();
        let ghost index = self@.index;
        let ghost route = walk(index, p);
        proof {
            lemma_filter_back(index, at_or_over(p), k as int);
            lemma_filter_front(index, under(p), k as int);
            lemma_walk_bound(self@, p);
        }
        let mut found: Vec<Target> = Vec::new();
        let mut i: usize = 0;
        assert(route.take(0) =~= Seq::<Seq<char>>::empty());
        assert(texts(found@) =~= Seq::<Seq<char>>::empty());
        while i < len
            invariant
                index == self@.index,
                len == index.len(),
                k <= len,
                i <= len,
                n_targets == self@.registry.len(),
                route == walk(index, p),
                p == self@.hasher.position_of(resource@),
                n_targets >= 2,
                route == (index.skip(k as int) + index.take(k as int)).map_values(
                    |e: (u128, Seq<char>)| e.1,
                ),
                first_occurrences(route).len() <= n_targets,
                texts(found@) == first_occurrences(route.take(i as int)),
                found@.len() < requested_count,
                found@.len() < n_targets,
            decreases len - i,
        {
            let j = if i < len - k {
                k + i
            } else {
                i - (len - k)
            };
            assert(route[i as int] == index[j as int].1);
            assert(index[j as int].1 == self.index@[j as int].1@);
            let ghost seen = texts(found@);
            proof {
                assert(route.take(i + 1).drop_last() =~= route.take(i as int));
            }
            if !Self::holds_text(&found, &self.index[j].1) {
                found.push(self.index[j].1.clone());
                assert(texts(found@) =~= seen.push(route[i as int]));
                if found.len() == requested_count as usize || found.len() == n_targets {
                    proof {
                        lemma_first_occurrences_prefix(route, i + 1);
                        lemma_first_n_of_prefix(route, i + 1, requested_count as nat, n_targets as nat);
                    }
                    return Ok(found);
                }
            } else {
                assert(texts(found@) =~= seen);
            }
            i = i + 1;
        }
        assert(route.take(len as int) =~= route);
        Ok(found)
    }

    /// A description of the ring: its targets, in order of addition.
    pub fn to_string(&self) -> (r: String)
        ensures
            r@ == "Flexihash("@ + debug_list_of(self@.names()) + ")"@,
    {
        let names = self.target_names();
        let mut text = String::from_str("Flexihash(");
        text.append(debug_list(&names).as_str());
        text.append(")");
        text
    }

    /// The first index whose position is `p` or above.
    fn successor(&self, p: Position) -> (k: usize)
        requires
            ascending(self@.index),
        ensures
            k <= self@.index.len(),
            forall|j: int| 0 <= j < k ==> self@.index[j].0 < p,
            forall|j: int| k <= j < self@.index.len() ==> self@.index[j].0 >= p,
    {
        let mut lo: usize = 0;
        let mut hi: usize = self.index.len();
        while lo < hi
            invariant
                lo <= hi <= self@.index.len(),
                ascending(self@.index),
                forall|j: int| 0 <= j < lo ==> self@.index[j].0 < p,
                forall|j: int| hi <= j < self@.index.len() ==> self@.index[j].0 >= p,
            decreases hi - lo,
        {
            let mid = lo + (hi - lo) / 2;
            assert(self@.index[mid as int].0 == self.index@[mid as int].0);
            if self.index[mid].0 < p {
                assert(forall|j: int| 0 <= j < mid ==> self@.index[j].0 < self@.index[mid as int].0);
                lo = mid + 1;
            } else {
                assert(forall|j: int| mid < j < self@.index.len() ==> self@.index[mid as int].0 < self@.index[j].0);
                hi = mid;
            }
        }
        lo
    }

    /// Gives position `p` to `t`, replacing the entry already at `p`, if any.
    fn place_position(&mut self, p: Position, t: &Target)
        requires
            ascending(old(self)@.index),
        ensures
            final(self)@ == (RingView { index: place(old(self)@.index, p, t@), ..old(self)@ }),
            ascending(final(self)@.index),
            forall|j: int|
                0 <= j < final(self)@.index.len() ==> #[trigger] final(self)@.index[j] == (p, t@)
                    || old(self)@.index.contains(final(self)@.index[j]),
    {
        let ghost index = self@.index;
        let k = self.successor(p);
        if k < self.index.len() && self.index[k].0 == p {
            proof {
                lemma_place_replaces(index, p, t@, k as int);
            }
            self.index[k] = (p, t.clone());
            assert(self@.index =~= index.update(k as int, (p, t@)));
            assert forall|j: int| 0 <= j < self@.index.len() && j != k implies index.contains(
                #[trigger] self@.index[j],
            ) by {
                assert(self@.index[j] == index[j]);
            }
        } else {
            proof {
                lemma_place_inserts(index, p, t@, k as int);
            }
            self.index.insert(k, (p, t.clone()));
            assert(self@.index =~= index.insert(k as int, (p, t@)));
            assert forall|j: int| 0 <= j < self@.index.len() && j != k implies index.contains(
                #[trigger] self@.index[j],
            ) by {
                if j < k {
                    assert(self@.index[j] == index[j]);
                } else {
                    assert(self@.index[j] == index[j - 1]);
                }
            }
        }
        assert(self@.registry =~= old(self)@.registry);
    }

    /// The registry slot of the target named `t`, if it is registered.
    fn find_target(&self, t: &Target) -> (r: Option<usize>)
        ensures
            match r {
                Some(k) => k < self@.registry.len() && self@.registry[k as int].0 == t@
                    && self@.has_target(t@),
                None => !self@.has_target(t@),
            },
    {
        let mut i: usize = 0;
        while i < self.registry.len()
            invariant
                i <= self@.registry.len(),
                forall|j: int| 0 <= j < i ==> self@.registry[j].0 != t@,
            decreases self@.registry.len() - i,
        {
            if self.registry[i].0 == *t {
                assert(self@.names()[i as int] == t@);
                return Some(i);
            }
            i = i + 1;
        }
        assert forall|j: int| 0 <= j < self@.names().len() implies self@.names()[j] != t@ by {
            assert(self@.names()[j] == self@.registry[j].0);
        }
        None
    }

    /// Whether `v` holds a string with the characters of `t`.
    fn holds_text(v: &Vec<Target>, t: &Target) -> (r: bool)
        ensures
            r == texts(v@).contains(t@),
    {
        let mut i: usize = 0;
        while i < v.len()
            invariant
                i <= v@.len(),
                forall|j: int| 0 <= j < i ==> v@[j]@ != t@,
            decreases v@.len() - i,
        {
            if v[i] == *t {
                assert(texts(v@)[i as int] == t@);
                return true;
            }
            i = i + 1;
        }
        assert forall|j: int| 0 <= j < texts(v@).len() implies texts(v@)[j] != t@ by {
            assert(texts(v@)[j] == v@[j]@);
        }
        false
    }

    /// The registered targets, in order of addition.
    fn target_names(&self) -> (r: Vec<Target>)
        ensures
            texts(r@) == self@.names(),
    {
        let mut names: Vec<Target> = Vec::new();
        let mut i: usize = 0;
        while i < self.registry.len()
            invariant
                i <= self@.registry.len(),
                texts(names@) == self@.names().take(i as int),
            decreases self@.registry.len() - i,
        {
            let ghost before = texts(names@);
            names.push(self.registry[i].0.clone());
            assert(self@.names()[i as int] == self.registry@[i as int].0@);
            assert(texts(names@) =~= before.push(self@.names()[i as int]));
            assert(texts(names@) =~= self@.names().take(i + 1));
            i = i + 1;
        }
        assert(self@.names().take(i as int) =~= self@.names());
        names
    }
}

} // verus!
