use std::collections::HashMap;

use flexihash::{Flexihash, FlexihashError, Hasher};

fn mock(position: &str) -> Hasher {
    Hasher::Mock(position.to_string())
}

/// A ring of one replica per target, each target at a fixed position.
fn fixed_ring(targets: &[(&str, &str)]) -> Flexihash {
    let mut fh = Flexihash::new();
    fh.set_replicas(1);
    for (name, position) in targets {
        fh.set_hasher(mock(position));
        fh.add_target(name, 1).unwrap();
    }
    fh
}

#[test]
fn to_string() {
    let mut fh = Flexihash::new();
    fh.add_target("foo", 2).unwrap();
    fh.add_target("bar", 4).unwrap();
    assert_eq!(fh.to_string(), "Flexihash([\"foo\", \"bar\"])");
}

#[test]
fn debug() {
    let mut fh = Flexihash::new();
    fh.add_target("foo", 2).unwrap();
    fh.add_target("bar", 4).unwrap();
    assert_eq!(format!("{:?}", fh).to_string().len() > 10, true);
}

#[test]
fn to_string_of_empty_ring() {
    assert_eq!(Flexihash::new().to_string(), "Flexihash([])");
}

#[test]
fn get_all_targets_empty() {
    let fh = Flexihash::new();
    assert_eq!(fh.get_all_targets().len(), 0);
}

#[test]
fn add_target_refuses_a_duplicate() {
    let mut fh = Flexihash::new();
    fh.add_target("t-a", 1).unwrap();
    assert_eq!(
        fh.add_target("t-a", 1),
        Err(FlexihashError::DuplicateTarget("t-a".to_string()))
    );
    assert_eq!(fh.get_all_targets(), ["t-a"]);
}

#[test]
fn add_target_and_get_all_targets() {
    let mut fh = Flexihash::new();
    fh.add_target("t-a", 1).unwrap();
    fh.add_target("t-b", 1).unwrap();
    fh.add_target("t-c", 1).unwrap();

    assert_eq!(fh.get_all_targets(), ["t-a", "t-b", "t-c"]);
}

#[test]
fn get_all_targets_sorts_lexicographically() {
    let mut fh = Flexihash::new();
    for name in ["b", "ab", "a", "B", "ba", "é", ""] {
        fh.add_target(name, 1).unwrap();
    }
    assert_eq!(fh.get_all_targets(), ["", "B", "a", "ab", "b", "ba", "é"]);
}

#[test]
fn add_targets_and_get_all_targets() {
    let targets = vec!["t-a", "t-b", "t-c"];

    let mut fh = Flexihash::new();
    fh.add_targets(targets.iter().map(|t| t.to_string()).collect()).unwrap();
    assert_eq!(fh.get_all_targets(), targets);
}

#[test]
fn add_targets_stops_at_the_first_duplicate() {
    let mut fh = Flexihash::new();
    fh.add_target("t-b", 1).unwrap();
    let batch = vec!["t-a".to_string(), "t-b".to_string(), "t-c".to_string()];
    assert_eq!(
        fh.add_targets(batch),
        Err(FlexihashError::DuplicateTarget("t-b".to_string()))
    );
    assert_eq!(fh.get_all_targets(), ["t-a", "t-b"]);
}

#[test]
fn add_targets_refuses_a_repeat_within_the_batch() {
    let mut fh = Flexihash::new();
    let batch = vec!["x".to_string(), "y".to_string(), "x".to_string(), "z".to_string()];
    assert_eq!(
        fh.add_targets(batch),
        Err(FlexihashError::DuplicateTarget("x".to_string()))
    );
    assert_eq!(fh.get_all_targets(), ["x", "y"]);
}

#[test]
fn remove_target() {
    let mut fh = Flexihash::new();
    fh.add_target("t-a", 1).unwrap();
    fh.add_target("t-b", 1).unwrap();
    fh.add_target("t-c", 1).unwrap();
    fh.remove_target("t-b").unwrap();

    assert_eq!(fh.get_all_targets(), ["t-a", "t-c"]);
}

#[test]
fn remove_target_refuses_a_missing_target() {
    let mut fh = Flexihash::new();
    assert_eq!(
        fh.remove_target("not-there"),
        Err(FlexihashError::UnknownTarget("not-there".to_string()))
    );
}

#[test]
fn same_results_as_original() {
    let mut fh = Flexihash::new();
    let mut results = HashMap::new();

    for n in vec!["a", "b", "c", "d", "e", "f", "g", "h", "i", "j"].iter() {
        let target = format!("{:032x}", md5::compute(n.to_string()));
        fh.add_target(&target, 1).unwrap();
        results.insert(target, 0);
    }

    for n in 0..1000 {
        let target = format!("{:032x}", md5::compute(n.to_string()));
        let position = fh.lookup(&target).unwrap();
        match results.get_mut(&position) {
            Some(v) => {
                *v += 1;
            }
            None => {
                results.insert(position.clone(), 1);
            }
        };
    }

    let mut expected = HashMap::new();
    expected.insert("0cc175b9c0f1b6a831c399e269772661".to_string(), 105);
    expected.insert("2510c39011c5be704182423e3a695e91".to_string(), 54);
    expected.insert("363b122c528f54df4a0446b6bab05515".to_string(), 113);
    expected.insert("4a8a08f09d37b73795649038408b5f33".to_string(), 119);
    expected.insert("8277e0910d750195b448797616e091ad".to_string(), 168);
    expected.insert("865c0c0b4ab0e063e5caa3387c1a8741".to_string(), 74);
    expected.insert("8fa14cdd754f91cc6554c9e71929cce7".to_string(), 94);
    expected.insert("92eb5ffee6ae2fec3ad71c777531578f".to_string(), 63);
    expected.insert("b2f5ff47436671b6e533d8dc3614845d".to_string(), 124);
    expected.insert("e1671797c52e15f763380b45e841ec32".to_string(), 86);

    assert_eq!(results, expected)
}

#[test]
fn lookup_on_empty_ring_fails() {
    let fh = Flexihash::new();
    assert_eq!(fh.lookup("test"), Err(FlexihashError::EmptyRing));
}

#[test]
fn lookup_list_of_zero_fails() {
    let fh = Flexihash::new();
    assert_eq!(fh.lookup_list("test", 0), Err(FlexihashError::InvalidCount));
}

#[test]
fn lookup_list_returns_with_short_list_if_all_targets_used() {
    let mut fh = Flexihash::new();
    // both have CRC32 of 1253617450
    fh.add_target("x", 1).unwrap();
    fh.add_target("y", 1).unwrap(); // make the list non-empty, non-one-value, to avoid shortcuts
    fh.add_target("80726", 1).unwrap(); // add a value
    fh.add_target("14746907", 1).unwrap(); // add a different value with the same hash, to clobber the first
    fh.remove_target("14746907").unwrap(); // remove the fourth value; with the third clobbered, only X and Y are left
    let result = fh.lookup_list("test", 3).unwrap(); // try to get 3 results, our target list is X, Y, 80726
    assert_eq!(result.len(), 2); // but 80726 isn't reachable since it was clobbered
    assert_eq!(result.contains(&String::from("x")), true); // all that's left is x
    assert_eq!(result.contains(&String::from("y")), true); // and y
}

#[test]
fn hash_space_repeatable_lookups() {
    let mut fh = Flexihash::new();
    for i in 1..10 {
        fh.add_target(&format!("target{}", i), 1).unwrap();
    }
    assert_eq!(fh.lookup("t1"), fh.lookup("t1"));
    assert_eq!(fh.lookup("t2"), fh.lookup("t2"));
}

#[test]
fn hash_space_lookups_are_valid_targets() {
    let mut fh = Flexihash::new();
    let mut targets = Vec::new();
    for i in 1..10 {
        targets.push(format!("targets{}", i));
    }
    fh.add_targets(targets.clone()).unwrap();

    for i in 1..10 {
        assert_eq!(targets.contains(&fh.lookup(&format!("r{}", i)).unwrap()), true)
    }
}

#[test]
fn hash_space_consistent_lookups_after_adding_and_removing() {
    let mut fh = Flexihash::new();
    for i in 1..10 {
        fh.add_target(&format!("target{}", i), 1).unwrap();
    }
    let mut results1 = Vec::new();
    for i in 1..100 {
        results1.push(fh.lookup(&format!("t{}", i)));
    }
    fh.add_target("new-target", 1).unwrap();
    fh.remove_target("new-target").unwrap();
    fh.add_target("new-target", 1).unwrap();
    fh.remove_target("new-target").unwrap();

    let mut results2 = Vec::new();
    for i in 1..100 {
        results2.push(fh.lookup(&format!("t{}", i)));
    }
    assert_eq!(results1, results2);
}

#[test]
fn hash_space_consistent_lookups_with_new_instance() {
    let mut fh1 = Flexihash::new();
    for i in 1..10 {
        fh1.add_target(&format!("target{}", i), 1).unwrap();
    }
    let mut results1 = Vec::new();
    for i in 1..100 {
        results1.push(fh1.lookup(&format!("t{}", i)));
    }
    let mut fh2 = Flexihash::new();
    for i in 1..10 {
        fh2.add_target(&format!("target{}", i), 1).unwrap();
    }
    let mut results2 = Vec::new();
    for i in 1..100 {
        results2.push(fh2.lookup(&format!("t{}", i)));
    }
    assert_eq!(results1, results2);
}

#[test]
fn get_multiple_targets() {
    let mut fh = Flexihash::new();
    for i in 1..10 {
        fh.add_target(&format!("target{}", i), 1).unwrap();
    }
    let targets = fh.lookup_list("resource", 2).unwrap();

    assert_eq!(targets.len(), 2);
    assert_ne!(targets[0], targets[1]);
}

#[test]
fn get_multiple_targets_with_only_one_target() {
    let mut fh = Flexihash::new();
    fh.add_target("single-target", 1).unwrap();

    let targets = fh.lookup_list("resource", 2).unwrap();

    assert_eq!(targets.len(), 1);
    assert_eq!(targets[0], "single-target");
}

#[test]
fn get_more_targets_than_exist() {
    let mut fh = Flexihash::new();
    fh.add_target("target1", 1).unwrap();
    fh.add_target("target2", 1).unwrap();

    let targets = fh.lookup_list("resource", 4).unwrap();

    assert_eq!(targets.len(), 2);
    assert_ne!(targets[0], targets[1]);
}

#[test]
fn get_multiple_targets_needing_to_loop_to_start() {
    let mut fh = Flexihash::new();
    fh.set_replicas(1);

    fh.set_hasher(Hasher::Mock("10".to_string()));
    fh.add_target("t1", 1).unwrap();

    fh.set_hasher(Hasher::Mock("20".to_string()));
    fh.add_target("t2", 1).unwrap();

    fh.set_hasher(Hasher::Mock("30".to_string()));
    fh.add_target("t3", 1).unwrap();

    fh.set_hasher(Hasher::Mock("40".to_string()));
    fh.add_target("t4", 1).unwrap();

    fh.set_hasher(Hasher::Mock("50".to_string()));
    fh.add_target("t5", 1).unwrap();

    fh.set_hasher(Hasher::Mock("35".to_string()));
    let targets = fh.lookup_list("resource", 4).unwrap();

    assert_eq!(targets, ["t4", "t5", "t1", "t2"]);
}

#[test]
fn get_multiple_targets_without_getting_any_before_loop_to_start() {
    let mut fh = Flexihash::new();
    fh.set_replicas(1);

    fh.set_hasher(Hasher::Mock("10".to_string()));
    fh.add_target("t1", 1).unwrap();

    fh.set_hasher(Hasher::Mock("20".to_string()));
    fh.add_target("t2", 1).unwrap();

    fh.set_hasher(Hasher::Mock("30".to_string()));
    fh.add_target("t3", 1).unwrap();

    fh.set_hasher(Hasher::Mock("99".to_string()));
    let targets = fh.lookup_list("resource", 2).unwrap();

    assert_eq!(targets, ["t1", "t2"]);
}

#[test]
fn get_multiple_targets_without_needing_to_loop_to_start() {
    let mut fh = Flexihash::new();
    fh.set_replicas(1);

    fh.set_hasher(Hasher::Mock("10".to_string()));
    fh.add_target("t1", 1).unwrap();

    fh.set_hasher(Hasher::Mock("20".to_string()));
    fh.add_target("t2", 1).unwrap();

    fh.set_hasher(Hasher::Mock("30".to_string()));
    fh.add_target("t3", 1).unwrap();

    fh.set_hasher(Hasher::Mock("15".to_string()));
    let targets = fh.lookup_list("resource", 2).unwrap();

    assert_eq!(targets, ["t2", "t3"]);
}

#[test]
fn fallback_precedence_when_server_removed() {
    let mut fh = Flexihash::new();
    fh.set_replicas(1);

    fh.set_hasher(Hasher::Mock("10".to_string()));
    fh.add_target("t1", 1).unwrap();

    fh.set_hasher(Hasher::Mock("20".to_string()));
    fh.add_target("t2", 1).unwrap();

    fh.set_hasher(Hasher::Mock("30".to_string()));
    fh.add_target("t3", 1).unwrap();

    fh.set_hasher(Hasher::Mock("15".to_string()));

    assert_eq!(fh.lookup("resource").unwrap(), "t2");
    assert_eq!(fh.lookup_list("resource", 3).unwrap(), ["t2", "t3", "t1"]);

    fh.remove_target("t2").unwrap();

    assert_eq!(fh.lookup("resource").unwrap(), "t3");
    assert_eq!(fh.lookup_list("resource", 3).unwrap(), ["t3", "t1"]);

    fh.remove_target("t3").unwrap();

    assert_eq!(fh.lookup("resource").unwrap(), "t1");
    assert_eq!(fh.lookup_list("resource", 3).unwrap(), ["t1"]);
}

#[test]
fn empty_ring_lookups() {
    let fh = Flexihash::new();
    assert_eq!(fh.lookup_list("x", 1).unwrap(), Vec::<String>::new());
    assert_eq!(fh.lookup("x"), Err(FlexihashError::EmptyRing));
}

#[test]
fn single_target_regardless_of_hash() {
    for position in ["0", "5", "99"] {
        let mut fh = Flexihash::new();
        fh.set_hasher(mock(position));
        fh.add_target("solo", 1).unwrap();
        fh.set_hasher(mock("1000"));
        assert_eq!(fh.lookup_list("anything", 5).unwrap(), ["solo"]);
    }
}

#[test]
fn single_target_without_positions_is_still_found() {
    let mut fh = Flexihash::new();
    fh.add_target("solo", 0).unwrap();
    assert_eq!(fh.lookup("anything").unwrap(), "solo");
}

#[test]
fn targets_without_positions_are_never_found() {
    let mut fh = Flexihash::new();
    fh.add_target("a", 0).unwrap();
    fh.add_target("b", 0).unwrap();
    assert_eq!(fh.lookup_list("anything", 2).unwrap(), Vec::<String>::new());
    assert_eq!(fh.lookup("anything"), Err(FlexihashError::EmptyRing));
}

#[test]
fn lookup_at_an_exact_position_takes_that_entry() {
    let fh = {
        let mut fh = fixed_ring(&[("t1", "10"), ("t2", "20"), ("t3", "30")]);
        fh.set_hasher(mock("20"));
        fh
    };
    assert_eq!(fh.lookup_list("resource", 3).unwrap(), ["t2", "t3", "t1"]);
}

#[test]
fn lookup_below_every_position_starts_at_the_lowest() {
    let mut fh = fixed_ring(&[("t1", "10"), ("t2", "20"), ("t3", "30")]);
    fh.set_hasher(mock("0"));
    assert_eq!(fh.lookup_list("resource", 3).unwrap(), ["t1", "t2", "t3"]);
}

#[test]
fn later_target_takes_over_a_shared_position() {
    let mut fh = fixed_ring(&[("t1", "10"), ("t2", "20"), ("t3", "20")]);
    fh.set_hasher(mock("15"));
    assert_eq!(fh.lookup_list("resource", 3).unwrap(), ["t3", "t1"]);
    // Removing the overwritten target leaves the new owner's entry alone.
    fh.remove_target("t2").unwrap();
    assert_eq!(fh.lookup_list("resource", 3).unwrap(), ["t3", "t1"]);
    // Removing the owner frees the position; the overwritten target does not come back.
    let mut fh = fixed_ring(&[("t1", "10"), ("t2", "20"), ("t3", "20")]);
    fh.remove_target("t3").unwrap();
    fh.set_hasher(mock("15"));
    assert_eq!(fh.lookup_list("resource", 3).unwrap(), ["t1"]);
}

#[test]
fn replicas_are_visited_once_per_target() {
    // Every replica of a target sits at the same fixed position.
    let mut fh = Flexihash::new();
    fh.set_replicas(3);
    fh.set_hasher(mock("10"));
    fh.add_target("a", 2).unwrap();
    fh.set_hasher(mock("20"));
    fh.add_target("b", 1).unwrap();
    fh.set_hasher(mock("5"));
    assert_eq!(fh.lookup_list("resource", 5).unwrap(), ["a", "b"]);
}

#[test]
fn removal_keeps_other_lookups() {
    let mut fh = Flexihash::new();
    for i in 1..10 {
        fh.add_target(&format!("target{}", i), 1).unwrap();
    }
    let before: Vec<String> = (0..200).map(|i| fh.lookup(&format!("r{}", i)).unwrap()).collect();
    fh.remove_target("target4").unwrap();
    for (i, old) in before.iter().enumerate() {
        let now = fh.lookup(&format!("r{}", i)).unwrap();
        if old != "target4" {
            assert_eq!(&now, old);
        } else {
            assert_ne!(now, "target4");
        }
    }
}

#[test]
fn lookup_list_counts_and_distinctness() {
    let mut fh = Flexihash::new();
    for i in 1..6 {
        fh.add_target(&format!("target{}", i), 3).unwrap();
    }
    for n in 1..8u32 {
        let found = fh.lookup_list("resource", n).unwrap();
        assert_eq!(found.len(), std::cmp::min(n as usize, 5));
        for a in 0..found.len() {
            for b in a + 1..found.len() {
                assert_ne!(found[a], found[b]);
            }
        }
    }
}

#[test]
fn lookup_is_the_head_of_lookup_list() {
    let mut fh = Flexihash::new();
    fh.set_hasher(Hasher::Md5);
    for i in 1..6 {
        fh.add_target(&format!("node{}", i), 2).unwrap();
    }
    for i in 0..50 {
        let key = format!("key{}", i);
        assert_eq!(fh.lookup(&key).unwrap(), fh.lookup_list(&key, 3).unwrap()[0]);
    }
}
