use basic_hash_ring::{Direction, HashRing, DEFAULT_REPLICAS};
use xxhash_rust::xxh3::xxh3_64;

fn names(list: &[&str]) -> Vec<String> {
    list.iter().map(|s| s.to_string()).collect()
}

/// A ring with three hand-placed points: 10 for A, 20 for B, 30 for C.
fn three_points() -> HashRing {
    let mut ring = HashRing::new_with_replicas(1);
    ring.place(20, "B");
    ring.place(10, "A");
    ring.place(30, "C");
    ring
}

/// The points that `nodes` place with XXH3, sorted, each with its owner; a
/// later node wins a point that two of them place.
fn by_hand(nodes: &[&str], replicas: usize) -> Vec<(u64, String)> {
    let mut owners = std::collections::BTreeMap::new();
    for node in nodes {
        for i in 0..replicas {
            owners.insert(xxh3_64(format!("{}{}", node, i).as_bytes()), node.to_string());
        }
    }
    owners.into_iter().collect()
}

fn owner_by_hand(points: &[(u64, String)], key: &str) -> Option<String> {
    let h = xxh3_64(key.as_bytes());
    points
        .iter()
        .find(|(p, _)| *p >= h)
        .or(points.first())
        .map(|(_, owner)| owner.clone())
}

#[test]
fn fresh_ring_is_empty() {
    let ring = HashRing::new();
    assert!(ring.is_empty());
    assert_eq!(ring.replicas(), 100);
    assert_eq!(DEFAULT_REPLICAS, 100);
    assert!(ring.points().is_empty());
    assert_eq!(ring.get("anything"), None);
    assert_eq!(ring.get_n("anything", 3, Direction::Forward), Vec::<String>::new());
    assert_eq!(ring.get_n("anything", 3, Direction::Backward), Vec::<String>::new());
    assert_eq!(ring.get_n_to_end("anything", 3), Vec::<String>::new());
    assert_eq!(ring.locate(0), None);
    assert_eq!(ring.locate_n(0, 3, Direction::Forward), Vec::<String>::new());
}

#[test]
fn constructors_keep_the_replica_count() {
    assert_eq!(HashRing::new_with_replicas(7).replicas(), 7);
    assert_eq!(HashRing::with_hash_and_replicas(9, basic_hash_ring::Xxh3).replicas(), 9);
    assert!(HashRing::new_with_replicas(7).is_empty());
}

#[test]
fn zero_replicas_never_populate() {
    let mut ring = HashRing::new_with_replicas(0);
    ring.add(&names(&["A", "B"]));
    assert!(ring.is_empty());
    assert_eq!(ring.get("x"), None);
    assert_eq!(ring.get_n("x", 2, Direction::Forward), Vec::<String>::new());
}

#[test]
fn adding_nothing_changes_nothing() {
    let mut ring = HashRing::new_with_replicas(5);
    ring.add(&[]);
    assert!(ring.is_empty());
    ring.add(&names(&["A"]));
    let before = ring.points().clone();
    ring.add(&[]);
    assert_eq!(ring.points(), &before);
}

#[test]
fn add_places_replicas_points_per_node() {
    let mut ring = HashRing::new_with_replicas(100);
    ring.add(&names(&["A", "B", "C"]));
    assert!(!ring.is_empty());
    assert_eq!(ring.points().len(), 300);
    let expected = by_hand(&["A", "B", "C"], 100);
    let expected_points: Vec<u64> = expected.iter().map(|(p, _)| *p).collect();
    assert_eq!(ring.points(), &expected_points);
    for (point, owner) in &expected {
        assert_eq!(ring.owner_of(*point), Some(owner));
    }
}

#[test]
fn keyspace_is_ascending_after_adds_and_removes() {
    let mut ring = HashRing::new_with_replicas(50);
    let ascending = |points: &Vec<u64>| points.windows(2).all(|w| w[0] <= w[1]);
    ring.add(&names(&["n1", "n2"]));
    assert!(ascending(ring.points()));
    ring.add(&names(&["n3", "n4", "n5"]));
    assert!(ascending(ring.points()));
    ring.remove("n2");
    assert!(ascending(ring.points()));
    ring.add(&names(&["n2"]));
    ring.remove("n5");
    assert!(ascending(ring.points()));
    assert_eq!(ring.points().len(), 200);
}

#[test]
fn every_point_has_an_owner_and_no_other_has() {
    let mut ring = HashRing::new_with_replicas(20);
    ring.add(&names(&["n1", "n2", "n3"]));
    ring.remove("n2");
    for point in ring.points() {
        assert!(ring.owner_of(*point).is_some());
    }
    for i in 0..20 {
        let gone = xxh3_64(format!("n2{}", i).as_bytes());
        assert_eq!(ring.owner_of(gone), None);
        assert!(!ring.points().contains(&gone));
        let kept = xxh3_64(format!("n3{}", i).as_bytes());
        assert_eq!(ring.owner_of(kept), Some(&"n3".to_string()));
        assert!(ring.points().contains(&kept));
    }
}

#[test]
fn get_agrees_with_a_plain_search() {
    let mut ring = HashRing::new_with_replicas(100);
    ring.add(&names(&["A", "B", "C"]));
    let expected = by_hand(&["A", "B", "C"], 100);
    for i in 0..200 {
        let key = format!("key-{}", i);
        assert_eq!(ring.get(&key).cloned(), owner_by_hand(&expected, &key));
    }
}

#[test]
fn get_is_deterministic() {
    let mut ring = HashRing::new_with_replicas(100);
    ring.add(&names(&["A", "B", "C"]));
    let first = ring.get("x").cloned();
    assert!(first.is_some());
    for _ in 0..10 {
        assert_eq!(ring.get("x").cloned(), first);
    }
    let mut twin = HashRing::new_with_replicas(100);
    twin.add(&names(&["A", "B", "C"]));
    assert_eq!(twin.get("x").cloned(), first);
}

#[test]
fn three_nodes_scenario() {
    let mut ring = HashRing::new_with_replicas(100);
    ring.add(&names(&["A", "B", "C"]));
    let owner = ring.get("x").cloned().unwrap();
    assert!(["A", "B", "C"].contains(&owner.as_str()));
    assert_eq!(ring.get("x").cloned().unwrap(), owner);

    let three = ring.get_n("x", 3, Direction::Forward);
    assert_eq!(three.len(), 3);
    assert_eq!(three[0], owner);
    let mut sorted = three.clone();
    sorted.sort();
    assert_eq!(sorted, names(&["A", "B", "C"]));

    let five = ring.get_n("x", 5, Direction::Forward);
    assert_eq!(five, three);

    let back = ring.get_n("x", 5, Direction::Backward);
    assert_eq!(back.len(), 3);
    assert_eq!(back[0], owner);
    let mut sorted = back.clone();
    sorted.sort();
    assert_eq!(sorted, names(&["A", "B", "C"]));
}

#[test]
fn get_n_is_a_prefix_of_the_longer_answer() {
    let mut ring = HashRing::new_with_replicas(30);
    ring.add(&names(&["a", "b", "c", "d", "e"]));
    for key in ["k1", "k2", "k3", "user:1234"] {
        let all = ring.get_n(key, 5, Direction::Forward);
        assert_eq!(all.len(), 5);
        for n in 0..=5 {
            assert_eq!(ring.get_n(key, n, Direction::Forward), all[..n].to_vec());
        }
        assert_eq!(ring.get_n(key, 1, Direction::Forward)[0], *ring.get(key).unwrap());
        assert_eq!(ring.get_n(key, 1, Direction::Backward)[0], *ring.get(key).unwrap());
    }
}

#[test]
fn get_n_has_no_duplicates_and_is_bounded() {
    let mut ring = HashRing::new_with_replicas(10);
    ring.add(&names(&["a", "b", "c", "d"]));
    for n in 0..8 {
        for direction in [Direction::Forward, Direction::Backward] {
            let got = ring.get_n("some-key", n, direction);
            assert_eq!(got.len(), n.min(4));
            for i in 0..got.len() {
                for j in 0..i {
                    assert_ne!(got[i], got[j]);
                }
            }
        }
        let got = ring.get_n_to_end("some-key", n);
        assert!(got.len() <= n.min(4));
    }
}

#[test]
fn get_n_with_one_node_ends() {
    let mut ring = HashRing::new_with_replicas(100);
    ring.add(&names(&["only"]));
    assert_eq!(ring.get_n("x", 3, Direction::Forward), names(&["only"]));
    assert_eq!(ring.get_n("x", 3, Direction::Backward), names(&["only"]));
    assert_eq!(ring.get_n("x", usize::MAX, Direction::Forward), names(&["only"]));
}

#[test]
fn get_n_of_nothing() {
    let ring = three_points();
    assert_eq!(ring.get_n("x", 0, Direction::Forward), Vec::<String>::new());
    assert_eq!(ring.get_n("x", 0, Direction::Backward), Vec::<String>::new());
    assert_eq!(ring.locate_n(15, 0, Direction::Forward), Vec::<String>::new());
    assert_eq!(ring.locate_n_to_end(15, 0), Vec::<String>::new());
}

#[test]
fn locate_finds_the_next_point() {
    let ring = three_points();
    assert_eq!(ring.points(), &vec![10, 20, 30]);
    assert_eq!(ring.locate(0), Some(&"A".to_string()));
    assert_eq!(ring.locate(10), Some(&"A".to_string()));
    assert_eq!(ring.locate(11), Some(&"B".to_string()));
    assert_eq!(ring.locate(20), Some(&"B".to_string()));
    assert_eq!(ring.locate(21), Some(&"C".to_string()));
    assert_eq!(ring.locate(30), Some(&"C".to_string()));
}

#[test]
fn locate_wraps_to_the_lowest_point() {
    let ring = three_points();
    assert_eq!(ring.locate(31), Some(&"A".to_string()));
    assert_eq!(ring.locate(u64::MAX), Some(&"A".to_string()));
}

#[test]
fn locate_n_forward_goes_up_and_round() {
    let ring = three_points();
    assert_eq!(ring.locate_n(25, 3, Direction::Forward), names(&["C", "A", "B"]));
    assert_eq!(ring.locate_n(25, 2, Direction::Forward), names(&["C", "A"]));
    assert_eq!(ring.locate_n(5, 3, Direction::Forward), names(&["A", "B", "C"]));
    assert_eq!(ring.locate_n(31, 5, Direction::Forward), names(&["A", "B", "C"]));
    assert_eq!(ring.locate_n(20, 1, Direction::Forward), names(&["B"]));
}

#[test]
fn locate_n_backward_goes_down_and_round() {
    let ring = three_points();
    assert_eq!(ring.locate_n(25, 3, Direction::Backward), names(&["C", "B", "A"]));
    assert_eq!(ring.locate_n(5, 3, Direction::Backward), names(&["A", "C", "B"]));
    assert_eq!(ring.locate_n(15, 2, Direction::Backward), names(&["B", "A"]));
    assert_eq!(ring.locate_n(31, 9, Direction::Backward), names(&["A", "C", "B"]));
}

#[test]
fn locate_n_skips_nodes_already_met() {
    let mut ring = HashRing::new_with_replicas(1);
    for (point, name) in [(10, "A"), (20, "A"), (30, "B"), (40, "A"), (50, "C")] {
        ring.place(point, name);
    }
    assert_eq!(ring.locate_n(0, 3, Direction::Forward), names(&["A", "B", "C"]));
    assert_eq!(ring.locate_n(35, 3, Direction::Forward), names(&["A", "C", "B"]));
    assert_eq!(ring.locate_n(35, 3, Direction::Backward), names(&["A", "B", "C"]));
    assert_eq!(ring.locate_n(45, 2, Direction::Backward), names(&["C", "A"]));
}

#[test]
fn to_end_stops_at_the_highest_point() {
    let ring = three_points();
    assert_eq!(ring.locate_n_to_end(15, 3), names(&["B", "C"]));
    assert_eq!(ring.locate_n_to_end(25, 3), names(&["C"]));
    assert_eq!(ring.locate_n_to_end(5, 2), names(&["A", "B"]));
    assert_eq!(ring.locate_n_to_end(5, 3), names(&["A", "B", "C"]));
    // Above every point the search begins at the lowest point again.
    assert_eq!(ring.locate_n_to_end(31, 3), names(&["A", "B", "C"]));
}

#[test]
fn to_end_agrees_with_forward_until_the_end() {
    let mut ring = HashRing::new_with_replicas(40);
    ring.add(&names(&["a", "b", "c"]));
    for i in 0..50 {
        let key = format!("key-{}", i);
        let round = ring.get_n(&key, 3, Direction::Forward);
        let straight = ring.get_n_to_end(&key, 3);
        assert!(straight.len() >= 1);
        assert_eq!(straight, round[..straight.len()].to_vec());
    }
}

#[test]
fn a_later_placement_takes_a_point_over() {
    let mut ring = HashRing::new_with_replicas(1);
    ring.place(10, "A");
    ring.place(10, "B");
    assert_eq!(ring.points(), &vec![10, 10]);
    assert_eq!(ring.owner_of(10), Some(&"B".to_string()));
    assert_eq!(ring.locate(10), Some(&"B".to_string()));
    assert_eq!(ring.locate_n(3, 2, Direction::Forward), names(&["B"]));
    ring.remove("A");
    assert_eq!(ring.points(), &vec![10, 10]);
    ring.remove("B");
    assert!(ring.is_empty());
    assert_eq!(ring.owner_of(10), None);
}

#[test]
fn adding_a_node_twice_doubles_its_points() {
    let mut ring = HashRing::new_with_replicas(10);
    ring.add(&names(&["A"]));
    ring.add(&names(&["A"]));
    assert_eq!(ring.points().len(), 20);
    ring.add(&names(&["B", "B"]));
    assert_eq!(ring.points().len(), 40);
    assert_eq!(ring.get_n("x", 5, Direction::Forward).len(), 2);
    ring.remove("A");
    assert_eq!(ring.points().len(), 20);
    assert_eq!(ring.get("x"), Some(&"B".to_string()));
    ring.remove("B");
    assert!(ring.is_empty());
}

#[test]
fn removing_an_absent_node_changes_nothing() {
    let mut ring = HashRing::new_with_replicas(10);
    ring.remove("ghost");
    assert!(ring.is_empty());
    ring.add(&names(&["A", "B"]));
    let before = ring.points().clone();
    ring.remove("ghost");
    ring.remove("");
    assert_eq!(ring.points(), &before);
}

#[test]
fn remove_takes_every_point_of_the_node() {
    let mut ring = HashRing::new_with_replicas(1);
    for (point, name) in [(10, "A"), (20, "B"), (30, "A"), (40, "C"), (50, "A")] {
        ring.place(point, name);
    }
    ring.remove("A");
    assert_eq!(ring.points(), &vec![20, 40]);
    assert_eq!(ring.owner_of(10), None);
    assert_eq!(ring.owner_of(20), Some(&"B".to_string()));
    assert_eq!(ring.locate(41), Some(&"B".to_string()));
    assert_eq!(ring.locate_n(0, 5, Direction::Forward), names(&["B", "C"]));
}

#[test]
fn add_then_remove_restores_every_owner() {
    let mut ring = HashRing::new_with_replicas(100);
    ring.add(&names(&["A", "B", "C"]));
    let keys: Vec<String> = (0..200).map(|i| format!("sample-key-{}", i)).collect();
    let points = ring.points().clone();
    let before: Vec<Option<String>> = keys.iter().map(|k| ring.get(k).cloned()).collect();
    ring.add(&names(&["X"]));
    assert_eq!(ring.points().len(), 400);
    ring.remove("X");
    let after: Vec<Option<String>> = keys.iter().map(|k| ring.get(k).cloned()).collect();
    assert_eq!(after, before);
    assert_eq!(ring.points(), &points);
}

#[test]
fn add_then_remove_loses_a_point_that_was_taken_over() {
    let mut ring = three_points();
    // X lands on the point of B and on a point of its own.
    ring.place(20, "X");
    ring.place(25, "X");
    ring.remove("X");
    assert_eq!(ring.points(), &vec![10, 30]);
    // Positions that B owned through point 20 now go on to C; the others
    // have the owner that they had.
    assert_eq!(ring.locate(15), Some(&"C".to_string()));
    assert_eq!(ring.locate(5), Some(&"A".to_string()));
    assert_eq!(ring.locate(27), Some(&"C".to_string()));
    assert_eq!(ring.locate(35), Some(&"A".to_string()));
}

#[test]
fn a_new_node_moves_some_keys_and_not_all() {
    let mut ring = HashRing::new_with_replicas(100);
    ring.add(&names(&["node1.example.com", "node2.example.com", "node3.example.com"]));
    let keys: Vec<String> = (0..100).map(|i| format!("sample-key-{}", i)).collect();
    let before: Vec<String> = keys.iter().map(|k| ring.get(k).unwrap().clone()).collect();
    ring.add(&names(&["node4.example.com"]));
    let mut moved = 0;
    for (key, old) in keys.iter().zip(&before) {
        let now = ring.get(key).unwrap();
        if now != old {
            // A key moves only to the node that came.
            assert_eq!(now, "node4.example.com");
            moved += 1;
        }
    }
    assert!(moved > 0);
    assert!(moved < 100);
}
