use fixed_slab::slab::Slab;

fn collect<T: Clone, const N: usize>(t: &mut Slab<T, N>) -> Vec<(usize, T)> {
    let mut it = t.iter_mut();
    let mut got: Vec<(usize, T)> = Vec::new();
    while let Some((k, v)) = it.next(t) {
        got.push((k, v.clone()));
    }
    got
}

#[test]
fn new_table_is_empty() {
    let mut t: Slab<u32, 4> = Slab::new();
    assert_eq!(t.len(), 0);
    let mut it = t.iter_mut();
    assert!(it.next(&mut t).is_none());
}

#[test]
fn keys_are_assigned_in_ascending_order() {
    let mut t: Slab<&str, 4> = Slab::new();
    assert_eq!(t.insert("a"), Ok(0));
    assert_eq!(t.insert("b"), Ok(1));
    assert_eq!(t.insert("c"), Ok(2));
    assert_eq!(t.len(), 3);
}

#[test]
fn key_stability_across_other_operations() {
    let mut t: Slab<String, 4> = Slab::new();
    assert_eq!(t.insert(String::from("keep")), Ok(0));
    assert_eq!(t.insert(String::from("drop")), Ok(1));
    assert_eq!(t.remove(1), "drop");
    assert_eq!(t.insert(String::from("new")), Ok(1));
    assert_eq!(t.insert(String::from("tail")), Ok(2));
    let got = collect(&mut t);
    assert_eq!(
        got,
        vec![
            (0, String::from("keep")),
            (1, String::from("new")),
            (2, String::from("tail")),
        ]
    );
}

#[test]
fn lifo_free_list_reuse() {
    let mut t: Slab<u32, 4> = Slab::new();
    assert_eq!(t.insert(10), Ok(0));
    assert_eq!(t.insert(11), Ok(1));
    assert_eq!(t.insert(12), Ok(2));
    assert_eq!(t.remove_safe(0), Some(10));
    assert_eq!(t.remove_safe(1), Some(11));
    // the most recently removed key comes back first
    assert_eq!(t.insert(20), Ok(1));
    assert_eq!(t.insert(21), Ok(0));
    assert_eq!(t.len(), 3);
}

#[test]
fn occupied_count_tracks_inserts_and_removes() {
    let mut t: Slab<u8, 8> = Slab::new();
    assert_eq!(t.len(), 0);
    let k0 = t.insert(1).unwrap();
    assert_eq!(t.len(), 1);
    let k1 = t.insert(2).unwrap();
    assert_eq!(t.len(), 2);
    assert_eq!(t.remove(k0), 1);
    assert_eq!(t.len(), 1);
    let _ = t.insert(3).unwrap();
    assert_eq!(t.len(), 2);
    assert_eq!(t.remove_safe(k1), Some(2));
    assert_eq!(t.len(), 1);
    // a failed remove leaves the count alone
    assert_eq!(t.remove_safe(k1), None);
    assert_eq!(t.len(), 1);
}

#[test]
fn capacity_ceiling_returns_value_unconsumed() {
    let mut t: Slab<String, 2> = Slab::new();
    assert_eq!(t.insert(String::from("x")), Ok(0));
    assert_eq!(t.insert(String::from("y")), Ok(1));
    assert_eq!(t.insert(String::from("z")), Err(String::from("z")));
    assert_eq!(t.len(), 2);
    // the table is untouched by the failed attempt
    let got = collect(&mut t);
    assert_eq!(got, vec![(0, String::from("x")), (1, String::from("y"))]);
}

#[test]
fn zero_capacity_rejects_every_insert() {
    let mut t: Slab<u8, 0> = Slab::new();
    assert_eq!(t.insert(5), Err(5));
    assert_eq!(t.len(), 0);
}

#[test]
fn iteration_completeness_and_order() {
    let mut t: Slab<String, 3> = Slab::new();
    assert_eq!(t.insert(String::from("v0")), Ok(0));
    assert_eq!(t.insert(String::from("v1")), Ok(1));
    assert_eq!(t.insert(String::from("v2")), Ok(2));
    let got = collect(&mut t);
    assert_eq!(
        got,
        vec![
            (0, String::from("v0")),
            (1, String::from("v1")),
            (2, String::from("v2")),
        ]
    );
    assert_eq!(t.remove(1), "v1");
    let got = collect(&mut t);
    assert_eq!(got, vec![(0, String::from("v0")), (2, String::from("v2"))]);
}

#[test]
fn iteration_mutates_values_in_place() {
    let mut t: Slab<u32, 4> = Slab::new();
    assert_eq!(t.insert(1), Ok(0));
    assert_eq!(t.insert(2), Ok(1));
    assert_eq!(t.insert(3), Ok(2));
    assert_eq!(t.remove(1), 2);
    let mut it = t.iter_mut();
    while let Some((k, v)) = it.next(&mut t) {
        *v = *v * 10 + k as u32;
    }
    let got = collect(&mut t);
    assert_eq!(got, vec![(0, 10), (2, 32)]);
}

#[test]
fn iteration_is_single_pass() {
    let mut t: Slab<u8, 2> = Slab::new();
    assert_eq!(t.insert(7), Ok(0));
    let mut it = t.iter_mut();
    assert!(it.next(&mut t).is_some());
    assert!(it.next(&mut t).is_none());
    // a spent cursor stays spent; a fresh one starts over
    assert!(it.next(&mut t).is_none());
    let mut it2 = t.iter_mut();
    assert_eq!(it2.next(&mut t).map(|(k, v)| (k, *v)), Some((0, 7)));
}

#[test]
fn remove_safe_out_of_range_reports_absence() {
    let mut t: Slab<u8, 4> = Slab::new();
    assert_eq!(t.insert(3), Ok(0));
    // a key past the storage denotes no slot: absence, table untouched
    assert_eq!(t.remove_safe(7), None);
    assert_eq!(t.len(), 1);
    assert_eq!(t.slots(), 1);
    let got = collect(&mut t);
    assert_eq!(got, vec![(0, 3)]);
}

#[test]
fn occupied_keys_lists_every_occupied_slot_in_order() {
    let mut t: Slab<&str, 4> = Slab::new();
    assert_eq!(t.occupied_keys(), Vec::<usize>::new());
    assert_eq!(t.insert("a"), Ok(0));
    assert_eq!(t.insert("b"), Ok(1));
    assert_eq!(t.insert("c"), Ok(2));
    assert_eq!(t.occupied_keys(), vec![0, 1, 2]);
    assert_eq!(t.remove(1), "b");
    assert_eq!(t.occupied_keys(), vec![0, 2]);
    assert_eq!(t.slots(), 3);
}

#[test]
fn double_remove_safe() {
    let mut t: Slab<String, 2> = Slab::new();
    assert_eq!(t.insert(String::from("once")), Ok(0));
    assert_eq!(t.insert(String::from("stay")), Ok(1));
    assert_eq!(t.remove_safe(0), Some(String::from("once")));
    assert_eq!(t.len(), 1);
    assert_eq!(t.remove_safe(0), None);
    assert_eq!(t.len(), 1);
    let got = collect(&mut t);
    assert_eq!(got, vec![(1, String::from("stay"))]);
}

#[test]
fn insert_at_append_and_reuse() {
    let mut t: Slab<u16, 2> = Slab::new();
    // appending at the current storage length
    assert_eq!(t.insert_at(0, 100), Ok(()));
    assert_eq!(t.insert_at(1, 101), Ok(()));
    // full: the value comes back unconsumed
    assert_eq!(t.remove(0), 100);
    // re-supplying the freed key, which is now the free-list head
    assert_eq!(t.insert_at(0, 102), Ok(()));
    assert_eq!(t.len(), 2);
    let got = collect(&mut t);
    assert_eq!(got, vec![(0, 102), (1, 101)]);
}

#[test]
fn insert_at_full_table_hands_value_back() {
    let mut t: Slab<u16, 1> = Slab::new();
    assert_eq!(t.insert_at(0, 9), Ok(()));
    assert_eq!(t.insert_at(1, 10), Err(10));
    assert_eq!(t.len(), 1);
}

#[test]
fn round_trip_scenario() {
    let mut t: Slab<String, 3> = Slab::new();
    assert_eq!(t.insert(String::from("a")), Ok(0));
    assert_eq!(t.insert(String::from("b")), Ok(1));
    assert_eq!(t.insert(String::from("c")), Ok(2));
    assert_eq!(t.insert(String::from("d")), Err(String::from("d")));
    assert_eq!(t.remove(1), "b");
    assert_eq!(t.insert(String::from("e")), Ok(1));
    let got = collect(&mut t);
    assert_eq!(
        got,
        vec![
            (0, String::from("a")),
            (1, String::from("e")),
            (2, String::from("c")),
        ]
    );
}

#[test]
fn default_is_empty() {
    let mut t: Slab<u8, 3> = Slab::default();
    assert_eq!(t.len(), 0);
    assert_eq!(t.insert(1), Ok(0));
}

#[test]
fn ownership_round_trips_through_remove() {
    let mut t: Slab<Vec<u8>, 2> = Slab::new();
    let payload = vec![1, 2, 3];
    assert_eq!(t.insert(payload.clone()), Ok(0));
    let back = t.remove(0);
    assert_eq!(back, payload);
    assert_eq!(t.len(), 0);
}
