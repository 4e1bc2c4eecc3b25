use poolmap::shitty_map::{ShittyKeys, ShittyMap, ShittySet, INLINE_CAP};

fn collect_keys(it: &mut ShittyKeys<'_, u64, u64>) -> Vec<u64> {
    let mut out = Vec::new();
    while let Some(k) = it.next() {
        out.push(*k);
    }
    out
}

#[test]
fn membership_tracks_inserts_and_removes() {
    let mut m: ShittyMap<u64, u64> = ShittyMap::new();
    assert!(!m.contains_key(&1));
    m.insert(1, 10);
    m.insert(2, 20);
    assert!(m.contains_key(&1));
    assert!(m.contains_key(&2));
    assert!(!m.contains_key(&3));
    m.remove(&1);
    assert!(!m.contains_key(&1));
    assert!(m.contains_key(&2));
    for k in 0..40u64 {
        m.insert(k, k);
    }
    for k in 0..40u64 {
        assert!(m.contains_key(&k));
    }
    for k in (0..40u64).step_by(2) {
        assert_eq!(m.remove(&k), Some(k));
    }
    for k in 0..40u64 {
        assert_eq!(m.contains_key(&k), k % 2 == 1);
    }
}

#[test]
fn eleven_distinct_keys_promote_and_stay_retrievable() {
    let mut m: ShittyMap<u64, u64> = ShittyMap::new();
    for k in 1..=10u64 {
        m.insert(k, 100 + k);
        assert!(matches!(m, ShittyMap::Inline(_)));
    }
    m.insert(11, 111);
    assert!(matches!(m, ShittyMap::Overflow(_)));
    assert_eq!(m.len(), 11);
    for k in 1..=11u64 {
        assert_eq!(m.get(&k), Some(&(100 + k)));
    }
}

#[test]
fn insert_existing_returns_prior_and_remove_absent_is_noop() {
    let mut m: ShittyMap<u64, u64> = ShittyMap::new();
    assert_eq!(m.insert(5, 50), None);
    assert_eq!(m.insert(5, 55), Some(50));
    assert_eq!(m.get(&5), Some(&55));
    assert_eq!(m.len(), 1);
    assert_eq!(m.remove(&9), None);
    assert_eq!(m.len(), 1);
    for k in 0..20u64 {
        m.insert(k, k);
    }
    assert!(matches!(m, ShittyMap::Overflow(_)));
    assert_eq!(m.insert(7, 70), Some(7));
    assert_eq!(m.get(&7), Some(&70));
    assert_eq!(m.remove(&1000), None);
    assert_eq!(m.len(), 20);
}

#[test]
fn get_mut_updates_are_visible() {
    let mut m: ShittyMap<u64, u64> = ShittyMap::new();
    m.insert(3, 30);
    assert_eq!(m.get_mut(&4), None);
    *m.get_mut(&3).unwrap() = 33;
    assert_eq!(m.get(&3), Some(&33));
    for k in 0..15u64 {
        m.insert(k, k);
    }
    *m.get_mut(&14).unwrap() = 140;
    assert_eq!(m.get(&14), Some(&140));
}

#[test]
fn get_or_create_invokes_factory_at_most_once() {
    let mut m: ShittyMap<u64, u64> = ShittyMap::new();
    let mut calls = 0u32;
    let v = m.get_or_create(8, || {
        calls += 1;
        80
    });
    assert_eq!(*v, 80);
    assert_eq!(calls, 1);
    let w = m.get_or_create(8, || panic!("factory must not run for a present key"));
    assert_eq!(*w, 80);
    assert_eq!(m.len(), 1);
}

#[test]
fn get_or_create_result_failure_leaves_container_unchanged() {
    let mut m: ShittyMap<u64, u64> = ShittyMap::new();
    for k in 1..=10u64 {
        m.insert(k, k);
    }
    let r: Result<&mut u64, &'static str> = m.get_or_create_result(99, || Err("factory failed"));
    assert_eq!(r, Err("factory failed"));
    assert_eq!(m.len(), 10);
    assert!(matches!(m, ShittyMap::Inline(_)));
    for k in 1..=10u64 {
        assert_eq!(m.get(&k), Some(&k));
    }
    let ok: Result<&mut u64, &'static str> = m.get_or_create_result(99, || Ok(990));
    assert_eq!(ok, Ok(&mut 990));
    assert_eq!(m.len(), 11);
    assert!(matches!(m, ShittyMap::Overflow(_)));
}

#[test]
fn scenario_promotion_and_ascending_keys() {
    let mut m: ShittyMap<u64, u64> = ShittyMap::new();
    for k in 1..=10u64 {
        m.insert(k, k * 2);
    }
    assert!(matches!(m, ShittyMap::Inline(_)));
    m.insert(11, 22);
    assert!(matches!(m, ShittyMap::Overflow(_)));
    assert_eq!(m.get(&5), Some(&10));
    assert_eq!(m.len(), 11);
    let mut it = m.keys();
    let ks = collect_keys(&mut it);
    assert_eq!(ks, (1..=11u64).collect::<Vec<u64>>());
    assert_eq!(it.next(), None);
}

#[test]
fn keys_walk_inline_in_insertion_order() {
    let mut m: ShittyMap<u64, u64> = ShittyMap::new();
    assert_eq!(m.keys().next(), None);
    m.insert(5, 1);
    m.insert(2, 2);
    m.insert(9, 3);
    let mut it = m.keys();
    let ks = collect_keys(&mut it);
    assert_eq!(ks, vec![5, 2, 9]);
}

#[test]
fn keys_walk_overflow_in_ascending_order() {
    let mut m: ShittyMap<u64, u64> = ShittyMap::new();
    for k in [30u64, 7, 19, 2, 41, 11, 23, 3, 5, 13, 17] {
        m.insert(k, k);
    }
    assert!(matches!(m, ShittyMap::Overflow(_)));
    let mut it = m.keys();
    let ks = collect_keys(&mut it);
    assert_eq!(ks, vec![2, 3, 5, 7, 11, 13, 17, 19, 23, 30, 41]);
}

#[test]
fn default_is_empty_and_inline_cap_is_ten() {
    let m: ShittyMap<u64, u64> = ShittyMap::default();
    assert!(matches!(m, ShittyMap::Empty));
    assert_eq!(m.len(), 0);
    assert_eq!(INLINE_CAP, 10);
}

#[test]
fn set_specialization_tracks_presence() {
    let mut s: ShittySet<u64> = ShittySet::new();
    assert_eq!(s.insert(4, ()), None);
    assert_eq!(s.insert(4, ()), Some(()));
    assert!(s.contains_key(&4));
    assert_eq!(s.remove(&4), Some(()));
    assert!(!s.contains_key(&4));
}

#[test]
fn removal_from_inline_swaps_last_into_gap() {
    let mut m: ShittyMap<u64, u64> = ShittyMap::new();
    for k in [1u64, 2, 3, 4] {
        m.insert(k, k);
    }
    assert_eq!(m.remove(&2), Some(2));
    let mut it = m.keys();
    let ks = collect_keys(&mut it);
    assert_eq!(ks, vec![1, 4, 3]);
    assert_eq!(m.len(), 3);
}

#[test]
fn overflow_never_demotes() {
    let mut m: ShittyMap<u64, u64> = ShittyMap::new();
    for k in 0..=10u64 {
        m.insert(k, k);
    }
    assert!(matches!(m, ShittyMap::Overflow(_)));
    for k in 0..=10u64 {
        m.remove(&k);
    }
    assert_eq!(m.len(), 0);
    assert!(matches!(m, ShittyMap::Overflow(_)));
}

#[test]
fn tuple_keys_work() {
    let mut m: ShittyMap<(u32, u32), u64> = ShittyMap::new();
    m.insert((1, 2), 12);
    m.insert((2, 1), 21);
    assert_eq!(m.get(&(1, 2)), Some(&12));
    assert_eq!(m.get(&(2, 1)), Some(&21));
    assert_eq!(m.get(&(9, 9)), None);
}
