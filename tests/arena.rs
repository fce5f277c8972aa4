use pigeonhole::VecPigeonhole;

fn collect_refs(p: &VecPigeonhole<&'static str>) -> Vec<&'static str> {
    let mut out = Vec::new();
    let mut it = p.iter();
    while let Some(v) = it.next() {
        out.push(*v);
    }
    out
}

#[test]
fn new_arena_is_empty() {
    let p: VecPigeonhole<u32> = VecPigeonhole::new();
    assert!(p.get(0).is_none());
    let mut it = p.iter();
    assert!(it.next().is_none());
}

#[test]
fn default_arena_is_empty() {
    let mut p: VecPigeonhole<u32> = VecPigeonhole::default();
    assert!(p.get(0).is_none());
    assert_eq!(p.remove(0), Err(()));
}

#[test]
fn insert_then_get_round_trip() {
    let mut p = VecPigeonhole::new();
    let a = p.insert(10u64);
    let b = p.insert(20u64);
    assert_eq!(p.get(a), Some(&10));
    assert_eq!(p.get(b), Some(&20));
}

#[test]
fn ids_are_sequential_without_removal() {
    let mut p = VecPigeonhole::new();
    for i in 0..10usize {
        assert_eq!(p.insert(i * 100), i);
    }
    for i in 0..10usize {
        assert_eq!(p.get(i), Some(&(i * 100)));
    }
}

#[test]
fn remove_then_absent() {
    let mut p = VecPigeonhole::new();
    let a = p.insert("a");
    assert_eq!(p.remove(a), Ok("a"));
    assert_eq!(p.get(a), None);
    assert_eq!(p.remove(a), Err(()));
}

#[test]
fn remove_out_of_range_fails() {
    let mut p = VecPigeonhole::new();
    p.insert(1u8);
    assert_eq!(p.remove(1000), Err(()));
    assert_eq!(p.get(1000), None);
    assert_eq!(p.get(0), Some(&1));
}

#[test]
fn remove_vacant_grown_slot_fails() {
    let mut p = VecPigeonhole::new();
    p.insert(1u8);
    p.insert(2u8);
    // slot 2 exists after growth but holds nothing
    assert_eq!(p.get(2), None);
    assert_eq!(p.remove(2), Err(()));
    assert_eq!(p.insert(3u8), 2);
}

#[test]
fn id_reuse_is_lifo() {
    let mut p = VecPigeonhole::new();
    let a = p.insert("A");
    let b = p.insert("B");
    assert_eq!((a, b), (0, 1));
    assert_eq!(p.remove(a), Ok("A"));
    let c = p.insert("C");
    assert_eq!(c, 0);
    assert_eq!(p.get(0), Some(&"C"));
    assert_eq!(p.get(1), Some(&"B"));
}

#[test]
fn most_recently_freed_comes_first() {
    let mut p = VecPigeonhole::new();
    for i in 0..5u32 {
        p.insert(i);
    }
    assert_eq!(p.remove(1), Ok(1));
    assert_eq!(p.remove(3), Ok(3));
    assert_eq!(p.insert(30), 3);
    assert_eq!(p.insert(10), 1);
}

#[test]
fn iteration_skips_vacancies() {
    let mut p = VecPigeonhole::new();
    assert_eq!(p.insert("A"), 0);
    assert_eq!(p.insert("B"), 1);
    assert_eq!(p.insert("C"), 2);
    assert_eq!(p.remove(1), Ok("B"));
    assert_eq!(collect_refs(&p), vec!["A", "C"]);
    // restartable
    assert_eq!(collect_refs(&p), vec!["A", "C"]);
}

#[test]
fn iteration_is_in_id_order() {
    let mut p = VecPigeonhole::new();
    p.insert("A");
    p.insert("B");
    p.insert("C");
    p.remove(0).unwrap();
    p.insert("D");
    assert_eq!(collect_refs(&p), vec!["D", "B", "C"]);
}

#[test]
fn into_iter_yields_values_in_id_order() {
    let mut p = VecPigeonhole::new();
    p.insert(String::from("x"));
    p.insert(String::from("y"));
    p.insert(String::from("z"));
    p.remove(1).unwrap();
    let mut it = p.into_iter();
    let mut out = Vec::new();
    while let Some(v) = it.next() {
        out.push(v);
    }
    assert_eq!(out, vec![String::from("x"), String::from("z")]);
    assert_eq!(it.next(), None);
}

#[test]
fn get_mut_changes_value_in_place() {
    let mut p = VecPigeonhole::new();
    let a = p.insert(5i32);
    *p.get_mut(a).unwrap() += 7;
    assert_eq!(p.get(a), Some(&12));
    assert!(p.get_mut(a + 100).is_none());
    p.remove(a).unwrap();
    assert!(p.get_mut(a).is_none());
}

#[test]
fn reservation_abort_restores_free_list() {
    let mut p = VecPigeonhole::new();
    p.insert(1u32);
    p.insert(2u32);
    p.remove(0).unwrap();
    let r = p.reserve();
    let i = r.id();
    assert_eq!(i, 0);
    r.abort();
    assert_eq!(p.get(i), None);
    assert_eq!(p.insert(9), i);
}

#[test]
fn reservation_abort_on_empty_arena() {
    let mut p = VecPigeonhole::new();
    let r = p.reserve();
    let i = r.id();
    r.abort();
    assert_eq!(p.insert(4u8), i);
    assert_eq!(p.get(i), Some(&4));
}

#[test]
fn reservation_commit_validity() {
    let mut p = VecPigeonhole::new();
    p.insert((0usize, "first"));
    let r = p.reserve();
    let i = r.id();
    r.set((i, "self"));
    assert_eq!(p.get(i), Some(&(i, "self")));
    assert_eq!(p.get(0), Some(&(0, "first")));
    assert_ne!(p.insert((0, "next")), i);
}

#[test]
fn growth_preserves_liveness() {
    let mut p = VecPigeonhole::new();
    // 1 + 2 + 4 = 7 slots after three growth steps: fill them all
    for i in 0..7u32 {
        assert_eq!(p.insert(i), i as usize);
    }
    assert_eq!(p.insert(7), 7);
    for i in 0..8u32 {
        assert_eq!(p.get(i as usize), Some(&i));
    }
}

#[test]
fn churn_keeps_ids_unique_and_count_right() {
    let mut p = VecPigeonhole::new();
    let mut live: Vec<(usize, u64)> = Vec::new();
    let mut seed: u64 = 0x2545F4914F6CDD1D;
    let mut inserts = 0usize;
    let mut removes = 0usize;
    for step in 0..2000u64 {
        seed ^= seed << 13;
        seed ^= seed >> 7;
        seed ^= seed << 17;
        if live.is_empty() || seed % 3 != 0 {
            let id = p.insert(step);
            assert!(live.iter().all(|(l, _)| *l != id));
            live.push((id, step));
            inserts += 1;
        } else {
            let k = (seed as usize / 3) % live.len();
            let (id, v) = live.swap_remove(k);
            assert_eq!(p.remove(id), Ok(v));
            assert_eq!(p.remove(id), Err(()));
            removes += 1;
        }
        let mut count = 0usize;
        let mut it = p.iter();
        while it.next().is_some() {
            count += 1;
        }
        assert_eq!(count, inserts - removes);
    }
    for (id, v) in &live {
        assert_eq!(p.get(*id), Some(v));
    }
}
