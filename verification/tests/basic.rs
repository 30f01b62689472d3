use skiplist::SkipList;

#[test]
fn new_list_is_empty() {
    let list: SkipList<i64> = SkipList::new();
    assert_eq!(list.len(), 0);
    assert!(list.is_empty());
    assert!(list.get(0).is_none());
}

#[test]
fn with_capacity_list_is_empty() {
    let list: SkipList<i64> = SkipList::with_capacity(100);
    assert_eq!(list.len(), 0);
    assert!(list.is_empty());
    assert!(list.get(0).is_none());
}

#[test]
fn with_capacity_zero_and_one_work() {
    let mut a: SkipList<u32> = SkipList::with_capacity(0);
    a.insert(7, 0);
    assert_eq!(a.get(0), Some(&7));
    let mut b: SkipList<u32> = SkipList::with_capacity(1);
    b.insert(8, 0);
    b.insert(9, 1);
    assert_eq!(b.get(0), Some(&8));
    assert_eq!(b.get(1), Some(&9));
}

#[test]
fn with_capacity_large_works() {
    let mut list: SkipList<usize> = SkipList::with_capacity(1 << 20);
    for i in 0..100 {
        list.insert(i, i);
    }
    for i in 0..100 {
        assert_eq!(list.get(i), Some(&i));
    }
}

#[test]
fn insert_and_len() {
    let mut list = SkipList::new();
    list.insert(0, 0);
    list.insert(5, 1);
    assert_eq!(list.len(), 2);
    assert!(!list.is_empty());
}

#[test]
fn round_trip_increasing_inserts() {
    let mut list = SkipList::new();
    for i in 0..200usize {
        list.insert(i, i);
    }
    assert_eq!(list.len(), 200);
    for i in 0..200usize {
        assert_eq!(list.get(i), Some(&i));
    }
}

#[test]
fn length_tracks_inserts_minus_removes() {
    let mut list = SkipList::new();
    for i in 0..50usize {
        list.insert(i, i);
        assert_eq!(list.len(), i + 1);
    }
    for i in 0..20usize {
        list.remove(0);
        assert_eq!(list.len(), 49 - i);
    }
    assert_eq!(list.len(), 30);
}

#[test]
fn remove_returns_inserted_value() {
    let mut list = SkipList::new();
    for i in 0..10usize {
        list.insert(i * 10, i);
    }
    let before = list.len();
    list.insert(777, 4);
    assert_eq!(list.remove(4), 777);
    assert_eq!(list.len(), before);
    for i in 0..10usize {
        assert_eq!(list.get(i), Some(&(i * 10)));
    }
}

#[test]
fn remove_shifts_later_elements_left() {
    let mut list = SkipList::new();
    for i in 0..10usize {
        list.insert(i, i);
    }
    assert_eq!(list.remove(3), 3);
    for j in 0..3usize {
        assert_eq!(list.get(j), Some(&j));
    }
    for j in 4..10usize {
        assert_eq!(list.get(j - 1), Some(&j));
    }
    assert_eq!(list.len(), 9);
}

#[test]
fn remove_front_and_back() {
    let mut list = SkipList::new();
    for i in 0..6usize {
        list.insert(i, i);
    }
    assert_eq!(list.remove(0), 0);
    assert_eq!(list.remove(4), 5);
    assert_eq!(list.len(), 4);
    for j in 0..4usize {
        assert_eq!(list.get(j), Some(&(j + 1)));
    }
}

#[test]
fn insert_shifts_later_elements_right() {
    let mut list = SkipList::new();
    for i in 0..10usize {
        list.insert(i, i);
    }
    list.insert(999, 4);
    for j in 0..4usize {
        assert_eq!(list.get(j), Some(&j));
    }
    assert_eq!(list.get(4), Some(&999));
    for j in 4..10usize {
        assert_eq!(list.get(j + 1), Some(&j));
    }
}

#[test]
fn get_past_the_end_is_none() {
    let mut list = SkipList::new();
    for i in 0..5usize {
        list.insert(i, i);
    }
    assert!(list.get(5).is_none());
    assert!(list.get(6).is_none());
    assert!(list.get(usize::MAX).is_none());
    let empty: SkipList<u8> = SkipList::new();
    assert!(empty.get(0).is_none());
}

#[test]
fn get_mut_writes_in_place() {
    let mut list = SkipList::new();
    for i in 0..8usize {
        list.insert(i, i);
    }
    match list.get_mut(3) {
        Some(v) => {
            assert_eq!(*v, 3);
            *v = 42;
        },
        None => panic!("index 3 should be present"),
    }
    assert_eq!(list.get(3), Some(&42));
    for j in 0..8usize {
        if j != 3 {
            assert_eq!(list.get(j), Some(&j));
        }
    }
    assert!(list.get_mut(8).is_none());
}

#[test]
fn clear_empties_in_place() {
    let mut list = SkipList::new();
    for i in 0..20usize {
        list.insert(i, i);
    }
    list.clear();
    assert!(list.is_empty());
    assert_eq!(list.len(), 0);
    assert!(list.get(0).is_none());
    list.insert(5, 0);
    assert_eq!(list.get(0), Some(&5));
    assert_eq!(list.len(), 1);
}

#[test]
fn scenario_mixed_inserts_then_remove() {
    let mut list = SkipList::new();
    list.insert(10, 0);
    list.insert(20, 1);
    list.insert(30, 0);
    assert_eq!(list.len(), 3);
    assert_eq!(list.get(0), Some(&30));
    assert_eq!(list.get(1), Some(&10));
    assert_eq!(list.get(2), Some(&20));
    assert_eq!(list.remove(1), 10);
    assert_eq!(list.len(), 2);
    assert_eq!(list.get(0), Some(&30));
    assert_eq!(list.get(1), Some(&20));
    assert!(list.get(2).is_none());
}

#[test]
fn mirrors_a_vec_under_mixed_mutation() {
    let mut list = SkipList::new();
    let mut model: Vec<u64> = Vec::new();
    // A fixed, varied schedule of inserts and removes.
    let mut x: u64 = 12345;
    for step in 0..300u64 {
        x = x.wrapping_mul(6364136223846793005).wrapping_add(1442695040888963407);
        if model.is_empty() || (step % 3 != 0) {
            let at = (x % (model.len() as u64 + 1)) as usize;
            list.insert(step, at);
            model.insert(at, step);
        } else {
            let at = (x % (model.len() as u64)) as usize;
            assert_eq!(list.remove(at), model.remove(at));
        }
        assert_eq!(list.len(), model.len());
    }
    for (i, v) in model.iter().enumerate() {
        assert_eq!(list.get(i), Some(v));
    }
}
