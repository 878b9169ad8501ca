use dungers::{GenVec, Handle};

#[test]
fn test_insert_and_remove() {
    let mut gv = GenVec::default();
    let handle = gv.insert("hello");

    assert_eq!(gv.len(), 1);

    let res = gv.remove(handle);

    assert_eq!(res, "hello");
    assert_eq!(gv.len(), 1);
    // the freed slot is the one the next insertion takes
    let again = gv.insert("again");
    assert_eq!(gv.len(), 1);
    assert!(again == gv.handle_from_index(0));
}

#[test]
fn test_take_and_put_back() {
    let mut gv = GenVec::default();
    let handle = gv.insert(42u8);

    let (ticket, value) = gv.take(handle);
    // the value comes back as the type that went in
    let value: u8 = value;
    assert_eq!(value, 42);

    gv.put_back(ticket, value);
    assert_eq!(gv.get(handle), &42);
}

#[test]
fn stale_handles_reach_nothing() {
    let mut gv = GenVec::with_capacity(4);
    let a = gv.insert(String::from("a"));
    let b = gv.insert(String::from("b"));
    assert_eq!(gv.try_get(a).map(|s| s.as_str()), Some("a"));
    assert_eq!(gv.remove(a), "a");
    assert_eq!(gv.try_get(a), None);
    let c = gv.insert(String::from("c"));
    // the slot of `a` is reused under a new generation
    assert!(c == gv.handle_from_index(0));
    assert!(c != a);
    assert_eq!(gv.try_get(a), None);
    assert_eq!(gv.get(c), "c");
    assert_eq!(gv.get(b), "b");
    assert_eq!(gv.len(), 2);
}

#[test]
fn take_hides_the_value_until_put_back() {
    let mut gv = GenVec::default();
    let h = gv.insert(7u32);
    let (ticket, v) = gv.try_take(h).unwrap();
    assert_eq!(v, 7);
    assert_eq!(gv.try_get(h), None);
    assert!(gv.try_take(h).is_none());
    gv.put_back(ticket, v + 1);
    assert_eq!(gv.try_get(h), Some(&8));
}

#[test]
fn insert_with_sees_its_own_handle() {
    let mut gv: GenVec<bool> = GenVec::default();
    let mut seen = Vec::new();
    let h = gv.insert_with(|own| {
        seen.push(own);
        own.is_dangling()
    });
    assert_eq!(gv.get(h), &false);
    assert!(seen.len() == 1 && seen[0] == h);
}

#[test]
fn iteration_visits_occupied_slots_in_order() {
    let mut gv = GenVec::default();
    let a = gv.insert(1);
    let b = gv.insert(2);
    let c = gv.insert(3);
    gv.remove(b);
    let pairs = gv.iter();
    assert_eq!(pairs.len(), 2);
    assert!(pairs[0].0 == a && *pairs[0].1 == 1);
    assert!(pairs[1].0 == c && *pairs[1].1 == 3);
    assert_eq!(gv.iter_values(), vec![&1, &3]);
}

#[test]
fn dangling_handles() {
    let gv: GenVec<u8> = GenVec::default();
    let d = Handle::<u8>::dangling();
    assert!(d.is_dangling());
    assert!(Handle::<u8>::default().is_dangling());
    assert!(gv.handle_from_index(3).is_dangling());
    assert_eq!(gv.try_get(d), None);
    let mut gv = gv;
    let h = gv.insert(5);
    assert!(!h.is_dangling());
}

#[test]
fn get_mut_changes_only_that_value() {
    let mut gv = GenVec::default();
    let a = gv.insert(10);
    let b = gv.insert(20);
    *gv.get_mut(a) += 5;
    if let Some(v) = gv.try_get_mut(b) {
        *v *= 2;
    }
    assert_eq!(gv.get(a), &15);
    assert_eq!(gv.get(b), &40);
    gv.remove(a);
    assert!(gv.try_get_mut(a).is_none());
}

#[test]
fn mutable_iteration_writes_back() {
    let mut gv = GenVec::default();
    let a = gv.insert(1);
    let b = gv.insert(2);
    let c = gv.insert(3);
    gv.remove(b);
    for (h, v) in gv.iter_mut() {
        assert!(h == a || h == c);
        *v *= 10;
    }
    for v in gv.iter_values_mut() {
        *v += 1;
    }
    assert_eq!(gv.get(a), &11);
    assert_eq!(gv.get(c), &31);
    assert_eq!(gv.try_get(b), None);
    assert_eq!(gv.iter_values(), vec![&11, &31]);
}
