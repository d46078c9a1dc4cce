use slotgraph::arena::Arena;
use slotgraph::handle::Handle;
use slotgraph::lists::position;
use slotgraph::slots::SLOT_LIMIT;

#[test]
fn arena_insert_get_remove() {
    let mut a: Arena<&str> = Arena::new();
    assert_eq!(a.len(), 0);
    let x = a.insert("x");
    let y = a.insert("y");
    assert_ne!(x, y);
    assert!(a.contains(x));
    assert_eq!(a.get(x), Some(&"x"));
    assert_eq!(a.get(y), Some(&"y"));
    assert_eq!(a.len(), 2);
    assert_eq!(a.remove(x), Some("x"));
    assert!(!a.contains(x));
    assert_eq!(a.get(x), None);
    assert_eq!(a.remove(x), None);
    assert_eq!(a.get(y), Some(&"y"));
    assert_eq!(a.len(), 1);
}

#[test]
fn arena_handle_is_fresh_after_slot_reuse() {
    let mut a: Arena<u32> = Arena::new();
    let old = a.insert(1);
    assert_eq!(a.remove(old), Some(1));
    let new = a.insert(2);
    assert_ne!(old, new);
    assert_eq!(a.get(old), None);
    assert_eq!(a.remove(old), None);
    assert!(a.get_mut(old).is_none());
    assert_eq!(a.get(new), Some(&2));
    assert_eq!(a.len(), 1);
}

#[test]
fn arena_removal_moves_last_payload_into_gap() {
    let mut a: Arena<u32> = Arena::new();
    let k0 = a.insert(0);
    let k1 = a.insert(1);
    let k2 = a.insert(2);
    let k3 = a.insert(3);
    assert_eq!(a.remove(k0), Some(0));
    assert_eq!(a.get(k3), Some(&3));
    assert_eq!(a.get(k1), Some(&1));
    assert_eq!(a.get(k2), Some(&2));
    assert_eq!(a.remove(k1), Some(1));
    assert_eq!(a.get(k2), Some(&2));
    assert_eq!(a.get(k3), Some(&3));
    assert_eq!(a.remove(k3), Some(3));
    assert_eq!(a.remove(k2), Some(2));
    assert_eq!(a.len(), 0);
    assert!(a.iter().is_empty());
}

#[test]
fn arena_get_mut_and_iter_mut() {
    let mut a: Arena<u32> = Arena::new();
    let x = a.insert(1);
    let y = a.insert(2);
    *a.get_mut(x).unwrap() = 5;
    assert_eq!(a.get(x), Some(&5));
    for (h, v) in a.iter_mut() {
        if h == y {
            *v = 9;
        }
    }
    assert_eq!(a.get(x), Some(&5));
    assert_eq!(a.get(y), Some(&9));
}

#[test]
fn arena_iter_and_into_entries_list_each_entry_once() {
    let mut a: Arena<u32> = Arena::new();
    let x = a.insert(1);
    let y = a.insert(2);
    let z = a.insert(3);
    assert_eq!(a.remove(y), Some(2));
    let mut seen: Vec<(Handle, u32)> = a.iter().into_iter().map(|(h, v)| (h, *v)).collect();
    seen.sort();
    let mut expected = vec![(x, 1), (z, 3)];
    expected.sort();
    assert_eq!(seen, expected);
    let mut all = a.into_entries();
    all.sort();
    assert_eq!(all, expected);
}

#[test]
fn null_handle() {
    let mut a: Arena<u32> = Arena::new();
    let x = a.insert(1);
    assert!(Handle::null().is_null());
    assert!(Handle::default().is_null());
    assert_eq!(Handle::null(), Handle::default());
    assert!(!x.is_null());
    assert!(!a.contains(Handle::null()));
    assert_eq!(a.remove(Handle::null()), None);
}

#[test]
fn slot_limit_is_two_below_the_index_range() {
    assert_eq!(SLOT_LIMIT as u64, (1u64 << 32) - 2);
}

#[test]
fn position_finds_first_place() {
    let mut a: Arena<()> = Arena::new();
    let x = a.insert(());
    let y = a.insert(());
    let z = a.insert(());
    let list = vec![x, y, x, y];
    assert_eq!(position(&list, x), Some(0));
    assert_eq!(position(&list, y), Some(1));
    assert_eq!(position(&list, z), None);
    assert_eq!(position(&Vec::new(), x), None);
}

#[test]
fn handle_words_round_trip() {
    let mut a: Arena<u32> = Arena::new();
    let x = a.insert(1);
    let y = a.insert(2);
    assert_eq!(Handle::from_bits(x.to_bits()), Some(x));
    assert_eq!(Handle::from_bits(y.to_bits()), Some(y));
    assert_ne!(x.to_bits(), y.to_bits());
    assert_eq!(Handle::null().to_bits(), 0x1_FFFF_FFFF);
    assert_eq!(Handle::from_bits(0x1_FFFF_FFFF), Some(Handle::null()));
}

#[test]
fn words_with_even_generation_carry_no_handle() {
    assert_eq!(Handle::from_bits(0), None);
    assert_eq!(Handle::from_bits(1), None);
    assert_eq!(Handle::from_bits(0x2_0000_0001), None);
    assert_eq!(Handle::from_bits(0xFFFF_FFFE_0000_0007), None);
    assert!(Handle::from_bits(0x1_0000_0001).is_some());
    assert!(Handle::from_bits(0xFFFF_FFFF_0000_0007).is_some());
}

#[test]
fn first_handle_is_slot_one_generation_one() {
    let mut a: Arena<u32> = Arena::new();
    let x = a.insert(1);
    assert_eq!(x.to_bits(), 0x1_0000_0001);
    assert_eq!(a.remove(x), Some(1));
    let y = a.insert(2);
    assert_eq!(y.to_bits(), 0x3_0000_0001);
}
