use anvaya::Slab;
use anvaya::Storage;

#[test]
fn storage_backend_round_trip() {
    // The backend contract: insert hands back a key that resolves to the
    // inserted value, and key_of recovers that key from the value.
    let mut s: Slab<u64> = Slab::new();
    let k = Storage::insert(&mut s, 42);
    assert_eq!(Storage::get(&s, k), Some(&42));
    let k2 = Storage::key_of(&s, Storage::get(&s, k).unwrap());
    assert_eq!(k2, k);
}

#[test]
fn slab_keys_are_dense_and_fresh() {
    let mut s: Slab<&'static str> = Slab::new();
    let a = s.insert("one");
    let b = s.insert("two");
    assert_eq!(a, 0);
    assert_eq!(b, 1);
    assert_eq!(s.get(a), Some(&"one"));
    assert_eq!(s.get(b), Some(&"two"));
    assert_eq!(s.get(2), None);
    assert!(s.has(a));
    assert!(!s.has(7));
    assert_eq!(s.len(), 2);
    assert!(!s.is_empty());
}

#[test]
fn slab_get_mut_writes_through() {
    let mut s: Slab<u64> = Slab::with_capacity(4);
    assert!(s.is_empty());
    let k = s.insert(5);
    let v = s.get_mut(k).unwrap();
    *v = 6;
    assert_eq!(s.get(k), Some(&6));
    assert_eq!(s.get_mut(3), None);
}

#[test]
fn slab_iter_yields_pairs_in_key_order() {
    let mut s: Slab<u64> = Slab::new();
    s.insert(10);
    s.insert(20);
    s.insert(30);
    let pairs: Vec<(usize, u64)> = s.iter().iter().map(|(k, v)| (*k, **v)).collect();
    assert_eq!(pairs, vec![(0, 10), (1, 20), (2, 30)]);
}

#[test]
fn slab_key_of_recovers_each_key() {
    let mut s: Slab<u64> = Slab::new();
    s.insert(7);
    s.insert(8);
    s.insert(9);
    assert_eq!(s.key_of(&7), 0);
    assert_eq!(s.key_of(&8), 1);
    assert_eq!(s.key_of(&9), 2);
}

#[test]
fn storage_trait_constructors_start_empty() {
    let s: Slab<u64> = Storage::new();
    assert!(Storage::is_empty(&s));
    assert_eq!(Storage::len(&s), 0);
    let s2: Slab<u64> = Storage::with_capacity(8);
    assert!(Storage::is_empty(&s2));
    let mut s3: Slab<u64> = Storage::new();
    let k = Storage::insert(&mut s3, 1);
    assert!(Storage::has(&s3, k));
    let v = Storage::get_mut(&mut s3, k).unwrap();
    *v = 2;
    assert_eq!(Storage::get(&s3, k), Some(&2));
    let pairs = Storage::iter(&s3);
    assert_eq!(pairs.len(), 1);
    assert_eq!(pairs[0].0, k);
    assert_eq!(*pairs[0].1, 2);
}
