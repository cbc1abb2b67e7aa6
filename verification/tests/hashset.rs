use mcu_runtime::flash::Lock;
use mcu_runtime::hashset::{hash, same_words, CustomHasher, HashSet};

fn key(s: &str) -> Vec<u8> {
    s.as_bytes().to_vec()
}

fn testset() -> HashSet<Vec<u8>> {
    let mut set: HashSet<Vec<u8>> = HashSet::new(32);
    assert!(set.insert(key("a")));
    assert!(set.insert(key("b")));
    assert!(set.insert(key("c")));
    assert!(set.insert(key("d")));
    set
}

#[test]
fn custom_hasher_should_not_collide_too_much() {
    let zero: &[u8] = &[0];
    let hello: &[u8] = b"hello world";
    let answer: Vec<u8> = vec![42];
    assert!(
        !(hash(zero) == hash(hello) && hash(zero) == hash(&answer)),
        "Hashes of three pseudo-random values should not collide!"
    );
}

#[test]
fn custom_hasher_mixes_each_byte() {
    let mut h = CustomHasher { state: 0 };
    assert_eq!(h.finish(), 0);
    h.write(&[1]);
    assert_eq!(h.state, 1);
    h.write(&[2]);
    assert_eq!(h.state, 103);
    h.write_usize(5);
    assert_eq!(h.state, 103 * 101 + 5);
    assert_eq!(h.finish(), 0);
    let mut big = CustomHasher { state: usize::MAX };
    big.write_usize(7);
    assert_eq!(big.state, usize::MAX.wrapping_mul(101).wrapping_add(7));
}

#[test]
fn hash_is_that_of_the_bytes() {
    let bytes: &[u8] = &[1, 2];
    let mut h = CustomHasher { state: 0 };
    h.write(bytes);
    assert_eq!(hash(bytes), h.state);
    assert_eq!(hash(bytes), 103);
    assert_eq!(hash(bytes), hash(&vec![1u8, 2u8]));
}

#[test]
fn same_words_compares_contents() {
    let a: &[u8] = b"abc";
    assert!(same_words(a, &b"abc".to_vec()));
    assert!(!same_words(a, &b"abd".to_vec()));
    assert!(!same_words(a, &b"ab".to_vec()));
}

#[test]
fn hash_set_should_not_return_a_value_when_not_existing() {
    let set = testset();
    assert_eq!(set.get::<[u8]>(b"test"), None);
}

#[test]
fn hash_set_should_correctly_insert() {
    let mut set = testset();
    assert_eq!(set.get::<[u8]>(b"hello"), None);
    assert_eq!(set.get::<[u8]>(b"world"), None);
    assert!(set.insert(key("hello")));
    assert_eq!(set.get::<[u8]>(b"hello"), Some(&key("hello")));
    assert_eq!(set.get::<[u8]>(b"world"), None);
    assert!(!set.insert(key("hello")));
    assert_eq!(set.get::<[u8]>(b"hello"), Some(&key("hello")));
    assert_eq!(set.get::<[u8]>(b"world"), None);
    assert_eq!(set.len(), 5);
}

#[test]
fn hash_set_should_correctly_remove_items() {
    let mut set = testset();
    let a = key("a");
    assert_eq!(set.get::<[u8]>(b"a"), Some(&a));
    assert!(set.remove(&a));
    assert_eq!(set.get::<[u8]>(b"a"), None);
    assert!(!set.remove(&a));
    assert_eq!(set.get::<[u8]>(b"a"), None);
    assert_eq!(set.len(), 3);
}

#[test]
fn hash_set_should_correctly_take_items() {
    let mut set = testset();
    assert_eq!(set.get::<[u8]>(b"a"), Some(&key("a")));
    assert_eq!(set.take::<[u8]>(b"a"), Some(key("a")));
    assert_eq!(set.get::<[u8]>(b"a"), None);
    assert_eq!(set.take::<[u8]>(b"a"), None);
    assert_eq!(set.get::<[u8]>(b"a"), None);
}

#[test]
fn hash_set_should_correctly_iterate() {
    let set = testset();
    let mut seen = [false; 4];
    let mut it = set.iter();
    while let Some(x) = it.next() {
        let i = match x.as_slice() {
            b"a" => 0,
            b"b" => 1,
            b"c" => 2,
            b"d" => 3,
            _ => panic!("unexpected key"),
        };
        assert!(!seen[i]);
        seen[i] = true;
    }
    assert_eq!(seen, [true; 4]);
}

#[test]
fn hash_set_keeps_colliding_items_apart() {
    // One bucket: everything collides
    let mut set: HashSet<Vec<u8>> = HashSet::new(1);
    for i in 0..20u8 {
        assert!(set.insert(vec![i]));
    }
    assert_eq!(set.len(), 20);
    for i in 0..20u8 {
        assert_eq!(set.get::<[u8]>(&[i]), Some(&vec![i]));
    }
    assert_eq!(set.take::<[u8]>(&[7]), Some(vec![7]));
    assert_eq!(set.get::<[u8]>(&[7]), None);
    assert_eq!(set.get::<[u8]>(&[19]), Some(&vec![19]));
    assert_eq!(set.len(), 19);
}

#[test]
fn hash_set_holds_locks() {
    let mut set: HashSet<Lock> = HashSet::new(16);
    let l = Lock { write: true, start: 3, length: 4 };
    assert!(set.insert(l));
    assert!(!set.insert(l));
    assert!(set.get(&Lock { write: false, start: 3, length: 4 }).is_none());
    assert!(set.remove(&l));
    assert_eq!(set.len(), 0);
}
