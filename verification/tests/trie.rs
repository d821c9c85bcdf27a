use std::collections::hash_map::DefaultHasher;
use std::collections::{BTreeMap, BTreeSet};
use std::hash::{Hash, Hasher};
use triehard::{Dict, Trie};

fn hash<T: Hash>(val: T) -> u64 {
    let mut h = DefaultHasher::new();
    val.hash(&mut h);
    h.finish()
}

fn check_lookup_matches_reference(insert: Vec<(u64, u64)>, probe: u64) {
    let mut d: Trie<u64> = Trie::empty();
    let mut m = BTreeMap::new();
    for (k, v) in insert {
        d.insert(k, v);
        m.insert(k, v);
    }
    println!("m: {:?}; d: {:?}", m, d);
    let mres = m.get(&probe);
    let res = d.lookup(&probe);
    println!("eq? {:?}", res == mres);
    assert_eq!(res, mres);
}

#[test]
fn it_works() {
    check_lookup_matches_reference(vec![], 0);
    check_lookup_matches_reference(vec![(5, 50), (9, 90), (1, 10)], 5);
    check_lookup_matches_reference(vec![(5, 50), (9, 90), (1, 10)], 9);
    check_lookup_matches_reference(vec![(5, 50), (9, 90), (1, 10)], 7);
    check_lookup_matches_reference(vec![(3, 1), (3, 2)], 3);
    check_lookup_matches_reference(vec![(0, 1), (u64::MAX, 2), (1 << 63, 3)], u64::MAX);
    check_lookup_matches_reference(vec![(0, 1), (u64::MAX, 2), (1 << 63, 3)], 1 << 62);
    check_lookup_matches_reference(
        vec![(8, 1), (9, 2), (12, 3), (13, 4), (1 << 40, 5), (0, 6)],
        12,
    );
}

fn check_removals_match_reference(insert: Vec<(u64, u64)>, remove: Vec<u64>, probe: u64) {
    println!("{:?}", (&insert, &remove, &probe));
    let mut d: Trie<u64> = Trie::empty();
    let mut m = BTreeMap::new();
    for (k, v) in insert {
        d.insert(k, v);
        m.insert(k, v);
    }
    println!("m: {:?}; d: {:?}", m, d);
    let mut ours = Vec::new();
    let mut theirs = Vec::new();
    for k in remove {
        ours.push(d.remove(&k));
        theirs.push(m.remove(&k));
    }
    let mres = m.get(&probe);
    let res = d.lookup(&probe);
    println!("eq? {:?}", res == mres);
    println!("removed {:?} == {:?} -> {:?}", ours, theirs, ours == theirs);
    assert_eq!((res, ours), (mres, theirs));
}

#[test]
fn should_add_remove() {
    check_removals_match_reference(vec![], vec![0, 1], 0);
    check_removals_match_reference(vec![(5, 50), (9, 90), (1, 10)], vec![9], 9);
    check_removals_match_reference(vec![(5, 50), (9, 90), (1, 10)], vec![9, 9, 7], 5);
    check_removals_match_reference(
        vec![(0, 1), (u64::MAX, 2), (1 << 63, 3), (6, 4), (7, 5)],
        vec![6, 0, 42, u64::MAX],
        7,
    );
    check_removals_match_reference(
        vec![(8, 1), (9, 2), (12, 3), (13, 4)],
        vec![8, 9, 12, 13],
        13,
    );
}

#[test]
fn canonical_under_permutation() {
    let insert: Vec<u64> = vec![5, 9, 1, 7, 0, 1 << 40, 1 << 63, 42];
    let permuted: Vec<u64> = vec![42, 1 << 63, 0, 9, 1 << 40, 7, 1, 5];
    println!("insert: {:?}; permuted: {:?}", insert, permuted);
    let mut a: Trie<u64> = Trie::empty();
    for k in insert {
        a.insert(k, k);
    }
    let mut b: Trie<u64> = Trie::empty();
    for k in permuted {
        b.insert(k, k);
    }
    println!("orig-order: {:?}; permuted-order: {:?}", a, b);
    println!("eq? {:?}", a == b);
    assert_eq!(a, b);
    assert_eq!(hash(&a), hash(&b));
}

#[test]
fn canonical_under_removal() {
    let insert: Vec<u64> = vec![1, 2, 3, 42, 99, 1 << 33, u64::MAX, 7];
    let removals: BTreeSet<u64> = [2u64, 42, u64::MAX, 100].into_iter().collect();
    let mut a: Trie<u64> = Trie::empty();
    let mut b: Trie<u64> = Trie::empty();
    for k in insert.iter().filter(|v| !removals.contains(v)) {
        a.insert(*k, *k);
    }
    println!("no-add: {:?}", a);
    for k in insert.iter() {
        b.insert(*k, *k);
    }
    println!("all-added: {:?}", b);
    for r in removals {
        b.remove(&r);
    }
    println!("all-removed: {:?}", b);
    println!("no-add: {:?}; add+remove: {:?}", a, b);
    println!("eq? {:?}", a == b);
    assert_eq!(a, b);
    assert_eq!(hash(&a), hash(&b));
}

#[test]
fn example_scenario() {
    let mut d: Trie<String> = Trie::empty();
    d.insert(5, String::from("a"));
    d.insert(9, String::from("b"));
    d.insert(1, String::from("c"));
    assert_eq!(d.lookup(&5), Some(&String::from("a")));
    assert_eq!(d.lookup(&9), Some(&String::from("b")));
    assert_eq!(d.lookup(&7), None);
    assert_eq!(d.remove(&9), Some(String::from("b")));
    assert_eq!(d.lookup(&9), None);
    assert_eq!(d.lookup(&5), Some(&String::from("a")));
    assert_eq!(d.lookup(&1), Some(&String::from("c")));
    let mut two: Trie<String> = Trie::empty();
    two.insert(5, String::from("a"));
    two.insert(1, String::from("c"));
    assert_eq!(d, two);
}

#[test]
fn overwrite_keeps_shape() {
    let mut d: Trie<u64> = Trie::empty();
    d.insert(5, 1);
    d.insert(9, 2);
    d.insert(5, 3);
    let mut once: Trie<u64> = Trie::empty();
    once.insert(5, 3);
    once.insert(9, 2);
    assert_eq!(d, once);
    assert_eq!(d.lookup(&5), Some(&3));
}

fn depth<T>(t: &Trie<T>) -> usize {
    match t {
        Trie::Empty => 0,
        Trie::Lf(_, _) => 0,
        Trie::Br(_, _, l, r) => 1 + depth(l).max(depth(r)),
    }
}

#[test]
fn depth_stays_bounded() {
    let mut d: Trie<u64> = Trie::empty();
    for k in 0..512u64 {
        d.insert(k, k);
        d.insert(k.wrapping_mul(0x9e37_79b9_7f4a_7c15), k);
        d.insert(!k, k);
    }
    assert!(depth(&d) <= 64);
}

#[test]
fn empty_trie_finds_nothing() {
    let mut d: Trie<u64> = Trie::empty();
    assert_eq!(d.lookup(&0), None);
    assert_eq!(d.lookup(&u64::MAX), None);
    assert_eq!(d.remove(&0), None);
    assert_eq!(d, Trie::empty());
}

#[test]
fn keys_differing_at_top_bit() {
    let mut d: Trie<&str> = Trie::empty();
    d.insert(0, "low");
    d.insert(1 << 63, "high");
    assert_eq!(d.lookup(&0), Some(&"low"));
    assert_eq!(d.lookup(&(1 << 63)), Some(&"high"));
    assert_eq!(d.remove(&(1 << 63)), Some("high"));
    assert_eq!(d.lookup(&(1 << 63)), None);
    let mut single: Trie<&str> = Trie::empty();
    single.insert(0, "low");
    assert_eq!(d, single);
}
