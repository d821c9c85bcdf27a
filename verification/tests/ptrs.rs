use triehard::ptrs::{ArcP, RcP, Thing};

#[test]
fn should_compile() {
    let a: Thing<ArcP, u64> = Thing::new(1);
    let b: Thing<RcP, u64> = Thing::new(2);
    println!("a:{:?}", a.val);
    println!("b:{:?}", b.val);
    assert_eq!(*a.val, 1);
    assert_eq!(*b.val, 2);
}
