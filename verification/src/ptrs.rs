//! Pointer-strategy scaffolding: picking shared ownership (`Rc` or `Arc`)
//! for a stored value as a packaging choice, orthogonal to the trie itself.
use vstd::prelude::*;

use std::rc::Rc;
use std::sync::Arc;

verus! {

/// A strategy for placing an owned value behind a pointer type.
pub trait Ptr<T> {
    type PT;

    /// The value that a built pointer holds.
    spec fn pt_value(p: Self::PT) -> T;

    fn build(val: T) -> (p: Self::PT)
        ensures
            Self::pt_value(p) == val,
    ;
}

/// The strategy that builds atomically reference-counted pointers.
#[derive(Debug)]
pub struct ArcP;

/// The strategy that builds plain reference-counted pointers.
#[derive(Debug)]
pub struct RcP;

impl<T> Ptr<T> for ArcP {
    type PT = Arc<T>;

    open spec fn pt_value(p: Arc<T>) -> T {
        *p
    }

    fn build(val: T) -> (p: Arc<T>) {
        Arc::new(val)
    }
}

impl<T> Ptr<T> for RcP {
    type PT = Rc<T>;

    open spec fn pt_value(p: Rc<T>) -> T {
        *p
    }

    fn build(val: T) -> (p: Rc<T>) {
        Rc::new(val)
    }
}

/// A value held behind whatever pointer type the strategy P picks.
pub struct Thing<P: Ptr<T>, T> {
    pub val: P::PT,
}

impl<P: Ptr<T>, T> Thing<P, T> {
    /// The value this holds, seen through the strategy's pointer.
    pub open spec fn value(self) -> T {
        P::pt_value(self.val)
    }

    pub fn new(val: T) -> (t: Self)
        ensures
            t.value() == val,
    {
        Thing { val: P::build(val) }
    }
}

} // verus!
