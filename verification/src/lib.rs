//! A PATRICIA (crit-bit) trie keyed by 64-bit integers.
//!
//! The trie implements an ordered associative map with point insert, lookup
//! and remove. Internal nodes exist only at bit positions where stored keys
//! actually differ, and a branch never keeps an empty child, so the shape of
//! the tree is canonical: it depends only on the set of keys it holds, not on
//! the order of insertions and removals that produced it.
//!
//! Children are owned exclusively by their parent branch, and the mutating
//! operations rebuild the nodes along the path they touch.
use vstd::prelude::*;

pub mod bits;
pub mod laws;
pub mod ptrs;

use crate::bits::{lemma_agree_below, lemma_low_bits_idempotent, low_bits, single_bit};

verus! {

/// A point-access associative map from keys to values of type T.
pub trait Dict<T>: Sized {
    type K;

    /// The well-formedness invariant of the structure.
    spec fn inv(&self) -> bool;

    /// The mathematical map that the structure holds.
    spec fn model(&self) -> Map<Self::K, T>;

    fn empty() -> (d: Self)
        ensures
            d.inv(),
            d.model() == Map::<Self::K, T>::empty(),
    ;

    fn insert(&mut self, key: Self::K, val: T)
        requires
            old(self).inv(),
        ensures
            final(self).inv(),
            final(self).model() == old(self).model().insert(key, val),
    ;

    fn remove(&mut self, key: &Self::K) -> (removed: Option<T>)
        requires
            old(self).inv(),
        ensures
            final(self).inv(),
            final(self).model() == old(self).model().remove(*key),
            removed matches Some(v) ==> old(self).model().dom().contains(*key)
                && old(self).model()[*key] == v,
            removed is None ==> !old(self).model().dom().contains(*key),
    ;

    fn lookup(&self, key: &Self::K) -> (found: Option<&T>)
        requires
            self.inv(),
        ensures
            found matches Some(v) ==> self.model().dom().contains(*key)
                && self.model()[*key] == *v,
            found is None ==> !self.model().dom().contains(*key),
    ;
}

/// A crit-bit trie over u64 keys.
///
/// `Lf(key, value)` holds one entry. `Br(prefix, mask, left, right)` covers
/// the keys that agree on the bits below `mask` (those bits are `prefix`);
/// keys with a zero at `mask`'s bit live in `left`, the others in `right`.
#[derive(Debug, PartialOrd, Ord, PartialEq, Eq, Hash)]
pub enum Trie<T> {
    Empty,
    Lf(u64, T),
    Br(u64, u64, Box<Trie<T>>, Box<Trie<T>>),
}

impl<T> Trie<T> {
    /// The map of key/value entries held by this subtree.
    pub open spec fn as_map(self) -> Map<u64, T>
        decreases self,
    {
        match self {
            Trie::Empty => Map::empty(),
            Trie::Lf(k, v) => Map::empty().insert(k, v),
            Trie::Br(_, _, l, r) => l.as_map().union_prefer_right(r.as_map()),
        }
    }

    /// The representative key of a subtree: the key of a leaf, or the shared
    /// prefix bits of a branch. Used to compute where two subtrees diverge.
    pub open spec fn repr(self) -> u64 {
        match self {
            Trie::Empty => 0,
            Trie::Lf(k, _) => k,
            Trie::Br(p, _, _, _) => p,
        }
    }

    /// The keys of l and r sit correctly under a branch with prefix p and
    /// mask m: all agree on the bits below m, and m's bit routes them.
    pub open spec fn split_ok(p: u64, m: u64, l: Trie<T>, r: Trie<T>) -> bool {
        &&& single_bit(m)
        &&& (forall|k: u64| #[trigger] l.as_map().dom().contains(k)
            ==> low_bits(k, m) == p && k & m == 0)
        &&& (forall|k: u64| #[trigger] r.as_map().dom().contains(k)
            ==> low_bits(k, m) == p && k & m != 0)
    }

    /// Well-formedness: every branch splits its keys at a single bit, all its
    /// keys agree below that bit, and neither child is empty. These
    /// invariants make the shape of the tree a function of its key set.
    pub open spec fn wf(self) -> bool
        decreases self,
    {
        match self {
            Trie::Empty => true,
            Trie::Lf(_, _) => true,
            Trie::Br(p, m, l, r) => {
                &&& l.wf()
                &&& r.wf()
                &&& Self::split_ok(p, m, *l, *r)
                &&& !(*l is Empty)
                &&& !(*r is Empty)
            },
        }
    }

    /// The given key lies outside this subtree's covered key space, so the
    /// two diverge somewhere the subtree's representative key can witness.
    pub open spec fn diverges_from(self, x: u64) -> bool {
        match self {
            Trie::Empty => false,
            Trie::Lf(k, _) => k != x,
            Trie::Br(p, m, _, _) => low_bits(x, m) != p,
        }
    }

    /// A non-empty well-formed trie holds at least one key, and a branch's
    /// prefix consists of bits below the branch's own mask.
    pub proof fn lemma_occupied(self)
        requires
            self.wf(),
            !(self is Empty),
        ensures
            exists|k: u64| self.as_map().dom().contains(k),
            self matches Trie::Br(p, m, _, _) ==> low_bits(p, m) == p,
        decreases self,
    {
        match self {
            Trie::Lf(k, _) => {
                assert(self.as_map().dom().contains(k));
            },
            Trie::Br(p, m, l, r) => {
                l.lemma_occupied();
                let k0 = choose|k: u64| l.as_map().dom().contains(k);
                assert(self.as_map().dom().contains(k0));
                lemma_low_bits_idempotent(k0, m);
            },
            Trie::Empty => {},
        }
    }

    /// Tests whether key has a zero at the bit selected by msk: whether it
    /// belongs on the left of a branch with that mask.
    pub fn zerobit(key: u64, msk: u64) -> (b: bool)
        ensures
            b == (key & msk == 0),
    {
        key & msk == 0
    }

    /// The bits of key strictly below the single set bit of msk.
    pub fn mask(key: u64, msk: u64) -> (r: u64)
        requires
            single_bit(msk),
        ensures
            r == low_bits(key, msk),
    {
        let mask_low = msk - 1;
        key & mask_low
    }

    /// The lowest bit at which the two distinct keys a and b differ, as a
    /// single-bit mask. Both keys agree on all bits below the result.
    pub fn branch_bit(a: u64, b: u64) -> (r: u64)
        requires
            a != b,
        ensures
            single_bit(r),
            low_bits(a, r) == low_bits(b, r),
            a & r != b & r,
    {
        let diff = a ^ b;
        assert(diff != 0) by (bit_vector)
            requires
                diff == a ^ b,
                a != b,
        ;
        assert(!diff < 0xffff_ffff_ffff_ffffu64) by (bit_vector)
            requires
                diff != 0,
        ;
        let nd = !diff;
        let bb = diff & (nd + 1);
        assert(single_bit(bb) && low_bits(a, bb) == low_bits(b, bb) && a & bb != b & bb)
            by (bit_vector)
            requires
                diff == a ^ b,
                diff != 0,
                nd == !diff,
                bb == diff & ((nd + 1) as u64),
        ;
        bb
    }

    /// The representative key of this subtree (see `repr`).
    pub fn prefix(&self) -> (r: u64)
        ensures
            r == self.repr(),
    {
        match self {
            Trie::Empty => 0,
            Trie::Lf(k, _) => *k,
            Trie::Br(p, _, _, _) => *p,
        }
    }

    /// Tests whether k agrees with the prefix p on the bits below the mask m:
    /// whether k belongs to the key space covered by a branch (p, m).
    pub fn match_prefix(k: u64, p: u64, m: u64) -> (b: bool)
        requires
            single_bit(m),
        ensures
            b == (low_bits(k, m) == p),
    {
        Self::mask(k, m) == p
    }

    /// In a well-formed subtree that diverges from x, every stored key agrees
    /// with the subtree's representative on all bits up to and including any
    /// single bit at which the representative still agrees with x.
    proof fn lemma_keys_near_repr(self, x: u64, m: u64)
        requires
            self.wf(),
            !(self is Empty),
            self.diverges_from(x),
            single_bit(m),
            low_bits(self.repr(), m) == low_bits(x, m),
        ensures
            forall|k: u64| self.as_map().dom().contains(k)
                ==> low_bits(k, m) == low_bits(self.repr(), m) && k & m == self.repr() & m,
    {
        match self {
            Trie::Lf(k0, _) => {
                assert forall|k: u64| self.as_map().dom().contains(k)
                    implies low_bits(k, m) == low_bits(self.repr(), m)
                        && k & m == self.repr() & m by {
                    assert(k == k0);
                }
            },
            Trie::Br(p, m0, l, r) => {
                self.lemma_occupied();
                if m >= m0 {
                    lemma_agree_below(p, x, m0, m);
                    assert(false);
                }
                assert forall|k: u64| self.as_map().dom().contains(k)
                    implies low_bits(k, m) == low_bits(self.repr(), m)
                        && k & m == self.repr() & m by {
                    assert(l.as_map().dom().contains(k) || r.as_map().dom().contains(k));
                    lemma_agree_below(k, p, m, m0);
                }
            },
            Trie::Empty => {},
        }
    }

    /// Smart branch constructor: collapses away empty children so that no
    /// branch ever keeps one, which is what makes the tree shape canonical.
    pub fn br(prefix: u64, mask: u64, left: Box<Trie<T>>, right: Box<Trie<T>>) -> (t: Self)
        requires
            left.wf(),
            right.wf(),
            Self::split_ok(prefix, mask, *left, *right),
        ensures
            t.wf(),
            t.as_map() == left.as_map().union_prefer_right(right.as_map()),
    {
        match (&*left, &*right) {
            (Trie::Empty, Trie::Empty) => Trie::Empty,
            (Trie::Empty, _) => *right,
            (_, Trie::Empty) => *left,
            (_, _) => Trie::Br(prefix, mask, left, right),
        }
    }

    /// Rebuilds this node canonically: a branch left with an empty child
    /// after a removal is replaced by its other child.
    pub fn canonify(self) -> (t: Self)
        requires
            self matches Trie::Br(p, m, l, r)
                ==> l.wf() && r.wf() && Self::split_ok(p, m, *l, *r),
        ensures
            t.wf(),
            t.as_map() == self.as_map(),
    {
        match self {
            Trie::Br(p, m, l, r) => Self::br(p, m, l, r),
            t => t,
        }
    }

    /// Merges two non-empty subtrees whose key spaces diverge, creating the
    /// branch at the lowest bit where their representative keys differ. This
    /// is the only way insertion creates new branches.
    pub fn join(self, other: Self) -> (t: Self)
        requires
            self.wf(),
            other.wf(),
            !(self is Empty),
            !(other is Empty),
            self.diverges_from(other.repr()),
            other.diverges_from(self.repr()),
        ensures
            t.wf(),
            t.as_map() == self.as_map().union_prefer_right(other.as_map()),
    {
        let p0 = self.prefix();
        let p1 = other.prefix();
        proof {
            self.lemma_occupied();
            other.lemma_occupied();
            assert(p0 != p1);
        }
        let m = Self::branch_bit(p0, p1);
        proof {
            self.lemma_keys_near_repr(p1, m);
            other.lemma_keys_near_repr(p0, m);
        }
        if Self::zerobit(p0, m) {
            Self::br(Self::mask(p0, m), m, Box::new(self), Box::new(other))
        } else {
            proof {
                crate::bits::lemma_single_bit_and(p0, m);
                crate::bits::lemma_single_bit_and(p1, m);
            }
            let t = Self::br(Self::mask(p0, m), m, Box::new(other), Box::new(self));
            proof {
                assert(other.as_map().union_prefer_right(self.as_map())
                    =~= self.as_map().union_prefer_right(other.as_map()));
            }
            t
        }
    }

    /// Inserts key with val, or overwrites the value already stored at key,
    /// and returns the rebuilt subtree.
    pub fn ins(self, key: u64, val: T) -> (t: Self)
        requires
            self.wf(),
        ensures
            t.wf(),
            t.as_map() == self.as_map().insert(key, val),
        decreases self,
    {
        match self {
            Trie::Empty => Trie::Lf(key, val),
            Trie::Lf(k, v) => {
                if k == key {
                    proof {
                        assert(Trie::Lf(k, val).as_map()
                            =~= Trie::Lf(k, v).as_map().insert(key, val));
                    }
                    Trie::Lf(k, val)
                } else {
                    let t = Trie::Lf(k, v).join(Trie::Lf(key, val));
                    proof {
                        assert(t.as_map() =~= Trie::Lf(k, v).as_map().insert(key, val));
                    }
                    t
                }
            },
            Trie::Br(p, m, l, r) => {
                if Self::match_prefix(key, p, m) {
                    if Self::zerobit(key, m) {
                        let l2 = Box::new((*l).ins(key, val));
                        proof {
                            assert(l2.as_map().dom().contains(key));
                            assert(!r.as_map().dom().contains(key));
                            assert(l2.as_map().union_prefer_right(r.as_map())
                                =~= l.as_map().union_prefer_right(r.as_map()).insert(key, val));
                        }
                        Trie::Br(p, m, l2, r)
                    } else {
                        let r2 = Box::new((*r).ins(key, val));
                        proof {
                            assert(r2.as_map().dom().contains(key));
                            assert(l.as_map().union_prefer_right(r2.as_map())
                                =~= l.as_map().union_prefer_right(r.as_map()).insert(key, val));
                        }
                        Trie::Br(p, m, l, r2)
                    }
                } else {
                    let node = Trie::Br(p, m, l, r);
                    proof {
                        node.lemma_occupied();
                    }
                    let t = node.join(Trie::Lf(key, val));
                    proof {
                        assert(!l.as_map().dom().contains(key));
                        assert(!r.as_map().dom().contains(key));
                        assert(!node.as_map().dom().contains(key));
                        assert(t.as_map() =~= node.as_map().insert(key, val));
                    }
                    t
                }
            },
        }
    }

    /// Removes key if present, returning the rebuilt, canonical subtree and
    /// the value that was stored at key.
    pub fn del(self, key: &u64) -> (res: (Self, Option<T>))
        requires
            self.wf(),
        ensures
            res.0.wf(),
            res.0.as_map() == self.as_map().remove(*key),
            res.1 matches Some(v) ==> self.as_map().dom().contains(*key)
                && self.as_map()[*key] == v,
            res.1 is None ==> !self.as_map().dom().contains(*key),
        decreases self,
    {
        match self {
            Trie::Empty => (Trie::Empty, None),
            Trie::Lf(k, v) => {
                if k == *key {
                    proof {
                        assert(Map::<u64, T>::empty()
                            =~= Trie::Lf(k, v).as_map().remove(*key));
                    }
                    (Trie::Empty, Some(v))
                } else {
                    proof {
                        assert(Trie::Lf(k, v).as_map()
                            =~= Trie::Lf(k, v).as_map().remove(*key));
                    }
                    (Trie::Lf(k, v), None)
                }
            },
            Trie::Br(p, m, l, r) => {
                if Self::match_prefix(*key, p, m) {
                    if Self::zerobit(*key, m) {
                        proof {
                            l.lemma_occupied();
                        }
                        let (l2, removed) = (*l).del(key);
                        proof {
                            assert(!r.as_map().dom().contains(*key));
                            assert(l2.as_map().union_prefer_right(r.as_map())
                                =~= l.as_map().union_prefer_right(r.as_map()).remove(*key));
                        }
                        let node = Trie::Br(p, m, Box::new(l2), r);
                        if removed.is_some() {
                            (node.canonify(), removed)
                        } else {
                            proof {
                                assert(node->Br_2.as_map() =~= l.as_map());
                            }
                            (node, removed)
                        }
                    } else {
                        proof {
                            r.lemma_occupied();
                        }
                        let (r2, removed) = (*r).del(key);
                        proof {
                            assert(!l.as_map().dom().contains(*key));
                            assert(l.as_map().union_prefer_right(r2.as_map())
                                =~= l.as_map().union_prefer_right(r.as_map()).remove(*key));
                        }
                        let node = Trie::Br(p, m, l, Box::new(r2));
                        if removed.is_some() {
                            (node.canonify(), removed)
                        } else {
                            proof {
                                assert(node->Br_3.as_map() =~= r.as_map());
                            }
                            (node, removed)
                        }
                    }
                } else {
                    let node = Trie::Br(p, m, l, r);
                    proof {
                        assert(!l.as_map().dom().contains(*key));
                        assert(!r.as_map().dom().contains(*key));
                        assert(!node.as_map().dom().contains(*key));
                        assert(node.as_map() =~= node.as_map().remove(*key));
                    }
                    (node, None)
                }
            },
        }
    }
}

impl<T> Dict<T> for Trie<T> {
    type K = u64;

    open spec fn inv(&self) -> bool {
        self.wf()
    }

    open spec fn model(&self) -> Map<u64, T> {
        self.as_map()
    }

    fn empty() -> (d: Self) {
        Trie::Empty
    }

    fn insert(&mut self, key: u64, val: T) {
        let mut t = Trie::Empty;
        core::mem::swap(self, &mut t);
        *self = t.ins(key, val);
    }

    fn remove(&mut self, key: &u64) -> (removed: Option<T>) {
        let mut t = Trie::Empty;
        core::mem::swap(self, &mut t);
        let (t2, removed) = t.del(key);
        *self = t2;
        removed
    }

    fn lookup(&self, key: &u64) -> (found: Option<&T>)
        decreases *self,
    {
        match self {
            Trie::Empty => None,
            Trie::Lf(k, v) => {
                if *k == *key {
                    Some(v)
                } else {
                    None
                }
            },
            Trie::Br(p, m, l, r) => {
                if !Self::match_prefix(*key, *p, *m) {
                    proof {
                        assert(!l.as_map().dom().contains(*key));
                        assert(!r.as_map().dom().contains(*key));
                    }
                    None
                } else if Self::zerobit(*key, *m) {
                    proof {
                        assert(!r.as_map().dom().contains(*key));
                    }
                    l.lookup(key)
                } else {
                    proof {
                        assert(!l.as_map().dom().contains(*key));
                    }
                    r.lookup(key)
                }
            },
        }
    }
}

} // verus!
