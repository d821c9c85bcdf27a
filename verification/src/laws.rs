//! The laws of the trie: canonicity of its shape, and the bound on its
//! depth.
//!
//! The central fact is that a well-formed trie is determined by its
//! contents: two well-formed tries holding the same map are equal, and two
//! holding the same key set have the same shape. Canonicity under
//! permutation of insertions, canonicity of add-then-remove against
//! never-added, and idempotence of overwrites all follow and are stated
//! below as proof functions.
use vstd::prelude::*;

use crate::Trie;
use crate::bits::{
    lemma_agree_below, lemma_mask_step, lemma_single_bit_and, lemma_split_bit_above, low_bits,
    single_bit,
};

verus! {

impl<T> Trie<T> {
    /// The number of branches along the longest path of this subtree.
    pub open spec fn depth(self) -> nat
        decreases self,
    {
        match self {
            Trie::Empty => 0,
            Trie::Lf(_, _) => 0,
            Trie::Br(_, _, l, r) => 1 + if l.depth() >= r.depth() {
                l.depth()
            } else {
                r.depth()
            },
        }
    }

    /// The two trees branch identically and keep their keys in the same
    /// places; only the values stored at the leaves may differ.
    pub open spec fn same_shape(self, other: Trie<T>) -> bool
        decreases self,
    {
        match (self, other) {
            (Trie::Empty, Trie::Empty) => true,
            (Trie::Lf(k1, _), Trie::Lf(k2, _)) => k1 == k2,
            (Trie::Br(p1, m1, l1, r1), Trie::Br(p2, m2, l2, r2)) => p1 == p2 && m1 == m2
                && l1.same_shape(*l2) && r1.same_shape(*r2),
            _ => false,
        }
    }
}

/// Two well-formed branches over the same key set branch at the same bit,
/// share their prefix, and split the keys identically; equal contents make
/// the child contents equal as well.
proof fn lemma_br_parts<T>(t1: Trie<T>, t2: Trie<T>)
    requires
        t1.wf(),
        t2.wf(),
        t1 is Br,
        t2 is Br,
        t1.as_map().dom() == t2.as_map().dom(),
    ensures
        t1->Br_0 == t2->Br_0,
        t1->Br_1 == t2->Br_1,
        t1->Br_2.as_map().dom() == t2->Br_2.as_map().dom(),
        t1->Br_3.as_map().dom() == t2->Br_3.as_map().dom(),
        t1.as_map() == t2.as_map() ==> t1->Br_2.as_map() == t2->Br_2.as_map()
            && t1->Br_3.as_map() == t2->Br_3.as_map(),
{
    let (p1, m1, l1, r1) = (t1->Br_0, t1->Br_1, *t1->Br_2, *t1->Br_3);
    let (p2, m2, l2, r2) = (t2->Br_0, t2->Br_1, *t2->Br_2, *t2->Br_3);
    l1.lemma_occupied();
    r1.lemma_occupied();
    l2.lemma_occupied();
    r2.lemma_occupied();
    let a0 = choose|k: u64| l1.as_map().dom().contains(k);
    let a1 = choose|k: u64| r1.as_map().dom().contains(k);
    let b0 = choose|k: u64| l2.as_map().dom().contains(k);
    let b1 = choose|k: u64| r2.as_map().dom().contains(k);
    assert(t1.as_map().dom().contains(a0) && t1.as_map().dom().contains(a1));
    assert(t2.as_map().dom().contains(b0) && t2.as_map().dom().contains(b1));
    // The masks agree: a strictly lower mask on one side would have to
    // separate two keys that the other side's prefix makes agree.
    if m2 < m1 {
        assert(t1.as_map().dom().contains(b0) && t1.as_map().dom().contains(b1));
        lemma_agree_below(b0, b1, m2, m1);
        assert(false);
    }
    if m1 < m2 {
        assert(t2.as_map().dom().contains(a0) && t2.as_map().dom().contains(a1));
        lemma_agree_below(a0, a1, m1, m2);
        assert(false);
    }
    assert(m1 == m2);
    assert(p1 == low_bits(a0, m1) && p2 == low_bits(a0, m2));
    // The keys with a zero at the shared mask bit are exactly the left keys
    // on both sides, so the children cover the same key sets.
    assert forall|k: u64| l1.as_map().dom().contains(k)
        implies l2.as_map().dom().contains(k) by {
        assert(t2.as_map().dom().contains(k));
    }
    assert forall|k: u64| l2.as_map().dom().contains(k)
        implies l1.as_map().dom().contains(k) by {
        assert(t1.as_map().dom().contains(k));
    }
    assert forall|k: u64| r1.as_map().dom().contains(k)
        implies r2.as_map().dom().contains(k) by {
        assert(t2.as_map().dom().contains(k));
    }
    assert forall|k: u64| r2.as_map().dom().contains(k)
        implies r1.as_map().dom().contains(k) by {
        assert(t1.as_map().dom().contains(k));
    }
    assert(l1.as_map().dom() =~= l2.as_map().dom());
    assert(r1.as_map().dom() =~= r2.as_map().dom());
    if t1.as_map() == t2.as_map() {
        assert forall|k: u64| l1.as_map().dom().contains(k)
            implies l1.as_map()[k] == l2.as_map()[k] by {
            assert(!r1.as_map().dom().contains(k) && !r2.as_map().dom().contains(k));
            assert(t1.as_map()[k] == l1.as_map()[k]);
            assert(t2.as_map()[k] == l2.as_map()[k]);
        }
        assert forall|k: u64| r1.as_map().dom().contains(k)
            implies r1.as_map()[k] == r2.as_map()[k] by {
            assert(t1.as_map()[k] == r1.as_map()[k]);
            assert(t2.as_map()[k] == r2.as_map()[k]);
        }
        assert(l1.as_map() =~= l2.as_map());
        assert(r1.as_map() =~= r2.as_map());
    }
}

/// Shape canonicity: two well-formed tries over the same key set branch
/// identically, whatever values they hold and however they were built.
pub proof fn lemma_same_keys_same_shape<T>(t1: Trie<T>, t2: Trie<T>)
    requires
        t1.wf(),
        t2.wf(),
        t1.as_map().dom() == t2.as_map().dom(),
    ensures
        t1.same_shape(t2),
    decreases t1,
{
    if t1 is Empty && t2 is Empty {
    } else if t1 is Empty {
        t2.lemma_occupied();
        let k = choose|k: u64| t2.as_map().dom().contains(k);
        assert(t1.as_map().dom().contains(k));
        assert(false);
    } else if t2 is Empty {
        t1.lemma_occupied();
        let k = choose|k: u64| t1.as_map().dom().contains(k);
        assert(t2.as_map().dom().contains(k));
        assert(false);
    } else if t1 is Lf && t2 is Lf {
        assert(t1.as_map().dom().contains(t1->Lf_0));
        assert(t2.as_map().dom().contains(t2->Lf_0));
        assert(t1->Lf_0 == t2->Lf_0);
    } else if t1 is Lf && t2 is Br {
        lemma_branch_two_keys(t2);
        let (x, y) = choose|x: u64, y: u64| t2.as_map().dom().contains(x)
            && t2.as_map().dom().contains(y) && x != y;
        assert(t1.as_map().dom().contains(x) && t1.as_map().dom().contains(y));
        assert(false);
    } else if t1 is Br && t2 is Lf {
        lemma_branch_two_keys(t1);
        let (x, y) = choose|x: u64, y: u64| t1.as_map().dom().contains(x)
            && t1.as_map().dom().contains(y) && x != y;
        assert(t2.as_map().dom().contains(x) && t2.as_map().dom().contains(y));
        assert(false);
    } else {
        lemma_br_parts(t1, t2);
        lemma_same_keys_same_shape(*t1->Br_2, *t2->Br_2);
        lemma_same_keys_same_shape(*t1->Br_3, *t2->Br_3);
    }
}

/// A well-formed branch holds two distinct keys: one on each side of its
/// mask bit. Its key set can therefore never be a leaf's singleton.
proof fn lemma_branch_two_keys<T>(t: Trie<T>)
    requires
        t.wf(),
        t is Br,
    ensures
        exists|x: u64, y: u64| #[trigger] t.as_map().dom().contains(x)
            && #[trigger] t.as_map().dom().contains(y) && x != y,
{
    let (l, r) = (*t->Br_2, *t->Br_3);
    l.lemma_occupied();
    r.lemma_occupied();
    let a0 = choose|x: u64| l.as_map().dom().contains(x);
    let a1 = choose|x: u64| r.as_map().dom().contains(x);
    assert(a0 & t->Br_1 == 0 && a1 & t->Br_1 != 0);
    assert(t.as_map().dom().contains(a0) && t.as_map().dom().contains(a1) && a0 != a1);
}

/// Full canonicity: a well-formed trie is determined by the map it holds.
/// Two tries with equal contents are equal, whatever operations built them.
pub proof fn lemma_canonical<T>(t1: Trie<T>, t2: Trie<T>)
    requires
        t1.wf(),
        t2.wf(),
        t1.as_map() == t2.as_map(),
    ensures
        t1 == t2,
    decreases t1,
{
    if t1 is Empty && t2 is Empty {
    } else if t1 is Lf && t2 is Lf {
        assert(t1.as_map().dom().contains(t1->Lf_0));
        assert(t2.as_map().dom().contains(t2->Lf_0));
        assert(t1->Lf_0 == t2->Lf_0);
        assert(t1->Lf_1 == t1.as_map()[t1->Lf_0]);
        assert(t2->Lf_1 == t2.as_map()[t2->Lf_0]);
    } else if t1 is Br && t2 is Br {
        lemma_br_parts(t1, t2);
        lemma_canonical(*t1->Br_2, *t2->Br_2);
        lemma_canonical(*t1->Br_3, *t2->Br_3);
        assert(t1 == t2);
    } else {
        lemma_same_keys_same_shape(t1, t2);
        assert(false);
    }
}

/// Every subtree whose branches all sit at or above bit j reaches at most
/// 64 - j further branches: one per remaining bit of the key width.
proof fn lemma_depth_below<T>(t: Trie<T>, j: u64)
    requires
        t.wf(),
        j <= 64,
        t matches Trie::Br(_, m, _, _) ==> j < 64 && m >= (1u64 << j),
    ensures
        t.depth() + j <= 64,
    decreases t,
{
    if t is Br {
        let m = t->Br_1;
        let (l, r) = (*t->Br_2, *t->Br_3);
        assert(l.wf() && r.wf());
        lemma_child_mask_above(t, l);
        lemma_child_mask_above(t, r);
        if l is Br {
            assert(single_bit(l->Br_1));
            lemma_mask_step(m, l->Br_1, j);
        }
        if r is Br {
            assert(single_bit(r->Br_1));
            lemma_mask_step(m, r->Br_1, j);
        }
        lemma_depth_below(l, (j + 1) as u64);
        lemma_depth_below(r, (j + 1) as u64);
    }
}

/// A branch nested inside a well-formed branch splits its keys at a
/// strictly higher bit than its parent does.
proof fn lemma_child_mask_above<T>(t: Trie<T>, c: Trie<T>)
    requires
        t.wf(),
        t is Br,
        c == *t->Br_2 || c == *t->Br_3,
    ensures
        c matches Trie::Br(_, m2, _, _) ==> m2 > t->Br_1,
{
    if c is Br {
        let m = t->Br_1;
        let m2 = c->Br_1;
        let (cl, cr) = (*c->Br_2, *c->Br_3);
        assert(c.wf());
        assert(cl.wf() && cr.wf() && !(cl is Empty) && !(cr is Empty));
        cl.lemma_occupied();
        cr.lemma_occupied();
        let k0 = choose|x: u64| cl.as_map().dom().contains(x);
        let k1 = choose|x: u64| cr.as_map().dom().contains(x);
        assert(c.as_map().dom().contains(k0) && c.as_map().dom().contains(k1));
        if c == *t->Br_2 {
            assert(t->Br_2.as_map().dom().contains(k0));
            assert(t->Br_2.as_map().dom().contains(k1));
        } else {
            assert(t->Br_3.as_map().dom().contains(k0));
            assert(t->Br_3.as_map().dom().contains(k1));
            lemma_single_bit_and(k0, m);
            lemma_single_bit_and(k1, m);
        }
        lemma_split_bit_above(k0, k1, m, m2);
    }
}

/// Bounded depth: however many keys a well-formed trie holds, no path
/// passes through more than 64 branches, one per bit of the key.
pub proof fn lemma_depth_bounded<T>(t: Trie<T>)
    requires
        t.wf(),
    ensures
        t.depth() <= 64,
{
    assert((1u64 << 0u64) == 1) by (bit_vector);
    lemma_depth_below(t, 0);
}

/// The map left behind by a sequence of insertions, later entries
/// overwriting earlier ones: exactly what an ordered reference map holds
/// after the same inserts.
pub open spec fn map_of_entries<T>(entries: Seq<(u64, T)>) -> Map<u64, T>
    decreases entries.len(),
{
    if entries.len() == 0 {
        Map::empty()
    } else {
        map_of_entries(entries.drop_last()).insert(entries.last().0, entries.last().1)
    }
}

/// No two entries of the sequence share a key.
pub open spec fn distinct_keys<T>(entries: Seq<(u64, T)>) -> bool {
    forall|i: int, j: int|
        0 <= i < j < entries.len() ==> (#[trigger] entries[i]).0 != (#[trigger] entries[j]).0
}

/// With distinct keys, the map of a sequence of insertions holds exactly
/// the keys of the sequence, each bound to the value inserted with it.
pub proof fn lemma_map_of_entries<T>(entries: Seq<(u64, T)>)
    requires
        distinct_keys(entries),
    ensures
        forall|k: u64| map_of_entries(entries).dom().contains(k)
            <==> exists|i: int| 0 <= i < entries.len() && (#[trigger] entries[i]).0 == k,
        forall|i: int| 0 <= i < entries.len()
            ==> map_of_entries(entries)[(#[trigger] entries[i]).0] == entries[i].1,
    decreases entries.len(),
{
    if entries.len() > 0 {
        let prefix = entries.drop_last();
        let last = entries.last();
        lemma_map_of_entries(prefix);
        assert forall|k: u64| map_of_entries(entries).dom().contains(k)
            implies exists|i: int| 0 <= i < entries.len() && (#[trigger] entries[i]).0 == k by {
            if k == last.0 {
                assert(entries[entries.len() - 1].0 == k);
            } else {
                assert(map_of_entries(prefix).dom().contains(k));
                let i = choose|i: int| 0 <= i < prefix.len() && (#[trigger] prefix[i]).0 == k;
                assert(prefix[i] == entries[i]);
                assert(entries[i].0 == k);
            }
        }
        assert forall|k: u64|
            exists|i: int| 0 <= i < entries.len() && (#[trigger] entries[i]).0 == k
            implies map_of_entries(entries).dom().contains(k) by {
            let i = choose|i: int| 0 <= i < entries.len() && (#[trigger] entries[i]).0 == k;
            if i < entries.len() - 1 {
                assert(prefix[i] == entries[i]);
                assert(prefix[i].0 == k);
                assert(map_of_entries(prefix).dom().contains(k));
            }
        }
        assert forall|i: int| 0 <= i < entries.len()
            implies map_of_entries(entries)[(#[trigger] entries[i]).0] == entries[i].1 by {
            if i < entries.len() - 1 {
                assert(prefix[i] == entries[i]);
                assert(map_of_entries(prefix)[prefix[i].0] == prefix[i].1);
                assert(entries[i].0 != entries[entries.len() - 1].0);
            }
        }
    }
}

/// The map after removing every key of a sequence, in order.
pub open spec fn remove_all<T>(m: Map<u64, T>, removals: Seq<u64>) -> Map<u64, T>
    decreases removals.len(),
{
    if removals.len() == 0 {
        m
    } else {
        remove_all(m, removals.drop_last()).remove(removals.last())
    }
}

/// Removing a sequence of keys keeps exactly the entries whose key is not
/// in the sequence, with their values untouched.
pub proof fn lemma_remove_all<T>(m: Map<u64, T>, removals: Seq<u64>)
    ensures
        forall|k: u64| #[trigger] remove_all(m, removals).dom().contains(k)
            <==> m.dom().contains(k) && !removals.contains(k),
        forall|k: u64| remove_all(m, removals).dom().contains(k)
            ==> #[trigger] remove_all(m, removals)[k] == m[k],
    decreases removals.len(),
{
    if removals.len() > 0 {
        let prefix = removals.drop_last();
        lemma_remove_all(m, prefix);
        assert forall|k: u64| #[trigger] remove_all(m, removals).dom().contains(k)
            implies m.dom().contains(k) && !removals.contains(k) by {
            assert(k != removals.last());
            assert(remove_all(m, prefix).dom().contains(k));
            assert(m.dom().contains(k) && !prefix.contains(k));
            if removals.contains(k) {
                let i = choose|i: int| 0 <= i < removals.len() && removals[i] == k;
                if i < removals.len() - 1 {
                    assert(prefix[i] == removals[i]);
                }
                assert(false);
            }
        }
        assert forall|k: u64| m.dom().contains(k) && !removals.contains(k)
            implies #[trigger] remove_all(m, removals).dom().contains(k) by {
            if prefix.contains(k) {
                let i = choose|i: int| 0 <= i < prefix.len() && prefix[i] == k;
                assert(prefix[i] == removals[i]);
                assert(removals.contains(k));
                assert(false);
            }
            assert(removals[removals.len() - 1] == removals.last());
            assert(k != removals.last());
            assert(remove_all(m, prefix).dom().contains(k));
        }
        assert forall|k: u64| remove_all(m, removals).dom().contains(k)
            implies #[trigger] remove_all(m, removals)[k] == m[k] by {
            assert(k != removals.last());
            assert(remove_all(m, prefix).dom().contains(k));
            assert(remove_all(m, prefix)[k] == m[k]);
        }
    }
}

/// Filtering a distinct-key sequence keeps the keys distinct, and keeps
/// exactly the entries the predicate accepts.
proof fn lemma_filter_entries<T>(s: Seq<(u64, T)>, pred: spec_fn((u64, T)) -> bool)
    requires
        distinct_keys(s),
    ensures
        distinct_keys(s.filter(pred)),
        forall|e: (u64, T)| #[trigger] s.filter(pred).contains(e) <==> s.contains(e) && pred(e),
    decreases s.len(),
{
    reveal(Seq::filter);
    if s.len() == 0 {
        assert forall|e: (u64, T)| #[trigger] s.filter(pred).contains(e)
            implies s.contains(e) && pred(e) by {
        }
    } else {
        let prefix = s.drop_last();
        let last = s.last();
        assert(forall|i: int| 0 <= i < prefix.len() ==> prefix[i] == s[i]);
        lemma_filter_entries(prefix, pred);
        let fp = prefix.filter(pred);
        assert forall|e: (u64, T)| #[trigger] s.filter(pred).contains(e)
            implies s.contains(e) && pred(e) by {
            let i = choose|i: int| 0 <= i < s.filter(pred).len() && s.filter(pred)[i] == e;
            if pred(last) {
                if i < fp.len() {
                    assert(fp[i] == e);
                    assert(fp.contains(e));
                    let j = choose|j: int| 0 <= j < prefix.len() && prefix[j] == e;
                    assert(s[j] == e);
                } else {
                    assert(e == last);
                    assert(s[s.len() - 1] == e);
                }
            } else {
                assert(fp[i] == e);
                assert(fp.contains(e));
                let j = choose|j: int| 0 <= j < prefix.len() && prefix[j] == e;
                assert(s[j] == e);
            }
        }
        assert forall|e: (u64, T)| s.contains(e) && pred(e)
            implies #[trigger] s.filter(pred).contains(e) by {
            let i = choose|i: int| 0 <= i < s.len() && s[i] == e;
            if i < s.len() - 1 {
                assert(prefix[i] == e);
                assert(prefix.contains(e));
                assert(fp.contains(e));
                let j = choose|j: int| 0 <= j < fp.len() && fp[j] == e;
                if pred(last) {
                    assert(fp.push(last)[j] == e);
                } else {
                    assert(s.filter(pred)[j] == e);
                }
            } else {
                assert(e == last);
                assert(pred(last));
                assert(fp.push(last)[fp.len() as int] == e);
            }
        }
        assert forall|i: int, j: int| 0 <= i < j < s.filter(pred).len()
            implies (#[trigger] s.filter(pred)[i]).0 != (#[trigger] s.filter(pred)[j]).0 by {
            let f = s.filter(pred);
            if pred(last) && j == f.len() - 1 {
                assert(f[j] == last);
                assert(fp[i] == f[i]);
                assert(fp.contains(f[i]));
                assert(prefix.contains(f[i]));
                let i0 = choose|i0: int| 0 <= i0 < prefix.len() && prefix[i0] == f[i];
                assert(s[i0] == f[i]);
                assert(s[i0].0 != s[s.len() - 1].0);
            } else {
                assert(fp[i] == f[i] && fp[j] == f[j]);
            }
        }
    }
}

/// Canonicity under insertion-order permutation: two well-formed tries
/// built by inserting the same distinct-key entries, in any two orders,
/// are equal.
pub proof fn lemma_canonical_under_permutation<T>(
    t1: Trie<T>,
    t2: Trie<T>,
    entries1: Seq<(u64, T)>,
    entries2: Seq<(u64, T)>,
)
    requires
        t1.wf(),
        t2.wf(),
        entries1.len() > 0,
        distinct_keys(entries1),
        distinct_keys(entries2),
        forall|e: (u64, T)| #[trigger] entries1.contains(e) <==> entries2.contains(e),
        t1.as_map() == map_of_entries(entries1),
        t2.as_map() == map_of_entries(entries2),
    ensures
        t1 == t2,
{
    lemma_map_of_entries(entries1);
    lemma_map_of_entries(entries2);
    let m1 = map_of_entries(entries1);
    let m2 = map_of_entries(entries2);
    assert forall|k: u64| m1.dom().contains(k)
        implies m2.dom().contains(k) && m2[k] == m1[k] by {
        let i = choose|i: int| 0 <= i < entries1.len() && (#[trigger] entries1[i]).0 == k;
        assert(entries1.contains(entries1[i]));
        assert(entries2.contains(entries1[i]));
        let j = choose|j: int| 0 <= j < entries2.len() && entries2[j] == entries1[i];
        assert(entries2[j].0 == k);
    }
    assert forall|k: u64| m2.dom().contains(k)
        implies m1.dom().contains(k) by {
        let j = choose|j: int| 0 <= j < entries2.len() && (#[trigger] entries2[j]).0 == k;
        assert(entries2.contains(entries2[j]));
        assert(entries1.contains(entries2[j]));
        let i = choose|i: int| 0 <= i < entries1.len() && entries1[i] == entries2[j];
        assert(entries1[i].0 == k);
    }
    assert(m1 =~= m2);
    lemma_canonical(t1, t2);
}

/// Canonicity of add-then-remove against never-added: a trie built by
/// inserting a set of entries and then removing some keys equals one built
/// by inserting only the entries whose keys are never removed.
pub proof fn lemma_canonical_after_removals<T>(
    t1: Trie<T>,
    t2: Trie<T>,
    entries: Seq<(u64, T)>,
    removals: Seq<u64>,
)
    requires
        t1.wf(),
        t2.wf(),
        distinct_keys(entries),
        t1.as_map() == remove_all(map_of_entries(entries), removals),
        t2.as_map() == map_of_entries(entries.filter(|e: (u64, T)| !removals.contains(e.0))),
    ensures
        t1 == t2,
{
    let pred = |e: (u64, T)| !removals.contains(e.0);
    let kept = entries.filter(pred);
    lemma_filter_entries(entries, pred);
    lemma_map_of_entries(entries);
    lemma_map_of_entries(kept);
    lemma_remove_all(map_of_entries(entries), removals);
    let m1 = remove_all(map_of_entries(entries), removals);
    let m2 = map_of_entries(kept);
    assert forall|k: u64| #[trigger] m1.dom().contains(k)
        implies m2.dom().contains(k) && m2[k] == m1[k] by {
        assert(map_of_entries(entries).dom().contains(k) && !removals.contains(k));
        let i = choose|i: int| 0 <= i < entries.len() && (#[trigger] entries[i]).0 == k;
        assert(entries.contains(entries[i]));
        assert(pred(entries[i]));
        assert(kept.contains(entries[i]));
        let j = choose|j: int| 0 <= j < kept.len() && kept[j] == entries[i];
        assert(kept[j].0 == k);
        assert(m2[kept[j].0] == kept[j].1);
        assert(map_of_entries(entries)[entries[i].0] == entries[i].1);
        assert(m1[k] == map_of_entries(entries)[k]);
    }
    assert forall|k: u64| #[trigger] m2.dom().contains(k)
        implies m1.dom().contains(k) by {
        let j = choose|j: int| 0 <= j < kept.len() && (#[trigger] kept[j]).0 == k;
        assert(kept.contains(kept[j]));
        assert(entries.contains(kept[j]) && pred(kept[j]));
        assert(!removals.contains(k));
        let i = choose|i: int| 0 <= i < entries.len() && entries[i] == kept[j];
        assert(entries[i].0 == k);
        assert(map_of_entries(entries).dom().contains(k));
    }
    assert forall|k: u64| #[trigger] m1.dom().contains(k) <==> #[trigger] m2.dom().contains(k) by {
        if m1.dom().contains(k) {
            assert(m2.dom().contains(k));
        }
        if m2.dom().contains(k) {
            assert(m1.dom().contains(k));
        }
    }
    assert(m1.dom() =~= m2.dom());
    assert forall|k: u64| m2.dom().contains(k) implies m1[k] == m2[k] by {
        assert(m1.dom().contains(k));
    }
    assert(m1 =~= m2);
    lemma_canonical(t1, t2);
}

/// Idempotent overwrite: writing a new value over a key the trie already
/// holds changes the stored value and nothing of the tree's shape.
pub proof fn lemma_idempotent_overwrite<T>(t: Trie<T>, t2: Trie<T>, key: u64, v2: T)
    requires
        t.wf(),
        t2.wf(),
        t.as_map().dom().contains(key),
        t2.as_map() == t.as_map().insert(key, v2),
    ensures
        t2.same_shape(t),
        t2.as_map()[key] == v2,
{
    assert(t2.as_map().dom() =~= t.as_map().dom());
    lemma_same_keys_same_shape(t2, t);
}

} // verus!
