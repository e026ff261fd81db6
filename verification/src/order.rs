//! Bounded retention of the largest keys.
//!
//! Every bounded cache of the store keeps the numerically largest keys it has
//! seen and drops the smallest ones first. This module states that policy once,
//! as the set [`largest`], proves what follows from it, and implements it on the
//! ordered collections of the standard library.

use std::collections::BTreeMap;
use std::collections::BTreeSet;
use vstd::prelude::*;
use vstd::set_lib::*;

verus! {

broadcast use vstd::std_specs::btree::group_btree_axioms, vstd::laws_cmp::group_laws_cmp;

/// The elements of `s` that are greater than `x`.
pub open spec fn above(s: Set<u64>, x: u64) -> Set<u64> {
    s.filter(|y: u64| y > x)
}

/// The `k` largest elements of `s`: those that fewer than `k` elements of `s` exceed.
pub open spec fn largest(s: Set<u64>, k: nat) -> Set<u64> {
    s.filter(|x: u64| above(s, x).len() < k)
}

/// `m` is the smallest element of `s`.
pub open spec fn is_least(s: Set<u64>, m: u64) -> bool {
    s.contains(m) && forall|x: u64| s.contains(x) ==> m <= x
}

/// Fewer elements exceed a member of a finite set than the set has.
pub proof fn lemma_above_bounds(s: Set<u64>, x: u64)
    requires
        s.finite(),
    ensures
        above(s, x).finite(),
        above(s, x).len() <= s.len(),
        s.contains(x) ==> above(s, x).len() < s.len(),
{
    s.lemma_len_filter(|y: u64| y > x);
    if s.contains(x) {
        assert(above(s, x).subset_of(s.remove(x)));
        lemma_len_subset(above(s, x), s.remove(x));
    }
}

/// The larger an element, the fewer elements exceed it.
pub proof fn lemma_above_monotone(s: Set<u64>, x: u64, y: u64)
    requires
        s.finite(),
        x <= y,
    ensures
        above(s, y).len() <= above(s, x).len(),
{
    lemma_above_bounds(s, x);
    assert(above(s, y).subset_of(above(s, x)));
    lemma_len_subset(above(s, y), above(s, x));
}

/// A set that fits the bound is kept whole.
pub proof fn lemma_largest_of_small(s: Set<u64>, k: nat)
    requires
        s.finite(),
        s.len() <= k,
    ensures
        largest(s, k) == s,
{
    assert forall|x: u64| s.contains(x) implies largest(s, k).contains(x) by {
        lemma_above_bounds(s, x);
    }
    assert(largest(s, k) =~= s);
}

/// While a set is over the bound, dropping its smallest element changes nothing
/// of what is retained.
pub proof fn lemma_largest_without_least(s: Set<u64>, k: nat, m: u64)
    requires
        s.finite(),
        s.len() > k,
        is_least(s, m),
    ensures
        largest(s.remove(m), k) == largest(s, k),
        !largest(s, k).contains(m),
{
    assert(above(s, m) =~= s.remove(m));
    assert forall|x: u64| s.contains(x) && x != m implies above(s.remove(m), x) == above(s, x) by {
        assert(above(s.remove(m), x) =~= above(s, x));
    }
    assert(largest(s.remove(m), k) =~= largest(s, k));
}

/// A finite set that is not empty has a smallest element.
pub proof fn lemma_least_exists(s: Set<u64>)
    requires
        s.finite(),
        s.len() > 0,
    ensures
        exists|m: u64| is_least(s, m),
    decreases s.len(),
{
    let x = s.choose();
    let rest = s.remove(x);
    if rest.len() == 0 {
        assert forall|y: u64| s.contains(y) implies x <= y by {
            if y != x {
                assert(rest.contains(y));
            }
        }
        assert(is_least(s, x));
    } else {
        lemma_least_exists(rest);
        let m = choose|m: u64| is_least(rest, m);
        let least = if x <= m { x } else { m };
        assert forall|y: u64| s.contains(y) implies least <= y by {
            if y != x {
                assert(rest.contains(y));
            }
        }
        assert(is_least(s, least));
    }
}

/// The retained set is finite, lies within the whole set, and holds `k`
/// elements, or all of them where there are fewer.
pub proof fn lemma_largest_len(s: Set<u64>, k: nat)
    requires
        s.finite(),
    ensures
        largest(s, k).finite(),
        largest(s, k).subset_of(s),
        largest(s, k).len() == if s.len() <= k { s.len() } else { k },
    decreases s.len(),
{
    if s.len() <= k {
        lemma_largest_of_small(s, k);
    } else {
        lemma_least_exists(s);
        let m = choose|m: u64| is_least(s, m);
        lemma_largest_without_least(s, k, m);
        lemma_largest_len(s.remove(m), k);
    }
}

/// Every retained element is greater than every dropped one.
pub proof fn lemma_largest_dominates(s: Set<u64>, k: nat, kept: u64, dropped: u64)
    requires
        s.finite(),
        largest(s, k).contains(kept),
        s.contains(dropped),
        !largest(s, k).contains(dropped),
    ensures
        dropped < kept,
{
    if kept <= dropped {
        lemma_above_monotone(s, kept, dropped);
    }
}

/// Retention forgets nothing that matters: keeping the `k` largest of what was
/// retained before together with what is new gives the `k` largest of
/// everything that was ever added.
pub proof fn lemma_largest_absorbs(a: Set<u64>, b: Set<u64>, k: nat)
    requires
        a.finite(),
        b.finite(),
    ensures
        largest(largest(a, k).union(b), k) == largest(a.union(b), k),
{
    let kept = largest(a, k);
    let u = kept.union(b);
    let v = a.union(b);
    lemma_largest_len(a, k);
    assert(u.subset_of(v));
    assert forall|x: u64| largest(u, k).contains(x) implies largest(v, k).contains(x) by {
        assert forall|y: u64| above(v, x).contains(y) implies above(u, x).contains(y) by {
            if !u.contains(y) {
                // `y` was dropped from `a`, so all of `kept` exceeds it, and `x` with it.
                assert(a.contains(y) && !kept.contains(y));
                assert(kept.len() == k) by {
                    if a.len() <= k {
                        lemma_largest_of_small(a, k);
                    }
                }
                assert forall|t: u64| kept.contains(t) implies above(u, x).contains(t) by {
                    lemma_largest_dominates(a, k, t, y);
                }
                lemma_above_bounds(u, x);
                assert(kept.subset_of(above(u, x)));
                lemma_len_subset(kept, above(u, x));
            }
        }
        assert(above(v, x) =~= above(u, x));
    }
    assert forall|x: u64| largest(v, k).contains(x) implies largest(u, k).contains(x) by {
        lemma_above_bounds(v, x);
        if !b.contains(x) {
            assert(above(a, x).subset_of(above(v, x)));
            lemma_len_subset(above(a, x), above(v, x));
        }
        assert(above(u, x).subset_of(above(v, x)));
        lemma_len_subset(above(u, x), above(v, x));
    }
    assert(largest(u, k) =~= largest(v, k));
}

/// A set one over the bound loses exactly its smallest element.
pub proof fn lemma_largest_drops_least(s: Set<u64>, k: nat, m: u64)
    requires
        s.finite(),
        s.len() == k + 1,
        is_least(s, m),
    ensures
        largest(s, k) == s.remove(m),
{
    lemma_largest_without_least(s, k, m);
    lemma_largest_of_small(s.remove(m), k);
}

/// `BTreeSet::pop_first`: removes the minimum element of the set and returns
/// it; on an empty set returns `None` and changes nothing.
#[verifier::external_body]
pub(crate) fn set_pop_first(set: &mut BTreeSet<u64>) -> (first: Option<u64>)
    ensures
        match first {
            Some(m) => is_least(old(set)@, m) && final(set)@ == old(set)@.remove(m),
            None => old(set)@.len() == 0 && final(set)@ == old(set)@,
        },
{
    set.pop_first()
}

/// `BTreeMap::pop_first`: removes the entry with the minimum key and returns
/// it; on an empty map returns `None` and changes nothing.
#[verifier::external_body]
pub(crate) fn map_pop_first<V>(map: &mut BTreeMap<u64, V>) -> (first: Option<(u64, V)>)
    ensures
        match first {
            Some((m, v)) => is_least(old(map)@.dom(), m) && old(map)@[m] == v && final(map)@
                == old(map)@.remove(m),
            None => old(map)@.dom().len() == 0 && final(map)@ == old(map)@,
        },
{
    map.pop_first()
}

/// Drops the smallest elements of `set` until at most `limit` are left.
pub fn retain_largest(set: &mut BTreeSet<u64>, limit: usize)
    requires
        old(set)@.finite(),
    ensures
        final(set)@ == largest(old(set)@, limit as nat),
        final(set)@.finite(),
        final(set)@.len() <= limit,
{
    while set.len() > limit
        invariant
            set@.finite(),
            largest(set@, limit as nat) == largest(old(set)@, limit as nat),
        decreases set@.len(),
    {
        let ghost before = set@;
        let first = set_pop_first(set);
        proof {
            let m = first->0;
            lemma_largest_without_least(before, limit as nat, m);
        }
    }
    proof {
        lemma_largest_of_small(set@, limit as nat);
    }
}

/// Drops the entries of `map` with the smallest keys until at most `limit` are left.
pub fn retain_largest_keys<V>(map: &mut BTreeMap<u64, V>, limit: usize)
    ensures
        final(map)@ == old(map)@.restrict(largest(old(map)@.dom(), limit as nat)),
        final(map)@.dom().len() <= limit,
{
    while map.len() > limit
        invariant
            map@.dom().finite(),
            map@.dom().subset_of(old(map)@.dom()),
            map@ == old(map)@.restrict(map@.dom()),
            largest(map@.dom(), limit as nat) == largest(old(map)@.dom(), limit as nat),
        decreases map@.dom().len(),
    {
        let ghost before = map@;
        let first = map_pop_first(map);
        proof {
            let m = (first->0).0;
            lemma_largest_without_least(before.dom(), limit as nat, m);
            assert(map@ =~= old(map)@.restrict(map@.dom()));
        }
    }
    proof {
        lemma_largest_of_small(map@.dom(), limit as nat);
    }
}

} // verus!
