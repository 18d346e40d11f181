//! Sums over the entries of a finite map.
use vstd::prelude::*;

verus! {

broadcast use vstd::set::group_set_axioms;

/// Adds the size of the entry at `k` of `m` to the running sum.
pub open spec fn add_entry<K, V>(m: Map<K, V>, size: spec_fn(V) -> nat) -> spec_fn(nat, K) -> nat {
    |acc: nat, k: K| acc + size(m[k])
}

/// The sum of `size` over the values of `m`.
pub open spec fn map_total<K, V>(m: Map<K, V>, size: spec_fn(V) -> nat) -> nat {
    m.dom().fold(0nat, add_entry(m, size))
}

proof fn lemma_add_entry_commutative<K, V>(m: Map<K, V>, size: spec_fn(V) -> nat)
    ensures
        vstd::set::fold::is_fun_commutative(add_entry(m, size)),
{
}

/// Folding over keys on which two maps have values of equal size gives equal sums.
proof fn lemma_fold_agree<K, V>(s: Set<K>, m1: Map<K, V>, m2: Map<K, V>, size: spec_fn(V) -> nat)
    requires
        s.finite(),
        forall|k: K| #[trigger] s.contains(k) ==> size(m1[k]) == size(m2[k]),
    ensures
        s.fold(0nat, add_entry(m1, size)) == s.fold(0nat, add_entry(m2, size)),
    decreases s.len(),
{
    lemma_add_entry_commutative(m1, size);
    lemma_add_entry_commutative(m2, size);
    if s.len() == 0 {
        assert(s =~= Set::empty());
        vstd::set::fold::lemma_fold_empty(0nat, add_entry(m1, size));
        vstd::set::fold::lemma_fold_empty(0nat, add_entry(m2, size));
    } else {
        let a = s.choose();
        let s0 = s.remove(a);
        lemma_fold_agree(s0, m1, m2, size);
        assert(s0.insert(a) =~= s);
        vstd::set::fold::lemma_fold_insert(s0, 0nat, add_entry(m1, size), a);
        vstd::set::fold::lemma_fold_insert(s0, 0nat, add_entry(m2, size), a);
    }
}

/// A map without entries sums to zero.
pub proof fn lemma_map_total_empty<K, V>(m: Map<K, V>, size: spec_fn(V) -> nat)
    requires
        m.dom() =~= Set::empty(),
    ensures
        map_total(m, size) == 0,
{
    vstd::set::fold::lemma_fold_empty(0nat, add_entry(m, size));
}

/// The sum is the entry at `k` plus the sum without it.
pub proof fn lemma_map_total_remove<K, V>(m: Map<K, V>, k: K, size: spec_fn(V) -> nat)
    requires
        m.dom().finite(),
        m.contains_key(k),
    ensures
        map_total(m, size) == map_total(m.remove(k), size) + size(m[k]),
{
    let r = m.remove(k);
    lemma_add_entry_commutative(m, size);
    lemma_fold_agree(r.dom(), m, r, size);
    vstd::set::fold::lemma_fold_insert(r.dom(), 0nat, add_entry(m, size), k);
    assert(r.dom().insert(k) =~= m.dom());
}

/// Setting the entry at `k` to `v` gives the sum without `k` plus the size of `v`.
pub proof fn lemma_map_total_insert<K, V>(m: Map<K, V>, k: K, v: V, size: spec_fn(V) -> nat)
    requires
        m.dom().finite(),
    ensures
        map_total(m.insert(k, v), size) == map_total(m.remove(k), size) + size(v),
{
    let n = m.insert(k, v);
    lemma_map_total_remove(n, k, size);
    assert(n.remove(k) =~= m.remove(k));
}

/// The sum of `size` over the values of a sequence of pairs.
pub open spec fn pairs_total<K, V>(ps: Seq<(K, V)>, size: spec_fn(V) -> nat) -> nat
    decreases ps.len(),
{
    if ps.len() == 0 {
        0
    } else {
        pairs_total(ps.drop_last(), size) + size(ps.last().1)
    }
}

/// The sum over a sequence is at least the sum over any of its prefixes.
pub proof fn lemma_pairs_total_prefix<K, V>(ps: Seq<(K, V)>, j: int, size: spec_fn(V) -> nat)
    requires
        0 <= j <= ps.len(),
    ensures
        pairs_total(ps.take(j), size) <= pairs_total(ps, size),
    decreases ps.len(),
{
    if j < ps.len() {
        lemma_pairs_total_prefix(ps.drop_last(), j, size);
        assert(ps.drop_last().take(j) =~= ps.take(j));
    } else {
        assert(ps.take(j) =~= ps);
    }
}

/// Summing over a sequence that holds each key of a finite map once, with its
/// value, gives the sum over the map.
pub proof fn lemma_pairs_total_listing<K, V>(ps: Seq<(K, V)>, m: Map<K, V>, size: spec_fn(V) -> nat)
    requires
        m.dom().finite(),
        ps.len() == m.len(),
        forall|i: int, j: int|
            0 <= i < ps.len() && 0 <= j < ps.len() && i != j ==> #[trigger] ps[i].0 != #[trigger] ps[j].0,
        forall|i: int| 0 <= i < ps.len() ==> m.contains_key(#[trigger] ps[i].0) && m[ps[i].0] == ps[i].1,
    ensures
        pairs_total(ps, size) == map_total(m, size),
    decreases ps.len(),
{
    if ps.len() == 0 {
        assert(m.dom() =~= Set::empty()) by {
            if m.dom().len() != 0 {
                let k = m.dom().choose();
                assert(m.dom().contains(k));
            }
        }
        lemma_map_total_empty(m, size);
    } else {
        let n = ps.len() - 1;
        let k = ps[n].0;
        let p0 = ps.drop_last();
        let m0 = m.remove(k);
        assert forall|i: int, j: int|
            0 <= i < p0.len() && 0 <= j < p0.len() && i != j implies #[trigger] p0[i].0 != #[trigger] p0[j].0 by {
            assert(ps[i].0 != ps[j].0);
        }
        assert forall|i: int| 0 <= i < p0.len() implies m0.contains_key(#[trigger] p0[i].0) && m0[p0[i].0] == p0[i].1 by {
            assert(ps[i].0 != ps[n].0);
        }
        assert(m.contains_key(k));
        lemma_pairs_total_listing(p0, m0, size);
        lemma_map_total_remove(m, k, size);
    }
}

} // verus!
