use vstd::prelude::*;
use vstd::multiset::Multiset;

verus! {

broadcast use vstd::multiset::group_multiset_axioms;

/// The contents reached from `m` by inserting the values of `s` in order,
/// as `MultiAVL::insert` describes each step.
pub open spec fn after_inserts<T>(m: Multiset<T>, s: Seq<T>) -> Multiset<T>
    decreases s.len(),
{
    if s.len() == 0 {
        m
    } else {
        after_inserts(m, s.drop_last()).insert(s.last())
    }
}

/// The contents reached from `m` by inserting `v` `k` times.
pub open spec fn insert_times<T>(m: Multiset<T>, v: T, k: nat) -> Multiset<T>
    decreases k,
{
    if k == 0 {
        m
    } else {
        insert_times(m, v, (k - 1) as nat).insert(v)
    }
}

/// The contents reached from `m` by erasing `v` `j` times, as
/// `MultiAVL::erase` describes each step.
pub open spec fn erase_times<T>(m: Multiset<T>, v: T, j: nat) -> Multiset<T>
    decreases j,
{
    if j == 0 {
        m
    } else {
        erase_times(m, v, (j - 1) as nat).remove(v)
    }
}

/// Inserting values one by one into an empty tree leaves every inserted
/// value held, and the size equal to the number of inserts.
pub proof fn law_inserted_values_are_held<T>(s: Seq<T>)
    ensures
        forall|i: int| 0 <= i < s.len() ==> #[trigger] after_inserts(Multiset::empty(), s).count(s[i]) > 0,
        after_inserts(Multiset::empty(), s).len() == s.len(),
    decreases s.len(),
{
    if s.len() > 0 {
        let p = s.drop_last();
        law_inserted_values_are_held(p);
        assert forall|i: int| 0 <= i < s.len() implies #[trigger] after_inserts(Multiset::empty(), s).count(s[i]) > 0 by {
            if i < s.len() - 1 {
                assert(p[i] == s[i]);
                assert(after_inserts(Multiset::empty(), p).count(p[i]) > 0);
            }
        }
    }
}

/// Erasing a value that is not held changes neither the size nor whether
/// any value is held.
pub proof fn law_erase_absent<T>(m: Multiset<T>, v: T)
    requires
        m.count(v) == 0,
    ensures
        m.remove(v) =~= m,
        m.remove(v).len() == m.len(),
{
    assert(m.remove(v) =~= m);
}

proof fn lemma_insert_times<T>(m: Multiset<T>, v: T, k: nat)
    ensures
        insert_times(m, v, k).count(v) == m.count(v) + k,
        forall|w: T| w != v ==> #[trigger] insert_times(m, v, k).count(w) == m.count(w),
    decreases k,
{
    if k > 0 {
        lemma_insert_times(m, v, (k - 1) as nat);
    }
}

proof fn lemma_erase_times<T>(m: Multiset<T>, v: T, j: nat)
    ensures
        erase_times(m, v, j).count(v) == if m.count(v) >= j { (m.count(v) - j) as nat } else { 0 },
        forall|w: T| w != v ==> #[trigger] erase_times(m, v, j).count(w) == m.count(w),
    decreases j,
{
    if j > 0 {
        lemma_erase_times(m, v, (j - 1) as nat);
    }
}

/// Inserting a value that is not held `k` times and then erasing it: it
/// stays held through the first `k - 1` erases, is gone after the `k`-th,
/// and every further erase leaves the contents, and so the size, as they
/// were before the inserts.
pub proof fn law_insert_then_erase<T>(m: Multiset<T>, v: T, k: nat, j: nat)
    requires
        m.count(v) == 0,
    ensures
        erase_times(insert_times(m, v, k), v, j).count(v) > 0 <==> j < k,
        j >= k ==> erase_times(insert_times(m, v, k), v, j) =~= m,
{
    lemma_insert_times(m, v, k);
    lemma_erase_times(insert_times(m, v, k), v, j);
}

} // verus!
