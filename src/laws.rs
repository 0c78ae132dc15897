use crate::key::TableKey;
use crate::table::{contained_in, HashMap};
use vstd::prelude::*;
use vstd::set_lib::lemma_len_subset;
use vstd::std_specs::cmp::PartialEqSpec;

verus! {

/// A table whose keys are as many as its buckets is full: its length is its
/// capacity, so `insert` of a further key returns `(false, None)` and leaves the
/// table as it was.
pub proof fn lemma_capacity_ceiling<K: TableKey, V>(m: &HashMap<K, V>)
    requires
        m.wf(),
        m@.dom().len() == m.spec_cap(),
    ensures
        m.spec_len() == m.spec_cap(),
{
    m.lemma_len_counts_keys();
}

/// The association after inserting `pairs` in order into `m`.
pub open spec fn insert_all<V>(m: Map<Seq<u8>, V>, pairs: Seq<(Seq<u8>, V)>) -> Map<Seq<u8>, V>
    decreases pairs.len(),
{
    if pairs.len() == 0 {
        m
    } else {
        insert_all(m, pairs.drop_last()).insert(pairs.last().0, pairs.last().1)
    }
}

/// After a run of inserts with no removal, every inserted key is found with the
/// value it was given last.
pub proof fn lemma_round_trip<V>(m: Map<Seq<u8>, V>, pairs: Seq<(Seq<u8>, V)>, i: int)
    requires
        0 <= i < pairs.len(),
        forall|j: int| i < j < pairs.len() ==> #[trigger] pairs[j].0 != pairs[i].0,
    ensures
        insert_all(m, pairs).contains_key(pairs[i].0),
        insert_all(m, pairs)[pairs[i].0] == pairs[i].1,
    decreases pairs.len(),
{
    if i < pairs.len() - 1 {
        let d = pairs.drop_last();
        assert forall|j: int| i < j < d.len() implies #[trigger] d[j].0 != d[i].0 by {
            assert(d[j] == pairs[j]);
        }
        lemma_round_trip(m, d, i);
        assert(pairs.last().0 != pairs[i].0);
    }
}

/// Inserting two different keys gives the same contents in either order.
pub proof fn lemma_insert_order<V>(m: Map<Seq<u8>, V>, k1: Seq<u8>, v1: V, k2: Seq<u8>, v2: V)
    requires
        k1 != k2,
    ensures
        m.insert(k1, v1).insert(k2, v2) == m.insert(k2, v2).insert(k1, v1),
{
    assert(m.insert(k1, v1).insert(k2, v2) =~= m.insert(k2, v2).insert(k1, v1));
}

/// A table equals itself, where `==` on values is reflexive.
pub proof fn lemma_eq_reflexive<K: TableKey, V: PartialEq>(a: &HashMap<K, V>)
    requires
        forall|x: V| #[trigger] x.eq_spec(&x),
    ensures
        a.eq_spec(a),
{
}

/// Two tables with the same contents are equal, whatever order their keys were
/// inserted in, where `==` on values is reflexive.
pub proof fn lemma_eq_same_contents<K: TableKey, V: PartialEq>(a: &HashMap<K, V>, b: &HashMap<K, V>)
    requires
        a.wf(),
        b.wf(),
        a@ == b@,
        forall|x: V| #[trigger] x.eq_spec(&x),
    ensures
        a.eq_spec(b),
{
    a.lemma_len_counts_keys();
    b.lemma_len_counts_keys();
}

/// Equality of tables is symmetric, where `==` on values is symmetric.
pub proof fn lemma_eq_symmetric<K: TableKey, V: PartialEq>(a: &HashMap<K, V>, b: &HashMap<K, V>)
    requires
        a.wf(),
        b.wf(),
        a.eq_spec(b),
        forall|x: V, y: V| #[trigger] x.eq_spec(&y) ==> y.eq_spec(&x),
    ensures
        b.eq_spec(a),
{
    a.lemma_len_counts_keys();
    b.lemma_len_counts_keys();
    assert(a@.dom().subset_of(b@.dom()));
    if !b@.dom().subset_of(a@.dom()) {
        let k = choose|k: Seq<u8>| b@.dom().contains(k) && !a@.dom().contains(k);
        lemma_len_subset(a@.dom(), b@.dom().remove(k));
    }
    assert(contained_in(b@, a@));
}

} // verus!
