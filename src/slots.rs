use crate::key::{image_hash, TableKey};
use vstd::prelude::*;

verus! {

/// One bucket of the table: either unoccupied or holding one key and its value.
pub enum Entry<K, V> {
    Empty,
    KeyPair(K, V),
}

impl<K, V> Entry<K, V> {
    pub fn key(&self) -> (r: Option<&K>)
        ensures
            match self {
                Entry::KeyPair(k, _) => r == Some(k),
                Entry::Empty => r is None,
            },
    {
        match self {
            Entry::KeyPair(k, _) => Some(k),
            Entry::Empty => None,
        }
    }

    pub fn value(&self) -> (r: Option<&V>)
        ensures
            match self {
                Entry::KeyPair(_, v) => r == Some(v),
                Entry::Empty => r is None,
            },
    {
        match self {
            Entry::KeyPair(_, v) => Some(v),
            Entry::Empty => None,
        }
    }

    /// A mutable reference to the value of an occupied entry; writing through it
    /// keeps the key.
    pub fn value_mut(&mut self) -> (r: Option<&mut V>)
        ensures
            match *old(self) {
                Entry::KeyPair(k, v) => r matches Some(m) && *m == v && *final(self)
                    == Entry::KeyPair(k, *final(m)),
                Entry::Empty => r is None && *final(self) == Entry::<K, V>::Empty,
            },
    {
        match self {
            Entry::KeyPair(_, v) => Some(v),
            Entry::Empty => None,
        }
    }

    pub fn is_empty(&self) -> (r: bool)
        ensures
            r == (self is Empty),
    {
        match self {
            Entry::Empty => true,
            Entry::KeyPair(..) => false,
        }
    }
}

pub open spec fn occ<K, V>(e: Entry<K, V>) -> bool {
    e is KeyPair
}

/// The byte image of the key held by an occupied entry.
pub open spec fn img_of<K: TableKey, V>(e: Entry<K, V>) -> Seq<u8> {
    match e {
        Entry::KeyPair(k, _) => k.image(),
        Entry::Empty => Seq::empty(),
    }
}

pub open spec fn val_of<K, V>(e: Entry<K, V>) -> V {
    match e {
        Entry::KeyPair(_, v) => v,
        Entry::Empty => arbitrary(),
    }
}

/// Slot `i` holds the key whose image is `k`.
pub open spec fn holds<K: TableKey, V>(s: Seq<Entry<K, V>>, i: int, k: Seq<u8>) -> bool {
    0 <= i < s.len() && occ(s[i]) && img_of(s[i]) == k
}

/// The bucket a key with image `k` hashes to in a table of `cap` buckets.
pub open spec fn home(k: Seq<u8>, cap: int) -> int {
    (image_hash(k) as int) % cap
}

/// The bucket visited at step `t` of a probe that starts at `h`.
pub open spec fn probe_pos(h: int, t: int, cap: int) -> int {
    if h + t < cap {
        h + t
    } else {
        h + t - cap
    }
}

/// How many steps a probe from `h` takes to reach bucket `j`.
pub open spec fn disp(h: int, j: int, cap: int) -> int {
    if j >= h {
        j - h
    } else {
        j + cap - h
    }
}

/// Every bucket that a probe for the key in slot `j` passes before reaching `j` is occupied.
pub open spec fn chain_ok<K: TableKey, V>(s: Seq<Entry<K, V>>, j: int) -> bool {
    occ(s[j]) ==> forall|u: int|
        0 <= u < disp(home(img_of(s[j]), s.len() as int), j, s.len() as int) ==> #[trigger] occ(
            s[probe_pos(home(img_of(s[j]), s.len() as int), u, s.len() as int)],
        )
}

/// No key occupies two slots.
pub open spec fn unique_keys<K: TableKey, V>(s: Seq<Entry<K, V>>) -> bool {
    forall|i: int, j: int|
        0 <= i < s.len() && 0 <= j < s.len() && occ(s[i]) && occ(s[j]) && #[trigger] img_of(s[i])
            == #[trigger] img_of(s[j]) ==> i == j
}

/// The number of occupied slots.
pub open spec fn count_occ<K, V>(s: Seq<Entry<K, V>>) -> nat
    decreases s.len(),
{
    if s.len() == 0 {
        0
    } else {
        count_occ(s.drop_last()) + if occ(s.last()) {
            1nat
        } else {
            0nat
        }
    }
}

/// The key/value association that a slot array stores.
pub open spec fn slots_view<K: TableKey, V>(s: Seq<Entry<K, V>>) -> Map<Seq<u8>, V> {
    Map::new(
        |k: Seq<u8>| exists|i: int| holds(s, i, k),
        |k: Seq<u8>| val_of(s[choose|i: int| holds(s, i, k)]),
    )
}

pub proof fn lemma_probe_disp(h: int, j: int, cap: int)
    requires
        0 <= h < cap,
        0 <= j < cap,
    ensures
        0 <= disp(h, j, cap) < cap,
        probe_pos(h, disp(h, j, cap), cap) == j,
{
}

pub proof fn lemma_disp_probe(h: int, t: int, cap: int)
    requires
        0 <= h < cap,
        0 <= t < cap,
    ensures
        0 <= probe_pos(h, t, cap) < cap,
        disp(h, probe_pos(h, t, cap), cap) == t,
{
}

pub proof fn lemma_count_bound<K, V>(s: Seq<Entry<K, V>>)
    ensures
        count_occ(s) <= s.len(),
        (exists|i: int| 0 <= i < s.len() && !occ(#[trigger] s[i])) ==> count_occ(s) < s.len(),
        (forall|i: int| 0 <= i < s.len() ==> occ(#[trigger] s[i])) ==> count_occ(s) == s.len(),
    decreases s.len(),
{
    if s.len() > 0 {
        let d = s.drop_last();
        lemma_count_bound(d);
        if exists|i: int| 0 <= i < s.len() && !occ(#[trigger] s[i]) {
            let i = choose|i: int| 0 <= i < s.len() && !occ(#[trigger] s[i]);
            if i < s.len() - 1 {
                assert(!occ(d[i]));
            }
        }
        if forall|i: int| 0 <= i < s.len() ==> occ(#[trigger] s[i]) {
            assert forall|i: int| 0 <= i < d.len() implies occ(#[trigger] d[i]) by {
                assert(occ(s[i]));
            }
        }
    }
}

pub proof fn lemma_count_update<K, V>(s: Seq<Entry<K, V>>, i: int, e: Entry<K, V>)
    requires
        0 <= i < s.len(),
    ensures
        count_occ(s.update(i, e)) as int == count_occ(s) as int - (if occ(s[i]) {
            1int
        } else {
            0int
        }) + (if occ(e) {
            1int
        } else {
            0int
        }),
    decreases s.len(),
{
    let t = s.update(i, e);
    if i == s.len() - 1 {
        assert(t.drop_last() =~= s.drop_last());
    } else {
        lemma_count_update(s.drop_last(), i, e);
        assert(t.drop_last() =~= s.drop_last().update(i, e));
    }
}

pub proof fn lemma_count_prefix<K, V>(s: Seq<Entry<K, V>>, n: int)
    requires
        0 <= n < s.len(),
    ensures
        count_occ(s.subrange(0, n + 1)) == count_occ(s.subrange(0, n)) + if occ(s[n]) {
            1nat
        } else {
            0nat
        },
{
    assert(s.subrange(0, n + 1).drop_last() =~= s.subrange(0, n));
}

pub proof fn lemma_view_at<K: TableKey, V>(s: Seq<Entry<K, V>>, i: int)
    requires
        unique_keys(s),
        0 <= i < s.len(),
        occ(s[i]),
    ensures
        slots_view(s).contains_key(img_of(s[i])),
        slots_view(s)[img_of(s[i])] == val_of(s[i]),
{
    let k = img_of(s[i]);
    assert(holds(s, i, k));
    let j = choose|j: int| holds(s, j, k);
    assert(img_of(s[i]) == img_of(s[j]));
}

pub proof fn lemma_view_absent<K: TableKey, V>(s: Seq<Entry<K, V>>, k: Seq<u8>)
    requires
        forall|j: int| 0 <= j < s.len() ==> !holds(s, j, k),
    ensures
        !slots_view(s).contains_key(k),
{
}

/// Writing an entry into slot `i`, where no other slot holds its key, changes the
/// association at that key only.
pub proof fn lemma_view_write<K: TableKey, V>(s: Seq<Entry<K, V>>, i: int, e: Entry<K, V>)
    requires
        unique_keys(s),
        0 <= i < s.len(),
        occ(e),
        !occ(s[i]) || img_of(s[i]) == img_of(e),
        forall|j: int| 0 <= j < s.len() && j != i ==> !holds(s, j, img_of(e)),
    ensures
        unique_keys(s.update(i, e)),
        slots_view(s.update(i, e)) =~= slots_view(s).insert(img_of(e), val_of(e)),
{
    let t = s.update(i, e);
    let k = img_of(e);
    assert forall|a: int, b: int|
        0 <= a < t.len() && 0 <= b < t.len() && occ(t[a]) && occ(t[b]) && #[trigger] img_of(t[a])
            == #[trigger] img_of(t[b]) implies a == b by {
        if a != i && b != i {
            assert(img_of(s[a]) == img_of(s[b]));
        } else if a == i && b != i {
            assert(holds(s, b, k));
        } else if a != i && b == i {
            assert(holds(s, a, k));
        }
    }
    lemma_view_at(t, i);
    let tv = slots_view(t);
    let ev = slots_view(s).insert(k, val_of(e));
    assert forall|k2: Seq<u8>| #[trigger] tv.contains_key(k2) == ev.contains_key(k2) && (
    tv.contains_key(k2) ==> tv[k2] == ev[k2]) by {
        if k2 != k && slots_view(s).contains_key(k2) {
            let j = choose|j: int| holds(s, j, k2);
            assert(j != i);
            assert(t[j] == s[j]);
            lemma_view_at(s, j);
            lemma_view_at(t, j);
        }
        if k2 != k && slots_view(t).contains_key(k2) {
            let j = choose|j: int| holds(t, j, k2);
            assert(j != i);
            assert(holds(s, j, k2));
        }
    }
    assert(tv =~= ev);
}

/// Emptying slot `i` drops its key from the association and keeps the others.
pub proof fn lemma_view_clear<K: TableKey, V>(s: Seq<Entry<K, V>>, i: int)
    requires
        unique_keys(s),
        0 <= i < s.len(),
        occ(s[i]),
    ensures
        unique_keys(s.update(i, Entry::Empty)),
        slots_view(s.update(i, Entry::Empty)) =~= slots_view(s).remove(img_of(s[i])),
{
    let t = s.update(i, Entry::Empty);
    let k = img_of(s[i]);
    assert forall|a: int, b: int|
        0 <= a < t.len() && 0 <= b < t.len() && occ(t[a]) && occ(t[b]) && #[trigger] img_of(t[a])
            == #[trigger] img_of(t[b]) implies a == b by {
        assert(img_of(s[a]) == img_of(s[b]));
    }
    assert forall|j: int| 0 <= j < t.len() implies !holds(t, j, k) by {
        if holds(t, j, k) {
            assert(img_of(s[j]) == img_of(s[i]));
        }
    }
    let tv = slots_view(t);
    let ev = slots_view(s).remove(k);
    assert forall|k2: Seq<u8>| #[trigger] tv.contains_key(k2) == ev.contains_key(k2) && (
    tv.contains_key(k2) ==> tv[k2] == ev[k2]) by {
        if k2 != k && slots_view(s).contains_key(k2) {
            let j = choose|j: int| holds(s, j, k2);
            assert(j != i);
            assert(t[j] == s[j]);
            lemma_view_at(s, j);
            lemma_view_at(t, j);
        }
        if slots_view(t).contains_key(k2) {
            let j = choose|j: int| holds(t, j, k2);
            assert(holds(s, j, k2));
        }
    }
    assert(tv =~= ev);
}

/// Writing an occupied entry into slot `i` keeps every probe chain intact, when
/// slot `i` held the same key before, or was empty and every bucket that a probe
/// for the new key passes before `i` is occupied.
pub proof fn lemma_chain_write<K: TableKey, V>(s: Seq<Entry<K, V>>, i: int, e: Entry<K, V>)
    requires
        forall|j: int| 0 <= j < s.len() ==> #[trigger] chain_ok(s, j),
        0 <= i < s.len(),
        occ(e),
        (occ(s[i]) && img_of(s[i]) == img_of(e)) || (!occ(s[i]) && forall|u: int|
            0 <= u < disp(home(img_of(e), s.len() as int), i, s.len() as int) ==> #[trigger] occ(
                s[probe_pos(home(img_of(e), s.len() as int), u, s.len() as int)],
            )),
    ensures
        forall|j: int| 0 <= j < s.len() ==> #[trigger] chain_ok(s.update(i, e), j),
{
    let t = s.update(i, e);
    let n = s.len() as int;
    assert forall|j: int| 0 <= j < s.len() implies #[trigger] chain_ok(t, j) by {
        assert(chain_ok(s, j));
        if occ(t[j]) {
            let h = home(img_of(t[j]), n);
            assert forall|u: int| 0 <= u < disp(h, j, n) implies #[trigger] occ(
                t[probe_pos(h, u, n)],
            ) by {
                let p = probe_pos(h, u, n);
                if p != i {
                    if j == i && !occ(s[i]) {
                        assert(occ(s[probe_pos(home(img_of(e), n), u, n)]));
                    } else {
                        assert(occ(s[probe_pos(home(img_of(s[j]), n), u, n)]));
                    }
                }
            }
        }
    }
}

pub open spec fn key_of<K, V>(e: Entry<K, V>) -> K {
    match e {
        Entry::KeyPair(k, _) => k,
        Entry::Empty => arbitrary(),
    }
}

/// The occupied slots' pairs, in bucket order.
pub open spec fn pairs_of<K, V>(s: Seq<Entry<K, V>>) -> Seq<(K, V)>
    decreases s.len(),
{
    if s.len() == 0 {
        Seq::empty()
    } else {
        pairs_of(s.drop_last()) + match s.last() {
            Entry::KeyPair(k, v) => seq![(k, v)],
            Entry::Empty => Seq::empty(),
        }
    }
}

pub proof fn lemma_pairs_of<K, V>(s: Seq<Entry<K, V>>)
    ensures
        pairs_of(s).len() == count_occ(s),
        forall|j: int|
            0 <= j < pairs_of(s).len() ==> exists|i: int|
                0 <= i < s.len() && #[trigger] s[i] == Entry::KeyPair(
                    (#[trigger] pairs_of(s)[j]).0,
                    pairs_of(s)[j].1,
                ),
        forall|i: int|
            0 <= i < s.len() && occ(#[trigger] s[i]) ==> exists|j: int|
                0 <= j < pairs_of(s).len() && #[trigger] pairs_of(s)[j] == (key_of(s[i]), val_of(s[i])),
    decreases s.len(),
{
    if s.len() > 0 {
        let d = s.drop_last();
        lemma_pairs_of(d);
        let p = pairs_of(s);
        let q = pairs_of(d);
        let n = s.len() - 1;
        assert forall|j: int| 0 <= j < p.len() implies exists|i: int|
            0 <= i < s.len() && #[trigger] s[i] == Entry::KeyPair((#[trigger] p[j]).0, p[j].1) by {
            if j < q.len() {
                assert(p[j] == q[j]);
                let i = choose|i: int| 0 <= i < d.len() && #[trigger] d[i] == Entry::KeyPair(q[j].0, q[j].1);
                assert(s[i] == d[i]);
            } else {
                assert(s[n] == Entry::KeyPair(p[j].0, p[j].1));
            }
        }
        assert forall|i: int| 0 <= i < s.len() && occ(#[trigger] s[i]) implies exists|j: int|
            0 <= j < p.len() && #[trigger] p[j] == (key_of(s[i]), val_of(s[i])) by {
            if i < n {
                assert(d[i] == s[i]);
                let j = choose|j: int| 0 <= j < q.len() && #[trigger] q[j] == (key_of(d[i]), val_of(d[i]));
                assert(p[j] == q[j]);
            } else {
                assert(p[q.len() as int] == (key_of(s[i]), val_of(s[i])));
            }
        }
    }
}

/// With unique keys, the association has exactly as many keys as there are
/// occupied slots.
pub proof fn lemma_view_len<K: TableKey, V>(s: Seq<Entry<K, V>>)
    requires
        unique_keys(s),
    ensures
        slots_view(s).dom().finite(),
        slots_view(s).dom().len() == count_occ(s),
    decreases s.len(),
{
    if s.len() == 0 {
        assert(slots_view(s).dom() =~= Set::<Seq<u8>>::empty());
    } else {
        let d = s.drop_last();
        let n = s.len() - 1;
        assert forall|a: int, b: int|
            0 <= a < d.len() && 0 <= b < d.len() && occ(d[a]) && occ(d[b]) && #[trigger] img_of(d[a])
                == #[trigger] img_of(d[b]) implies a == b by {
            assert(img_of(s[a]) == img_of(s[b]));
        }
        lemma_view_len(d);
        if occ(s[n]) {
            let k = img_of(s[n]);
            assert forall|k2: Seq<u8>| #[trigger]
                slots_view(s).dom().contains(k2) == slots_view(d).dom().insert(k).contains(k2) by {
                if k2 != k && slots_view(s).dom().contains(k2) {
                    let i = choose|i: int| holds(s, i, k2);
                    assert(holds(d, i, k2));
                }
                if slots_view(d).dom().contains(k2) {
                    let i = choose|i: int| holds(d, i, k2);
                    assert(holds(s, i, k2));
                }
                if k2 == k {
                    assert(holds(s, n, k2));
                }
            }
            assert(slots_view(s).dom() =~= slots_view(d).dom().insert(k));
            if slots_view(d).dom().contains(k) {
                let i = choose|i: int| holds(d, i, k);
                assert(img_of(s[i]) == img_of(s[n]));
            }
        } else {
            assert forall|k2: Seq<u8>| #[trigger]
                slots_view(s).dom().contains(k2) == slots_view(d).dom().contains(k2) by {
                if slots_view(s).dom().contains(k2) {
                    let i = choose|i: int| holds(s, i, k2);
                    assert(holds(d, i, k2));
                }
                if slots_view(d).dom().contains(k2) {
                    let i = choose|i: int| holds(d, i, k2);
                    assert(holds(s, i, k2));
                }
            }
            assert(slots_view(s).dom() =~= slots_view(d).dom());
        }
    }
}

/// Replacing the value in an occupied slot keeps the key where it is.
pub proof fn lemma_value_write<K: TableKey, V>(s: Seq<Entry<K, V>>, i: int, x: V)
    requires
        unique_keys(s),
        forall|j: int| 0 <= j < s.len() ==> #[trigger] chain_ok(s, j),
        0 <= i < s.len(),
        occ(s[i]),
    ensures
        unique_keys(s.update(i, Entry::KeyPair(key_of(s[i]), x))),
        forall|j: int|
            0 <= j < s.len() ==> #[trigger] chain_ok(s.update(i, Entry::KeyPair(key_of(s[i]), x)), j),
        count_occ(s.update(i, Entry::KeyPair(key_of(s[i]), x))) == count_occ(s),
        slots_view(s.update(i, Entry::KeyPair(key_of(s[i]), x))) == slots_view(s).insert(
            img_of(s[i]),
            x,
        ),
{
    let e = Entry::KeyPair(key_of(s[i]), x);
    assert forall|j: int| 0 <= j < s.len() && j != i implies !holds(s, j, img_of(e)) by {
        if holds(s, j, img_of(e)) {
            assert(img_of(s[j]) == img_of(s[i]));
        }
    }
    lemma_view_write(s, i, e);
    lemma_chain_write(s, i, e);
    lemma_count_update(s, i, e);
}

} // verus!
