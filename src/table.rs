use crate::key::{bytes_eq, hash_bytes, TableKey};
use crate::slots::{
    chain_ok, count_occ, disp, holds, home, img_of, key_of, lemma_chain_write, lemma_count_bound,
    lemma_count_prefix, lemma_count_update, lemma_disp_probe, lemma_pairs_of, lemma_probe_disp,
    lemma_value_write, lemma_view_absent, lemma_view_at, lemma_view_clear, lemma_view_len,
    lemma_view_write, occ, pairs_of, probe_pos, slots_view, unique_keys, val_of, Entry,
};
use vstd::prelude::*;
use vstd::std_specs::cmp::PartialEqSpec;

verus! {

/// The bucket array of a table, with the operations on it. Each operation
/// states the invariant `wf` it needs and keeps.
pub(crate) struct RawTable<K, V> {
    buckets: Vec<Entry<K, V>>,
    capacity: usize,
    length: usize,
}

impl<K: TableKey, V> View for RawTable<K, V> {
    type V = Map<Seq<u8>, V>;

    /// The association from key images to values.
    closed spec fn view(&self) -> Map<Seq<u8>, V> {
        slots_view(self.buckets@)
    }
}

impl<K: TableKey, V> RawTable<K, V> {
    /// The slot array, for stating facts about layout.
    pub closed spec fn slots(&self) -> Seq<Entry<K, V>> {
        self.buckets@
    }

    pub closed spec fn spec_cap(&self) -> nat {
        self.capacity as nat
    }

    pub closed spec fn spec_len(&self) -> nat {
        self.length as nat
    }

    /// The table's invariant: one slot per bucket, the count of occupied slots
    /// kept exactly, no key in two slots, and each key reachable by probing
    /// from its home bucket without crossing an empty slot.
    pub closed spec fn wf(&self) -> bool {
        &&& self.buckets@.len() == self.capacity
        &&& self.capacity > 0
        &&& self.length == count_occ(self.buckets@)
        &&& unique_keys(self.buckets@)
        &&& forall|j: int| 0 <= j < self.buckets@.len() ==> #[trigger] chain_ok(self.buckets@, j)
    }

    /// The count of occupied slots never exceeds the capacity, and is zero only
    /// when the table holds nothing.
    pub proof fn lemma_len_bounded(&self)
        requires
            self.wf(),
        ensures
            self.spec_len() <= self.spec_cap(),
            self.spec_cap() > 0,
            self.spec_len() == 0 ==> self@ == Map::<Seq<u8>, V>::empty(),
    {
        lemma_count_bound(self.buckets@);
        if self.length == 0 {
            assert forall|i: int| 0 <= i < self.buckets@.len() implies !occ(
                #[trigger] self.buckets@[i],
            ) by {
                if occ(self.buckets@[i]) {
                    lemma_count_update(self.buckets@, i, Entry::Empty);
                    lemma_count_bound(self.buckets@.update(i, Entry::Empty));
                }
            }
            assert(self@ =~= Map::<Seq<u8>, V>::empty());
        }
    }

    /// A table of `capacity` buckets, all empty.
    pub fn with_capacity(capacity: usize) -> (r: Self)
        requires
            capacity > 0,
        ensures
            r.wf(),
            r.spec_cap() == capacity,
            r.spec_len() == 0,
            r@ == Map::<Seq<u8>, V>::empty(),
    {
        let mut buckets: Vec<Entry<K, V>> = Vec::with_capacity(capacity);
        let mut i: usize = 0;
        while i < capacity
            invariant
                i <= capacity,
                buckets@.len() == i,
                forall|j: int| 0 <= j < i ==> !occ(#[trigger] buckets@[j]),
            decreases capacity - i,
        {
            buckets.push(Entry::Empty);
            i += 1;
        }
        let r = RawTable { buckets, capacity, length: 0 };
        proof {
            lemma_all_empty(r.buckets@);
        }
        r
    }

    /// The home bucket of a key image.
    fn find_bucket(&self, img: &Vec<u8>) -> (r: usize)
        requires
            self.wf(),
        ensures
            r == home(img@, self.capacity as int),
            r < self.capacity,
    {
        let h = hash_bytes(img);
        (h % (self.capacity as u64)) as usize
    }

    /// Probes for a key image from its home bucket. Returns `(true, i)` when slot
    /// `i` holds the key; `(false, i)` with `i` below the capacity when the key is
    /// absent and `i` is the first empty slot on its probe path; `(false, cap)`
    /// when the key is absent and no slot is empty.
    fn locate(&self, img: &Vec<u8>) -> (r: (bool, usize))
        requires
            self.wf(),
        ensures
            r.1 <= self.capacity,
            r.0 ==> r.1 < self.capacity && holds(self.buckets@, r.1 as int, img@),
            !r.0 ==> forall|j: int| 0 <= j < self.capacity ==> !holds(self.buckets@, j, img@),
            !r.0 && r.1 < self.capacity ==> !occ(self.buckets@[r.1 as int]) && forall|u: int|
                0 <= u < disp(home(img@, self.capacity as int), r.1 as int, self.capacity as int)
                    ==> #[trigger] occ(
                    self.buckets@[probe_pos(
                        home(img@, self.capacity as int),
                        u,
                        self.capacity as int,
                    )],
                ),
            !r.0 && r.1 == self.capacity ==> forall|j: int|
                0 <= j < self.capacity ==> occ(#[trigger] self.buckets@[j]),
    {
        let cap = self.capacity;
        let h = self.find_bucket(img);
        let ghost s = self.buckets@;
        let ghost hi = h as int;
        let mut t: usize = 0;
        let mut idx: usize = h;
        while t < cap
            invariant
                self.wf(),
                cap == self.capacity,
                s == self.buckets@,
                hi == home(img@, cap as int),
                0 <= hi < cap,
                t <= cap,
                t < cap ==> idx == probe_pos(hi, t as int, cap as int),
                forall|u: int|
                    0 <= u < t ==> occ(#[trigger] s[probe_pos(hi, u, cap as int)]) && img_of(
                        s[probe_pos(hi, u, cap as int)],
                    ) != img@,
            decreases cap - t,
        {
            proof {
                lemma_disp_probe(hi, t as int, cap as int);
            }
            let found = match &self.buckets[idx] {
                Entry::Empty => {
                    proof {
                        assert forall|j: int| 0 <= j < cap implies !holds(s, j, img@) by {
                            if holds(s, j, img@) {
                                assert(chain_ok(s, j));
                                lemma_probe_disp(hi, j, cap as int);
                                let d = disp(hi, j, cap as int);
                                if d < t {
                                    assert(img_of(s[probe_pos(hi, d, cap as int)]) != img@);
                                } else if d > t {
                                    assert(occ(s[probe_pos(hi, t as int, cap as int)]));
                                }
                            }
                        }
                    }
                    return (false, idx);
                },
                Entry::KeyPair(k, _) => {
                    let b = k.image_bytes();
                    bytes_eq(&b, img)
                },
            };
            if found {
                return (true, idx);
            }
            t += 1;
            idx = if idx + 1 == cap {
                0
            } else {
                idx + 1
            };
        }
        proof {
            assert forall|j: int| 0 <= j < cap implies occ(#[trigger] s[j]) && !holds(s, j, img@) by {
                lemma_probe_disp(hi, j, cap as int);
                let d = disp(hi, j, cap as int);
                assert(occ(s[probe_pos(hi, d, cap as int)]));
            }
        }
        (false, cap)
    }

    /// Swaps an occupied entry into slot `i` and returns what the slot held. The
    /// slot either holds the entry's key already, or is empty and lies on the
    /// key's probe path after occupied buckets only.
    fn write_slot(&mut self, i: usize, e: Entry<K, V>) -> (r: Entry<K, V>)
        requires
            old(self).wf(),
            i < old(self).capacity,
            occ(e),
            forall|j: int|
                0 <= j < old(self).capacity && j != i ==> !holds(old(self).buckets@, j, img_of(e)),
            (occ(old(self).buckets@[i as int]) && img_of(old(self).buckets@[i as int]) == img_of(e))
                || (!occ(old(self).buckets@[i as int]) && forall|u: int|
                0 <= u < disp(home(img_of(e), old(self).capacity as int), i as int, old(self).capacity as int)
                    ==> #[trigger] occ(
                    old(self).buckets@[probe_pos(
                        home(img_of(e), old(self).capacity as int),
                        u,
                        old(self).capacity as int,
                    )],
                )),
        ensures
            final(self).wf(),
            final(self).capacity == old(self).capacity,
            r == old(self).buckets@[i as int],
            occ(r) ==> final(self).length == old(self).length,
            !occ(r) ==> final(self).length == old(self).length + 1,
            final(self)@ == old(self)@.insert(img_of(e), val_of(e)),
        no_unwind
    {
        let ghost s = self.buckets@;
        proof {
            lemma_count_update(s, i as int, e);
            lemma_count_bound(s.update(i as int, e));
            lemma_view_write(s, i as int, e);
            lemma_chain_write(s, i as int, e);
        }
        let mut slot = e;
        std::mem::swap(&mut self.buckets[i], &mut slot);
        if let Entry::Empty = slot {
            self.length = self.length + 1;
        }
        slot
    }

    /// Adds a key that the table does not hold, where a slot is free.
    fn insert_fresh(&mut self, key: K, val: V)
        requires
            old(self).wf(),
            !old(self)@.contains_key(key.image()),
            old(self).length < old(self).capacity,
        ensures
            final(self).wf(),
            final(self).capacity == old(self).capacity,
            final(self).length == old(self).length + 1,
            final(self)@ == old(self)@.insert(key.image(), val),
    {
        let img = key.image_bytes();
        let (found, i) = self.locate(&img);
        if found {
            proof {
                lemma_view_at(self.buckets@, i as int);
            }
        }
        if i == self.capacity {
            proof {
                lemma_count_bound(self.buckets@);
            }
        }
        self.write_slot(i, Entry::KeyPair(key, val));
    }

    /// The slot that holds `key`, if any.
    fn probe_key_bucket<Q: ?Sized + TableKey>(&self, key: &Q) -> (r: Option<usize>)
        requires
            self.wf(),
        ensures
            match r {
                Some(i) => holds(self.buckets@, i as int, key.image()) && self@.contains_key(
                    key.image(),
                ) && self@[key.image()] == val_of(self.buckets@[i as int]),
                None => !self@.contains_key(key.image()),
            },
    {
        let img = key.image_bytes();
        let (found, i) = self.locate(&img);
        if found {
            proof {
                lemma_view_at(self.buckets@, i as int);
            }
            Some(i)
        } else {
            proof {
                lemma_view_absent(self.buckets@, img@);
            }
            None
        }
    }

    /// The value associated with `key`.
    pub fn get<Q: ?Sized + TableKey>(&self, key: &Q) -> (r: Option<&V>)
        requires
            self.wf(),
        ensures
            match r {
                Some(v) => self@.contains_key(key.image()) && *v == self@[key.image()],
                None => !self@.contains_key(key.image()),
            },
    {
        match self.probe_key_bucket(key) {
            None => None,
            Some(i) => match &self.buckets[i] {
                Entry::Empty => None,
                Entry::KeyPair(_, v) => Some(v),
            },
        }
    }

    /// Puts every entry of the slot array back into a fresh array, each at the
    /// first empty bucket of its probe path.
    fn reseat(&mut self)
        requires
            old(self).buckets@.len() == old(self).capacity,
            old(self).capacity > 0,
            old(self).length == count_occ(old(self).buckets@),
            unique_keys(old(self).buckets@),
        ensures
            final(self).wf(),
            final(self).capacity == old(self).capacity,
            final(self).length == old(self).length,
            final(self)@ == slots_view(old(self).buckets@),
    {
        let cap = self.capacity;
        let ghost s0 = self.buckets@;
        let mut table: RawTable<K, V> = RawTable::with_capacity(cap);
        let mut idx: usize = 0;
        while idx < cap
            invariant
                table.wf(),
                table.capacity == cap,
                self.capacity == cap,
                s0.len() == cap,
                unique_keys(s0),
                idx <= cap,
                self.buckets@.len() == cap,
                forall|j: int| idx <= j < cap ==> self.buckets@[j] == s0[j],
                table.length == count_occ(s0.subrange(0, idx as int)),
                forall|k: Seq<u8>| #[trigger]
                    table@.contains_key(k) <==> exists|j: int| 0 <= j < idx && holds(s0, j, k),
                forall|j: int|
                    0 <= j < idx && occ(s0[j]) ==> table@[#[trigger] img_of(s0[j])] == val_of(
                        s0[j],
                    ),
            decreases cap - idx,
        {
            let mut slot = Entry::Empty;
            self.buckets.set_and_swap(idx, &mut slot);
            let ghost before = table@;
            proof {
                lemma_count_prefix(s0, idx as int);
                lemma_count_bound(s0.subrange(0, idx as int));
            }
            match slot {
                Entry::KeyPair(k, v) => {
                    proof {
                        if table@.contains_key(k.image()) {
                            let j = choose|j: int| 0 <= j < idx && holds(s0, j, k.image());
                            assert(img_of(s0[j]) == img_of(s0[idx as int]));
                        }
                    }
                    table.insert_fresh(k, v);
                    proof {
                        assert forall|j: int|
                            0 <= j < idx + 1 && occ(s0[j]) implies table@[#[trigger] img_of(s0[j])]
                            == val_of(s0[j]) by {
                            if j != idx {
                                assert(img_of(s0[j]) != img_of(s0[idx as int]));
                            }
                        }
                        assert forall|k2: Seq<u8>| #[trigger]
                            table@.contains_key(k2) implies exists|j: int|
                            0 <= j < idx + 1 && holds(s0, j, k2) by {
                            if k2 == img_of(s0[idx as int]) {
                                assert(holds(s0, idx as int, k2));
                            } else {
                                assert(before.contains_key(k2));
                            }
                        }
                        assert forall|k2: Seq<u8>|
                            (exists|j: int| 0 <= j < idx + 1 && holds(s0, j, k2)) implies #[trigger]
                            table@.contains_key(k2) by {
                            let j = choose|j: int| 0 <= j < idx + 1 && holds(s0, j, k2);
                            if j < idx {
                                assert(before.contains_key(k2));
                            }
                        }
                    }
                },
                Entry::Empty => {
                    proof {
                        assert forall|k2: Seq<u8>|
                            (exists|j: int| 0 <= j < idx + 1 && holds(s0, j, k2)) implies #[trigger]
                            table@.contains_key(k2) by {
                            let j = choose|j: int| 0 <= j < idx + 1 && holds(s0, j, k2);
                            assert(j < idx);
                        }
                    }
                },
            }
            idx += 1;
        }
        proof {
            assert(s0.subrange(0, cap as int) =~= s0);
            assert forall|k: Seq<u8>| #[trigger]
                table@.contains_key(k) == slots_view(s0).contains_key(k) && (table@.contains_key(k)
                    ==> table@[k] == slots_view(s0)[k]) by {
                if table@.contains_key(k) {
                    let j = choose|j: int| 0 <= j < cap && holds(s0, j, k);
                    lemma_view_at(s0, j);
                }
            }
            assert(table@ =~= slots_view(s0));
        }
        self.buckets = table.buckets;
        self.length = table.length;
    }

    /// Removes `key` and its value; true when the table held it. The remaining
    /// entries are re-seated afterwards, so that no key is cut off from its home
    /// bucket by the slot that was freed.
    pub fn remove<Q: ?Sized + TableKey>(&mut self, key: &Q) -> (r: bool)
        requires
            old(self).wf(),
        ensures
            final(self).wf(),
            final(self).spec_cap() == old(self).spec_cap(),
            r == old(self)@.contains_key(key.image()),
            final(self)@ == old(self)@.remove(key.image()),
            r ==> final(self).spec_len() == old(self).spec_len() - 1,
            !r ==> final(self).spec_len() == old(self).spec_len(),
    {
        match self.probe_key_bucket(key) {
            None => {
                proof {
                    assert(self@.remove(key.image()) =~= self@);
                }
                false
            },
            Some(i) => {
                let ghost s = self.buckets@;
                proof {
                    lemma_view_clear(s, i as int);
                    lemma_count_update(s, i as int, Entry::Empty);
                }
                self.buckets.set(i, Entry::Empty);
                self.length = self.length - 1;
                self.reseat();
                true
            },
        }
    }

    /// A mutable reference to the value in occupied slot `i`.
    fn value_mut_at(&mut self, i: usize) -> (r: Option<&mut V>)
        requires
            old(self).wf(),
            i < old(self).capacity,
            occ(old(self).buckets@[i as int]),
        ensures
            match r {
                Some(v) => *v == val_of(old(self).buckets@[i as int]) && final(self).wf()
                    && final(self)@ == old(self)@.insert(img_of(old(self).buckets@[i as int]), *final(v))
                    && final(self).buckets@ == old(self).buckets@.update(
                    i as int,
                    Entry::KeyPair(key_of(old(self).buckets@[i as int]), *final(v)),
                ) && final(self).length == old(self).length && final(self).capacity
                    == old(self).capacity,
                None => false,
            },
        no_unwind
    {
        let ghost s = self.buckets@;
        let slot = &mut self.buckets[i];
        match slot {
            Entry::KeyPair(_, v) => {
                proof {
                    lemma_value_write(s, i as int, *final(v));
                }
                Some(v)
            },
            Entry::Empty => None,
        }
    }
}

/// Whether every key of `a` is in `b` with a value that `==` on `V` calls equal.
pub open spec fn contained_in<V: PartialEq>(a: Map<Seq<u8>, V>, b: Map<Seq<u8>, V>) -> bool {
    forall|k: Seq<u8>| #[trigger]
        a.contains_key(k) ==> b.contains_key(k) && a[k].eq_spec(&b[k])
}

impl<K: TableKey, V: PartialEq> RawTable<K, V> {
    /// Equal lengths, and each of this table's keys held by `other` with an equal value.
    fn equals(&self, other: &RawTable<K, V>) -> (r: bool)
        requires
            self.wf(),
            other.wf(),
        ensures
            V::obeys_eq_spec() ==> r == (self.length == other.length && contained_in(self@, other@)),
    {
        if self.length != other.length {
            return false;
        }
        let ghost s = self.buckets@;
        let mut i: usize = 0;
        while i < self.capacity
            invariant
                self.wf(),
                other.wf(),
                s == self.buckets@,
                i <= self.capacity,
                forall|j: int|
                    0 <= j < i && occ(#[trigger] s[j]) ==> other@.contains_key(img_of(s[j])) && (
                    V::obeys_eq_spec() ==> val_of(s[j]).eq_spec(&other@[img_of(s[j])])),
            decreases self.capacity - i,
        {
            match &self.buckets[i] {
                Entry::KeyPair(k, v) => {
                    proof {
                        lemma_view_at(s, i as int);
                    }
                    match other.get(k) {
                        None => {
                            return false;
                        },
                        Some(w) => {
                            if !(*v == *w) {
                                return false;
                            }
                        },
                    }
                },
                Entry::Empty => {},
            }
            i += 1;
        }
        proof {
            assert forall|k: Seq<u8>| #[trigger] self@.contains_key(k) implies other@.contains_key(k)
                && (V::obeys_eq_spec() ==> self@[k].eq_spec(&other@[k])) by {
                let j = choose|j: int| holds(s, j, k);
                lemma_view_at(s, j);
            }
        }
        true
    }
}

/// A fixed-capacity map from keys to values, with open addressing and linear
/// probing. Its view maps the byte image of each key to the key's value.
pub struct HashMap<K: TableKey, V> {
    table: RawTable<K, V>,
}

impl<K: TableKey, V> View for HashMap<K, V> {
    type V = Map<Seq<u8>, V>;

    closed spec fn view(&self) -> Map<Seq<u8>, V> {
        self.table@
    }
}

impl<K: TableKey, V> HashMap<K, V> {
    /// The invariant every table keeps: see `RawTable::wf`.
    #[verifier::type_invariant]
    pub closed spec fn wf(&self) -> bool {
        self.table.wf()
    }

    /// The number of buckets.
    pub closed spec fn spec_cap(&self) -> nat {
        self.table.spec_cap()
    }

    /// The number of occupied buckets.
    pub closed spec fn spec_len(&self) -> nat {
        self.table.spec_len()
    }

    /// The buckets, in order.
    pub closed spec fn slots(&self) -> Seq<Entry<K, V>> {
        self.table.slots()
    }

    /// The length counts the keys, and never exceeds the capacity.
    pub proof fn lemma_len_counts_keys(&self)
        requires
            self.wf(),
        ensures
            self@.dom().finite(),
            self@.dom().len() == self.spec_len(),
            self.spec_len() <= self.spec_cap(),
    {
        self.table.lemma_len_bounded();
        lemma_view_len(self.table.buckets@);
    }

    /// A table with the default capacity of 100 buckets.
    pub fn new() -> (r: Self)
        ensures
            r.spec_cap() == 100,
            r.spec_len() == 0,
            r@ == Map::<Seq<u8>, V>::empty(),
    {
        HashMap::with_capacity(100)
    }

    /// A table of `capacity` buckets, all empty. The capacity never changes; a
    /// capacity of zero is refused by the precondition.
    pub fn with_capacity(capacity: usize) -> (r: Self)
        requires
            capacity > 0,
        ensures
            r.spec_cap() == capacity,
            r.spec_len() == 0,
            r@ == Map::<Seq<u8>, V>::empty(),
    {
        HashMap { table: RawTable::with_capacity(capacity) }
    }

    pub fn cap(&self) -> (r: usize)
        ensures
            r == self.spec_cap(),
    {
        self.table.capacity
    }

    pub fn len(&self) -> (r: usize)
        ensures
            r == self.spec_len(),
            r == self@.dom().len(),
            r <= self.spec_cap(),
    {
        proof {
            use_type_invariant(self);
            self.table.lemma_len_bounded();
            lemma_view_len(self.table.buckets@);
        }
        self.table.length
    }

    pub fn is_empty(&self) -> (r: bool)
        ensures
            r == (self.spec_len() == 0),
            r == (self@ == Map::<Seq<u8>, V>::empty()),
    {
        proof {
            use_type_invariant(self);
            self.table.lemma_len_bounded();
            lemma_view_len(self.table.buckets@);
            if self@ == Map::<Seq<u8>, V>::empty() {
                assert(self@.dom() =~= Set::<Seq<u8>>::empty());
            }
        }
        self.table.length == 0
    }

    /// Empties every bucket; the capacity stays.
    pub fn clear(&mut self)
        ensures
            final(self).spec_cap() == old(self).spec_cap(),
            final(self).spec_len() == 0,
            final(self)@ == Map::<Seq<u8>, V>::empty(),
    {
        proof {
            use_type_invariant(&*self);
        }
        self.table = RawTable::with_capacity(self.table.capacity);
    }

    /// Associates `val` with `key`. A key the table holds has its value replaced,
    /// also when the table is full, and `(true, Some(old value))` comes back. A
    /// new key is added when the table is not full, with `(true, None)`; when it
    /// is full nothing changes and `(false, None)` comes back.
    pub fn insert(&mut self, key: K, val: V) -> (r: (bool, Option<V>))
        ensures
            final(self).spec_cap() == old(self).spec_cap(),
            old(self)@.contains_key(key.image()) ==> r == (true, Some(old(self)@[key.image()]))
                && final(self)@ == old(self)@.insert(key.image(), val) && final(self).spec_len()
                == old(self).spec_len(),
            !old(self)@.contains_key(key.image()) && old(self).spec_len() < old(self).spec_cap()
                ==> r == (true, None::<V>) && final(self)@ == old(self)@.insert(key.image(), val)
                && final(self).spec_len() == old(self).spec_len() + 1,
            !old(self)@.contains_key(key.image()) && old(self).spec_len() >= old(self).spec_cap()
                ==> r == (false, None::<V>) && final(self)@ == old(self)@ && final(self).spec_len()
                == old(self).spec_len(),
    {
        proof {
            use_type_invariant(&*self);
        }
        let img = key.image_bytes();
        let (found, i) = self.table.locate(&img);
        let ghost s = self.table.buckets@;
        proof {
            if found {
                lemma_view_at(s, i as int);
                assert forall|j: int| 0 <= j < s.len() && j != i implies !holds(s, j, img@) by {
                    if holds(s, j, img@) {
                        assert(img_of(s[j]) == img_of(s[i as int]));
                    }
                }
            } else {
                lemma_view_absent(s, img@);
                lemma_count_bound(s);
            }
        }
        if !found && i == self.table.capacity {
            return (false, None);
        }
        let prev = self.table.write_slot(i, Entry::KeyPair(key, val));
        match prev {
            Entry::KeyPair(_, v) => (true, Some(v)),
            Entry::Empty => (true, None),
        }
    }

    /// The value associated with `key`.
    pub fn get<Q: ?Sized + TableKey>(&self, key: &Q) -> (r: Option<&V>)
        where
            K: std::borrow::Borrow<Q>,
        ensures
            match r {
                Some(v) => self@.contains_key(key.image()) && *v == self@[key.image()],
                None => !self@.contains_key(key.image()),
            },
    {
        proof {
            use_type_invariant(self);
        }
        self.table.get(key)
    }

    /// A mutable reference to the value associated with `key`; writing through it
    /// changes that value only.
    pub fn get_mut<Q: ?Sized + TableKey>(&mut self, key: &Q) -> (r: Option<&mut V>)
        where
            K: std::borrow::Borrow<Q>,
        ensures
            match r {
                Some(v) => old(self)@.contains_key(key.image()) && *v == old(self)@[key.image()]
                    && final(self)@ == old(self)@.insert(key.image(), *final(v)) && (exists|i: int|
                    holds(old(self).slots(), i, key.image()) && #[trigger] final(self).slots()
                        == old(self).slots().update(
                        i,
                        Entry::KeyPair(key_of(old(self).slots()[i]), *final(v)),
                    )) && final(self).spec_len() == old(self).spec_len() && final(self).spec_cap()
                    == old(self).spec_cap(),
                None => !old(self)@.contains_key(key.image()) && final(self)@ == old(self)@
                    && final(self).slots() == old(self).slots() && final(self).spec_len()
                    == old(self).spec_len() && final(self).spec_cap() == old(self).spec_cap(),
            },
    {
        proof {
            use_type_invariant(&*self);
        }
        match self.table.probe_key_bucket(key) {
            None => None,
            Some(i) => {
                let r = self.table.value_mut_at(i);
                proof {
                    assert(holds(old(self).slots(), i as int, key.image()));
                }
                r
            },
        }
    }

    /// Mutable access by bucket: the value in bucket `i`, when that bucket is
    /// occupied. Going over `0..cap()` reaches every key once, in the order that
    /// `iter` gives, with a mutable reference to its value.
    pub fn value_mut_at_slot(&mut self, i: usize) -> (r: Option<&mut V>)
        ensures
            match r {
                Some(v) => i < old(self).spec_cap() && occ(old(self).slots()[i as int]) && *v
                    == val_of(old(self).slots()[i as int]) && final(self)@ == old(self)@.insert(
                    img_of(old(self).slots()[i as int]),
                    *final(v),
                ) && final(self).slots() == old(self).slots().update(
                    i as int,
                    Entry::KeyPair(key_of(old(self).slots()[i as int]), *final(v)),
                ) && final(self).spec_len() == old(self).spec_len() && final(self).spec_cap()
                    == old(self).spec_cap(),
                None => !(i < old(self).spec_cap() && occ(old(self).slots()[i as int]))
                    && final(self)@ == old(self)@ && final(self).slots() == old(self).slots()
                    && final(self).spec_len() == old(self).spec_len() && final(self).spec_cap()
                    == old(self).spec_cap(),
            },
    {
        proof {
            use_type_invariant(&*self);
        }
        if i >= self.table.capacity {
            return None;
        }
        let occupied = match &self.table.buckets[i] {
            Entry::Empty => false,
            Entry::KeyPair(..) => true,
        };
        if occupied {
            self.table.value_mut_at(i)
        } else {
            None
        }
    }

    pub fn contains_key<Q: ?Sized + TableKey>(&self, key: &Q) -> (r: bool)
        where
            K: std::borrow::Borrow<Q>,
        ensures
            r == self@.contains_key(key.image()),
    {
        self.get(key).is_some()
    }

    /// Removes `key` and its value; true when the table held it. The other
    /// entries are then re-seated, so that no key is cut off from its home bucket
    /// by the bucket that was freed.
    pub fn remove<Q: ?Sized + TableKey>(&mut self, key: &Q) -> (r: bool)
        where
            K: std::borrow::Borrow<Q>,
        ensures
            final(self).spec_cap() == old(self).spec_cap(),
            r == old(self)@.contains_key(key.image()),
            final(self)@ == old(self)@.remove(key.image()),
            r ==> final(self).spec_len() == old(self).spec_len() - 1,
            !r ==> final(self).spec_len() == old(self).spec_len(),
    {
        proof {
            use_type_invariant(&*self);
        }
        let mut t = RawTable::with_capacity(1);
        std::mem::swap(&mut self.table, &mut t);
        let r = t.remove(key);
        self.table = t;
        r
    }
}

impl<K: TableKey, V> HashMap<K, V> {
    /// The occupied buckets' keys and values, in bucket order. Each key of the
    /// table comes exactly once, with its value.
    pub fn iter(&self) -> (r: Vec<(&K, &V)>)
        ensures
            r@.len() == self.spec_len(),
            r@.len() == pairs_of(self.slots()).len(),
            forall|j: int|
                0 <= j < r@.len() ==> (*r@[j].0, *r@[j].1) == #[trigger] pairs_of(self.slots())[j],
            forall|j: int|
                0 <= j < r@.len() ==> self@.contains_key(#[trigger] r@[j].0.image())
                    && self@[r@[j].0.image()] == *r@[j].1,
            forall|k: Seq<u8>| #[trigger]
                self@.contains_key(k) ==> exists|j: int| 0 <= j < r@.len() && r@[j].0.image() == k,
    {
        proof {
            use_type_invariant(self);
        }
        let ghost s = self.table.buckets@;
        let mut r: Vec<(&K, &V)> = Vec::new();
        let mut i: usize = 0;
        while i < self.table.capacity
            invariant
                self.table.wf(),
                s == self.table.buckets@,
                i <= self.table.capacity,
                r@.len() == pairs_of(s.subrange(0, i as int)).len(),
                forall|j: int|
                    0 <= j < r@.len() ==> (*r@[j].0, *r@[j].1) == #[trigger] pairs_of(
                        s.subrange(0, i as int),
                    )[j],
            decreases self.table.capacity - i,
        {
            proof {
                assert(s.subrange(0, i + 1).drop_last() =~= s.subrange(0, i as int));
            }
            match &self.table.buckets[i] {
                Entry::KeyPair(k, v) => {
                    r.push((k, v));
                },
                Entry::Empty => {},
            }
            i += 1;
        }
        proof {
            assert(s.subrange(0, s.len() as int) =~= s);
            let p = pairs_of(s);
            lemma_pairs_of(s);
            assert forall|j: int| 0 <= j < r@.len() implies self@.contains_key(
                #[trigger] r@[j].0.image(),
            ) && self@[r@[j].0.image()] == *r@[j].1 by {
                let t = choose|t: int|
                    0 <= t < s.len() && #[trigger] s[t] == Entry::KeyPair(p[j].0, p[j].1);
                lemma_view_at(s, t);
            }
            assert forall|k: Seq<u8>| #[trigger] self@.contains_key(k) implies exists|j: int|
                0 <= j < r@.len() && r@[j].0.image() == k by {
                let t = choose|t: int| holds(s, t, k);
                let j = choose|j: int| 0 <= j < p.len() && #[trigger] p[j] == (key_of(s[t]), val_of(s[t]));
                assert(r@[j].0.image() == k);
            }
        }
        r
    }

    /// The keys, in the order `iter` gives them.
    pub fn keys(&self) -> (r: Vec<&K>)
        ensures
            r@.len() == self.spec_len(),
            forall|j: int| 0 <= j < r@.len() ==> *r@[j] == #[trigger] pairs_of(self.slots())[j].0,
            forall|j: int| 0 <= j < r@.len() ==> self@.contains_key(#[trigger] r@[j].image()),
            forall|k: Seq<u8>| #[trigger]
                self@.contains_key(k) ==> exists|j: int| 0 <= j < r@.len() && r@[j].image() == k,
    {
        let it = self.iter();
        let mut r: Vec<&K> = Vec::new();
        let mut i: usize = 0;
        while i < it.len()
            invariant
                i <= it@.len(),
                r@.len() == i,
                forall|j: int| 0 <= j < i ==> r@[j] == (#[trigger] it@[j]).0,
            decreases it@.len() - i,
        {
            r.push(it[i].0);
            i += 1;
        }
        proof {
            assert forall|k: Seq<u8>| #[trigger] self@.contains_key(k) implies exists|j: int|
                0 <= j < r@.len() && r@[j].image() == k by {
                let j = choose|j: int| 0 <= j < it@.len() && it@[j].0.image() == k;
                assert(r@[j] == it@[j].0);
            }
            assert forall|j: int| 0 <= j < r@.len() implies self@.contains_key(
                #[trigger] r@[j].image(),
            ) by {
                assert(r@[j] == it@[j].0);
            }
        }
        r
    }

    /// The values, in the order `iter` gives them.
    pub fn values(&self) -> (r: Vec<&V>)
        ensures
            r@.len() == self.spec_len(),
            forall|j: int| 0 <= j < r@.len() ==> *r@[j] == #[trigger] pairs_of(self.slots())[j].1,
            forall|j: int|
                0 <= j < r@.len() ==> self@.contains_key(pairs_of(self.slots())[j].0.image())
                    && self@[pairs_of(self.slots())[j].0.image()] == *#[trigger] r@[j],
    {
        let it = self.iter();
        let mut r: Vec<&V> = Vec::new();
        let mut i: usize = 0;
        while i < it.len()
            invariant
                i <= it@.len(),
                r@.len() == i,
                forall|j: int| 0 <= j < i ==> r@[j] == (#[trigger] it@[j]).1,
            decreases it@.len() - i,
        {
            r.push(it[i].1);
            i += 1;
        }
        proof {
            assert forall|j: int| 0 <= j < r@.len() implies self@.contains_key(
                pairs_of(self.slots())[j].0.image(),
            ) && self@[pairs_of(self.slots())[j].0.image()] == *#[trigger] r@[j] by {
                assert(r@[j] == it@[j].1);
                assert(self@.contains_key(it@[j].0.image()));
            }
        }
        r
    }
}

impl<K: TableKey, V: PartialEq> PartialEq for HashMap<K, V> {
    /// Equal lengths, and each key of `self` held by `other` with an equal value.
    fn eq(&self, other: &Self) -> (r: bool) {
        proof {
            use_type_invariant(self);
            use_type_invariant(other);
        }
        self.table.equals(&other.table)
    }
}

impl<K: TableKey, V: PartialEq> vstd::std_specs::cmp::PartialEqSpecImpl for HashMap<K, V> {
    open spec fn obeys_eq_spec() -> bool {
        V::obeys_eq_spec()
    }

    open spec fn eq_spec(&self, other: &Self) -> bool {
        self.spec_len() == other.spec_len() && contained_in(self@, other@)
    }
}

impl<K: TableKey, V: Eq> Eq for HashMap<K, V> {

}

proof fn lemma_all_empty<K: TableKey, V>(s: Seq<Entry<K, V>>)
    requires
        forall|j: int| 0 <= j < s.len() ==> !occ(#[trigger] s[j]),
    ensures
        count_occ(s) == 0,
        unique_keys(s),
        forall|j: int| 0 <= j < s.len() ==> #[trigger] chain_ok(s, j),
        slots_view(s) == Map::<Seq<u8>, V>::empty(),
    decreases s.len(),
{
    if s.len() > 0 {
        let d = s.drop_last();
        assert forall|j: int| 0 <= j < d.len() implies !occ(#[trigger] d[j]) by {
            assert(!occ(s[j]));
        }
        lemma_all_empty(d);
        assert(!occ(s[s.len() - 1]));
    }
    assert(slots_view(s) =~= Map::<Seq<u8>, V>::empty());
}

} // verus!
