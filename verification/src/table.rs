//! The hash table core: bucket storage, index derivation, growth, insertion
//! and lookup.
use vstd::arithmetic::power2::{
    lemma2_to64, lemma2_to64_rest, lemma_pow2_adds, lemma_pow2_pos, pow2,
};
use vstd::arithmetic::div_mod::{
    lemma_div_denominator, lemma_div_pos_is_pos, lemma_multiply_divide_lt,
};
use vstd::bits::lemma_u64_shr_is_div;
use vstd::prelude::*;

use crate::hashing::Hashable;
use crate::lookup::{first_match, lemma_filter_twice, lemma_first_match_filter};

verus! {

/// The fixed odd multiplier: the fractional part of the golden ratio scaled
/// to 64 bits.  Multiplying by it spreads low-entropy hashes over the whole
/// 64-bit range before the top bits are kept.
pub const HASH_MULTIPLIER: u64 = 0x9E37_79B9_7F4A_7C15;

/// The 64-bit product of the key's hash and the fixed multiplier, with
/// wraparound on overflow.
pub open spec fn spec_fold(h: u64) -> u64 {
    (((h as int) * (HASH_MULTIPLIER as int)) % 0x1_0000_0000_0000_0000) as u64
}

/// The bucket index derived from a hash: the top `bits` bits of the folded
/// 64-bit product, already a value in `[0, 2^bits)`.
pub open spec fn spec_slot(h: u64, bits: nat) -> int
    recommends
        bits < 64,
{
    spec_fold(h) as int / pow2((64 - bits) as nat) as int
}

/// Whether an entry's key is placed in bucket `slot` of a table with `bits`
/// index bits.
pub open spec fn slot_pred<K: Hashable, V>(bits: nat, slot: int) -> spec_fn((K, V)) -> bool {
    |entry: (K, V)| spec_slot(entry.0.hash_spec(), bits) == slot
}

/// The derived bucket index always lies inside the bucket array.
proof fn lemma_slot_in_range(h: u64, bits: nat)
    requires
        bits < 64,
    ensures
        0 <= spec_slot(h, bits) < pow2(bits),
{
    let folded = spec_fold(h) as int;
    let divisor = pow2((64 - bits) as nat) as int;
    lemma_pow2_pos((64 - bits) as nat);
    lemma_pow2_adds((64 - bits) as nat, bits);
    lemma2_to64();
    lemma_div_pos_is_pos(folded, divisor);
    lemma_multiply_divide_lt(folded, divisor, pow2(bits) as int);
}

/// Consulting one more hash bit refines the derived index: halving the new
/// index gives back the old one, so after the bucket array doubles, the
/// entries of old bucket `i` land in buckets `2i` and `2i + 1` only.
proof fn lemma_slot_halves(h: u64, bits: nat)
    requires
        bits + 1 < 64,
    ensures
        spec_slot(h, bits + 1) / 2 == spec_slot(h, bits),
{
    let folded = spec_fold(h) as int;
    let s = (63 - bits) as nat;
    lemma_pow2_pos(s);
    lemma2_to64();
    lemma_div_denominator(folded, pow2(s) as int, 2);
    lemma_pow2_adds(s, 1);
}

/// Derive the bucket index for hash `h` in a table with `bits` index bits:
/// fold the hash by the fixed multiplier with wraparound, then keep the top
/// `bits` bits of the product.
fn bucket_slot(h: u64, bits: usize) -> (slot: usize)
    requires
        bits < 64,
        pow2(bits as nat) <= usize::MAX,
    ensures
        slot == spec_slot(h, bits as nat),
        slot < pow2(bits as nat),
{
    proof {
        lemma_slot_in_range(h, bits as nat);
    }
    if bits == 0 {
        proof {
            lemma2_to64();
        }
        0
    } else {
        let folded: u64 = h.wrapping_mul(HASH_MULTIPLIER);
        let shift: u64 = 64 - (bits as u64);
        let slot64: u64 = folded >> shift;
        proof {
            assert(folded == spec_fold(h));
            lemma_u64_shr_is_div(folded, shift);
        }
        slot64 as usize
    }
}

/// An owned key/value pair stored inside a bucket chain.
#[derive(Clone, Copy)]
struct MapItem<K, V> {
    key: K,
    value: V,
}

/// The key/value pairs held by a chain of stored entries, in chain order.
spec fn pairs<K, V>(items: Seq<MapItem<K, V>>) -> Seq<(K, V)> {
    items.map_values(|item: MapItem<K, V>| (item.key, item.value))
}

/// Append an entry to the bucket at `slot`, leaving every other bucket as
/// it was.
fn bucket_push<K, V>(data: &mut Vec<Vec<MapItem<K, V>>>, slot: usize, item: MapItem<K, V>)
    requires
        slot < old(data)@.len(),
    ensures
        final(data)@.len() == old(data)@.len(),
        final(data)@[slot as int]@ == old(data)@[slot as int]@.push(item),
        forall|j: int|
            0 <= j < old(data)@.len() && j != slot ==> final(data)@[j] == old(data)@[j],
{
    let ghost orig = data@;
    let mut bucket = data.swap_remove(slot);
    bucket.push(item);
    data.push(bucket);
    let last: usize = data.len() - 1;
    if slot < last {
        let moved = data.swap_remove(slot);
        data.push(moved);
        proof {
            assert forall|j: int| 0 <= j < orig.len() && j != slot implies data@[j] == orig[j] by {}
            assert(data@[slot as int]@ == orig[slot as int]@.push(item));
        }
    }
}

/// Reading the pairs of a chain commutes with appending to it.
proof fn lemma_pairs_push<K, V>(items: Seq<MapItem<K, V>>, item: MapItem<K, V>)
    ensures
        pairs(items.push(item)) == pairs(items).push((item.key, item.value)),
{
    assert(pairs(items.push(item)) =~= pairs(items).push((item.key, item.value)));
}

/// A hash table mapping keys to values, built on an explicit array of
/// chained buckets.
///
/// The abstract state is the history of insertions, a `Seq<(K, V)>` in
/// insertion order (the view); `get` returns the value of the earliest
/// inserted entry whose key matches.  The bucket array always holds
/// `2^index_bits` buckets, and bucket `j` holds exactly the entries whose
/// derived index is `j`, in insertion order.
pub struct FlatHashMap<K, V> {
    index_bits: usize,
    size: usize,
    data: Vec<Vec<MapItem<K, V>>>,
    history: Ghost<Seq<(K, V)>>,
}

impl<K, V> View for FlatHashMap<K, V> {
    type V = Seq<(K, V)>;

    closed spec fn view(&self) -> Seq<(K, V)> {
        self.history@
    }
}

impl<K: Hashable + Copy, V: Copy> FlatHashMap<K, V> {
    /// How many bits of the folded hash select a bucket.
    pub closed spec fn spec_index_bits(self) -> nat {
        self.index_bits as nat
    }

    /// The number of buckets.
    pub closed spec fn spec_capacity(self) -> nat {
        self.data@.len()
    }

    /// Well-formedness: the bucket count is the power of two selected by
    /// `index_bits`, the entry count matches the history, and each bucket
    /// holds exactly the history entries whose keys are placed there, in
    /// insertion order.
    pub closed spec fn wf(self) -> bool {
        &&& self.index_bits < 64
        &&& self.data@.len() == pow2(self.index_bits as nat)
        &&& self.size == self.history@.len()
        &&& forall|j: int|
            0 <= j < self.data@.len() ==> pairs(#[trigger] self.data@[j]@) == self.history@.filter(
                slot_pred(self.index_bits as nat, j),
            )
    }

    /// Construct an empty table with a single bucket and no index bits.
    pub fn new() -> (table: Self)
        ensures
            table.wf(),
            table@ == Seq::<(K, V)>::empty(),
            table.spec_capacity() == 1,
            table.spec_index_bits() == 0,
    {
        let mut data: Vec<Vec<MapItem<K, V>>> = Vec::with_capacity(1);
        data.push(Vec::new());
        let table = FlatHashMap {
            index_bits: 0usize,
            size: 0usize,
            data,
            history: Ghost(Seq::empty()),
        };
        proof {
            lemma2_to64();
            assert(table.data@[0]@ =~= Seq::<MapItem<K, V>>::empty());
            assert(pairs(table.data@[0]@) =~= Seq::<(K, V)>::empty());
            assert(table.history@.filter(slot_pred(0nat, 0int)) =~= Seq::<(K, V)>::empty());
        }
        table
    }

    /// The number of entries stored.
    pub fn len(&self) -> (n: usize)
        requires
            self.wf(),
        ensures
            n == self@.len(),
    {
        self.size
    }

    /// The number of buckets: a logical property of the table, not an
    /// allocation hint of the backing array.
    pub fn capacity(&self) -> (n: usize)
        requires
            self.wf(),
        ensures
            n == self.spec_capacity(),
    {
        self.data.len()
    }

    /// Look the key up: derive its bucket index, scan that bucket in
    /// insertion order, and return a copy of the value of the first entry
    /// whose key matches, or the absent result if none does.
    pub fn get(&self, key: K) -> (result: Option<V>)
        requires
            self.wf(),
        ensures
            result == first_match(self@, key),
    {
        let ghost bits = self.index_bits as nat;
        let h: u64 = key.hash();
        let cap: usize = self.data.len();
        proof {
            assert(pow2(bits) == cap);
        }
        let slot: usize = bucket_slot(h, self.index_bits);
        let bucket: &Vec<MapItem<K, V>> = &self.data[slot];
        let ghost entries = pairs(bucket@);
        proof {
            assert forall|i: int|
                0 <= i < self@.len() && (#[trigger] self@[i]).0 == key implies slot_pred::<K, V>(
                bits,
                slot as int,
            )(self@[i]) by {}
            lemma_first_match_filter(self@, slot_pred(bits, slot as int), key);
            assert(entries == self@.filter(slot_pred(bits, slot as int)));
            assert(entries.skip(0) =~= entries);
        }
        let n: usize = bucket.len();
        let mut t: usize = 0;
        while t < n
            invariant
                t <= n,
                n == bucket@.len(),
                entries == pairs(bucket@),
                first_match(entries.skip(t as int), key) == first_match(self@, key),
            decreases n - t,
        {
            if bucket[t].key.key_eq(&key) {
                proof {
                    assert(entries.skip(t as int)[0] == entries[t as int]);
                    assert(entries[t as int] == (bucket@[t as int].key, bucket@[t as int].value));
                }
                return Some(bucket[t].value);
            }
            proof {
                assert(entries.skip(t as int)[0] == entries[t as int]);
                assert(entries[t as int] == (bucket@[t as int].key, bucket@[t as int].value));
                assert(entries.skip(t as int).drop_first() =~= entries.skip(t as int + 1));
            }
            t += 1;
        }
        proof {
            assert(entries.skip(n as int) =~= Seq::<(K, V)>::empty());
        }
        None
    }

    /// Double the bucket array and redistribute every stored entry into the
    /// new array under one more index bit.  The history is untouched: growth
    /// is a pure re-arrangement, and no entry is lost or moved relative to
    /// the others of its new bucket.
    fn grow(&mut self)
        requires
            old(self).wf(),
            old(self).spec_index_bits() + 1 < 64,
            2 * old(self).spec_capacity() <= usize::MAX,
        ensures
            final(self).wf(),
            final(self)@ == old(self)@,
            final(self).spec_index_bits() == old(self).spec_index_bits() + 1,
            final(self).spec_capacity() == 2 * old(self).spec_capacity(),
    {
        let old_cap: usize = self.data.len();
        let new_cap: usize = 2 * old_cap;
        let new_bits: usize = self.index_bits + 1;
        let ghost ob = self.index_bits as nat;
        let ghost nb = new_bits as nat;
        let ghost hist = self.history@;
        proof {
            lemma_pow2_adds(ob, 1);
            lemma2_to64();
        }
        let mut new_data: Vec<Vec<MapItem<K, V>>> = Vec::with_capacity(new_cap);
        while new_data.len() < new_cap
            invariant
                new_data@.len() <= new_cap,
                forall|j: int| 0 <= j < new_data@.len() ==> (#[trigger] new_data@[j])@.len() == 0,
            decreases new_cap - new_data@.len(),
        {
            new_data.push(Vec::new());
        }
        let mut i: usize = 0;
        while i < old_cap
            invariant
                i <= old_cap,
                self.wf(),
                old_cap == self.data@.len(),
                ob == self.index_bits as nat,
                nb == ob + 1,
                nb == new_bits as nat,
                nb < 64,
                hist == self.history@,
                new_cap == 2 * old_cap,
                new_cap == pow2(nb),
                new_data@.len() == new_cap,
                forall|j: int|
                    0 <= j < new_cap && j / 2 < i ==> pairs((#[trigger] new_data@[j])@) == pairs(
                        self.data@[j / 2]@,
                    ).filter(slot_pred(nb, j)),
                forall|j: int|
                    0 <= j < new_cap && j / 2 >= i ==> (#[trigger] new_data@[j])@.len() == 0,
            decreases old_cap - i,
        {
            let bucket_len: usize = self.data[i].len();
            let ghost bucket = self.data@[i as int]@;
            let mut t: usize = 0;
            proof {
                assert(bucket.take(0) =~= Seq::<MapItem<K, V>>::empty());
                assert(pairs(bucket.take(0)) =~= Seq::<(K, V)>::empty());
            }
            while t < bucket_len
                invariant
                    t <= bucket_len,
                    i < old_cap,
                    self.wf(),
                    old_cap == self.data@.len(),
                    ob == self.index_bits as nat,
                    nb == ob + 1,
                    nb == new_bits as nat,
                    nb < 64,
                    hist == self.history@,
                    new_cap == 2 * old_cap,
                    new_cap == pow2(nb),
                    new_data@.len() == new_cap,
                    bucket == self.data@[i as int]@,
                    bucket_len == bucket.len(),
                    forall|j: int|
                        0 <= j < new_cap && j / 2 < i ==> pairs((#[trigger] new_data@[j])@)
                            == pairs(self.data@[j / 2]@).filter(slot_pred(nb, j)),
                    forall|j: int|
                        0 <= j < new_cap && j / 2 == i ==> pairs((#[trigger] new_data@[j])@)
                            == pairs(bucket.take(t as int)).filter(slot_pred(nb, j)),
                    forall|j: int|
                        0 <= j < new_cap && j / 2 > i ==> (#[trigger] new_data@[j])@.len() == 0,
                decreases bucket_len - t,
            {
                let item: MapItem<K, V> = self.data[i][t];
                let h: u64 = item.key.hash();
                let slot: usize = bucket_slot(h, new_bits);
                proof {
                    let p = (item.key, item.value);
                    assert(pairs(bucket)[t as int] == p);
                    assert(pairs(bucket) == hist.filter(slot_pred(ob, i as int)));
                    hist.lemma_filter_pred(slot_pred(ob, i as int), t as int);
                    assert(spec_slot(item.key.hash_spec(), ob) == i);
                    lemma_slot_halves(item.key.hash_spec(), ob);
                    assert(slot as int / 2 == i);
                }
                let ghost prev_new = new_data@;
                bucket_push(&mut new_data, slot, item);
                proof {
                    let p = (item.key, item.value);
                    lemma_pairs_push(prev_new[slot as int]@, item);
                    assert(bucket.take(t as int + 1) =~= bucket.take(t as int).push(
                        bucket[t as int],
                    ));
                    lemma_pairs_push(bucket.take(t as int), bucket[t as int]);
                    assert(pairs(bucket.take(t as int + 1)) == pairs(bucket.take(t as int)).push(
                        p,
                    ));
                    assert forall|j: int|
                        0 <= j < new_cap && j / 2 == i implies pairs((#[trigger] new_data@[j])@)
                        == pairs(bucket.take(t as int + 1)).filter(slot_pred(nb, j)) by {
                        Seq::lemma_filter_push(pairs(bucket.take(t as int)), p, slot_pred(nb, j));
                        if j != slot {
                            assert(new_data@[j] == prev_new[j]);
                            assert(!slot_pred::<K, V>(nb, j)(p));
                        }
                    }
                }
                t += 1;
            }
            proof {
                assert(bucket.take(bucket_len as int) =~= bucket);
            }
            i += 1;
        }
        self.data = new_data;
        self.index_bits = new_bits;
        proof {
            assert forall|j: int| 0 <= j < self.data@.len() implies pairs(
                (#[trigger] self.data@[j])@,
            ) == hist.filter(slot_pred(nb, j)) by {
                assert forall|x: int|
                    0 <= x < hist.len() && slot_pred::<K, V>(nb, j)(#[trigger] hist[x]) implies
                    slot_pred::<K, V>(ob, j / 2)(hist[x]) by {
                    lemma_slot_halves(hist[x].0.hash_spec(), ob);
                }
                lemma_filter_twice(hist, slot_pred(ob, j / 2), slot_pred(nb, j));
            }
        }
    }

    /// Insert a key/value pair.
    ///
    /// If the load factor (stored entries over buckets) already exceeds one
    /// half, the bucket array first doubles and every stored entry is
    /// rehashed; then the new entry is appended to its bucket.  A key
    /// already present is simply appended as a further entry, and `get`
    /// keeps returning the earliest one.  The length bound keeps the
    /// doubled bucket count within the address space.
    pub fn insert(&mut self, key: K, value: V)
        requires
            old(self).wf(),
            old(self)@.len() < usize::MAX / 4,
        ensures
            final(self).wf(),
            final(self)@ == old(self)@.push((key, value)),
            final(self).spec_index_bits() == (if old(self)@.len() > old(
                self,
            ).spec_capacity() / 2 {
                old(self).spec_index_bits() + 1
            } else {
                old(self).spec_index_bits()
            }),
            final(self).spec_capacity() == (if old(self)@.len() > old(self).spec_capacity() / 2 {
                2 * old(self).spec_capacity()
            } else {
                old(self).spec_capacity()
            }),
    {
        let cap: usize = self.data.len();
        if self.size > cap / 2 {
            proof {
                assert(cap <= 2 * (cap / 2) + 1);
                assert(2 * cap <= usize::MAX) by {
                    assert(cap / 2 + 1 <= self.size);
                    assert(self.size < usize::MAX / 4);
                }
                assert(self.index_bits + 1 < 64) by {
                    lemma2_to64();
                    lemma2_to64_rest();
                    if self.index_bits == 63 {
                        assert(cap == pow2(63));
                        assert(2 * cap == 0x1_0000_0000_0000_0000);
                        assert(usize::MAX < 0x1_0000_0000_0000_0000);
                    }
                }
            }
            self.grow();
        }
        let h: u64 = key.hash();
        let ghost bits = self.index_bits as nat;
        let ghost hist = self.history@;
        let new_cap: usize = self.data.len();
        proof {
            assert(pow2(bits) == new_cap);
        }
        let slot: usize = bucket_slot(h, self.index_bits);
        let ghost prev_data = self.data@;
        bucket_push(&mut self.data, slot, MapItem { key, value });
        self.size = self.size + 1;
        self.history = Ghost(self.history@.push((key, value)));
        proof {
            let p = (key, value);
            lemma_pairs_push(prev_data[slot as int]@, MapItem { key, value });
            assert forall|j: int| 0 <= j < self.data@.len() implies pairs(
                (#[trigger] self.data@[j])@,
            ) == self.history@.filter(slot_pred(bits, j)) by {
                Seq::lemma_filter_push(hist, p, slot_pred(bits, j));
                if j != slot {
                    assert(self.data@[j] == prev_data[j]);
                    assert(!slot_pred::<K, V>(bits, j)(p));
                }
            }
        }
    }

    /// The length of the bucket chain at `slot`: the number of stored
    /// entries whose keys derive that bucket index.
    pub fn bucket_len(&self, slot: usize) -> (n: usize)
        requires
            self.wf(),
            slot < self.spec_capacity(),
        ensures
            n == self@.filter(slot_pred(self.spec_index_bits(), slot as int)).len(),
    {
        self.data[slot].len()
    }

    /// The capacity is always the power of two selected by the index-bit
    /// count.
    pub proof fn lemma_capacity_is_power_of_two(self)
        requires
            self.wf(),
        ensures
            self.spec_capacity() == pow2(self.spec_index_bits()),
    {
    }
}

} // verus!
