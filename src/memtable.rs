use vstd::prelude::*;
use skl::generic::unique::sync::SkipMap;
use skl::generic::unique::Map as SkipMapApi;
use skl::generic::Builder;
use skl::Arena;
use crate::key::{
    build_mem_key, build_mem_value, decode_varint, key_spec, value_spec, varint_decode,
    lemma_varint_round_trip, lemma_key_round_trip, ValueType, MAX_SEQUENCE_EXCLUSIVE,
};
use crate::log::StatusCode;

verus! {

#[verifier::external_type_specification]
#[verifier::external_body]
#[verifier::reject_recursive_types(K)]
#[verifier::reject_recursive_types(V)]
#[verifier::reject_recursive_types(C)]
pub struct ExSkipMap<K: ?Sized, V: ?Sized, C>(SkipMap<K, V, C>);

#[verifier::external_type_specification]
#[verifier::external_body]
pub struct ExAscend(skl::generic::Ascend);

/// The entries of a skip map, from key bytes to value bytes.
pub uninterp spec fn skl_entries(m: SkipMap<Vec<u8>, Vec<u8>>) -> Map<Seq<u8>, Seq<u8>>;

/// Whether no entry of a skip map is a tombstone (a removed key).
pub uninterp spec fn skl_tombstone_free(m: SkipMap<Vec<u8>, Vec<u8>>) -> bool;

/// The arena capacity, in bytes, that a skip map was built with.
pub uninterp spec fn skl_capacity(m: SkipMap<Vec<u8>, Vec<u8>>) -> u32;

/// Why the skip map refused an insert.
#[derive(Debug, Clone, Copy, PartialEq, Eq, Structural)]
enum InsertFailure {
    /// The arena has no room for the entry.
    ArenaFull,
    /// The key or the value is too large for the map.
    Rejected,
}

/// Relies on skl's `Builder::with_capacity` and `Builder::alloc`: a new map
/// is built over an arena of `capacity` bytes and holds no entries; the
/// arena may fail to be allocated.
#[verifier::external_body]
fn skl_alloc(capacity: u32) -> (r: Option<SkipMap<Vec<u8>, Vec<u8>>>)
    ensures
        match r {
            Some(m) => skl_entries(m) == Map::<Seq<u8>, Seq<u8>>::empty() && skl_tombstone_free(m)
                && skl_capacity(m) == capacity,
            None => true,
        },
{
    Builder::new().with_capacity(capacity).alloc::<SkipMap<Vec<u8>, Vec<u8>>>().ok()
}

/// Relies on skl's `Map::len`: the number of entries, tombstones included
/// (there are none here).
#[verifier::external_body]
fn skl_len(m: &SkipMap<Vec<u8>, Vec<u8>>) -> (r: usize)
    requires
        skl_tombstone_free(*m),
    ensures
        r == skl_entries(*m).len(),
{
    m.len()
}

/// Relies on skl's `Arena::allocated`: the bytes taken from the arena so far.
#[verifier::external_body]
fn skl_allocated(m: &SkipMap<Vec<u8>, Vec<u8>>) -> (r: usize) {
    m.allocated()
}

/// Relies on skl's `Map::get`: the value stored under `key`, if any.
#[verifier::external_body]
fn skl_get(m: &SkipMap<Vec<u8>, Vec<u8>>, key: &Vec<u8>) -> (r: Option<Vec<u8>>)
    ensures
        match r {
            Some(v) => skl_entries(*m).contains_key(key@) && skl_entries(*m)[key@] == v@,
            None => !skl_entries(*m).contains_key(key@),
        },
{
    m.get(key).map(|ent| ent.value().to_vec())
}

/// Relies on skl's `Map::get_or_insert`: on a map without tombstones it
/// inserts `value` under `key` when the key is absent (`Ok(true)`), leaves
/// the map as it is when the key is present (`Ok(false)`), and leaves it as
/// it is when the entry cannot be allocated. It removes nothing, and the
/// arena keeps the capacity it was built with.
#[verifier::external_body]
fn skl_get_or_insert(m: &mut SkipMap<Vec<u8>, Vec<u8>>, key: &Vec<u8>, value: &Vec<u8>) -> (r:
    Result<bool, InsertFailure>)
    requires
        skl_tombstone_free(*old(m)),
    ensures
        skl_tombstone_free(*final(m)),
        skl_capacity(*final(m)) == skl_capacity(*old(m)),
        match r {
            Ok(true) => !skl_entries(*old(m)).contains_key(key@) && skl_entries(*final(m))
                == skl_entries(*old(m)).insert(key@, value@),
            Ok(false) => skl_entries(*old(m)).contains_key(key@) && skl_entries(*final(m))
                == skl_entries(*old(m)),
            Err(_) => skl_entries(*final(m)) == skl_entries(*old(m)),
        },
{
    match m.get_or_insert(key, value) {
        Ok(None) => Ok(true),
        Ok(Some(_)) => Ok(false),
        Err(skl::among::Among::Right(skl::error::Error::Arena(_))) => Err(InsertFailure::ArenaFull),
        Err(_) => Err(InsertFailure::Rejected),
    }
}

/// Whether `b` is an encoded value: a varint length followed by exactly
/// that many bytes.
pub open spec fn is_encoded_value(b: Seq<u8>) -> bool {
    match varint_decode(b) {
        Some((n, l)) => l + n == b.len(),
        None => false,
    }
}

/// The payload of an encoded value.
pub open spec fn payload(b: Seq<u8>) -> Seq<u8> {
    match varint_decode(b) {
        Some((n, l)) => b.subrange(l as int, b.len() as int),
        None => Seq::empty(),
    }
}

/// The value that an exact lookup of `(key, sequence)` finds among
/// `entries`: the payload stored under the internal key of type `Value`.
pub open spec fn lookup(entries: Map<Seq<u8>, Seq<u8>>, key: Seq<u8>, sequence: u64) -> Option<
    Seq<u8>,
> {
    let k = key_spec(sequence, ValueType::TypeValue, key);
    if sequence < MAX_SEQUENCE_EXCLUSIVE && key.len() + 8 <= usize::MAX && entries.contains_key(k) {
        Some(payload(entries[k]))
    } else {
        None
    }
}

/// An encoded value is well formed and its payload is the value.
pub proof fn lemma_value_round_trip(value: Seq<u8>)
    ensures
        is_encoded_value(value_spec(value)),
        payload(value_spec(value)) == value,
{
    lemma_varint_round_trip(value.len(), value);
    assert(value_spec(value).subrange(
        crate::key::varint_spec(value.len()).len() as int,
        value_spec(value).len() as int,
    ) =~= value);
}

/// Two internal keys are equal only when their user keys, sequence numbers
/// and types are.
pub proof fn lemma_key_injective(s1: u64, t1: ValueType, k1: Seq<u8>, s2: u64, t2: ValueType, k2: Seq<u8>)
    requires
        s1 < MAX_SEQUENCE_EXCLUSIVE,
        s2 < MAX_SEQUENCE_EXCLUSIVE,
        key_spec(s1, t1, k1) == key_spec(s2, t2, k2),
    ensures
        s1 == s2,
        t1 == t2,
        k1 == k2,
{
    lemma_key_round_trip(s1, t1, k1);
    lemma_key_round_trip(s2, t2, k2);
    assert(k1.len() == k2.len());
}

/// Whether an entry for `(key, sequence)` is present, of either type.
pub open spec fn pair_present(entries: Map<Seq<u8>, Seq<u8>>, key: Seq<u8>, sequence: u64) -> bool {
    ||| entries.contains_key(key_spec(sequence, ValueType::TypeValue, key))
    ||| entries.contains_key(key_spec(sequence, ValueType::TypeDeletion, key))
}

/// An arena-backed sorted map from internal keys to encoded values.
pub struct MemTable {
    map: SkipMap<Vec<u8>, Vec<u8>>,
}

impl MemTable {
    /// The entries, from encoded internal key to encoded value.
    pub closed spec fn entries(&self) -> Map<Seq<u8>, Seq<u8>> {
        skl_entries(self.map)
    }

    /// The arena capacity, in bytes, that the memtable was built with.
    pub closed spec fn capacity(&self) -> u32 {
        skl_capacity(self.map)
    }

    /// Finitely many entries, each holding an encoded value, and none
    /// removed.
    pub closed spec fn wf(&self) -> bool {
        &&& skl_tombstone_free(self.map)
        &&& self.entries().dom().finite()
        &&& forall|k: Seq<u8>| #[trigger]
            self.entries().contains_key(k) ==> is_encoded_value(self.entries()[k])
    }

    /// An empty memtable over an arena of `capacity_bytes`. Fails with
    /// `ResourceExhausted` only when the arena cannot be allocated.
    pub fn new(capacity_bytes: u32) -> (r: Result<MemTable, StatusCode>)
        ensures
            match r {
                Ok(t) => t.wf() && t.entries() == Map::<Seq<u8>, Seq<u8>>::empty() && t.capacity()
                    == capacity_bytes,
                Err(e) => e == StatusCode::ResourceExhausted,
            },
    {
        match skl_alloc(capacity_bytes) {
            Some(map) => Ok(MemTable { map }),
            None => Err(StatusCode::ResourceExhausted),
        }
    }

    /// The number of entries.
    pub fn len(&self) -> (r: usize)
        requires
            self.wf(),
        ensures
            r == self.entries().len(),
    {
        skl_len(&self.map)
    }

    /// The number of bytes taken from the arena.
    pub fn allocated(&self) -> usize {
        skl_allocated(&self.map)
    }

    /// Adds `value` under the internal key of `(sequence, t, user_key)`.
    /// A sequence of 2^56 or more gives `InvalidInput`, and an entry for the
    /// same `(user_key, sequence)`, of either type, `AlreadyExists`; a full
    /// arena gives `ResourceExhausted`, and a key or value the map cannot
    /// hold `InvalidInput`. Only success changes the entries.
    ///
    /// This takes `&mut self`: callers that add from several threads share
    /// the memtable behind a lock.
    pub fn add(&mut self, sequence: u64, t: ValueType, user_key: &[u8], value: &[u8]) -> (r: Result<
        (),
        StatusCode,
    >)
        requires
            old(self).wf(),
        ensures
            final(self).wf(),
            final(self).capacity() == old(self).capacity(),
            ({
                let k = key_spec(sequence, t, user_key@);
                match r {
                    Ok(()) => sequence < MAX_SEQUENCE_EXCLUSIVE && user_key@.len() + 8 <= usize::MAX
                        && !pair_present(old(self).entries(), user_key@, sequence)
                        && final(self).entries() == old(self).entries().insert(k, value_spec(value@))
                        && final(self).entries().len() == old(self).entries().len() + 1,
                    Err(e) => {
                        &&& final(self).entries() == old(self).entries()
                        &&& sequence >= MAX_SEQUENCE_EXCLUSIVE ==> e == StatusCode::InvalidInput
                        &&& e == StatusCode::AlreadyExists <==> (sequence < MAX_SEQUENCE_EXCLUSIVE
                            && user_key@.len() + 8 <= usize::MAX
                            && pair_present(old(self).entries(), user_key@, sequence))
                        &&& (e == StatusCode::InvalidInput || e == StatusCode::AlreadyExists
                            || e == StatusCode::ResourceExhausted)
                    },
                }
            }),
    {
        let memkey = match build_mem_key(sequence, t, user_key) {
            Ok(k) => k,
            Err(e) => {
                return Err(e);
            },
        };
        let memval = build_mem_value(value);
        proof {
            lemma_value_round_trip(value@);
        }
        let other: ValueType = match t {
            ValueType::TypeValue => ValueType::TypeDeletion,
            ValueType::TypeDeletion => ValueType::TypeValue,
        };
        let other_key = match build_mem_key(sequence, other, user_key) {
            Ok(k) => k,
            Err(e) => {
                return Err(e);
            },
        };
        if skl_get(&self.map, &memkey).is_some() || skl_get(&self.map, &other_key).is_some() {
            return Err(StatusCode::AlreadyExists);
        }
        match skl_get_or_insert(&mut self.map, &memkey, &memval) {
            Ok(true) => {
                proof {
                    vstd::set::axiom_set_insert_len(old(self).entries().dom(), memkey@);
                    assert(self.entries().dom() == old(self).entries().dom().insert(memkey@));
                }
                assert forall|k: Seq<u8>| #[trigger]
                    self.entries().contains_key(k) implies is_encoded_value(self.entries()[k]) by {
                    if k != memkey@ {
                        assert(old(self).entries().contains_key(k));
                    }
                }
                Ok(())
            },
            Ok(false) => Err(StatusCode::AlreadyExists),
            Err(InsertFailure::ArenaFull) => Err(StatusCode::ResourceExhausted),
            Err(InsertFailure::Rejected) => Err(StatusCode::InvalidInput),
        }
    }

    /// The value added under `(user_key, sequence)` with type `Value`, by an
    /// exact lookup.
    pub fn get(&self, user_key: &[u8], sequence: u64) -> (r: Option<Vec<u8>>)
        requires
            self.wf(),
        ensures
            match r {
                Some(v) => lookup(self.entries(), user_key@, sequence) == Some(v@),
                None => lookup(self.entries(), user_key@, sequence) is None,
            },
    {
        let find_key = match build_mem_key(sequence, ValueType::TypeValue, user_key) {
            Ok(k) => k,
            Err(_) => {
                return None;
            },
        };
        let stored = match skl_get(&self.map, &find_key) {
            Some(v) => v,
            None => {
                return None;
            },
        };
        assert(self.entries().contains_key(find_key@));
        assert(is_encoded_value(stored@));
        assert(stored@.subrange(0, stored@.len() as int) =~= stored@);
        match decode_varint(stored.as_slice(), 0) {
            Some((_n, l)) => {
                let body: &[u8] = vstd::slice::slice_subrange(stored.as_slice(), l, stored.len());
                Some(vstd::slice::slice_to_vec(body))
            },
            None => None,
        }
    }
}

/// After an entry is added, an exact lookup of its own key and sequence
/// (for a `Value` entry) finds the value just added, and every other lookup
/// finds what it found before.
pub proof fn lemma_get_after_add(
    entries: Map<Seq<u8>, Seq<u8>>,
    sequence: u64,
    t: ValueType,
    key: Seq<u8>,
    value: Seq<u8>,
    key2: Seq<u8>,
    sequence2: u64,
)
    requires
        sequence < MAX_SEQUENCE_EXCLUSIVE,
        key.len() + 8 <= usize::MAX,
    ensures
        lookup(entries.insert(key_spec(sequence, t, key), value_spec(value)), key2, sequence2) == if t
            == ValueType::TypeValue && key2 == key && sequence2 == sequence {
            Some(value)
        } else {
            lookup(entries, key2, sequence2)
        },
{
    lemma_value_round_trip(value);
    if sequence2 < MAX_SEQUENCE_EXCLUSIVE && key_spec(sequence, t, key) == key_spec(
        sequence2,
        ValueType::TypeValue,
        key2,
    ) {
        lemma_key_injective(sequence, t, key, sequence2, ValueType::TypeValue, key2);
    }
}


/// The entries after adding, in order, each `(sequence, type, key, value)`
/// of `adds`.
pub open spec fn apply_adds(
    entries: Map<Seq<u8>, Seq<u8>>,
    adds: Seq<(u64, ValueType, Seq<u8>, Seq<u8>)>,
) -> Map<Seq<u8>, Seq<u8>>
    decreases adds.len(),
{
    if adds.len() == 0 {
        entries
    } else {
        let a = adds.last();
        apply_adds(entries, adds.drop_last()).insert(key_spec(a.0, a.1, a.2), value_spec(a.3))
    }
}

/// After adds of pairwise distinct `(key, sequence)` pairs, an exact lookup
/// of a pair added with type `Value` finds the value added for it, and a
/// lookup of a pair never added finds what it found before the adds.
pub proof fn lemma_get_after_adds(
    entries: Map<Seq<u8>, Seq<u8>>,
    adds: Seq<(u64, ValueType, Seq<u8>, Seq<u8>)>,
    key: Seq<u8>,
    sequence: u64,
)
    requires
        forall|i: int|
            0 <= i < adds.len() ==> #[trigger] adds[i].0 < MAX_SEQUENCE_EXCLUSIVE && adds[i].2.len()
                + 8 <= usize::MAX,
        forall|i: int, j: int|
            0 <= i < j < adds.len() ==> !(#[trigger] adds[i].0 == #[trigger] adds[j].0 && adds[i].2
                == adds[j].2),
    ensures
        forall|i: int|
            0 <= i < adds.len() && adds[i].1 == ValueType::TypeValue ==> lookup(
                apply_adds(entries, adds),
                #[trigger] adds[i].2,
                adds[i].0,
            ) == Some(adds[i].3),
        (forall|i: int| 0 <= i < adds.len() ==> !(#[trigger] adds[i].2 == key && adds[i].0 == sequence))
            ==> lookup(apply_adds(entries, adds), key, sequence) == lookup(entries, key, sequence),
    decreases adds.len(),
{
    if adds.len() > 0 {
        let prev = adds.drop_last();
        let n = adds.len() - 1;
        let a = adds.last();
        assert forall|i: int, j: int| 0 <= i < j < prev.len() implies !(#[trigger] prev[i].0
            == #[trigger] prev[j].0 && prev[i].2 == prev[j].2) by {
            assert(prev[i] == adds[i] && prev[j] == adds[j]);
        }
        assert forall|i: int| 0 <= i < prev.len() implies #[trigger] prev[i].0
            < MAX_SEQUENCE_EXCLUSIVE && prev[i].2.len() + 8 <= usize::MAX by {
            assert(prev[i] == adds[i]);
        }
        lemma_get_after_adds(entries, prev, key, sequence);
        let before = apply_adds(entries, prev);
        assert(adds[n].0 < MAX_SEQUENCE_EXCLUSIVE);
        assert forall|i: int| 0 <= i < adds.len() && adds[i].1 == ValueType::TypeValue implies lookup(
            apply_adds(entries, adds),
            #[trigger] adds[i].2,
            adds[i].0,
        ) == Some(adds[i].3) by {
            lemma_get_after_add(before, a.0, a.1, a.2, a.3, adds[i].2, adds[i].0);
            if i < n {
                assert(prev[i] == adds[i]);
                assert(!(adds[i].0 == adds[n].0 && adds[i].2 == adds[n].2));
                lemma_get_after_adds(entries, prev, adds[i].2, adds[i].0);
            }
        }
        if forall|i: int| 0 <= i < adds.len() ==> !(#[trigger] adds[i].2 == key && adds[i].0 == sequence) {
            assert forall|i: int| 0 <= i < prev.len() implies !(#[trigger] prev[i].2 == key
                && prev[i].0 == sequence) by {
                assert(prev[i] == adds[i]);
            }
            assert(!(adds[n].2 == key && adds[n].0 == sequence));
            lemma_get_after_add(before, a.0, a.1, a.2, a.3, key, sequence);
        }
    }
}

} // verus!
