use vstd::prelude::*;
use vstd::string::StringSliceAdditionalSpecFns;
use crate::bytes::{join_with, present, bytes_equal, extend_bytes};

verus! {

/// One stored element of a collection. Every value is kept as 64 bits; an
/// integer is stored by its two's-complement bits and an address as is.
#[derive(Clone, Copy)]
pub struct Slot {
    pub bits: u64,
}

impl Slot {
    /// A slot holding the integer `v`.
    pub fn from_int(v: i64) -> (s: Slot)
        ensures
            s.bits == v as u64,
    {
        Slot { bits: v as u64 }
    }

    /// A slot holding the address `addr`.
    pub fn from_ptr(addr: u64) -> (s: Slot)
        ensures
            s.bits == addr,
    {
        Slot { bits: addr }
    }

    /// The integer stored in the slot.
    pub fn as_int(self) -> (v: i64)
        ensures
            v == self.bits as i64,
    {
        self.bits as i64
    }

    /// The address stored in the slot.
    pub fn as_ptr(self) -> (addr: u64)
        ensures
            addr == self.bits,
    {
        self.bits
    }
}

/// The abstract state of a collection: the sequential space and the
/// string-keyed space, whose keys are kept in insertion order.
pub struct CollectionModel {
    /// Values of the sequential space, at indices 0, 1, 2, ...
    pub items: Seq<u64>,
    /// String keys, in the order in which they were first set.
    pub keys: Seq<Seq<char>>,
    /// `values[i]` is the value stored under `keys[i]`.
    pub values: Seq<u64>,
}

impl CollectionModel {
    pub open spec fn empty() -> CollectionModel {
        CollectionModel { items: Seq::empty(), keys: Seq::empty(), values: Seq::empty() }
    }

    /// Keys and values pair up, and no key occurs twice.
    pub open spec fn is_consistent(self) -> bool {
        &&& self.keys.len() == self.values.len()
        &&& self.keys.no_duplicates()
    }

    /// Number of entries over both spaces.
    pub open spec fn count(self) -> nat {
        self.items.len() + self.keys.len()
    }

    pub open spec fn has_key(self, k: Seq<char>) -> bool {
        self.keys.contains(k)
    }

    /// The value stored under `k`, if any.
    pub open spec fn lookup(self, k: Seq<char>) -> Option<u64> {
        lookup_in(self.keys, self.values, k)
    }

    /// The model after storing `v` under `k`: an existing key keeps its
    /// position, a new key goes to the end of the key order.
    pub open spec fn set_key(self, k: Seq<char>, v: u64) -> CollectionModel {
        if self.has_key(k) {
            CollectionModel { values: self.values.update(self.keys.index_of(k), v), ..self }
        } else {
            CollectionModel { keys: self.keys.push(k), values: self.values.push(v), ..self }
        }
    }

    /// The model after writing `v` at sequential index `i`: the sequential
    /// space is first padded with zeros up to `i`.
    pub open spec fn set_item(self, i: nat, v: u64) -> CollectionModel {
        CollectionModel { items: pad_to(self.items, i + 1).update(i as int, v), ..self }
    }
}

impl CollectionModel {
    /// The sequential value at `index`, or 0 when `index` is out of range.
    pub open spec fn item_at(self, index: i64) -> u64 {
        if 0 <= index < self.items.len() {
            self.items[index as int]
        } else {
            0
        }
    }

    /// The last sequential value, or 0 when the sequential space is empty.
    pub open spec fn last_item(self) -> u64 {
        if self.items.len() > 0 {
            self.items.last()
        } else {
            0
        }
    }

    /// The model after removing the last sequential value, if there is one.
    pub open spec fn pop_item(self) -> CollectionModel {
        if self.items.len() > 0 {
            CollectionModel { items: self.items.drop_last(), ..self }
        } else {
            self
        }
    }

    /// `index` names an element of the sequential space.
    pub open spec fn is_valid_index(self, index: i64) -> bool {
        0 <= index < self.items.len()
    }
}

/// The part of `items` that a slice from `start` of `length` elements takes:
/// a negative start counts as 0, a negative length reaches to the end, and
/// the range is cut at the end of `items`.
pub open spec fn slice_items(items: Seq<u64>, start: i64, length: i64) -> Seq<u64> {
    let s: int = if start < 0 { 0 } else { start as int };
    if s >= items.len() {
        Seq::empty()
    } else if length < 0 || s + length >= items.len() {
        items.subrange(s, items.len() as int)
    } else {
        items.subrange(s, s + length)
    }
}

/// `i` is the first index of `items` whose value, read as an integer, is
/// `needle`.
pub open spec fn is_first_int_index(items: Seq<u64>, needle: i64, i: int) -> bool {
    &&& 0 <= i < items.len()
    &&& items[i] as i64 == needle
    &&& forall|j: int| 0 <= j < i ==> items[j] as i64 != needle
}

/// The byte contents of each optional string.
pub open spec fn byte_views(strings: Seq<Option<Vec<u8>>>) -> Seq<Option<Seq<u8>>> {
    strings.map_values(|o: Option<Vec<u8>>| match o { Some(b) => Some(b@), None => None })
}

/// `i` is the first index of `strings` holding exactly the bytes `needle`.
pub open spec fn is_first_bytes_index(strings: Seq<Option<Seq<u8>>>, needle: Seq<u8>, i: int) -> bool {
    &&& 0 <= i < strings.len()
    &&& strings[i] == Some(needle)
    &&& forall|j: int| 0 <= j < i ==> strings[j] != Some(needle)
}

/// The value paired with `k`, if `k` is one of `keys`.
pub open spec fn lookup_in(keys: Seq<Seq<char>>, values: Seq<u64>, k: Seq<char>) -> Option<u64> {
    if keys.contains(k) {
        Some(values[keys.index_of(k)])
    } else {
        None
    }
}

/// `s` extended with zeros to length at least `n`.
pub open spec fn pad_to(s: Seq<u64>, n: nat) -> Seq<u64> {
    if s.len() >= n {
        s
    } else {
        s + Seq::new((n - s.len()) as nat, |j: int| 0u64)
    }
}

/// The string-keyed space of a collection: its entries in key insertion
/// order, no key occurring twice.
pub struct KeyedSlots {
    entries: Vec<(String, Slot)>,
}

impl KeyedSlots {
    /// Keys in insertion order.
    pub closed spec fn keys(&self) -> Seq<Seq<char>> {
        self.entries@.map_values(|e: (String, Slot)| e.0@)
    }

    /// `values()[i]` is the value stored under `keys()[i]`.
    pub closed spec fn values(&self) -> Seq<u64> {
        self.entries@.map_values(|e: (String, Slot)| e.1.bits)
    }

    #[verifier::type_invariant]
    closed spec fn inv(self) -> bool {
        self.keys().no_duplicates()
    }

    pub fn new() -> (m: Self)
        ensures
            m.keys() == Seq::<Seq<char>>::empty(),
            m.values() == Seq::<u64>::empty(),
    {
        let m = KeyedSlots { entries: Vec::new() };
        assert(m.keys() =~= Seq::<Seq<char>>::empty());
        assert(m.values() =~= Seq::<u64>::empty());
        m
    }

    pub fn len(&self) -> (n: usize)
        ensures
            n == self.keys().len(),
    {
        self.entries.len()
    }

    /// Index of `key` in the key order, if present.
    fn position(&self, key: &String) -> (r: Option<usize>)
        ensures
            self.keys().len() == self.values().len(),
            self.keys().no_duplicates(),
            match r {
                Some(i) => i < self.keys().len() && self.keys()[i as int] == key@
                    && self.keys().index_of(key@) == i,
                None => !self.keys().contains(key@),
            },
    {
        proof {
            use_type_invariant(self);
        }
        let mut i: usize = 0;
        while i < self.entries.len()
            invariant
                i <= self.entries.len(),
                self.keys().len() == self.entries@.len(),
                self.keys().len() == self.values().len(),
                self.keys().no_duplicates(),
                forall|j: int| 0 <= j < i ==> self.keys()[j] != key@,
            decreases self.entries.len() - i,
        {
            if self.entries[i].0 == *key {
                assert(self.keys()[i as int] == key@);
                assert(self.keys().contains(key@));
                let ghost k = self.keys().index_of(key@);
                assert(self.keys()[k] == key@);
                return Some(i);
            }
            i += 1;
        }
        None
    }

    /// The slot stored under `key`, if any.
    pub fn get(&self, key: &str) -> (r: Option<Slot>)
        ensures
            match r {
                Some(s) => lookup_in(self.keys(), self.values(), key@) == Some(s.bits),
                None => lookup_in(self.keys(), self.values(), key@) is None,
            },
    {
        let k = key.to_owned();
        match self.position(&k) {
            Some(i) => Some(self.entries[i].1),
            None => None,
        }
    }

    /// Stores `val` under `key`. A new key goes to the end of the key order;
    /// an existing key keeps its place.
    pub fn set(&mut self, key: &str, val: Slot)
        ensures
            ({
                let m = CollectionModel { items: Seq::empty(), keys: old(self).keys(), values: old(self).values() }.set_key(key@, val.bits);
                final(self).keys() == m.keys && final(self).values() == m.values
            }),
            final(self).keys().len() == final(self).values().len(),
            final(self).keys().no_duplicates(),
    {
        let k = key.to_owned();
        let pos = self.position(&k);
        let ghost old_keys = self.keys();
        let ghost old_values = self.values();
        let mut entries: Vec<(String, Slot)> = Vec::new();
        std::mem::swap(&mut entries, &mut self.entries);
        match pos {
            Some(i) => {
                entries.set(i, (k, val));
                assert(entries@.map_values(|e: (String, Slot)| e.0@) =~= old_keys);
                assert(entries@.map_values(|e: (String, Slot)| e.1.bits) =~= old_values.update(i as int, val.bits));
            },
            None => {
                entries.push((k, val));
                assert(entries@.map_values(|e: (String, Slot)| e.0@) =~= old_keys.push(key@));
                assert(entries@.map_values(|e: (String, Slot)| e.1.bits) =~= old_values.push(val.bits));
            },
        }
        self.entries = entries;
    }

    /// The key at position `i` of the key order.
    pub fn key_at(&self, i: usize) -> (r: String)
        requires
            i < self.keys().len(),
        ensures
            r@ == self.keys()[i as int],
    {
        self.entries[i].0.clone()
    }
}

/// Ordered collection with a sequential (integer-indexed) space and an
/// associative (string-keyed) space that remembers key insertion order.
/// The two spaces are independent.
pub struct PicoCollection {
    seq: Vec<Slot>,
    map: KeyedSlots,
}

impl View for PicoCollection {
    type V = CollectionModel;

    closed spec fn view(&self) -> CollectionModel {
        CollectionModel {
            items: self.seq@.map_values(|s: Slot| s.bits),
            keys: self.map.keys(),
            values: self.map.values(),
        }
    }
}

impl PicoCollection {
    /// An empty collection.
    pub fn new() -> (c: Self)
        ensures
            c@ == CollectionModel::empty(),
            c@.is_consistent(),
    {
        let c = PicoCollection { seq: Vec::new(), map: KeyedSlots::new() };
        assert(c@.items =~= Seq::<u64>::empty());
        c
    }

    /// Appends the integer `val` to the sequential space.
    pub fn push_int(&mut self, val: i64)
        ensures
            final(self)@ == (CollectionModel { items: old(self)@.items.push(val as u64), ..old(self)@ }),
            final(self)@.is_consistent(),
    {
        self.push_slot(Slot::from_int(val));
    }

    /// Appends the address `addr` to the sequential space.
    pub fn push_ptr(&mut self, addr: u64)
        ensures
            final(self)@ == (CollectionModel { items: old(self)@.items.push(addr), ..old(self)@ }),
            final(self)@.is_consistent(),
    {
        self.push_slot(Slot::from_ptr(addr));
    }

    /// The sequential slot at `index`, if `index` is in range.
    fn slot_at(&self, index: i64) -> (r: Option<Slot>)
        ensures
            match r {
                Some(s) => self@.is_valid_index(index) && s.bits == self@.items[index as int],
                None => !self@.is_valid_index(index),
            },
    {
        if index >= 0 && (index as u64) < (self.seq.len() as u64) {
            Some(self.seq[index as usize])
        } else {
            None
        }
    }

    /// Writes `s` at `index`, padding the sequential space with zero slots
    /// first if it is too short.
    fn set_slot_at(&mut self, index: usize, s: Slot)
        ensures
            final(self)@ == old(self)@.set_item(index as nat, s.bits),
            final(self)@.is_consistent(),
    {
        proof {
            use_type_invariant(&self.map);
        }
        while self.seq.len() <= index
            invariant
                self@.keys == old(self)@.keys,
                self@.values == old(self)@.values,
                self@.items == pad_to(old(self)@.items, self@.items.len()),
                self@.items.len() >= old(self)@.items.len(),
                self@.items.len() <= index + 1 || self@.items.len() == old(self)@.items.len(),
            decreases index + 1 - self.seq.len(),
        {
            let ghost before = self@.items;
            self.seq.push(Slot { bits: 0 });
            assert(self@.items =~= before.push(0));
            assert(pad_to(old(self)@.items, self@.items.len()) =~= pad_to(old(self)@.items, before.len()).push(0));
        }
        self.seq.set(index, s);
        assert(self@.items =~= pad_to(old(self)@.items, index as nat + 1).update(index as int, s.bits));
    }

    /// Removes and returns the last sequential slot.
    fn pop_slot(&mut self) -> (r: Option<Slot>)
        ensures
            final(self)@ == old(self)@.pop_item(),
            final(self)@.is_consistent(),
            match r {
                Some(s) => old(self)@.items.len() > 0 && s.bits == old(self)@.items.last(),
                None => old(self)@.items.len() == 0,
            },
    {
        proof {
            use_type_invariant(&self.map);
        }
        let r = self.seq.pop();
        assert(self@.items =~= old(self)@.pop_item().items);
        r
    }

    fn push_slot(&mut self, s: Slot)
        ensures
            final(self)@ == (CollectionModel { items: old(self)@.items.push(s.bits), ..old(self)@ }),
            final(self)@.is_consistent(),
    {
        proof {
            use_type_invariant(&self.map);
        }
        self.seq.push(s);
        assert(self@.items =~= old(self)@.items.push(s.bits));
    }
}

// ── Laws ───────────────────────────────────────────────────────────

/// A pushed value sits at the next sequential index, the count grows by
/// one, and an integer pushed is read back unchanged.
pub proof fn law_push_then_get_at(m: CollectionModel, v: i64)
    requires
        m.items.len() < i64::MAX,
    ensures
        ({
            let m2 = CollectionModel { items: m.items.push(v as u64), ..m };
            &&& m2.item_at(m.items.len() as i64) as i64 == v
            &&& m2.count() == m.count() + 1
            &&& m2.is_valid_index(m.items.len() as i64)
        }),
{
    assert((v as u64) as i64 == v) by (bit_vector);
}

/// Popping right after a push gives back the pushed value and the
/// collection as it was before the push.
pub proof fn law_push_then_pop(m: CollectionModel, v: u64)
    ensures
        ({
            let m2 = CollectionModel { items: m.items.push(v), ..m };
            &&& m2.last_item() == v
            &&& m2.pop_item() == m
        }),
{
    let m2 = CollectionModel { items: m.items.push(v), ..m };
    assert(m2.pop_item().items =~= m.items);
}

/// A value written at a sequential index is read back there; the values
/// before the old end stay, and the new indices in between read 0.
pub proof fn law_set_then_get_at(m: CollectionModel, i: i64, v: u64)
    requires
        0 <= i,
    ensures
        ({
            let m2 = m.set_item(i as nat, v);
            &&& m2.item_at(i) == v
            &&& m2.items.len() == if i < m.items.len() { m.items.len() as int } else { i + 1 }
            &&& forall|j: i64| 0 <= j < m.items.len() && j != i ==> m2.item_at(j) == m.item_at(j)
            &&& forall|j: i64| m.items.len() <= j < i ==> m2.item_at(j) == 0
            &&& m2.keys == m.keys && m2.values == m.values
        }),
{
}

/// A value stored under a key is read back under that key, the key is
/// then present, every other key keeps its value, and the sequential space
/// is untouched.
pub proof fn law_set_then_get_key(m: CollectionModel, k: Seq<char>, v: u64)
    requires
        m.is_consistent(),
    ensures
        ({
            let m2 = m.set_key(k, v);
            &&& m2.lookup(k) == Some(v)
            &&& m2.has_key(k)
            &&& m2.is_consistent()
            &&& forall|k2: Seq<char>| k2 != k ==> m2.lookup(k2) == m.lookup(k2)
            &&& m2.items == m.items
        }),
{
    let m2 = m.set_key(k, v);
    if m.has_key(k) {
        let i = m.keys.index_of(k);
        assert(m.keys[i] == k);
        assert(m2.keys == m.keys);
        assert forall|k2: Seq<char>| k2 != k implies m2.lookup(k2) == m.lookup(k2) by {
            if m.has_key(k2) {
                let j = m.keys.index_of(k2);
                assert(m.keys[j] == k2);
                assert(j != i);
            }
        }
    } else {
        assert(m2.keys[m.keys.len() as int] == k);
        let i = m2.keys.index_of(k);
        assert(m2.keys[i] == k);
        assert(i == m.keys.len());
        assert forall|k2: Seq<char>| k2 != k implies m2.lookup(k2) == m.lookup(k2) by {
            if m.has_key(k2) {
                let j = m.keys.index_of(k2);
                assert(m.keys[j] == k2);
                assert(m2.keys[j] == k2);
                let j2 = m2.keys.index_of(k2);
                assert(m2.keys[j2] == k2);
            } else {
                if m2.has_key(k2) {
                    let j2 = m2.keys.index_of(k2);
                    assert(m2.keys[j2] == k2);
                    assert(m.keys[j2] == k2);
                }
            }
        }
    }
}

/// Keys keep the order in which they were first set: setting a new key
/// appends it to the key order, and setting an existing key leaves the
/// key order as it was.
pub proof fn law_key_order(m: CollectionModel, k: Seq<char>, v: u64)
    ensures
        !m.has_key(k) ==> m.set_key(k, v).keys == m.keys.push(k),
        m.has_key(k) ==> m.set_key(k, v).keys == m.keys,
        m.set_key(k, v).count() == m.count() + if m.has_key(k) { 0int } else { 1int },
{
}

/// A change to a collection, as the operations of this module make them.
pub enum CollectionOp {
    /// Append a value to the sequential space.
    PushItem(u64),
    /// Remove the last sequential value, if any.
    PopItem,
    /// Write a value at a sequential index.
    SetItem(nat, u64),
    /// Store a value under a key.
    SetKey(Seq<char>, u64),
}

/// The model after one change.
pub open spec fn apply_op(m: CollectionModel, op: CollectionOp) -> CollectionModel {
    match op {
        CollectionOp::PushItem(v) => CollectionModel { items: m.items.push(v), ..m },
        CollectionOp::PopItem => m.pop_item(),
        CollectionOp::SetItem(i, v) => m.set_item(i, v),
        CollectionOp::SetKey(k, v) => m.set_key(k, v),
    }
}

/// The model after the changes `ops`, in order, starting from `m`.
pub open spec fn apply_ops(m: CollectionModel, ops: Seq<CollectionOp>) -> CollectionModel
    decreases ops.len(),
{
    if ops.len() == 0 {
        m
    } else {
        apply_op(apply_ops(m, ops.drop_last()), ops.last())
    }
}

/// The keys that `ops` store values under, in order, repeats included.
pub open spec fn keys_set_by(ops: Seq<CollectionOp>) -> Seq<Seq<char>>
    decreases ops.len(),
{
    if ops.len() == 0 {
        Seq::empty()
    } else {
        match ops.last() {
            CollectionOp::SetKey(k, _) => keys_set_by(ops.drop_last()).push(k),
            _ => keys_set_by(ops.drop_last()),
        }
    }
}

/// `ks` with every repeat of a key after its first occurrence left out.
pub open spec fn first_occurrences(ks: Seq<Seq<char>>) -> Seq<Seq<char>>
    decreases ks.len(),
{
    if ks.len() == 0 {
        Seq::empty()
    } else {
        let f = first_occurrences(ks.drop_last());
        if f.contains(ks.last()) { f } else { f.push(ks.last()) }
    }
}

/// Over any sequence of changes to a new collection, the key order is the
/// order in which keys were first set, each key once, and the model stays
/// consistent: this is what `pico_collection_key_at` reads back.
pub proof fn law_key_order_over_ops(ops: Seq<CollectionOp>)
    ensures
        apply_ops(CollectionModel::empty(), ops).keys == first_occurrences(keys_set_by(ops)),
        apply_ops(CollectionModel::empty(), ops).is_consistent(),
    decreases ops.len(),
{
    if ops.len() > 0 {
        law_key_order_over_ops(ops.drop_last());
        let m = apply_ops(CollectionModel::empty(), ops.drop_last());
        match ops.last() {
            CollectionOp::SetKey(k, v) => {
                law_set_then_get_key(m, k, v);
                let ks = keys_set_by(ops);
                assert(ks == keys_set_by(ops.drop_last()).push(k));
                assert(ks.drop_last() =~= keys_set_by(ops.drop_last()));
                assert(ks.last() == k);
            },
            _ => {
                assert(keys_set_by(ops) == keys_set_by(ops.drop_last()));
                assert(apply_ops(CollectionModel::empty(), ops).keys == m.keys);
                assert(apply_ops(CollectionModel::empty(), ops).values == m.values);
            },
        }
    } else {
        assert(CollectionModel::empty().keys.no_duplicates());
    }
}

/// A slice that lies inside the sequential space holds exactly `length`
/// items, those at `start .. start + length`: a range that stops before
/// the end is not taken to the end.
pub proof fn law_slice_range(items: Seq<u64>, start: i64, length: i64)
    requires
        0 <= start,
        0 <= length,
        start + length <= items.len(),
    ensures
        slice_items(items, start, length) == items.subrange(start as int, start + length),
        slice_items(items, start, length).len() == length,
{
    if start as int >= items.len() {
        assert(items.subrange(start as int, start + length) =~= Seq::<u64>::empty());
    }
}

/// A slice from 0 with a negative length copies the whole sequential space.
pub proof fn law_slice_whole(items: Seq<u64>, length: i64)
    requires
        length < 0,
    ensures
        slice_items(items, 0, length) == items,
{
    if items.len() > 0 {
        assert(items.subrange(0, items.len() as int) =~= items);
    }
}

/// Number of entries over both spaces.
pub fn pico_collection_count(col: &PicoCollection) -> (r: i64)
    ensures
        r == col@.count() as i64,
        col@.is_consistent(),
{
    proof {
        use_type_invariant(&col.map);
    }
    let total: u128 = col.seq.len() as u128 + col.map.len() as u128;
    total as i64
}

/// Appends an integer to the sequential space.
pub fn pico_collection_push_int(col: &mut PicoCollection, val: i64)
    ensures
        final(col)@ == (CollectionModel { items: old(col)@.items.push(val as u64), ..old(col)@ }),
        final(col)@.is_consistent(),
{
    col.push_int(val);
}

/// Appends an address to the sequential space.
pub fn pico_collection_push_ptr(col: &mut PicoCollection, val: u64)
    ensures
        final(col)@ == (CollectionModel { items: old(col)@.items.push(val), ..old(col)@ }),
        final(col)@.is_consistent(),
{
    col.push_ptr(val);
}

/// The integer at `index`, or 0 when `index` is out of range.
pub fn pico_collection_get_int_at(col: &PicoCollection, index: i64) -> (r: i64)
    ensures
        r == col@.item_at(index) as i64,
{
    match col.slot_at(index) {
        Some(s) => s.as_int(),
        None => 0,
    }
}

/// The address at `index`, or 0 (null) when `index` is out of range.
pub fn pico_collection_get_ptr_at(col: &PicoCollection, index: i64) -> (r: u64)
    ensures
        r == col@.item_at(index),
{
    match col.slot_at(index) {
        Some(s) => s.as_ptr(),
        None => 0,
    }
}

/// Writes an integer at `index`, extending the sequential space with zeros
/// when `index` is past its end.
pub fn pico_collection_set_int_at(col: &mut PicoCollection, index: i64, val: i64)
    requires
        0 <= index <= usize::MAX,
    ensures
        final(col)@ == old(col)@.set_item(index as nat, val as u64),
        final(col)@.is_consistent(),
{
    col.set_slot_at(index as usize, Slot::from_int(val));
}

/// Writes an address at `index`, extending the sequential space with zeros
/// when `index` is past its end.
pub fn pico_collection_set_ptr_at(col: &mut PicoCollection, index: i64, val: u64)
    requires
        0 <= index <= usize::MAX,
    ensures
        final(col)@ == old(col)@.set_item(index as nat, val),
        final(col)@.is_consistent(),
{
    col.set_slot_at(index as usize, Slot::from_ptr(val));
}

/// Removes the last sequential value and returns it as an integer (0 when
/// the sequential space is empty).
pub fn pico_collection_pop_int(col: &mut PicoCollection) -> (r: i64)
    ensures
        r == old(col)@.last_item() as i64,
        final(col)@ == old(col)@.pop_item(),
        final(col)@.is_consistent(),
{
    match col.pop_slot() {
        Some(s) => s.as_int(),
        None => 0,
    }
}

/// Removes the last sequential value and returns it as an address (null
/// when the sequential space is empty).
pub fn pico_collection_pop_ptr(col: &mut PicoCollection) -> (r: u64)
    ensures
        r == old(col)@.last_item(),
        final(col)@ == old(col)@.pop_item(),
        final(col)@.is_consistent(),
{
    match col.pop_slot() {
        Some(s) => s.as_ptr(),
        None => 0,
    }
}

/// The last sequential value as an integer (0 when empty).
pub fn pico_collection_last_int(col: &PicoCollection) -> (r: i64)
    ensures
        r == col@.last_item() as i64,
{
    let n = col.seq.len();
    if n > 0 {
        col.seq[n - 1].as_int()
    } else {
        0
    }
}

/// The last sequential value as an address (null when empty).
pub fn pico_collection_last_ptr(col: &PicoCollection) -> (r: u64)
    ensures
        r == col@.last_item(),
{
    let n = col.seq.len();
    if n > 0 {
        col.seq[n - 1].as_ptr()
    } else {
        0
    }
}

/// The integer stored under `key`, or 0 when the key is absent.
pub fn pico_collection_get_int(col: &PicoCollection, key: &str) -> (r: i64)
    ensures
        r == match col@.lookup(key@) {
            Some(v) => v as i64,
            None => 0,
        },
{
    match col.map.get(key) {
        Some(s) => s.as_int(),
        None => 0,
    }
}

/// The address stored under `key`, or null when the key is absent.
pub fn pico_collection_get_ptr(col: &PicoCollection, key: &str) -> (r: u64)
    ensures
        r == match col@.lookup(key@) {
            Some(v) => v,
            None => 0,
        },
{
    match col.map.get(key) {
        Some(s) => s.as_ptr(),
        None => 0,
    }
}

/// Stores an integer under `key`.
pub fn pico_collection_set_int(col: &mut PicoCollection, key: &str, val: i64)
    ensures
        final(col)@ == old(col)@.set_key(key@, val as u64),
        final(col)@.is_consistent(),
{
    col.map.set(key, Slot::from_int(val));
}

/// Stores an address under `key`.
pub fn pico_collection_set_ptr(col: &mut PicoCollection, key: &str, val: u64)
    ensures
        final(col)@ == old(col)@.set_key(key@, val),
        final(col)@.is_consistent(),
{
    col.map.set(key, Slot::from_ptr(val));
}

/// Whether `key` is present in the string-keyed space.
pub fn pico_collection_has(col: &PicoCollection, key: &str) -> (r: bool)
    ensures
        r == col@.has_key(key@),
        col@.is_consistent(),
{
    proof {
        use_type_invariant(&col.map);
    }
    col.map.get(key).is_some()
}

/// The key at position `index` of the key order, if there is one.
pub fn pico_collection_key_at(col: &PicoCollection, index: i64) -> (r: Option<String>)
    ensures
        match r {
            Some(k) => 0 <= index < col@.keys.len() && k@ == col@.keys[index as int],
            None => !(0 <= index < col@.keys.len()),
        },
{
    if index >= 0 && (index as u64) < (col.map.len() as u64) {
        Some(col.map.key_at(index as usize))
    } else {
        None
    }
}

/// Whether `index` names an element of the sequential space.
pub fn pico_collection_valid_index(col: &PicoCollection, index: i64) -> (r: bool)
    ensures
        r == col@.is_valid_index(index),
{
    index >= 0 && (index as u64) < (col.seq.len() as u64)
}

/// The first index whose value, read as an integer, is `needle`.
fn find_int(col: &PicoCollection, needle: i64) -> (r: Option<usize>)
    ensures
        match r {
            Some(i) => is_first_int_index(col@.items, needle, i as int),
            None => forall|j: int| 0 <= j < col@.items.len() ==> col@.items[j] as i64 != needle,
        },
{
    let mut i: usize = 0;
    while i < col.seq.len()
        invariant
            i <= col@.items.len(),
            col@.items.len() == col.seq@.len(),
            forall|j: int| 0 <= j < i ==> col@.items[j] as i64 != needle,
        decreases col.seq@.len() - i,
    {
        if col.seq[i].as_int() == needle {
            return Some(i);
        }
        i += 1;
    }
    None
}

/// The first index whose value, read as an integer, is `needle`; -1 when
/// there is none.
pub fn pico_collection_index_of_int(col: &PicoCollection, needle: i64) -> (r: i64)
    ensures
        (exists|i: int| is_first_int_index(col@.items, needle, i) && r == i as i64)
            || (r == -1 && forall|j: int| 0 <= j < col@.items.len() ==> col@.items[j] as i64 != needle),
{
    match find_int(col, needle) {
        Some(i) => i as i64,
        None => -1,
    }
}

/// Whether some value of the sequential space, read as an integer, is
/// `needle`.
pub fn pico_collection_contains_int(col: &PicoCollection, needle: i64) -> (r: bool)
    ensures
        r == exists|j: int| 0 <= j < col@.items.len() && col@.items[j] as i64 == needle,
{
    match find_int(col, needle) {
        Some(i) => {
            assert(col@.items[i as int] as i64 == needle);
            true
        },
        None => false,
    }
}

/// The first index of `strings` holding exactly the bytes `needle`.
fn find_bytes(strings: &Vec<Option<Vec<u8>>>, needle: &[u8]) -> (r: Option<usize>)
    ensures
        match r {
            Some(i) => is_first_bytes_index(byte_views(strings@), needle@, i as int),
            None => forall|j: int| 0 <= j < strings@.len() ==> byte_views(strings@)[j] != Some(needle@),
        },
{
    let ghost v = byte_views(strings@);
    let mut i: usize = 0;
    while i < strings.len()
        invariant
            i <= strings@.len(),
            v == byte_views(strings@),
            forall|j: int| 0 <= j < i ==> v[j] != Some(needle@),
        decreases strings@.len() - i,
    {
        match &strings[i] {
            Some(b) => {
                if bytes_equal(b.as_slice(), needle) {
                    return Some(i);
                }
            },
            None => {},
        }
        i += 1;
    }
    None
}

/// The first index of `strings` holding exactly the bytes `needle`; -1 when
/// there is none. `strings` gives, for each sequential value, the bytes of
/// the string it addresses, or `None` for a null address.
pub fn pico_collection_index_of_str(strings: &Vec<Option<Vec<u8>>>, needle: &[u8]) -> (r: i64)
    ensures
        (exists|i: int| is_first_bytes_index(byte_views(strings@), needle@, i) && r == i as i64)
            || (r == -1 && forall|j: int| 0 <= j < strings@.len() ==> byte_views(strings@)[j] != Some(needle@)),
{
    match find_bytes(strings, needle) {
        Some(i) => i as i64,
        None => -1,
    }
}

/// Whether some element of `strings` holds exactly the bytes `needle`.
pub fn pico_collection_contains_str(strings: &Vec<Option<Vec<u8>>>, needle: &[u8]) -> (r: bool)
    ensures
        r == exists|j: int| 0 <= j < strings@.len() && #[trigger] byte_views(strings@)[j] == Some(needle@),
{
    match find_bytes(strings, needle) {
        Some(i) => {
            assert(byte_views(strings@)[i as int] == Some(needle@));
            true
        },
        None => false,
    }
}

/// A new collection holding part of the sequential space of `col`; see
/// `slice_items` for which part.
pub fn pico_collection_slice(col: &PicoCollection, start: i64, length: i64) -> (r: PicoCollection)
    ensures
        r@ == (CollectionModel { items: slice_items(col@.items, start, length), ..CollectionModel::empty() }),
        r@.is_consistent(),
{
    let mut result = PicoCollection::new();
    let n = col.seq.len();
    let s: u64 = if start < 0 { 0 } else { start as u64 };
    if s < n as u64 {
        let s = s as usize;
        let end: usize = if length < 0 || (length as u64) >= (n - s) as u64 { n } else { s + length as usize };
        let mut i = s;
        assert(result@.items =~= col@.items.subrange(s as int, s as int));
        while i < end
            invariant
                s <= i <= end <= n,
                n == col@.items.len(),
                result@ == (CollectionModel { items: col@.items.subrange(s as int, i as int), ..CollectionModel::empty() }),
            decreases end - i,
        {
            result.push_slot(col.seq[i]);
            i += 1;
            assert(col@.items.subrange(s as int, i as int) =~= col@.items.subrange(s as int, i - 1).push(col@.items[i - 1]));
        }
    } else {
        assert(result@.items =~= slice_items(col@.items, start, length));
    }
    result
}

/// The present strings of `parts` joined with `delimiter`. `parts` gives,
/// for each sequential value, the bytes of the UTF-8 string it addresses,
/// or `None` for a null address or a string that is not UTF-8.
pub fn pico_collection_join(parts: &Vec<Option<Vec<u8>>>, delimiter: &str) -> (r: Vec<u8>)
    ensures
        r@ == join_with(present(byte_views(parts@)), delimiter.spec_bytes()),
{
    let ghost v = byte_views(parts@);
    let sep = delimiter.as_bytes();
    let mut out: Vec<u8> = Vec::new();
    let mut any = false;
    let mut i: usize = 0;
    while i < parts.len()
        invariant
            i <= parts@.len(),
            v == byte_views(parts@),
            sep@ == delimiter.spec_bytes(),
            out@ == join_with(present(v.take(i as int)), sep@),
            any == (present(v.take(i as int)).len() > 0),
        decreases parts@.len() - i,
    {
        assert(v.take(i + 1).drop_last() =~= v.take(i as int));
        match &parts[i] {
            Some(b) => {
                let ghost before = present(v.take(i as int));
                if any {
                    extend_bytes(&mut out, sep);
                }
                extend_bytes(&mut out, b.as_slice());
                any = true;
                assert(present(v.take(i + 1)) == before.push(b@));
                assert(before.push(b@).drop_last() =~= before);
                proof {
                    if before.len() == 0 {
                        assert(out@ =~= before.push(b@)[0]);
                    }
                }
            },
            None => {},
        }
        i += 1;
    }
    assert(v.take(parts@.len() as int) =~= v);
    out
}

} // verus!
