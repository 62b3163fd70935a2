use std::sync::Arc;

use vstd::prelude::*;
use vstd::slice::slice_to_vec;

verus! {

/// FNV-1a offset basis: the starting state of every position hash.
pub const FNV_OFFSET_BASIS: u64 = 0xcbf29ce484222325u64;

/// FNV-1a prime: the multiplier applied after each half of a position/value pair.
pub const FNV_PRIME: u64 = 0x100000001b3u64;

/// The hash contributed by `value` standing at `position`: the value is mixed in
/// first (low half of the combined 128-bit word), then the position (high half),
/// each followed by a wrapping multiplication with the FNV prime.
pub open spec fn position_hash_spec(position: usize, value: usize) -> u64 {
    ((FNV_OFFSET_BASIS ^ (value as u64)).wrapping_mul(FNV_PRIME) ^ (position as u64)).wrapping_mul(
        FNV_PRIME,
    )
}

/// The hash of a whole key: the XOR of the position hashes of all its entries.
pub open spec fn full_hash(values: Seq<usize>) -> u64
    decreases values.len(),
{
    if values.len() == 0 {
        0
    } else {
        full_hash(values.drop_last()) ^ position_hash_spec(
            (values.len() - 1) as usize,
            values.last(),
        )
    }
}

/// XOR-ing out one contribution and XOR-ing in another is the same as changing
/// that contribution inside a longer XOR chain.
proof fn lemma_xor_swap(rest: u64, old_part: u64, new_part: u64, other: u64)
    ensures
        (rest ^ new_part) == (rest ^ old_part) ^ old_part ^ new_part,
        ((rest ^ old_part ^ new_part) ^ other) == ((rest ^ other) ^ old_part ^ new_part),
{
    assert((rest ^ new_part) == (rest ^ old_part) ^ old_part ^ new_part) by (bit_vector);
    assert(((rest ^ old_part ^ new_part) ^ other) == ((rest ^ other) ^ old_part ^ new_part))
        by (bit_vector);
}

/// Changing the entry at `position` changes the full hash by exactly the
/// difference of the two position hashes.
pub proof fn law_incremental_hash(values: Seq<usize>, position: int, new_value: usize)
    requires
        0 <= position < values.len(),
    ensures
        full_hash(values.update(position, new_value)) == full_hash(values) ^ position_hash_spec(
            position as usize,
            values[position],
        ) ^ position_hash_spec(position as usize, new_value),
    decreases values.len(),
{
    let updated = values.update(position, new_value);
    let last = (values.len() - 1) as usize;
    if position == values.len() - 1 {
        assert(updated.drop_last() =~= values.drop_last());
        lemma_xor_swap(
            full_hash(values.drop_last()),
            position_hash_spec(last, values[position]),
            position_hash_spec(last, new_value),
            0,
        );
    } else {
        assert(updated.drop_last() =~= values.drop_last().update(position, new_value));
        law_incremental_hash(values.drop_last(), position, new_value);
        lemma_xor_swap(
            full_hash(values.drop_last()),
            position_hash_spec(position as usize, values[position]),
            position_hash_spec(position as usize, new_value),
            position_hash_spec(last, values.last()),
        );
    }
}

/// Keys holding the same values are equal: the hash of a consistent key is a
/// function of its values alone.
pub proof fn law_equal_values_equal_keys(a: RegionKey, b: RegionKey)
    requires
        a.is_consistent(),
        b.is_consistent(),
        a@ == b@,
    ensures
        a.hash == b.hash,
{
}

/// A region key: the per-dimension interval indices of a region, shared behind an
/// `Arc` so that clones are cheap, together with a hash that is maintained
/// incrementally.
///
/// Equality, ordering and hashing go by the hash only.
/// A key is consistent when its hash is the full hash of its values; every key made
/// by `new` is, and the update operations keep it so.
#[derive(Debug)]
pub struct RegionKey {
    pub hash: u64,
    pub values: Arc<Vec<usize>>,
}

impl View for RegionKey {
    type V = Seq<usize>;

    open spec fn view(&self) -> Seq<usize> {
        self.values@
    }
}

/// `Arc::make_mut`: mutable access to the vector behind the `Arc`, cloning it first
/// when it is shared. The contract claims that the vector reached through the result
/// holds what the `Arc` held, and that the `Arc` afterwards holds what the result was
/// left holding.
#[verifier::external_body]
fn arc_make_mut(values: &mut Arc<Vec<usize>>) -> (inner: &mut Vec<usize>)
    ensures
        inner@ == old(values)@,
        final(values)@ == final(inner)@,
{
    Arc::make_mut(values)
}

/// `Arc::clone`: another pointer to the same allocation. The contract claims that
/// the new `Arc` holds the same vector as the one cloned.
#[verifier::external_body]
fn arc_clone(values: &Arc<Vec<usize>>) -> (shared: Arc<Vec<usize>>)
    ensures
        shared == *values,
{
    Arc::clone(values)
}

/// Cloning shares the values behind the `Arc` and copies the hash, so a clone is
/// the same key; updating one key in place afterwards leaves its clones as they
/// were.
impl Clone for RegionKey {
    fn clone(&self) -> (key: Self)
        ensures
            key == *self,
    {
        RegionKey { hash: self.hash, values: arc_clone(&self.values) }
    }
}

impl RegionKey {
    /// A key is consistent when its stored hash is the full hash of its values.
    pub open spec fn is_consistent(&self) -> bool {
        self.hash == full_hash(self@)
    }

    /// Creates a new key from `values`, computing the full hash.
    pub fn new(values: Vec<usize>) -> (key: Self)
        ensures
            key@ == values@,
            key.hash == full_hash(values@),
            key.is_consistent(),
    {
        let hash = Self::compute_full_hash(values.as_slice());
        Self { hash, values: Arc::new(values) }
    }

    /// Computes the full hash of all values: the XOR of their position hashes.
    fn compute_full_hash(values: &[usize]) -> (hash: u64)
        ensures
            hash == full_hash(values@),
    {
        let mut acc: u64 = 0;
        let mut pos: usize = 0;
        while pos < values.len()
            invariant
                pos <= values@.len(),
                acc == full_hash(values@.take(pos as int)),
            decreases values@.len() - pos,
        {
            assert(values@.take(pos + 1).drop_last() =~= values@.take(pos as int));
            acc = acc ^ Self::position_hash(pos, values[pos]);
            pos = pos + 1;
        }
        assert(values@.take(pos as int) =~= values@);
        acc
    }

    /// Computes the hash contributed by `value` at `position`.
    ///
    /// The position and the value are combined into one 128-bit word (position in
    /// the high half), whose two halves are mixed in FNV-1a style.
    pub fn position_hash(position: usize, value: usize) -> (hash: u64)
        ensures
            hash == position_hash_spec(position, value),
    {
        let combined: u128 = ((position as u128) << 64u128) | (value as u128);
        let low = combined as u64;
        let high = (combined >> 64u128) as u64;
        assert(low == value as u64 && high == position as u64) by (bit_vector)
            requires
                combined == ((position as u128) << 64u128) | (value as u128),
                low == combined as u64,
                high == (combined >> 64u128) as u64,
        ;
        let mut hash: u64 = FNV_OFFSET_BASIS;
        hash = hash ^ low;
        hash = hash.wrapping_mul(FNV_PRIME);
        hash = hash ^ high;
        hash = hash.wrapping_mul(FNV_PRIME);
        hash
    }

    /// Creates a new key with the entry at `position` replaced by `new_value`; the
    /// hash is updated by XOR-ing out the old contribution and XOR-ing in the new one.
    pub fn with_updated_position(&self, position: usize, new_value: usize) -> (key: Self)
        requires
            position < self@.len(),
        ensures
            key@ == self@.update(position as int, new_value),
            key.hash == self.hash ^ position_hash_spec(position, self@[position as int])
                ^ position_hash_spec(position, new_value),
            self.is_consistent() ==> key.is_consistent(),
    {
        let mut new_values = slice_to_vec(self.values());
        let old_value = new_values[position];
        new_values.set(position, new_value);
        let new_hash = self.hash ^ Self::position_hash(position, old_value) ^ Self::position_hash(
            position,
            new_value,
        );
        proof {
            law_incremental_hash(self@, position as int, new_value);
        }
        Self { hash: new_hash, values: Arc::new(new_values) }
    }

    /// Replaces the entry at `position` in place, cloning the shared values only
    /// when another key holds them too, and updates the hash incrementally.
    pub fn update_position(&mut self, position: usize, new_value: usize)
        requires
            position < old(self)@.len(),
        ensures
            final(self)@ == old(self)@.update(position as int, new_value),
            final(self).hash == old(self).hash ^ position_hash_spec(
                position,
                old(self)@[position as int],
            ) ^ position_hash_spec(position, new_value),
            old(self).is_consistent() ==> final(self).is_consistent(),
    {
        let values = arc_make_mut(&mut self.values);
        let old_value = values[position];
        values.set(position, new_value);
        self.hash = self.hash ^ Self::position_hash(position, old_value) ^ Self::position_hash(
            position,
            new_value,
        );
        proof {
            law_incremental_hash(old(self)@, position as int, new_value);
        }
    }

    /// Returns the underlying values.
    pub fn values(&self) -> (values: &[usize])
        ensures
            values@ == self@,
    {
        self.values.as_slice()
    }

    /// Returns the stored hash.
    pub fn hash(&self) -> (hash: u64)
        ensures
            hash == self.hash,
    {
        self.hash
    }

    /// Returns the number of dimensions of the key.
    pub fn len(&self) -> (len: usize)
        ensures
            len == self@.len(),
    {
        self.values.len()
    }

    /// Returns true if the key has no dimensions.
    pub fn is_empty(&self) -> (empty: bool)
        ensures
            empty == (self@.len() == 0),
    {
        self.values.len() == 0
    }
}

/// Equality compares the stored hashes only.
impl PartialEq for RegionKey {
    fn eq(&self, other: &Self) -> (equal: bool) {
        self.hash == other.hash
    }
}

impl vstd::std_specs::cmp::PartialEqSpecImpl for RegionKey {
    open spec fn obeys_eq_spec() -> bool {
        true
    }

    open spec fn eq_spec(&self, other: &Self) -> bool {
        self.hash == other.hash
    }
}

impl Eq for RegionKey {}

/// Ordering compares the stored hashes only, consistently with equality.
impl PartialOrd for RegionKey {
    fn partial_cmp(&self, other: &Self) -> (order: Option<core::cmp::Ordering>) {
        if self.hash < other.hash {
            Some(core::cmp::Ordering::Less)
        } else if self.hash == other.hash {
            Some(core::cmp::Ordering::Equal)
        } else {
            Some(core::cmp::Ordering::Greater)
        }
    }
}

impl vstd::std_specs::cmp::PartialOrdSpecImpl for RegionKey {
    open spec fn obeys_partial_cmp_spec() -> bool {
        true
    }

    open spec fn partial_cmp_spec(&self, other: &Self) -> Option<core::cmp::Ordering> {
        if self.hash < other.hash {
            Some(core::cmp::Ordering::Less)
        } else if self.hash == other.hash {
            Some(core::cmp::Ordering::Equal)
        } else {
            Some(core::cmp::Ordering::Greater)
        }
    }
}

/// Hashing feeds only the stored hash to the hasher, through
/// `Hasher::write_u64`; nothing is claimed of the hasher's state afterwards.
impl core::hash::Hash for RegionKey {
    #[verifier::external_body]
    fn hash<H: core::hash::Hasher>(&self, state: &mut H) {
        state.write_u64(self.hash);
    }
}

/// Creates a key from a vector of values, as `new` does.
impl From<Vec<usize>> for RegionKey {
    fn from(values: Vec<usize>) -> (key: Self)
        ensures
            key@ == values@,
            key.is_consistent(),
    {
        Self::new(values)
    }
}

impl vstd::std_specs::convert::FromSpecImpl<Vec<usize>> for RegionKey {
    open spec fn obeys_from_spec() -> bool {
        false
    }

    open spec fn from_spec(values: Vec<usize>) -> Self {
        arbitrary()
    }
}

/// Creates a key from a slice of values, copying them into a new vector.
impl<'a> From<&'a [usize]> for RegionKey {
    fn from(values: &'a [usize]) -> (key: Self)
        ensures
            key@ == values@,
            key.is_consistent(),
    {
        Self::new(slice_to_vec(values))
    }
}

impl<'a> vstd::std_specs::convert::FromSpecImpl<&'a [usize]> for RegionKey {
    open spec fn obeys_from_spec() -> bool {
        false
    }

    open spec fn from_spec(values: &'a [usize]) -> Self {
        arbitrary()
    }
}

/// Copies the values of a key out into a vector.
impl From<RegionKey> for Vec<usize> {
    fn from(key: RegionKey) -> (values: Self)
        ensures
            values@ == key@,
    {
        slice_to_vec(key.values())
    }
}

impl vstd::std_specs::convert::FromSpecImpl<RegionKey> for Vec<usize> {
    open spec fn obeys_from_spec() -> bool {
        false
    }

    open spec fn from_spec(key: RegionKey) -> Self {
        arbitrary()
    }
}

/// Copies the values of a borrowed key out into a vector.
impl<'a> From<&'a RegionKey> for Vec<usize> {
    fn from(key: &'a RegionKey) -> (values: Self)
        ensures
            values@ == key@,
    {
        slice_to_vec(key.values())
    }
}

impl<'a> vstd::std_specs::convert::FromSpecImpl<&'a RegionKey> for Vec<usize> {
    open spec fn obeys_from_spec() -> bool {
        false
    }

    open spec fn from_spec(key: &'a RegionKey) -> Self {
        arbitrary()
    }
}

/// Gives slice access to the values.
impl AsRef<[usize]> for RegionKey {
    fn as_ref(&self) -> (values: &[usize])
        ensures
            values@ == self@,
    {
        self.values()
    }
}

/// `values` are the values of `key`.
pub open spec fn holds_values(values: &[usize], key: &RegionKey) -> bool {
    values@ == key@
}

/// Lets a key be borrowed as a slice of its values.
impl std::borrow::Borrow<[usize]> for RegionKey {
    fn borrow(&self) -> (values: &[usize])
        ensures
            holds_values(values, self),
    {
        self.values()
    }
}

} // verus!
