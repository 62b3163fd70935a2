use vstd::prelude::*;
use xxhash_rust::xxh3::xxh3_64;

verus! {

/// The 64-bit XXH3 hash (default secret, no seed) of a byte sequence.
pub uninterp spec fn spec_xxh3_64(input: Seq<u8>) -> u64;

/// `xxhash_rust::xxh3::xxh3_64`: the contract claims only that the result is the
/// XXH3-64 hash of the given bytes, a function of those bytes alone; what that
/// hash is on given bytes is left unsaid.
#[verifier::external_body]
fn hash_bytes(input: &[u8]) -> (hash: u64)
    ensures
        hash == spec_xxh3_64(input@),
{
    xxh3_64(input)
}

/// The eight bytes of `x`, least significant first.
pub open spec fn le_bytes(x: u64) -> Seq<u8> {
    Seq::new(8, |i: int| ((x >> (8 * i) as u64) & 0xffu64) as u8)
}

/// The bytes hashed for a region: the world seed followed by every index of the
/// region key, each as eight little-endian bytes.
pub open spec fn seed_input(world_seed: u64, region_key: Seq<usize>) -> Seq<u8>
    decreases region_key.len(),
{
    if region_key.len() == 0 {
        le_bytes(world_seed)
    } else {
        seed_input(world_seed, region_key.drop_last()) + le_bytes(region_key.last() as u64)
    }
}

/// Appends the eight little-endian bytes of `x`.
fn push_le_bytes(buffer: &mut Vec<u8>, x: u64)
    ensures
        final(buffer)@ == old(buffer)@ + le_bytes(x),
{
    let ghost start = buffer@;
    let mut i: u64 = 0;
    while i < 8
        invariant
            i <= 8,
            buffer@ == start + le_bytes(x).take(i as int),
        decreases 8 - i,
    {
        let byte = ((x >> (8 * i)) & 0xffu64) as u8;
        buffer.push(byte);
        assert(le_bytes(x).take(i + 1) =~= le_bytes(x).take(i as int).push(byte));
        i = i + 1;
    }
    assert(le_bytes(x).take(8) =~= le_bytes(x));
}

/// Derives the seed of a region from the world seed and the region key: the XXH3-64
/// hash of the world seed and the key indices, each as eight little-endian bytes.
/// The same world seed and key always give the same seed.
pub fn derive_region_seed(world_seed: u64, region_key: &[usize]) -> (seed: u64)
    ensures
        seed == spec_xxh3_64(seed_input(world_seed, region_key@)),
{
    let mut hasher_input: Vec<u8> = Vec::new();
    push_le_bytes(&mut hasher_input, world_seed);
    let mut i: usize = 0;
    while i < region_key.len()
        invariant
            i <= region_key@.len(),
            hasher_input@ == seed_input(world_seed, region_key@.take(i as int)),
        decreases region_key@.len() - i,
    {
        assert(region_key@.take(i + 1).drop_last() =~= region_key@.take(i as int));
        push_le_bytes(&mut hasher_input, region_key[i] as u64);
        i = i + 1;
    }
    assert(region_key@.take(i as int) =~= region_key@);
    hash_bytes(hasher_input.as_slice())
}

/// The bytes hashed for a region are the eight bytes of the world seed followed by
/// the eight bytes of every index of the key, in order: eight bytes per value, the
/// seed at the front and index `i` right after the `i + 1` values before it.
pub proof fn law_seed_input_layout(world_seed: u64, region_key: Seq<usize>)
    ensures
        seed_input(world_seed, region_key).len() == 8 * (1 + region_key.len()),
        seed_input(world_seed, region_key).subrange(0, 8) == le_bytes(world_seed),
        forall|i: int|
            0 <= i < region_key.len() ==> #[trigger] seed_input(world_seed, region_key).subrange(
                8 * (i + 1),
                8 * (i + 2),
            ) == le_bytes(region_key[i] as u64),
    decreases region_key.len(),
{
    let input = seed_input(world_seed, region_key);
    if region_key.len() == 0 {
        assert(input.subrange(0, 8) =~= le_bytes(world_seed));
    } else {
        let prev_key = region_key.drop_last();
        let prev = seed_input(world_seed, prev_key);
        law_seed_input_layout(world_seed, prev_key);
        let n = region_key.len();
        assert(input == prev + le_bytes(region_key.last() as u64));
        assert(input.subrange(0, 8) =~= prev.subrange(0, 8));
        assert forall|i: int| 0 <= i < n implies #[trigger] input.subrange(8 * (i + 1), 8 * (i + 2))
            == le_bytes(region_key[i] as u64) by {
            if i < n - 1 {
                assert(prev_key[i] == region_key[i]);
                assert(input.subrange(8 * (i + 1), 8 * (i + 2)) =~= prev.subrange(8 * (i + 1), 8 * (i + 2)));
            } else {
                assert(input.subrange(8 * (i + 1), 8 * (i + 2)) =~= le_bytes(region_key.last() as u64));
            }
        }
    }
}

} // verus!
