//! The tiling of a collection of binary hashes, as a mathematical object.
//!
//! The counted points are a multiset of hashes, all of one precision. A prefix stands
//! for the group of hashes that begin with it. Going from the coarsest prefixes to the
//! finest, a group becomes a tile as soon as it fits the capacity; a full hash that
//! never fits is a tile of its own.

use crate::hash::{is_binary, is_binary_hash};
use vstd::multiset::Multiset;
use vstd::prelude::*;

verus! {

/// All counted hashes are binary hashes of the given precision.
pub open spec fn holds_binary_hashes(hashes: Multiset<Seq<char>>, precision: nat) -> bool {
    forall|hash: Seq<char>| #[trigger] hashes.count(hash) > 0 ==> is_binary_hash(hash, precision)
}

/// The predicate "begins with `prefix`" on hashes.
pub open spec fn begins_with(prefix: Seq<char>) -> spec_fn(Seq<char>) -> bool {
    |hash: Seq<char>| prefix.is_prefix_of(hash)
}

/// The number of counted hashes that begin with `prefix`.
pub open spec fn group_count(hashes: Multiset<Seq<char>>, prefix: Seq<char>) -> nat {
    hashes.filter(begins_with(prefix)).len()
}

/// More hashes begin with `prefix` than one tile may hold.
pub open spec fn over_capacity(
    hashes: Multiset<Seq<char>>,
    prefix: Seq<char>,
    capacity: nat,
) -> bool {
    group_count(hashes, prefix) > capacity
}

/// The groups of `hash` at the levels `1` to `level - 1` are all over capacity, so
/// `hash` is still waiting for a tile when the groups of length `level` are formed.
pub open spec fn unresolved_before(
    hashes: Multiset<Seq<char>>,
    hash: Seq<char>,
    level: int,
    capacity: nat,
) -> bool {
    forall|k: int| 1 <= k < level ==> #[trigger] over_capacity(hashes, hash.take(k), capacity)
}

/// `prefix` is the key of a tile: some counted hash begins with it, no coarser group
/// above it fits the capacity, and either its own group fits or it cannot be refined
/// because it already has the full precision.
pub open spec fn is_tile(
    hashes: Multiset<Seq<char>>,
    precision: nat,
    capacity: nat,
    prefix: Seq<char>,
) -> bool {
    &&& group_count(hashes, prefix) > 0
    &&& unresolved_before(hashes, prefix, prefix.len() as int, capacity)
    &&& (prefix.len() == precision || (prefix.len() >= 1 && !over_capacity(
        hashes,
        prefix,
        capacity,
    )))
}

/// A tile that holds more than the capacity: a single cell of full precision whose
/// own count is too large and which cannot be split further.
pub open spec fn is_irreducible_leaf(
    hashes: Multiset<Seq<char>>,
    precision: nat,
    capacity: nat,
    prefix: Seq<char>,
) -> bool {
    &&& is_tile(hashes, precision, capacity, prefix)
    &&& prefix.len() == precision
    &&& over_capacity(hashes, prefix, capacity)
}

/// The tiling as a map from each tile's key to its node count.
pub open spec fn tiling(hashes: Multiset<Seq<char>>, precision: nat, capacity: nat) -> Map<
    Seq<char>,
    nat,
> {
    Map::new(
        |prefix: Seq<char>| is_tile(hashes, precision, capacity, prefix),
        |prefix: Seq<char>| group_count(hashes, prefix),
    )
}

/// Every counted hash belongs to the group of each of its prefixes.
pub(crate) proof fn lemma_counted_hash_in_group(
    hashes: Multiset<Seq<char>>,
    hash: Seq<char>,
    prefix: Seq<char>,
)
    requires
        hashes.count(hash) > 0,
        prefix.is_prefix_of(hash),
    ensures
        group_count(hashes, prefix) > 0,
{
    let group = hashes.filter(begins_with(prefix));
    assert(group.count(hash) == hashes.count(hash));
    assert(group.count(hash) <= group.len());
}

/// Whether a hash is unresolved before a level depends only on its first
/// `level` symbols.
pub(crate) proof fn lemma_unresolved_prefix(
    hashes: Multiset<Seq<char>>,
    hash: Seq<char>,
    level: int,
    capacity: nat,
)
    requires
        0 <= level <= hash.len(),
    ensures
        unresolved_before(hashes, hash.take(level), level, capacity) == unresolved_before(
            hashes,
            hash,
            level,
            capacity,
        ),
{
    let head = hash.take(level);
    assert forall|k: int| 1 <= k < level implies #[trigger] head.take(k) == hash.take(k) by {
        assert(head.take(k) =~= hash.take(k));
    }
    if unresolved_before(hashes, hash, level, capacity) {
        assert forall|k: int| 1 <= k < level implies #[trigger] over_capacity(
            hashes,
            head.take(k),
            capacity,
        ) by {
            assert(head.take(k) == hash.take(k));
            assert(over_capacity(hashes, hash.take(k), capacity));
        }
    }
    if unresolved_before(hashes, head, level, capacity) {
        assert forall|k: int| 1 <= k < level implies #[trigger] over_capacity(
            hashes,
            hash.take(k),
            capacity,
        ) by {
            assert(head.take(k) == hash.take(k));
            assert(over_capacity(hashes, head.take(k), capacity));
        }
    }
}

/// Capacity bound: a tile that is no irreducible leaf holds at most `capacity` points.
pub proof fn lemma_capacity_bound(
    hashes: Multiset<Seq<char>>,
    precision: nat,
    capacity: nat,
    prefix: Seq<char>,
)
    requires
        is_tile(hashes, precision, capacity, prefix),
        !is_irreducible_leaf(hashes, precision, capacity, prefix),
    ensures
        tiling(hashes, precision, capacity)[prefix] <= capacity,
{
}

/// Coarsest sufficient: above a tile no group fits the capacity. In particular the
/// group one level coarser does not, so the tile could not have been emitted earlier;
/// and its own group fits unless it is an irreducible leaf, so it is not emitted later.
pub proof fn lemma_coarsest_sufficient(
    hashes: Multiset<Seq<char>>,
    precision: nat,
    capacity: nat,
    prefix: Seq<char>,
    level: int,
)
    requires
        holds_binary_hashes(hashes, precision),
        is_tile(hashes, precision, capacity, prefix),
        1 <= level < prefix.len(),
    ensures
        group_count(hashes, prefix.take(level)) > capacity,
        !is_tile(hashes, precision, capacity, prefix.take(level)),
{
    assert(over_capacity(hashes, prefix.take(level), capacity));
    lemma_counted_prefix_length(hashes, precision, prefix);
}

/// A prefix with a non-empty group is no longer than the hashes, when these all have
/// the same precision.
pub(crate) proof fn lemma_counted_prefix_length(
    hashes: Multiset<Seq<char>>,
    precision: nat,
    prefix: Seq<char>,
)
    requires
        holds_binary_hashes(hashes, precision),
        group_count(hashes, prefix) > 0,
    ensures
        prefix.len() <= precision,
{
    let group = hashes.filter(begins_with(prefix));
    let hash = group.choose();
    assert(group.count(hash) > 0);
    assert(hashes.count(hash) > 0 && prefix.is_prefix_of(hash));
}

/// The key of a tile is a binary string no longer than the precision.
pub proof fn lemma_tile_key_binary(
    hashes: Multiset<Seq<char>>,
    precision: nat,
    capacity: nat,
    prefix: Seq<char>,
)
    requires
        holds_binary_hashes(hashes, precision),
        is_tile(hashes, precision, capacity, prefix),
    ensures
        is_binary(prefix),
        prefix.len() <= precision,
{
    let group = hashes.filter(begins_with(prefix));
    let hash = group.choose();
    assert(group.count(hash) > 0);
    assert(hashes.count(hash) > 0 && prefix.is_prefix_of(hash));
    assert forall|i: int| 0 <= i < prefix.len() implies prefix[i] == '0' || prefix[i] == '1' by {
        assert(prefix[i] == hash.subrange(0, prefix.len() as int)[i]);
    }
}

/// The first level from `level` on at which the group of `hash` fits the capacity, or
/// one more than the length of `hash` where none does.
proof fn lemma_first_fitting_level(
    hashes: Multiset<Seq<char>>,
    hash: Seq<char>,
    level: int,
    capacity: nat,
) -> (found: int)
    requires
        1 <= level <= hash.len() + 1,
        unresolved_before(hashes, hash, level, capacity),
    ensures
        level <= found <= hash.len() + 1,
        unresolved_before(hashes, hash, found, capacity),
        found <= hash.len() ==> !over_capacity(hashes, hash.take(found), capacity),
    decreases hash.len() + 1 - level,
{
    if level <= hash.len() && over_capacity(hashes, hash.take(level), capacity) {
        lemma_first_fitting_level(hashes, hash, level + 1, capacity)
    } else {
        level
    }
}

/// Prefix coverage: exactly one tile key is a prefix of a counted hash. The key is
/// returned.
pub proof fn lemma_prefix_coverage(
    hashes: Multiset<Seq<char>>,
    precision: nat,
    capacity: nat,
    hash: Seq<char>,
) -> (tile: Seq<char>)
    requires
        hashes.count(hash) > 0,
        hash.len() == precision,
    ensures
        is_tile(hashes, precision, capacity, tile),
        tile.is_prefix_of(hash),
        forall|other: Seq<char>| #[trigger]
            is_tile(hashes, precision, capacity, other) && other.is_prefix_of(hash) ==> other
                == tile,
{
    let found = lemma_first_fitting_level(hashes, hash, 1, capacity);
    let length = if found <= precision {
        found
    } else {
        precision as int
    };
    let tile = hash.take(length);
    lemma_counted_hash_in_group(hashes, hash, tile);
    lemma_unresolved_prefix(hashes, hash, length, capacity);
    assert forall|other: Seq<char>| #[trigger]
        is_tile(hashes, precision, capacity, other) && other.is_prefix_of(
            hash,
        ) implies other == tile by {
        let width = other.len() as int;
        assert(other =~= hash.take(width));
        if width < length {
            assert(tile.take(width) =~= other);
            assert(over_capacity(hashes, tile.take(width), capacity));
        } else if length < width {
            assert(other.take(length) =~= tile);
            assert(over_capacity(hashes, other.take(length), capacity));
        }
    }
    tile
}

} // verus!
