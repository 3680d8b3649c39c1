//! Tiles: a hash prefix and the number of counted points below it.

use crate::tiling::{
    begins_with, group_count, holds_binary_hashes, is_tile, lemma_prefix_coverage, tiling,
};
use vstd::multiset::Multiset;
use vstd::prelude::*;

verus! {

/// A tile. Its cell is the one that `binary_hash` names; `node_count` points lie in it.
#[derive(Debug, PartialEq, Eq)]
pub struct BinaryHashTile {
    pub binary_hash: String,
    pub node_count: i64,
}

impl Clone for BinaryHashTile {
    fn clone(&self) -> (copy: Self)
        ensures
            copy == *self,
    {
        BinaryHashTile { binary_hash: self.binary_hash.clone(), node_count: self.node_count }
    }
}

/// Some tile of the list has the key `prefix`.
pub open spec fn has_tile(tiles: Seq<BinaryHashTile>, prefix: Seq<char>) -> bool {
    exists|i: int| 0 <= i < tiles.len() && (#[trigger] tiles[i]).binary_hash@ == prefix
}

/// No two tiles of the list have the same key.
pub open spec fn distinct_tiles(tiles: Seq<BinaryHashTile>) -> bool {
    forall|i: int, j: int|
        0 <= i < j < tiles.len() ==> (#[trigger] tiles[i]).binary_hash@ != (
        #[trigger] tiles[j]).binary_hash@
}

/// The list holds the entries of `entries`, each once and nothing else: a tile's key
/// with its node count.
pub open spec fn lists_entries(tiles: Seq<BinaryHashTile>, entries: Map<Seq<char>, nat>) -> bool {
    &&& distinct_tiles(tiles)
    &&& forall|i: int|
        0 <= i < tiles.len() ==> entries.contains_key((#[trigger] tiles[i]).binary_hash@)
            && entries[tiles[i].binary_hash@] == tiles[i].node_count
    &&& forall|prefix: Seq<char>| #[trigger]
        entries.contains_key(prefix) ==> has_tile(tiles, prefix)
}

/// The sum of the node counts of a list of tiles.
pub open spec fn node_total(tiles: Seq<BinaryHashTile>) -> int
    decreases tiles.len(),
{
    if tiles.len() == 0 {
        0
    } else {
        node_total(tiles.drop_last()) + tiles.last().node_count
    }
}

/// Some tile of the list has a key that `hash` begins with.
pub(crate) open spec fn covered(tiles: Seq<BinaryHashTile>, hash: Seq<char>) -> bool {
    exists|i: int| 0 <= i < tiles.len() && (#[trigger] tiles[i]).binary_hash@.is_prefix_of(hash)
}

/// The predicate "begins with the key of one of the first `upto` tiles" on hashes.
pub(crate) open spec fn covered_within(tiles: Seq<BinaryHashTile>, upto: int) -> spec_fn(
    Seq<char>,
) -> bool {
    |hash: Seq<char>| covered(tiles.take(upto), hash)
}

/// The first `upto` tiles of a tiling hold between them the hashes that begin with
/// one of their keys, each hash in one tile only.
proof fn lemma_tiles_partition(
    tiles: Seq<BinaryHashTile>,
    hashes: Multiset<Seq<char>>,
    precision: nat,
    capacity: nat,
    upto: int,
)
    requires
        holds_binary_hashes(hashes, precision),
        lists_entries(tiles, tiling(hashes, precision, capacity)),
        0 <= upto <= tiles.len(),
    ensures
        node_total(tiles.take(upto)) == hashes.filter(covered_within(tiles, upto)).len(),
    decreases upto,
{
    let entries = tiling(hashes, precision, capacity);
    if upto == 0 {
        assert(hashes.filter(covered_within(tiles, 0)) =~= Multiset::empty());
    } else {
        lemma_tiles_partition(tiles, hashes, precision, capacity, upto - 1);
        let front = tiles.take(upto - 1);
        let here = tiles.take(upto);
        let key = tiles[upto - 1].binary_hash@;
        assert(here.drop_last() =~= front);
        assert(entries.contains_key(key));
        let before = hashes.filter(covered_within(tiles, upto - 1));
        let group = hashes.filter(begins_with(key));
        let after = hashes.filter(covered_within(tiles, upto));
        assert forall|hash: Seq<char>| after.count(hash) == before.count(hash) + group.count(
            hash,
        ) by {
            if hashes.count(hash) > 0 {
                if covered(front, hash) {
                    let t = choose|t: int|
                        0 <= t < front.len() && (#[trigger] front[t]).binary_hash@.is_prefix_of(
                            hash,
                        );
                    assert(here[t].binary_hash@.is_prefix_of(hash));
                    assert(entries.contains_key(tiles[t].binary_hash@));
                    let unique = lemma_prefix_coverage(hashes, precision, capacity, hash);
                    assert(tiles[t].binary_hash@ != tiles[upto - 1].binary_hash@);
                    assert(!key.is_prefix_of(hash));
                } else if key.is_prefix_of(hash) {
                    assert(here[upto - 1].binary_hash@.is_prefix_of(hash));
                } else if covered(here, hash) {
                    let t = choose|t: int|
                        0 <= t < here.len() && (#[trigger] here[t]).binary_hash@.is_prefix_of(
                            hash,
                        );
                    assert(front[t].binary_hash@.is_prefix_of(hash));
                }
            }
        }
        assert(after =~= before.add(group));
    }
}

/// Conservation: the node counts of the tiles of a tiling add up to the number of
/// hashes counted.
pub proof fn lemma_conservation(
    tiles: Seq<BinaryHashTile>,
    hashes: Multiset<Seq<char>>,
    precision: nat,
    capacity: nat,
)
    requires
        holds_binary_hashes(hashes, precision),
        lists_entries(tiles, tiling(hashes, precision, capacity)),
    ensures
        node_total(tiles) == hashes.len(),
{
    let entries = tiling(hashes, precision, capacity);
    lemma_tiles_partition(tiles, hashes, precision, capacity, tiles.len() as int);
    assert(tiles.take(tiles.len() as int) =~= tiles);
    let all = hashes.filter(covered_within(tiles, tiles.len() as int));
    assert forall|hash: Seq<char>| all.count(hash) == hashes.count(hash) by {
        if hashes.count(hash) > 0 {
            let tile = lemma_prefix_coverage(hashes, precision, capacity, hash);
            assert(entries.contains_key(tile));
            let t = choose|t: int| 0 <= t < tiles.len() && (#[trigger] tiles[t]).binary_hash@ == tile;
            assert(tiles[t].binary_hash@.is_prefix_of(hash));
        }
    }
    assert(all =~= hashes);
}

/// Determinism: two lists of the tiles of one tiling hold the same tiles, whatever
/// their order. Each tile of the first has its key and node count in the second.
pub proof fn lemma_tiles_determined(
    first: Seq<BinaryHashTile>,
    second: Seq<BinaryHashTile>,
    entries: Map<Seq<char>, nat>,
    i: int,
) -> (j: int)
    requires
        lists_entries(first, entries),
        lists_entries(second, entries),
        0 <= i < first.len(),
    ensures
        0 <= j < second.len(),
        second[j].binary_hash@ == first[i].binary_hash@,
        second[j].node_count == first[i].node_count,
{
    let key = first[i].binary_hash@;
    assert(entries.contains_key(key));
    assert(has_tile(second, key));
    choose|j: int| 0 <= j < second.len() && (#[trigger] second[j]).binary_hash@ == key
}

} // verus!
