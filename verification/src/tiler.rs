//! The tiler: counts the hashes of coordinates and covers them with tiles.

use crate::binary_hash_tile::{lists_entries, node_total, BinaryHashTile};
use crate::hash::{check_binary_hash, is_binary, is_binary_hash};
use crate::merge::merge_tiles;
use crate::table::{
    lemma_table_holds_hashes, lemma_table_len, table_hashes, table_wf, BinaryHashCount, CountTable,
};
use crate::tiling::{holds_binary_hashes, lemma_tile_key_binary, tiling};
use vstd::multiset::Multiset;
use vstd::prelude::*;

verus! {

/// Why a coordinate was not counted.
#[derive(Debug, Clone, Copy, PartialEq, Eq)]
pub enum TilerError {
    /// The hash is not a binary hash of the tiler's precision.
    InvalidBinaryHash,
}

/// Counts coordinates by their binary hash and merges the counts into tiles of at
/// most a given number of coordinates.
pub struct Tiler {
    binary_hash_precision: u8,
    max_allowed_features_in_binary_hash: u64,
    table: CountTable,
}

impl View for Tiler {
    type V = Multiset<Seq<char>>;

    /// The hashes counted so far, each as often as it was counted.
    closed spec fn view(&self) -> Multiset<Seq<char>> {
        table_hashes(self.table.rows@)
    }
}

impl Tiler {
    /// The count table is well formed for the precision, and the number of counted
    /// coordinates fits an `i64`.
    #[verifier::type_invariant]
    spec fn wf(self) -> bool {
        self.table.wf(self.binary_hash_precision as nat)
    }

    /// The number of symbols of every hash that the tiler counts.
    pub closed spec fn precision(&self) -> u8 {
        self.binary_hash_precision
    }

    /// The largest number of coordinates that a tile may hold, unless it cannot be
    /// refined.
    pub closed spec fn capacity(&self) -> u64 {
        self.max_allowed_features_in_binary_hash
    }

    /// A tiler that has counted nothing.
    pub fn new(binary_hash_precision: u8, max_allowed_features_in_binary_hash: u64) -> (tiler:
        Self)
        ensures
            tiler@ == Multiset::<Seq<char>>::empty(),
            tiler.precision() == binary_hash_precision,
            tiler.capacity() == max_allowed_features_in_binary_hash,
    {
        Tiler {
            binary_hash_precision,
            max_allowed_features_in_binary_hash,
            table: CountTable::new(),
        }
    }

    /// Counts one coordinate, given by its binary hash at the tiler's precision.
    ///
    /// A hash of another length, or with other symbols than `'0'` and `'1'`, is refused
    /// and leaves the tiler as it was. The number of counted coordinates must stay
    /// within an `i64`.
    pub fn add_coordinate(&mut self, binary_hash: &str) -> (added: Result<(), TilerError>)
        requires
            old(self)@.len() < i64::MAX,
        ensures
            final(self).precision() == old(self).precision(),
            final(self).capacity() == old(self).capacity(),
            added.is_ok() == is_binary_hash(binary_hash@, old(self).precision() as nat),
            added.is_ok() ==> final(self)@ == old(self)@.insert(binary_hash@),
            added.is_ok() ==> final(self)@.len() == old(self)@.len() + 1,
            added.is_err() ==> final(self)@ == old(self)@,
    {
        proof {
            use_type_invariant(&*self);
            lemma_table_len(self.table.rows@);
        }
        if !check_binary_hash(binary_hash, self.binary_hash_precision) {
            return Err(TilerError::InvalidBinaryHash);
        }
        let mut table = CountTable::new();
        std::mem::swap(&mut table, &mut self.table);
        table.record(binary_hash, Ghost(self.binary_hash_precision as nat));
        self.table = table;
        Ok(())
    }

    /// The number of coordinates counted so far.
    pub fn coordinate_count(&self) -> (count: i64)
        ensures
            count == self@.len(),
    {
        proof {
            use_type_invariant(self);
            lemma_table_len(self.table.rows@);
        }
        self.table.total
    }

    /// The tiles of the coordinates counted so far: the tiling of their hashes, one
    /// tile for each of its entries, in no particular order. The node counts of the
    /// tiles add up to the number of coordinates counted, and every key is a binary
    /// string no longer than the precision.
    pub fn get_tiles(&self) -> (tiles: Vec<BinaryHashTile>)
        ensures
            holds_binary_hashes(self@, self.precision() as nat),
            lists_entries(tiles@, tiling(self@, self.precision() as nat, self.capacity() as nat)),
            node_total(tiles@) == self@.len(),
            forall|i: int|
                0 <= i < tiles.len() ==> is_binary((#[trigger] tiles[i]).binary_hash@)
                    && tiles[i].binary_hash@.len() <= self.precision(),
    {
        proof {
            use_type_invariant(self);
            lemma_table_holds_hashes(self.table.rows@, self.binary_hash_precision as nat);
        }
        let tiles = merge_tiles(
            &self.table.rows,
            self.binary_hash_precision,
            self.max_allowed_features_in_binary_hash,
        );
        proof {
            assert forall|i: int| 0 <= i < tiles.len() implies is_binary(
                (#[trigger] tiles[i]).binary_hash@,
            ) && tiles[i].binary_hash@.len() <= self.precision() by {
                lemma_tile_key_binary(
                    self@,
                    self.precision() as nat,
                    self.capacity() as nat,
                    tiles[i].binary_hash@,
                );
            }
        }
        tiles
    }

    /// The number of symbols of every hash that the tiler counts.
    pub fn binary_hash_precision(&self) -> (precision: u8)
        ensures
            precision == self.precision(),
    {
        self.binary_hash_precision
    }

    /// The largest number of coordinates that a tile may hold, unless it cannot be
    /// refined.
    pub fn max_allowed_features_in_binary_hash(&self) -> (capacity: u64)
        ensures
            capacity == self.capacity(),
    {
        self.max_allowed_features_in_binary_hash
    }

    /// The count table: each counted hash once, with the number of times it was
    /// counted.
    pub fn binary_hash_count(&self) -> (rows: &Vec<BinaryHashCount>)
        ensures
            table_wf(rows@, self.precision() as nat),
            table_hashes(rows@) == self@,
    {
        proof {
            use_type_invariant(self);
        }
        &self.table.rows
    }
}

} // verus!
