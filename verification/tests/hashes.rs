use std::collections::HashMap;

use tiler::binary_hash_tile::BinaryHashTile;
use tiler::hash::check_binary_hash;
use tiler::tiler::Tiler;

const STREAM: [&str; 12] = [
    "0000", "0001", "0001", "0010", "0111", "0111", "0111", "1000", "1100", "1100", "1101", "1111",
];

fn counted(precision: u8, capacity: u64, hashes: &[&str]) -> Tiler {
    let mut tiler = Tiler::new(precision, capacity);
    for hash in hashes {
        tiler.add_coordinate(hash).unwrap();
    }
    tiler
}

fn as_map(tiles: &[BinaryHashTile]) -> HashMap<String, i64> {
    let mut map = HashMap::new();
    for tile in tiles {
        assert!(map.insert(tile.binary_hash.clone(), tile.node_count).is_none());
    }
    map
}

fn group_count(hashes: &[&str], prefix: &str) -> i64 {
    hashes.iter().filter(|hash| hash.starts_with(prefix)).count() as i64
}

fn expected(pairs: &[(&str, i64)]) -> HashMap<String, i64> {
    pairs.iter().map(|(hash, count)| (hash.to_string(), *count)).collect()
}

#[test]
fn tiles_for_capacity_three() {
    let tiles = counted(4, 3, &STREAM).get_tiles();
    assert_eq!(
        as_map(&tiles),
        expected(&[("000", 3), ("001", 1), ("01", 3), ("10", 1), ("110", 3), ("111", 1)])
    );
}

#[test]
fn tiles_for_capacity_two_keep_a_leaf_over_capacity() {
    let tiles = counted(4, 2, &STREAM).get_tiles();
    assert_eq!(
        as_map(&tiles),
        expected(&[
            ("0000", 1),
            ("0001", 2),
            ("001", 1),
            ("0111", 3),
            ("10", 1),
            ("1100", 2),
            ("1101", 1),
            ("111", 1),
        ])
    );
}

#[test]
fn tiles_for_capacity_of_half_the_stream() {
    let tiles = counted(4, 6, &STREAM).get_tiles();
    assert_eq!(as_map(&tiles), expected(&[("00", 4), ("01", 3), ("1", 5)]));
}

#[test]
fn group_of_exactly_the_capacity_is_a_tile() {
    let tiles = counted(4, 5, &STREAM).get_tiles();
    assert_eq!(as_map(&tiles), expected(&[("00", 4), ("01", 3), ("1", 5)]));
    let tiles = counted(4, 4, &STREAM).get_tiles();
    assert_eq!(
        as_map(&tiles),
        expected(&[("00", 4), ("01", 3), ("10", 1), ("11", 4)])
    );
}

#[test]
fn tiles_are_emitted_level_by_level_in_table_order() {
    let tiles = counted(4, 3, &STREAM).get_tiles();
    let keys: Vec<&str> = tiles.iter().map(|tile| tile.binary_hash.as_str()).collect();
    assert_eq!(keys, vec!["01", "10", "000", "001", "110", "111"]);
}

#[test]
fn node_counts_add_up_to_the_coordinates_added() {
    for capacity in 0..14u64 {
        let tiler = counted(4, capacity, &STREAM);
        let tiles = tiler.get_tiles();
        let total: i64 = tiles.iter().map(|tile| tile.node_count).sum();
        assert_eq!(total, 12);
        assert_eq!(tiler.coordinate_count(), 12);
    }
}

#[test]
fn tiles_hold_at_most_the_capacity_unless_irreducible() {
    for capacity in 0..14u64 {
        let tiles = counted(4, capacity, &STREAM).get_tiles();
        for tile in &tiles {
            assert_eq!(tile.node_count, group_count(&STREAM, &tile.binary_hash));
            if tile.binary_hash.len() < 4 {
                assert!(tile.node_count as u64 <= capacity);
            }
        }
    }
}

#[test]
fn no_tile_has_a_coarser_group_that_fits() {
    for capacity in 0..14u64 {
        let tiles = counted(4, capacity, &STREAM).get_tiles();
        for tile in &tiles {
            assert!(!tile.binary_hash.is_empty());
            for level in 1..tile.binary_hash.len() {
                let coarser = &tile.binary_hash[..level];
                assert!(group_count(&STREAM, coarser) as u64 > capacity);
            }
        }
    }
}

#[test]
fn every_hash_has_exactly_one_tile_above_it() {
    for capacity in 0..14u64 {
        let tiles = counted(4, capacity, &STREAM).get_tiles();
        for hash in STREAM {
            let covering =
                tiles.iter().filter(|tile| hash.starts_with(tile.binary_hash.as_str())).count();
            assert_eq!(covering, 1);
        }
    }
}

#[test]
fn repeated_merges_give_the_same_tiles() {
    let tiler = counted(4, 3, &STREAM);
    let first = tiler.get_tiles();
    let second = tiler.get_tiles();
    assert_eq!(first, second);
    assert_eq!(as_map(&first), as_map(&second));
}

#[test]
fn order_of_arrival_does_not_change_the_tiling() {
    let mut reversed = STREAM;
    reversed.reverse();
    for capacity in 0..14u64 {
        let forward = counted(4, capacity, &STREAM).get_tiles();
        let backward = counted(4, capacity, &reversed).get_tiles();
        assert_eq!(as_map(&forward), as_map(&backward));
    }
}

#[test]
fn zero_capacity_splits_to_full_precision() {
    let tiles = counted(4, 0, &STREAM).get_tiles();
    assert_eq!(
        as_map(&tiles),
        expected(&[
            ("0000", 1),
            ("0001", 2),
            ("0010", 1),
            ("0111", 3),
            ("1000", 1),
            ("1100", 2),
            ("1101", 1),
            ("1111", 1),
        ])
    );
}

#[test]
fn tile_keys_are_binary_and_within_precision() {
    for capacity in 0..14u64 {
        for tile in counted(4, capacity, &STREAM).get_tiles() {
            assert!(tile.binary_hash.len() <= 4);
            assert!(tile.binary_hash.chars().all(|symbol| symbol == '0' || symbol == '1'));
        }
    }
}

#[test]
fn tile_clone_is_equal() {
    let tile = BinaryHashTile { binary_hash: String::from("0110"), node_count: 7 };
    assert_eq!(tile.clone(), tile);
}

#[test]
fn binary_hashes_are_told_from_other_strings() {
    assert!(check_binary_hash("", 0));
    assert!(check_binary_hash("0", 1));
    assert!(check_binary_hash("1", 1));
    assert!(check_binary_hash("0110", 4));
    assert!(!check_binary_hash("0110", 3));
    assert!(!check_binary_hash("0110", 5));
    assert!(!check_binary_hash("", 1));
    assert!(!check_binary_hash("0120", 4));
    assert!(!check_binary_hash("011/", 4));
    assert!(!check_binary_hash("011é", 4));
    assert!(!check_binary_hash("01é", 4));
    let longest = "01".repeat(127) + "1";
    assert!(check_binary_hash(&longest, 255));
    assert!(!check_binary_hash(&(longest + "0"), 255));
}

#[test]
fn long_hashes_are_tiled_like_short_ones() {
    let left = "0".repeat(200);
    let right = "0".repeat(199) + "1";
    let far = "1".repeat(200);
    let mut tiler = Tiler::new(200, 1);
    for hash in [&left, &right, &far, &left] {
        tiler.add_coordinate(hash).unwrap();
    }
    let tiles = as_map(&tiler.get_tiles());
    let mut wanted = HashMap::new();
    wanted.insert(left.clone(), 2);
    wanted.insert(right.clone(), 1);
    wanted.insert(String::from("1"), 1);
    assert_eq!(tiles, wanted);
}
