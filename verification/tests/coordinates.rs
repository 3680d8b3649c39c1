use std::collections::HashMap;

use geohashrust::{BinaryHash, GeoLocation};
use tiler::binary_hash_tile::BinaryHashTile;
use tiler::tiler::{Tiler, TilerError};

#[derive(Debug, PartialEq)]
struct BoxedTile {
    node_count: i64,
    min_lon: f64,
    min_lat: f64,
    max_lon: f64,
    max_lat: f64,
}

fn encode(latitude: f64, longitude: f64, precision: u8) -> String {
    let location = GeoLocation { latitude, longitude };
    BinaryHash::encode(&location, precision).to_string()
}

fn add(tiler: &mut Tiler, latitude: f64, longitude: f64) {
    let hash = encode(latitude, longitude, tiler.binary_hash_precision());
    tiler.add_coordinate(&hash).unwrap();
}

fn boxed(tiles: Vec<BinaryHashTile>) -> HashMap<String, BoxedTile> {
    let mut boxes = HashMap::new();
    for tile in tiles {
        let bounding_box = BinaryHash::from_string(tile.binary_hash.as_str()).decode();
        let previous = boxes.insert(
            tile.binary_hash,
            BoxedTile {
                node_count: tile.node_count,
                min_lon: bounding_box.min_lon,
                min_lat: bounding_box.min_lat,
                max_lon: bounding_box.max_lon,
                max_lat: bounding_box.max_lat,
            },
        );
        assert!(previous.is_none());
    }
    boxes
}

fn five_points(capacity: u64) -> Tiler {
    let mut tiler = Tiler::new(11, capacity);
    add(&mut tiler, 1.0, 1.0);
    add(&mut tiler, 1.0, 2.0);
    add(&mut tiler, 2.0, 3.0);
    add(&mut tiler, 4.0, 1.0);
    add(&mut tiler, 1.5, 1.5);
    tiler
}

#[test]
fn it_works() {
    let mut tiler = Tiler::new(11, 10000000);

    add(&mut tiler, 1.0, 1.0);
    add(&mut tiler, 1.0, 2.0);
    add(&mut tiler, 2.0, 3.0);
    add(&mut tiler, 4.0, 1.0);
    add(&mut tiler, 1.5, 1.5);

    let binary_hash_tiles = boxed(tiler.get_tiles());
    let expected_result_tiles = HashMap::from([(
        String::from("1"),
        BoxedTile {
            node_count: 5,
            min_lon: 0.0,
            min_lat: -90.0,
            max_lon: 180.0,
            max_lat: 90.0,
        },
    )]);
    assert_eq!(binary_hash_tiles, expected_result_tiles);
}

#[test]
fn zero_capacity_gives_one_leaf_per_hash() {
    let tiler = five_points(0);
    let tiles = boxed(tiler.get_tiles());

    let mut expected: HashMap<String, i64> = HashMap::new();
    for (latitude, longitude) in [(1.0, 1.0), (1.0, 2.0), (2.0, 3.0), (4.0, 1.0), (1.5, 1.5)] {
        *expected.entry(encode(latitude, longitude, 11)).or_insert(0) += 1;
    }
    assert_eq!(tiles.len(), expected.len());
    let mut total = 0;
    for (hash, count) in expected {
        assert_eq!(hash.len(), 11);
        assert_eq!(tiles[&hash].node_count, count);
        total += count;
    }
    assert_eq!(total, 5);
}

#[test]
fn zero_capacity_at_eleven_bits_keeps_the_shared_cell() {
    let tiler = five_points(0);
    let tiles = boxed(tiler.get_tiles());
    let expected = HashMap::from([(
        String::from("11000000000"),
        BoxedTile {
            node_count: 5,
            min_lon: 0.0,
            min_lat: 0.0,
            max_lon: 5.625,
            max_lat: 5.625,
        },
    )]);
    assert_eq!(tiles, expected);
}

#[test]
fn zero_capacity_gives_five_leaves_where_the_hashes_differ() {
    let mut tiler = Tiler::new(40, 0);
    let points = [(1.0, 1.0), (1.0, 2.0), (2.0, 3.0), (4.0, 1.0), (1.5, 1.5)];
    for (latitude, longitude) in points {
        add(&mut tiler, latitude, longitude);
    }
    let tiles = boxed(tiler.get_tiles());
    assert_eq!(tiles.len(), 5);
    for (latitude, longitude) in points {
        let hash = encode(latitude, longitude, 40);
        assert_eq!(hash.len(), 40);
        let tile = &tiles[&hash];
        assert_eq!(tile.node_count, 1);
        assert!(tile.min_lon <= longitude && longitude <= tile.max_lon);
        assert!(tile.min_lat <= latitude && latitude <= tile.max_lat);
    }
}

#[test]
fn single_coordinate_resolves_at_first_level() {
    for capacity in [1u64, 2, 10_000_000, u64::MAX] {
        let mut tiler = Tiler::new(11, capacity);
        add(&mut tiler, 48.1333, 11.5667);
        let tiles = tiler.get_tiles();
        assert_eq!(
            tiles,
            vec![BinaryHashTile { binary_hash: String::from("1"), node_count: 1 }]
        );
    }
}

#[test]
fn no_coordinates_give_no_tiles() {
    let tiler = Tiler::new(11, 10_000_000);
    assert_eq!(tiler.get_tiles(), vec![]);
    assert_eq!(tiler.coordinate_count(), 0);
    assert!(tiler.binary_hash_count().is_empty());
}

#[test]
fn new_keeps_its_parameters() {
    let tiler = Tiler::new(11, 10_000_000);
    assert_eq!(tiler.binary_hash_precision(), 11);
    assert_eq!(tiler.max_allowed_features_in_binary_hash(), 10_000_000);
}

#[test]
fn hash_of_wrong_length_is_refused() {
    let mut tiler = Tiler::new(3, 1);
    assert_eq!(tiler.add_coordinate("10"), Err(TilerError::InvalidBinaryHash));
    assert_eq!(tiler.add_coordinate("1011"), Err(TilerError::InvalidBinaryHash));
    assert_eq!(tiler.add_coordinate(""), Err(TilerError::InvalidBinaryHash));
    assert_eq!(tiler.coordinate_count(), 0);
    assert_eq!(tiler.get_tiles(), vec![]);
}

#[test]
fn hash_with_other_symbols_is_refused() {
    let mut tiler = Tiler::new(3, 1);
    assert_eq!(tiler.add_coordinate("102"), Err(TilerError::InvalidBinaryHash));
    assert_eq!(tiler.add_coordinate("1 1"), Err(TilerError::InvalidBinaryHash));
    assert_eq!(tiler.add_coordinate("1é"), Err(TilerError::InvalidBinaryHash));
    assert_eq!(tiler.add_coordinate("１０１"), Err(TilerError::InvalidBinaryHash));
    assert_eq!(tiler.add_coordinate("101"), Ok(()));
    assert_eq!(tiler.coordinate_count(), 1);
}

#[test]
fn refused_hash_leaves_the_counts_alone() {
    let mut tiler = Tiler::new(2, 5);
    tiler.add_coordinate("01").unwrap();
    let before = tiler.binary_hash_count().clone();
    assert!(tiler.add_coordinate("0x").is_err());
    assert_eq!(tiler.binary_hash_count(), &before);
}

#[test]
fn counts_are_kept_per_hash() {
    let mut tiler = Tiler::new(2, 5);
    for hash in ["01", "11", "01", "01", "10", "11"] {
        tiler.add_coordinate(hash).unwrap();
    }
    let mut counts: Vec<(String, i64)> = tiler
        .binary_hash_count()
        .iter()
        .map(|row| (row.binary_hash.clone(), row.node_count))
        .collect();
    counts.sort();
    assert_eq!(
        counts,
        vec![(String::from("01"), 3), (String::from("10"), 1), (String::from("11"), 2)]
    );
    assert_eq!(tiler.coordinate_count(), 6);
}

#[test]
fn count_table_is_unchanged_by_reading() {
    let tiler = five_points(1);
    let first = tiler.binary_hash_count().clone();
    let _ = tiler.get_tiles();
    let second = tiler.binary_hash_count().clone();
    assert_eq!(first, second);
}

#[test]
fn precision_zero_gives_one_tile_for_everything() {
    let mut tiler = Tiler::new(0, 1);
    tiler.add_coordinate("").unwrap();
    tiler.add_coordinate("").unwrap();
    tiler.add_coordinate("").unwrap();
    assert_eq!(
        tiler.get_tiles(),
        vec![BinaryHashTile { binary_hash: String::new(), node_count: 3 }]
    );
}
