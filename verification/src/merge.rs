//! The level-wise merge of a count table into tiles.
//!
//! The rows of the table are visited once per level, from the coarsest level to the
//! finest. A flag per row tells whether the row still waits for a tile. A waiting row
//! whose group at the current level fits the capacity gives a tile, and its whole group
//! stops waiting. Rows that wait to the end become tiles of their own.
//!
//! A group is summed by comparing the prefix of its first row with the prefixes of
//! the rows that still wait, so a level costs at most the number of waiting rows
//! times the number of rows.

use crate::binary_hash_tile::{
    covered, distinct_tiles, has_tile, lemma_conservation, lists_entries, node_total,
    BinaryHashTile,
};
use crate::table::{
    count_where, counts_nonnegative, lemma_count_where_bounds, lemma_count_where_includes,
    lemma_count_where_none, lemma_count_where_single, lemma_count_where_witness,
    lemma_group_count, lemma_row_counted, lemma_table_holds_hashes, table_hashes, table_total,
    table_wf, BinaryHashCount,
};
use crate::tiling::{
    begins_with, group_count, is_tile, lemma_prefix_coverage, lemma_unresolved_prefix,
    over_capacity, tiling, unresolved_before,
};
use vstd::multiset::Multiset;
use vstd::prelude::*;
use vstd::string::*;

verus! {

/// One of the first `done` rows belongs to the group of `prefix`.
spec fn group_started(rows: Seq<BinaryHashCount>, prefix: Seq<char>, done: int) -> bool {
    count_where(rows.take(done), begins_with(prefix)) > 0
}

/// Row `row` waits while the groups of length `level` are formed and the first `done`
/// rows have been visited: no coarser group of it fits, and its group at this level
/// either does not fit or has not been reached yet.
spec fn row_waits(
    rows: Seq<BinaryHashCount>,
    hashes: Multiset<Seq<char>>,
    capacity: nat,
    level: int,
    done: int,
    row: int,
) -> bool {
    let group = rows[row].binary_hash@.take(level);
    &&& unresolved_before(hashes, rows[row].binary_hash@, level, capacity)
    &&& (over_capacity(hashes, group, capacity) || !group_started(rows, group, done))
}

/// The flags say of each row whether it waits.
spec fn flags_at(
    rows: Seq<BinaryHashCount>,
    hashes: Multiset<Seq<char>>,
    capacity: nat,
    live: Seq<bool>,
    level: int,
    done: int,
) -> bool {
    &&& live.len() == rows.len()
    &&& forall|row: int|
        0 <= row < rows.len() ==> (#[trigger] live[row] <==> row_waits(
            rows,
            hashes,
            capacity,
            level,
            done,
            row,
        ))
}

/// Every tile of the list is a tile of the tiling, with its node count.
spec fn tiles_sound(
    tiles: Seq<BinaryHashTile>,
    hashes: Multiset<Seq<char>>,
    precision: nat,
    capacity: nat,
) -> bool {
    forall|t: int|
        0 <= t < tiles.len() ==> is_tile(
            hashes,
            precision,
            capacity,
            (#[trigger] tiles[t]).binary_hash@,
        ) && tiles[t].node_count == group_count(hashes, tiles[t].binary_hash@)
}

/// Every tile of the list fits the capacity and comes from a level before `level`, or
/// from `level` itself and a group that one of the first `done` rows belongs to.
spec fn tiles_upto(
    tiles: Seq<BinaryHashTile>,
    rows: Seq<BinaryHashCount>,
    hashes: Multiset<Seq<char>>,
    capacity: nat,
    level: int,
    done: int,
) -> bool {
    forall|t: int|
        0 <= t < tiles.len() ==> {
            let key = (#[trigger] tiles[t]).binary_hash@;
            &&& 1 <= key.len() <= level
            &&& !over_capacity(hashes, key, capacity)
            &&& key.len() == level ==> group_started(rows, key, done)
        }
}

/// Every tile of the list fits the capacity or is the key of one of the first `done`
/// rows.
spec fn tiles_with_leaves(
    tiles: Seq<BinaryHashTile>,
    rows: Seq<BinaryHashCount>,
    hashes: Multiset<Seq<char>>,
    capacity: nat,
    done: int,
) -> bool {
    forall|t: int|
        0 <= t < tiles.len() ==> {
            let key = (#[trigger] tiles[t]).binary_hash@;
            ||| key.len() >= 1 && !over_capacity(hashes, key, capacity)
            ||| group_started(rows, key, done)
        }
}

/// Every row that no longer waits has a tile whose key it begins with.
spec fn retired_covered(
    tiles: Seq<BinaryHashTile>,
    rows: Seq<BinaryHashCount>,
    live: Seq<bool>,
) -> bool {
    forall|row: int|
        0 <= row < rows.len() ==> !(#[trigger] live[row]) ==> covered(tiles, rows[row].binary_hash@)
}

/// Visiting one more row starts the row's groups and no others.
proof fn lemma_started_step(rows: Seq<BinaryHashCount>, prefix: Seq<char>, done: int)
    requires
        counts_nonnegative(rows),
        0 <= done < rows.len(),
        rows[done].node_count >= 1,
    ensures
        group_started(rows, prefix, done + 1) == (group_started(rows, prefix, done)
            || prefix.is_prefix_of(rows[done].binary_hash@)),
{
    assert(rows.take(done + 1).drop_last() =~= rows.take(done));
    lemma_count_where_bounds(rows, begins_with(prefix), done);
}

/// Once all rows have been visited, every row's group has been started.
proof fn lemma_started_at_end(rows: Seq<BinaryHashCount>, precision: nat, level: int, row: int)
    requires
        table_wf(rows, precision),
        0 <= level <= precision,
        0 <= row < rows.len(),
    ensures
        group_started(rows, rows[row].binary_hash@.take(level), rows.len() as int),
        !group_started(rows, rows[row].binary_hash@.take(level), 0),
{
    let group = rows[row].binary_hash@.take(level);
    assert(rows.take(rows.len() as int) =~= rows);
    lemma_count_where_includes(rows, begins_with(group), row);
}

/// Rows of one group at a level have the same groups above it.
proof fn lemma_same_group(
    rows: Seq<BinaryHashCount>,
    hashes: Multiset<Seq<char>>,
    precision: nat,
    capacity: nat,
    level: int,
    one: int,
    other: int,
)
    requires
        table_wf(rows, precision),
        0 <= level <= precision,
        0 <= one < rows.len(),
        0 <= other < rows.len(),
        rows[one].binary_hash@.take(level) == rows[other].binary_hash@.take(level),
    ensures
        unresolved_before(hashes, rows[one].binary_hash@, level, capacity) == unresolved_before(
            hashes,
            rows[other].binary_hash@,
            level,
            capacity,
        ),
{
    lemma_unresolved_prefix(hashes, rows[one].binary_hash@, level, capacity);
    lemma_unresolved_prefix(hashes, rows[other].binary_hash@, level, capacity);
}

/// A visited row that changes no flag: it does not wait, or its group does not fit.
proof fn lemma_flags_step_keep(
    rows: Seq<BinaryHashCount>,
    hashes: Multiset<Seq<char>>,
    precision: nat,
    capacity: nat,
    live: Seq<bool>,
    level: int,
    done: int,
)
    requires
        table_wf(rows, precision),
        1 <= level <= precision,
        0 <= done < rows.len(),
        flags_at(rows, hashes, capacity, live, level, done),
        !live[done] || over_capacity(hashes, rows[done].binary_hash@.take(level), capacity),
    ensures
        flags_at(rows, hashes, capacity, live, level, done + 1),
{
    let here = rows[done].binary_hash@.take(level);
    assert forall|row: int| 0 <= row < rows.len() implies (#[trigger] live[row] <==> row_waits(
        rows,
        hashes,
        capacity,
        level,
        done + 1,
        row,
    )) by {
        let group = rows[row].binary_hash@.take(level);
        lemma_started_step(rows, group, done);
        if group == here {
            lemma_same_group(rows, hashes, precision, capacity, level, row, done);
        }
    }
}

/// While a row waits, its whole group at the level waits.
proof fn lemma_group_waits(
    rows: Seq<BinaryHashCount>,
    hashes: Multiset<Seq<char>>,
    precision: nat,
    capacity: nat,
    live: Seq<bool>,
    level: int,
    done: int,
)
    requires
        table_wf(rows, precision),
        1 <= level <= precision,
        0 <= done < rows.len(),
        flags_at(rows, hashes, capacity, live, level, done),
        live[done],
    ensures
        forall|row: int|
            0 <= row < rows.len() && rows[row].binary_hash@.take(level)
                == rows[done].binary_hash@.take(level) ==> #[trigger] live[row],
{
    assert forall|row: int|
        0 <= row < rows.len() && rows[row].binary_hash@.take(level)
            == rows[done].binary_hash@.take(level) implies #[trigger] live[row] by {
        lemma_same_group(rows, hashes, precision, capacity, level, row, done);
    }
}

/// A visited row whose group becomes a tile: the group stops waiting.
proof fn lemma_flags_step_retire(
    rows: Seq<BinaryHashCount>,
    hashes: Multiset<Seq<char>>,
    precision: nat,
    capacity: nat,
    live: Seq<bool>,
    after: Seq<bool>,
    level: int,
    done: int,
)
    requires
        table_wf(rows, precision),
        1 <= level <= precision,
        0 <= done < rows.len(),
        flags_at(rows, hashes, capacity, live, level, done),
        live[done],
        !over_capacity(hashes, rows[done].binary_hash@.take(level), capacity),
        after.len() == rows.len(),
        forall|row: int|
            0 <= row < rows.len() ==> #[trigger] after[row] == (live[row]
                && rows[row].binary_hash@.take(level) != rows[done].binary_hash@.take(level)),
    ensures
        flags_at(rows, hashes, capacity, after, level, done + 1),
{
    assert forall|row: int| 0 <= row < rows.len() implies (#[trigger] after[row] <==> row_waits(
        rows,
        hashes,
        capacity,
        level,
        done + 1,
        row,
    )) by {
        let group = rows[row].binary_hash@.take(level);
        lemma_started_step(rows, group, done);
    }
}

/// When all rows have been visited at a level, the flags are those of the next level
/// before any row is visited.
proof fn lemma_level_done(
    rows: Seq<BinaryHashCount>,
    hashes: Multiset<Seq<char>>,
    precision: nat,
    capacity: nat,
    live: Seq<bool>,
    level: int,
)
    requires
        table_wf(rows, precision),
        1 <= level <= precision,
        flags_at(rows, hashes, capacity, live, level, rows.len() as int),
    ensures
        flags_at(rows, hashes, capacity, live, level + 1, 0),
        forall|row: int|
            0 <= row < rows.len() ==> (#[trigger] live[row] <==> unresolved_before(
                hashes,
                rows[row].binary_hash@,
                level + 1,
                capacity,
            )),
{
    assert forall|row: int| 0 <= row < rows.len() implies (#[trigger] live[row] <==> row_waits(
        rows,
        hashes,
        capacity,
        level + 1,
        0,
        row,
    )) && (live[row] <==> unresolved_before(
        hashes,
        rows[row].binary_hash@,
        level + 1,
        capacity,
    )) by {
        lemma_started_at_end(rows, precision, level, row);
    }
}

/// A tile more in the list leaves every row covered that was covered.
proof fn lemma_covered_push(tiles: Seq<BinaryHashTile>, tile: BinaryHashTile, hash: Seq<char>)
    ensures
        covered(tiles, hash) ==> covered(tiles.push(tile), hash),
        tile.binary_hash@.is_prefix_of(hash) ==> covered(tiles.push(tile), hash),
{
    let longer = tiles.push(tile);
    if covered(tiles, hash) {
        let i = choose|i: int|
            0 <= i < tiles.len() && (#[trigger] tiles[i]).binary_hash@.is_prefix_of(hash);
        assert(longer[i].binary_hash@.is_prefix_of(hash));
    }
    if tile.binary_hash@.is_prefix_of(hash) {
        assert(longer[tiles.len() as int].binary_hash@.is_prefix_of(hash));
    }
}

/// Only a row itself lies in the group of its full hash, so the group's count is the
/// row's.
proof fn lemma_full_hash_group(rows: Seq<BinaryHashCount>, precision: nat, row: int)
    requires
        table_wf(rows, precision),
        0 <= row < rows.len(),
    ensures
        count_where(rows, begins_with(rows[row].binary_hash@)) == rows[row].node_count,
{
    let key = rows[row].binary_hash@;
    assert forall|other: int| 0 <= other < rows.len() && other != row implies !begins_with(key)(
        #[trigger] rows[other].binary_hash@,
    ) by {
        if key.is_prefix_of(rows[other].binary_hash@) {
            assert(key =~= rows[other].binary_hash@);
        }
    }
    lemma_count_where_single(rows, begins_with(key), row);
}

/// No earlier row lies in the group of a row's full hash.
proof fn lemma_full_hash_before(rows: Seq<BinaryHashCount>, precision: nat, row: int)
    requires
        table_wf(rows, precision),
        0 <= row < rows.len(),
    ensures
        !group_started(rows, rows[row].binary_hash@, row),
{
    let key = rows[row].binary_hash@;
    let front = rows.take(row);
    assert forall|other: int| 0 <= other < front.len() implies !begins_with(key)(
        #[trigger] front[other].binary_hash@,
    ) by {
        if key.is_prefix_of(front[other].binary_hash@) {
            assert(key =~= rows[other].binary_hash@);
        }
    }
    lemma_count_where_none(front, begins_with(key));
}

/// Tells whether two hashes have the same first `level` symbols.
fn same_prefix(one: &str, other: &str, level: usize) -> (same: bool)
    requires
        one.is_ascii(),
        other.is_ascii(),
        level <= one@.len(),
        level <= other@.len(),
    ensures
        same == (one@.take(level as int) == other@.take(level as int)),
{
    proof {
        is_ascii_spec_bytes(one);
        is_ascii_spec_bytes(other);
    }
    let left = one.as_bytes();
    let right = other.as_bytes();
    let mut i: usize = 0;
    while i < level
        invariant
            one.is_ascii(),
            other.is_ascii(),
            left@ == one.spec_bytes(),
            right@ == other.spec_bytes(),
            level <= one@.len(),
            level <= other@.len(),
            0 <= i <= level,
            forall|k: int| 0 <= k < i ==> one@[k] == other@[k],
        decreases level - i,
    {
        proof {
            is_ascii_spec_bytes(one);
            is_ascii_spec_bytes(other);
        }
        if left[i] != right[i] {
            assert(one@.take(level as int)[i as int] != other@.take(level as int)[i as int]);
            return false;
        }
        i += 1;
    }
    assert(one@.take(level as int) =~= other@.take(level as int));
    true
}

/// The sum of the counts of the rows in the group of row `row` at `level`. The rows
/// of the group all wait, so only waiting rows are compared.
fn group_total(
    rows: &Vec<BinaryHashCount>,
    live: &Vec<bool>,
    row: usize,
    level: usize,
    Ghost(precision): Ghost<nat>,
) -> (total: i64)
    requires
        table_wf(rows@, precision),
        table_total(rows@) <= i64::MAX,
        live.len() == rows.len(),
        row < rows.len(),
        level <= precision,
        forall|other: int|
            0 <= other < rows.len() && rows[other].binary_hash@.take(level as int)
                == rows[row as int].binary_hash@.take(level as int) ==> #[trigger] live[other],
    ensures
        total == count_where(rows@, begins_with(rows[row as int].binary_hash@.take(level as int))),
{
    let ghost group = rows[row as int].binary_hash@.take(level as int);
    let n: usize = rows.len();
    let mut total: i64 = 0;
    let mut i: usize = 0;
    while i < n
        invariant
            table_wf(rows@, precision),
            table_total(rows@) <= i64::MAX,
            n == rows.len(),
            live.len() == n,
            row < n,
            level <= precision,
            group == rows[row as int].binary_hash@.take(level as int),
            forall|other: int|
                0 <= other < n && rows[other].binary_hash@.take(level as int) == group
                    ==> #[trigger] live[other],
            0 <= i <= n,
            total == count_where(rows@.take(i as int), begins_with(group)),
        decreases n - i,
    {
        proof {
            lemma_count_where_bounds(rows@, begins_with(group), i as int + 1);
            assert(rows@.take(i as int + 1).drop_last() =~= rows@.take(i as int));
        }
        if live[i] && same_prefix(
            rows[row].binary_hash.as_str(),
            rows[i].binary_hash.as_str(),
            level,
        ) {
            total = total + rows[i].node_count;
        }
        i += 1;
    }
    assert(rows@.take(n as int) =~= rows@);
    total
}

/// Stops the waiting of every row in the group of row `row` at `level`.
fn retire_group(
    rows: &Vec<BinaryHashCount>,
    live: &mut Vec<bool>,
    row: usize,
    level: usize,
    Ghost(precision): Ghost<nat>,
)
    requires
        table_wf(rows@, precision),
        old(live).len() == rows.len(),
        row < rows.len(),
        level <= precision,
    ensures
        final(live).len() == rows.len(),
        forall|other: int|
            0 <= other < rows.len() ==> #[trigger] final(live)[other] == (old(live)[other]
                && rows[other].binary_hash@.take(level as int) != rows[row as int].binary_hash@.take(
                level as int,
            )),
{
    let ghost group = rows[row as int].binary_hash@.take(level as int);
    let ghost before = live@;
    let n: usize = rows.len();
    let mut i: usize = 0;
    while i < n
        invariant
            table_wf(rows@, precision),
            n == rows.len(),
            live.len() == n,
            before.len() == n,
            row < n,
            level <= precision,
            group == rows[row as int].binary_hash@.take(level as int),
            0 <= i <= n,
            forall|other: int|
                0 <= other < i ==> #[trigger] live[other] == (before[other]
                    && rows[other].binary_hash@.take(level as int) != group),
            forall|other: int| i <= other < n ==> #[trigger] live[other] == before[other],
        decreases n - i,
    {
        if live[i] && same_prefix(
            rows[row].binary_hash.as_str(),
            rows[i].binary_hash.as_str(),
            level,
        ) {
            live[i] = false;
        }
        i += 1;
    }
}

/// As many flags as asked for, all set.
fn all_waiting(n: usize) -> (live: Vec<bool>)
    ensures
        live.len() == n,
        forall|row: int| 0 <= row < n ==> live[row],
{
    let mut live: Vec<bool> = Vec::new();
    let mut i: usize = 0;
    while i < n
        invariant
            0 <= i <= n,
            live.len() == i,
            forall|row: int| 0 <= row < i ==> live[row],
        decreases n - i,
    {
        live.push(true);
        i += 1;
    }
    live
}

/// Merges a count table into its tiles.
pub(crate) fn merge_tiles(rows: &Vec<BinaryHashCount>, precision: u8, capacity: u64) -> (tiles:
    Vec<BinaryHashTile>)
    requires
        table_wf(rows@, precision as nat),
        table_total(rows@) <= i64::MAX,
    ensures
        lists_entries(tiles@, tiling(table_hashes(rows@), precision as nat, capacity as nat)),
        node_total(tiles@) == table_hashes(rows@).len(),
{
    let ghost hashes = table_hashes(rows@);
    let ghost width = precision as nat;
    let ghost limit = capacity as nat;
    let n: usize = rows.len();
    let mut tiles: Vec<BinaryHashTile> = Vec::new();
    let mut live: Vec<bool> = all_waiting(n);
    proof {
        lemma_group_count(rows@);
    }
    let mut level: usize = 1;
    while level <= precision as usize
        invariant
            table_wf(rows@, width),
            table_total(rows@) <= i64::MAX,
            hashes == table_hashes(rows@),
            width == precision as nat,
            limit == capacity as nat,
            n == rows.len(),
            1 <= level <= width + 1,
            forall|prefix: Seq<char>| #[trigger]
                group_count(hashes, prefix) == count_where(rows@, begins_with(prefix)),
            flags_at(rows@, hashes, limit, live@, level as int, 0),
            tiles_sound(tiles@, hashes, width, limit),
            tiles_upto(tiles@, rows@, hashes, limit, level as int - 1, n as int),
            distinct_tiles(tiles@),
            retired_covered(tiles@, rows@, live@),
        decreases width + 1 - level,
    {
        let mut i: usize = 0;
        proof {
            assert forall|t: int| 0 <= t < tiles.len() implies {
                let key = (#[trigger] tiles@[t]).binary_hash@;
                &&& 1 <= key.len() <= level
                &&& !over_capacity(hashes, key, limit)
                &&& key.len() == level ==> group_started(rows@, key, 0)
            } by {}
        }
        while i < n
            invariant
                table_wf(rows@, width),
                table_total(rows@) <= i64::MAX,
                hashes == table_hashes(rows@),
                width == precision as nat,
                limit == capacity as nat,
                n == rows.len(),
                1 <= level <= width,
                0 <= i <= n,
                forall|prefix: Seq<char>| #[trigger]
                    group_count(hashes, prefix) == count_where(rows@, begins_with(prefix)),
                flags_at(rows@, hashes, limit, live@, level as int, i as int),
                tiles_sound(tiles@, hashes, width, limit),
                tiles_upto(tiles@, rows@, hashes, limit, level as int, i as int),
                distinct_tiles(tiles@),
                retired_covered(tiles@, rows@, live@),
            decreases n - i,
        {
            let ghost group = rows[i as int].binary_hash@.take(level as int);
            let ghost tiles_before = tiles@;
            let ghost live_before = live@;
            if live[i] {
                proof {
                    lemma_group_waits(rows@, hashes, width, limit, live@, level as int, i as int);
                }
                let total = group_total(rows, &live, i, level, Ghost(width));
                proof {
                    lemma_count_where_includes(rows@, begins_with(group), i as int);
                }
                if total as u64 <= capacity {
                    let prefix = rows[i].binary_hash.as_str().substring_ascii(0, level).to_owned();
                    retire_group(rows, &mut live, i, level, Ghost(width));
                    let tile = BinaryHashTile { binary_hash: prefix, node_count: total };
                    tiles.push(tile);
                    proof {
                        let tile = tiles@[tiles_before.len() as int];
                        lemma_flags_step_retire(
                            rows@,
                            hashes,
                            width,
                            limit,
                            live_before,
                            live@,
                            level as int,
                            i as int,
                        );
                        lemma_unresolved_prefix(
                            hashes,
                            rows[i as int].binary_hash@,
                            level as int,
                            limit,
                        );
                        assert forall|row: int|
                            0 <= row < n && !(#[trigger] live@[row]) implies covered(
                            tiles@,
                            rows[row].binary_hash@,
                        ) by {
                            lemma_covered_push(tiles_before, tile, rows[row].binary_hash@);
                        }
                    }
                } else {
                    proof {
                        lemma_flags_step_keep(
                            rows@,
                            hashes,
                            width,
                            limit,
                            live@,
                            level as int,
                            i as int,
                        );
                    }
                }
            } else {
                proof {
                    lemma_flags_step_keep(
                        rows@,
                        hashes,
                        width,
                        limit,
                        live@,
                        level as int,
                        i as int,
                    );
                }
            }
            proof {
                assert forall|t: int| 0 <= t < tiles.len() implies {
                    let key = (#[trigger] tiles@[t]).binary_hash@;
                    &&& 1 <= key.len() <= level
                    &&& !over_capacity(hashes, key, limit)
                    &&& key.len() == level ==> group_started(rows@, key, i as int + 1)
                } by {
                    lemma_started_step(rows@, tiles@[t].binary_hash@, i as int);
                }
            }
            i += 1;
        }
        proof {
            lemma_level_done(rows@, hashes, width, limit, live@, level as int);
        }
        level += 1;
    }
    proof {
        assert forall|t: int| 0 <= t < tiles.len() implies {
            let key = (#[trigger] tiles@[t]).binary_hash@;
            ||| key.len() >= 1 && !over_capacity(hashes, key, limit)
            ||| group_started(rows@, key, 0)
        } by {}
    }
    let mut i: usize = 0;
    while i < n
        invariant
            table_wf(rows@, width),
            hashes == table_hashes(rows@),
            width == precision as nat,
            limit == capacity as nat,
            n == rows.len(),
            live.len() == n,
            0 <= i <= n,
            forall|prefix: Seq<char>| #[trigger]
                group_count(hashes, prefix) == count_where(rows@, begins_with(prefix)),
            forall|row: int| 0 <= row < i ==> !(#[trigger] live@[row]),
            forall|row: int|
                i <= row < n ==> (#[trigger] live@[row] <==> unresolved_before(
                    hashes,
                    rows[row].binary_hash@,
                    width as int + 1,
                    limit,
                )),
            tiles_sound(tiles@, hashes, width, limit),
            tiles_with_leaves(tiles@, rows@, hashes, limit, i as int),
            distinct_tiles(tiles@),
            retired_covered(tiles@, rows@, live@),
        decreases n - i,
    {
        let ghost key = rows[i as int].binary_hash@;
        let ghost tiles_before = tiles@;
        if live[i] {
            let tile = BinaryHashTile {
                binary_hash: rows[i].binary_hash.clone(),
                node_count: rows[i].node_count,
            };
            live[i] = false;
            tiles.push(tile);
            proof {
                let tile = tiles@[tiles_before.len() as int];
                lemma_full_hash_group(rows@, width, i as int);
                assert(key.take(width as int) =~= key);
                assert(!group_started(rows@, key, i as int)) by {
                    lemma_full_hash_before(rows@, width, i as int);
                }
                assert forall|row: int| 0 <= row < n && !(#[trigger] live@[row]) implies covered(
                    tiles@,
                    rows[row].binary_hash@,
                ) by {
                    lemma_covered_push(tiles_before, tile, rows[row].binary_hash@);
                }
            }
        }
        proof {
            assert forall|t: int| 0 <= t < tiles.len() implies {
                let key = (#[trigger] tiles@[t]).binary_hash@;
                ||| key.len() >= 1 && !over_capacity(hashes, key, limit)
                ||| group_started(rows@, key, i as int + 1)
            } by {
                lemma_started_step(rows@, tiles@[t].binary_hash@, i as int);
            }
        }
        i += 1;
    }
    proof {
        let entries = tiling(hashes, width, limit);
        assert forall|prefix: Seq<char>| #[trigger] entries.contains_key(prefix) implies has_tile(
            tiles@,
            prefix,
        ) by {
            let row = lemma_count_where_witness(rows@, begins_with(prefix));
            let hash = rows[row].binary_hash@;
            lemma_row_counted(rows@, row);
            lemma_prefix_coverage(hashes, width, limit, hash);
            assert(!live@[row]);
        }
        lemma_table_holds_hashes(rows@, width);
        lemma_conservation(tiles@, hashes, width, limit);
    }
    tiles
}

} // verus!
