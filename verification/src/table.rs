//! Count tables: each distinct hash once, with the number of times it was counted.

use crate::hash::is_binary_hash;
use crate::tiling::{begins_with, group_count, holds_binary_hashes};
use vstd::multiset::Multiset;
use vstd::prelude::*;

verus! {

/// One entry of a count table.
#[derive(Debug, PartialEq, Eq)]
pub struct BinaryHashCount {
    pub binary_hash: String,
    pub node_count: i64,
}

impl Clone for BinaryHashCount {
    fn clone(&self) -> (copy: Self)
        ensures
            copy == *self,
    {
        BinaryHashCount { binary_hash: self.binary_hash.clone(), node_count: self.node_count }
    }
}

/// A well-formed table of the given precision: every key is a binary hash of that
/// precision, every count is positive, and no key occurs twice.
pub open spec fn table_wf(rows: Seq<BinaryHashCount>, precision: nat) -> bool {
    &&& forall|i: int|
        0 <= i < rows.len() ==> is_binary_hash(#[trigger] rows[i].binary_hash@, precision)
    &&& forall|i: int| 0 <= i < rows.len() ==> (#[trigger] rows[i]).node_count >= 1
    &&& forall|i: int, j: int|
        0 <= i < j < rows.len() ==> (#[trigger] rows[i]).binary_hash@ != (
        #[trigger] rows[j]).binary_hash@
}

/// The multiset that holds `hash` the given number of times and nothing else.
pub open spec fn repeated(hash: Seq<char>, times: nat) -> Multiset<Seq<char>>
    decreases times,
{
    if times == 0 {
        Multiset::empty()
    } else {
        repeated(hash, (times - 1) as nat).insert(hash)
    }
}

/// The hashes that a table stands for: each key as often as its count says.
pub open spec fn table_hashes(rows: Seq<BinaryHashCount>) -> Multiset<Seq<char>>
    decreases rows.len(),
{
    if rows.len() == 0 {
        Multiset::empty()
    } else {
        table_hashes(rows.drop_last()).add(
            repeated(rows.last().binary_hash@, rows.last().node_count as nat),
        )
    }
}

/// The sum of the counts of the rows whose key satisfies `wanted`.
pub(crate) open spec fn count_where(rows: Seq<BinaryHashCount>, wanted: spec_fn(Seq<char>) -> bool) -> int
    decreases rows.len(),
{
    if rows.len() == 0 {
        0
    } else {
        count_where(rows.drop_last(), wanted) + if wanted(rows.last().binary_hash@) {
            rows.last().node_count as int
        } else {
            0
        }
    }
}

/// The sum of all counts.
pub(crate) open spec fn table_total(rows: Seq<BinaryHashCount>) -> int
    decreases rows.len(),
{
    if rows.len() == 0 {
        0
    } else {
        table_total(rows.drop_last()) + rows.last().node_count
    }
}

/// No count is negative.
pub(crate) open spec fn counts_nonnegative(rows: Seq<BinaryHashCount>) -> bool {
    forall|i: int| 0 <= i < rows.len() ==> (#[trigger] rows[i]).node_count >= 0
}

/// What `repeated` holds, value by value.
pub(crate) proof fn lemma_repeated_count(hash: Seq<char>, times: nat, value: Seq<char>)
    ensures
        repeated(hash, times).count(value) == if value == hash {
            times
        } else {
            0
        },
        repeated(hash, times).len() == times,
    decreases times,
{
    if times > 0 {
        lemma_repeated_count(hash, (times - 1) as nat, value);
        let rest = repeated(hash, (times - 1) as nat);
        assert(rest.insert(hash).len() == rest.len() + 1);
    }
}

/// Filtering `repeated` keeps all of it or none.
pub(crate) proof fn lemma_repeated_filter(hash: Seq<char>, times: nat, wanted: spec_fn(Seq<char>) -> bool)
    ensures
        repeated(hash, times).filter(wanted).len() == if wanted(hash) {
            times
        } else {
            0
        },
{
    let all = repeated(hash, times);
    lemma_repeated_count(hash, times, hash);
    assert forall|value: Seq<char>|
        all.filter(wanted).count(value) == if wanted(hash) {
            all.count(value)
        } else {
            0
        } by {
        lemma_repeated_count(hash, times, value);
    }
    if wanted(hash) {
        assert(all.filter(wanted) =~= all);
    } else {
        assert(all.filter(wanted) =~= Multiset::empty());
    }
}

/// The rows whose key satisfies a predicate stand for the hashes that satisfy it.
pub(crate) proof fn lemma_count_where_filter(
    rows: Seq<BinaryHashCount>,
    wanted: spec_fn(Seq<char>) -> bool,
)
    requires
        counts_nonnegative(rows),
    ensures
        table_hashes(rows).filter(wanted).len() == count_where(rows, wanted),
    decreases rows.len(),
{
    if rows.len() == 0 {
        assert(table_hashes(rows).filter(wanted) =~= Multiset::empty());
    } else {
        let front = table_hashes(rows.drop_last());
        let back = repeated(rows.last().binary_hash@, rows.last().node_count as nat);
        lemma_count_where_filter(rows.drop_last(), wanted);
        lemma_repeated_filter(rows.last().binary_hash@, rows.last().node_count as nat, wanted);
        assert(front.add(back).filter(wanted) =~= front.filter(wanted).add(back.filter(wanted)));
    }
}

/// A group's count, read off the table.
pub(crate) proof fn lemma_group_count(rows: Seq<BinaryHashCount>)
    requires
        counts_nonnegative(rows),
    ensures
        forall|prefix: Seq<char>| #[trigger]
            group_count(table_hashes(rows), prefix) == count_where(rows, begins_with(prefix)),
{
    assert forall|prefix: Seq<char>| #[trigger]
        group_count(table_hashes(rows), prefix) == count_where(rows, begins_with(prefix)) by {
        lemma_count_where_filter(rows, begins_with(prefix));
    }
}

/// The table stands for as many hashes as its counts add up to.
pub(crate) proof fn lemma_table_len(rows: Seq<BinaryHashCount>)
    requires
        counts_nonnegative(rows),
    ensures
        table_hashes(rows).len() == table_total(rows),
    decreases rows.len(),
{
    if rows.len() > 0 {
        lemma_table_len(rows.drop_last());
        lemma_repeated_count(
            rows.last().binary_hash@,
            rows.last().node_count as nat,
            rows.last().binary_hash@,
        );
    }
}

/// The predicate "is `hash`" on hashes.
pub(crate) open spec fn is_hash(hash: Seq<char>) -> spec_fn(Seq<char>) -> bool {
    |key: Seq<char>| key == hash
}

/// How often the table's hashes hold `hash`: the counts of the rows with that key.
pub(crate) proof fn lemma_table_count(rows: Seq<BinaryHashCount>, hash: Seq<char>)
    requires
        counts_nonnegative(rows),
    ensures
        table_hashes(rows).count(hash) == count_where(rows, is_hash(hash)),
    decreases rows.len(),
{
    if rows.len() > 0 {
        lemma_table_count(rows.drop_last(), hash);
        lemma_repeated_count(rows.last().binary_hash@, rows.last().node_count as nat, hash);
    }
}

/// A sum over the first rows is at most the sum over all, which is at most the total.
pub(crate) proof fn lemma_count_where_bounds(
    rows: Seq<BinaryHashCount>,
    wanted: spec_fn(Seq<char>) -> bool,
    upto: int,
)
    requires
        counts_nonnegative(rows),
        0 <= upto <= rows.len(),
    ensures
        0 <= count_where(rows.take(upto), wanted) <= count_where(rows, wanted) <= table_total(
            rows,
        ),
    decreases rows.len(),
{
    if rows.len() == 0 {
        assert(rows.take(upto) =~= rows);
    } else if upto == rows.len() {
        assert(rows.take(upto) =~= rows);
        lemma_count_where_bounds(rows.drop_last(), wanted, upto - 1);
    } else {
        assert(rows.drop_last().take(upto) =~= rows.take(upto));
        lemma_count_where_bounds(rows.drop_last(), wanted, upto);
    }
}

/// A row that satisfies the predicate contributes its count.
pub(crate) proof fn lemma_count_where_includes(
    rows: Seq<BinaryHashCount>,
    wanted: spec_fn(Seq<char>) -> bool,
    index: int,
)
    requires
        counts_nonnegative(rows),
        0 <= index < rows.len(),
        wanted(rows[index].binary_hash@),
    ensures
        count_where(rows, wanted) >= rows[index].node_count,
    decreases rows.len(),
{
    lemma_count_where_bounds(rows.drop_last(), wanted, 0);
    if index < rows.len() - 1 {
        lemma_count_where_includes(rows.drop_last(), wanted, index);
    }
}

/// The key of a row with a positive count is among the table's hashes.
pub(crate) proof fn lemma_row_counted(rows: Seq<BinaryHashCount>, index: int)
    requires
        counts_nonnegative(rows),
        0 <= index < rows.len(),
        rows[index].node_count >= 1,
    ensures
        table_hashes(rows).count(rows[index].binary_hash@) >= 1,
{
    let hash = rows[index].binary_hash@;
    lemma_table_count(rows, hash);
    lemma_count_where_includes(rows, is_hash(hash), index);
}

/// A positive sum has a row that satisfies the predicate. Its index is returned.
pub(crate) proof fn lemma_count_where_witness(
    rows: Seq<BinaryHashCount>,
    wanted: spec_fn(Seq<char>) -> bool,
) -> (index: int)
    requires
        count_where(rows, wanted) > 0,
    ensures
        0 <= index < rows.len(),
        wanted(rows[index].binary_hash@),
    decreases rows.len(),
{
    if wanted(rows.last().binary_hash@) {
        rows.len() - 1
    } else {
        lemma_count_where_witness(rows.drop_last(), wanted)
    }
}

/// Where no row satisfies the predicate, the sum is zero.
pub(crate) proof fn lemma_count_where_none(
    rows: Seq<BinaryHashCount>,
    wanted: spec_fn(Seq<char>) -> bool,
)
    requires
        forall|other: int|
            0 <= other < rows.len() ==> !wanted(#[trigger] rows[other].binary_hash@),
    ensures
        count_where(rows, wanted) == 0,
    decreases rows.len(),
{
    if rows.len() > 0 {
        let front = rows.drop_last();
        assert(!wanted(rows[rows.len() - 1].binary_hash@));
        assert forall|other: int| 0 <= other < front.len() implies !wanted(
            #[trigger] front[other].binary_hash@,
        ) by {
            assert(!wanted(rows[other].binary_hash@));
        }
        lemma_count_where_none(front, wanted);
    }
}

/// Where only one row satisfies the predicate, the sum is that row's count.
pub(crate) proof fn lemma_count_where_single(
    rows: Seq<BinaryHashCount>,
    wanted: spec_fn(Seq<char>) -> bool,
    index: int,
)
    requires
        0 <= index < rows.len(),
        wanted(rows[index].binary_hash@),
        forall|other: int|
            0 <= other < rows.len() && other != index ==> !wanted(
                #[trigger] rows[other].binary_hash@,
            ),
    ensures
        count_where(rows, wanted) == rows[index].node_count,
    decreases rows.len(),
{
    let front = rows.drop_last();
    assert forall|other: int| 0 <= other < front.len() && other != index implies !wanted(
        #[trigger] front[other].binary_hash@,
    ) by {
        assert(!wanted(rows[other].binary_hash@));
    }
    if index == rows.len() - 1 {
        lemma_count_where_none(front, wanted);
    } else {
        assert(!wanted(rows[rows.len() - 1].binary_hash@));
        assert(front[index] == rows[index]);
        lemma_count_where_single(front, wanted, index);
    }
}

/// Counting a new hash once: a row with count one at the end.
pub(crate) proof fn lemma_table_push(rows: Seq<BinaryHashCount>, row: BinaryHashCount)
    requires
        row.node_count == 1,
    ensures
        table_hashes(rows.push(row)) == table_hashes(rows).insert(row.binary_hash@),
{
    assert(rows.push(row).drop_last() =~= rows);
    let once = repeated(row.binary_hash@, 1);
    assert(repeated(row.binary_hash@, 0) =~= Multiset::empty());
    assert(once =~= Multiset::singleton(row.binary_hash@));
    assert(table_hashes(rows).add(once) =~= table_hashes(rows).insert(row.binary_hash@));
}

/// Counting a known hash once more: its row's count goes up by one.
pub(crate) proof fn lemma_table_increment(rows: Seq<BinaryHashCount>, index: int, row: BinaryHashCount)
    requires
        0 <= index < rows.len(),
        rows[index].node_count >= 0,
        row.binary_hash@ == rows[index].binary_hash@,
        row.node_count == rows[index].node_count + 1,
    ensures
        table_hashes(rows.update(index, row)) == table_hashes(rows).insert(row.binary_hash@),
    decreases rows.len(),
{
    let after = rows.update(index, row);
    let hash = row.binary_hash@;
    if index == rows.len() - 1 {
        assert(after.drop_last() =~= rows.drop_last());
        let front = table_hashes(rows.drop_last());
        let before = repeated(hash, rows[index].node_count as nat);
        assert(repeated(hash, row.node_count as nat) == before.insert(hash));
        assert(front.add(before.insert(hash)) =~= front.add(before).insert(hash));
    } else {
        assert(after.drop_last() =~= rows.drop_last().update(index, row));
        lemma_table_increment(rows.drop_last(), index, row);
        let front = table_hashes(rows.drop_last());
        let back = repeated(rows.last().binary_hash@, rows.last().node_count as nat);
        assert(front.insert(hash).add(back) =~= front.add(back).insert(hash));
    }
}

/// The hashes of a well-formed table are binary hashes of its precision.
pub(crate) proof fn lemma_table_holds_hashes(rows: Seq<BinaryHashCount>, precision: nat)
    requires
        table_wf(rows, precision),
    ensures
        holds_binary_hashes(table_hashes(rows), precision),
{
    assert forall|hash: Seq<char>| table_hashes(rows).count(hash) > 0 implies is_binary_hash(
        hash,
        precision,
    ) by {
        lemma_table_count(rows, hash);
        let row = lemma_count_where_witness(rows, is_hash(hash));
        assert(is_binary_hash(rows[row].binary_hash@, precision));
    }
}

/// A count table together with the sum of its counts.
pub(crate) struct CountTable {
    pub(crate) rows: Vec<BinaryHashCount>,
    pub(crate) total: i64,
}

impl CountTable {
    /// The table is well formed for the precision and `total` is the sum of its counts.
    pub(crate) open spec fn wf(&self, precision: nat) -> bool {
        table_wf(self.rows@, precision) && self.total == table_total(self.rows@)
    }

    /// The empty table.
    pub(crate) fn new() -> (table: Self)
        ensures
            table.rows@.len() == 0,
            table.total == 0,
    {
        CountTable { rows: Vec::new(), total: 0 }
    }

    /// Counts `binary_hash` once more.
    pub(crate) fn record(&mut self, binary_hash: &str, Ghost(precision): Ghost<nat>)
        requires
            old(self).wf(precision),
            is_binary_hash(binary_hash@, precision),
            old(self).total < i64::MAX,
        ensures
            final(self).wf(precision),
            table_hashes(final(self).rows@) == table_hashes(old(self).rows@).insert(
                binary_hash@,
            ),
    {
        let ghost before = self.rows@;
        let key: String = binary_hash.to_owned();
        let n: usize = self.rows.len();
        let mut i: usize = 0;
        while i < n
            invariant
                self.rows@ == before,
                before == old(self).rows@,
                self.total == old(self).total,
                table_wf(before, precision),
                self.total == table_total(before),
                self.total < i64::MAX,
                n == before.len(),
                key@ == binary_hash@,
                0 <= i <= n,
                forall|row: int| 0 <= row < i ==> (#[trigger] before[row]).binary_hash@ != key@,
            decreases n - i,
        {
            if self.rows[i].binary_hash == key {
                let count: i64 = self.rows[i].node_count;
                proof {
                    lemma_count_where_includes(before, is_hash(key@), i as int);
                    lemma_count_where_bounds(before, is_hash(key@), n as int);
                }
                self.rows[i] = BinaryHashCount { binary_hash: key, node_count: count + 1 };
                self.total = self.total + 1;
                proof {
                    let row = self.rows@[i as int];
                    assert(self.rows@ =~= before.update(i as int, row));
                    lemma_table_increment(before, i as int, row);
                    lemma_table_len(before);
                    lemma_table_len(self.rows@);
                }
                return ;
            }
            i += 1;
        }
        self.rows.push(BinaryHashCount { binary_hash: key, node_count: 1 });
        self.total = self.total + 1;
        proof {
            let row = self.rows@[n as int];
            assert(self.rows@ =~= before.push(row));
            lemma_table_push(before, row);
            lemma_table_len(before);
            lemma_table_len(self.rows@);
        }
    }
}

} // verus!
