use vstd::prelude::*;
use crate::bitmap::{OperatorResult, row_range, lemma_rows_finite};
use crate::database::{Database, first_metadata, has_metadata, partition_valid, rows_in};
use crate::order::{SortKey, SortSpec, levels_fit, order_rows, rows_ordered};
use crate::storage::{ColumnMetadata, DatabasePartition, Value, ValueModel, find_column, lookup_column};

verus! {

/// A group key and the number of rows counted under it.
pub type GroupModel = (Seq<ValueModel>, nat);

/// The mathematical form of a list of values.
pub open spec fn values_view(values: Seq<Value>) -> Seq<ValueModel> {
    values.map_values(|v: Value| v@)
}

/// The sum of the counts of all groups whose key is `k`.
pub open spec fn count_of(groups: Seq<GroupModel>, k: Seq<ValueModel>) -> nat
    decreases groups.len(),
{
    if groups.len() == 0 {
        0
    } else {
        count_of(groups.drop_last(), k) + if groups.last().0 == k {
            groups.last().1
        } else {
            0
        }
    }
}

/// The sum of the counts of all groups.
pub open spec fn sum_of(groups: Seq<GroupModel>) -> nat
    decreases groups.len(),
{
    if groups.len() == 0 {
        0
    } else {
        sum_of(groups.drop_last()) + groups.last().1
    }
}

/// No two groups share a key.
pub open spec fn keys_distinct(groups: Seq<GroupModel>) -> bool {
    forall|i: int, j: int| 0 <= i < j < groups.len() ==> groups[i].0 != groups[j].0
}

/// Every group counts at least one row.
pub open spec fn counts_positive(groups: Seq<GroupModel>) -> bool {
    forall|i: int| 0 <= i < groups.len() ==> groups[i].1 > 0
}

/// Raising the count of group `j` by `d` raises the count of its key, and the
/// sum, by `d`.
proof fn lemma_raise(groups: Seq<GroupModel>, j: int, d: nat, k: Seq<ValueModel>)
    requires
        0 <= j < groups.len(),
    ensures
        count_of(groups.update(j, (groups[j].0, groups[j].1 + d)), k) == count_of(groups, k) + if groups[j].0 == k { d } else { 0 },
        sum_of(groups.update(j, (groups[j].0, groups[j].1 + d))) == sum_of(groups) + d,
    decreases groups.len(),
{
    let g = groups.update(j, (groups[j].0, groups[j].1 + d));
    if j < groups.len() - 1 {
        assert(g.drop_last() == groups.drop_last().update(j, (groups[j].0, groups[j].1 + d)));
        lemma_raise(groups.drop_last(), j, d, k);
    } else {
        assert(g.drop_last() == groups.drop_last());
    }
}

/// The group with key `k` holds all rows counted under `k`.
proof fn lemma_count_of_distinct(groups: Seq<GroupModel>, j: int)
    requires
        0 <= j < groups.len(),
        keys_distinct(groups),
    ensures
        count_of(groups, groups[j].0) == groups[j].1,
    decreases groups.len(),
{
    if j < groups.len() - 1 {
        lemma_count_of_distinct(groups.drop_last(), j);
    } else {
        lemma_count_of_absent(groups.drop_last(), groups[j].0);
    }
}

/// A key that no group has counts nothing.
proof fn lemma_count_of_absent(groups: Seq<GroupModel>, k: Seq<ValueModel>)
    requires
        forall|i: int| 0 <= i < groups.len() ==> groups[i].0 != k,
    ensures
        count_of(groups, k) == 0,
    decreases groups.len(),
{
    if groups.len() > 0 {
        lemma_count_of_absent(groups.drop_last(), k);
    }
}

/// No group counts more than all groups together.
proof fn lemma_count_le_sum(groups: Seq<GroupModel>, j: int)
    requires
        0 <= j < groups.len(),
    ensures
        groups[j].1 <= sum_of(groups),
    decreases groups.len(),
{
    if j < groups.len() - 1 {
        lemma_count_le_sum(groups.drop_last(), j);
    }
}

/// Groups with positive counts that sum to zero are no groups at all.
pub proof fn lemma_zero_sum_is_empty(groups: Seq<GroupModel>)
    requires
        counts_positive(groups),
        sum_of(groups) == 0,
    ensures
        groups.len() == 0,
{
    if groups.len() > 0 {
        lemma_count_le_sum(groups, 0);
    }
}

/// A group key together with the number of rows that carry it.
#[derive(Debug)]
pub struct GroupCount {
    pub key: Vec<Value>,
    pub count: u64,
}

impl View for GroupCount {
    type V = GroupModel;

    open spec fn view(&self) -> GroupModel {
        (values_view(self.key@), self.count as nat)
    }
}

/// The mathematical form of a list of groups.
pub open spec fn groups_view(groups: Seq<GroupCount>) -> Seq<GroupModel> {
    groups.map_values(|g: GroupCount| g@)
}

/// The key of row `row` of partition `p`: its values in the columns `columns`.
pub open spec fn row_key(p: DatabasePartition, columns: Seq<usize>, row: u32) -> Seq<ValueModel> {
    Seq::new(columns.len(), |j: int| p.columns@[columns[j] as int].values@[row as int]@)
}

/// The number of rows of `rows` whose key is `k`.
pub open spec fn rows_with_key(
    p: DatabasePartition,
    columns: Seq<usize>,
    rows: Set<u32>,
    k: Seq<ValueModel>,
) -> nat {
    rows.filter(|r: u32| row_key(p, columns, r) == k).len()
}

/// Whether `columns` are valid column indices of `p` and `p` is well formed.
pub open spec fn columns_fit(p: DatabasePartition, columns: Seq<usize>) -> bool {
    &&& p.wf()
    &&& forall|j: int| 0 <= j < columns.len() ==> columns[j] < p.columns@.len()
}

fn make_key(p: &DatabasePartition, columns: &Vec<usize>, row: u32) -> (r: Vec<Value>)
    requires
        columns_fit(*p, columns@),
        row < p.sequence_count,
    ensures
        r@.len() == columns@.len(),
        values_view(r@) == row_key(*p, columns@, row),
{
    let mut key: Vec<Value> = Vec::new();
    let mut j: usize = 0;
    while j < columns.len()
        invariant
            j <= columns@.len(),
            columns_fit(*p, columns@),
            row < p.sequence_count,
            key@.len() == j,
            values_view(key@) == row_key(*p, columns@, row).take(j as int),
        decreases columns@.len() - j,
    {
        let c = columns[j];
        assert(p.columns@[c as int].wf(p.sequence_count as nat));
        let v = p.columns[c].values[row as usize].copy();
        let ghost prev = key@;
        key.push(v);
        assert(key@ == prev.push(v));
        assert(values_view(key@)[j as int] == row_key(*p, columns@, row)[j as int]);
        assert(values_view(key@).take(j as int) =~= values_view(prev));
        j = j + 1;
        assert(values_view(key@) =~= row_key(*p, columns@, row).take(j as int));
    }
    assert(row_key(*p, columns@, row).take(j as int) =~= row_key(*p, columns@, row));
    key
}

fn keys_equal(a: &Vec<Value>, b: &Vec<Value>) -> (r: bool)
    ensures
        r == (values_view(a@) == values_view(b@)),
{
    if a.len() != b.len() {
        assert(values_view(a@).len() != values_view(b@).len());
        return false;
    }
    let mut i: usize = 0;
    while i < a.len()
        invariant
            i <= a@.len(),
            a@.len() == b@.len(),
            forall|t: int| 0 <= t < i ==> a@[t]@ == b@[t]@,
        decreases a@.len() - i,
    {
        if !a[i].equals(&b[i]) {
            assert(values_view(a@)[i as int] != values_view(b@)[i as int]);
            return false;
        }
        i = i + 1;
    }
    assert(values_view(a@) =~= values_view(b@));
    true
}

fn find_group(groups: &Vec<GroupCount>, key: &Vec<Value>) -> (r: Option<usize>)
    ensures
        r matches Some(j) ==> j < groups@.len() && groups_view(groups@)[j as int].0 == values_view(key@),
        r is None ==> forall|j: int|
            0 <= j < groups@.len() ==> groups_view(groups@)[j].0 != values_view(key@),
{
    let mut j: usize = 0;
    while j < groups.len()
        invariant
            j <= groups@.len(),
            forall|t: int| 0 <= t < j ==> groups_view(groups@)[t].0 != values_view(key@),
        decreases groups@.len() - j,
    {
        if keys_equal(&groups[j].key, key) {
            return Some(j);
        }
        j = j + 1;
    }
    None
}

/// Counts one more row under `key`.
fn add_row(groups: &mut Vec<GroupCount>, key: Vec<Value>)
    requires
        forall|j: int| 0 <= j < old(groups)@.len() ==> (#[trigger] old(groups)@[j]).key@.len() == key@.len(),
        keys_distinct(groups_view(old(groups)@)),
        counts_positive(groups_view(old(groups)@)),
        sum_of(groups_view(old(groups)@)) < u64::MAX,
    ensures
        forall|j: int| 0 <= j < final(groups)@.len() ==> (#[trigger] final(groups)@[j]).key@.len() == key@.len(),
        keys_distinct(groups_view(final(groups)@)),
        counts_positive(groups_view(final(groups)@)),
        sum_of(groups_view(final(groups)@)) == sum_of(groups_view(old(groups)@)) + 1,
        forall|k: Seq<ValueModel>|
            #![trigger count_of(groups_view(final(groups)@), k)]
            count_of(groups_view(final(groups)@), k) == count_of(groups_view(old(groups)@), k) + if k
                == values_view(key@) {
                1nat
            } else {
                0nat
            },
{
    let ghost before = groups_view(groups@);
    match find_group(groups, &key) {
        Some(j) => {
            proof {
                lemma_count_le_sum(before, j as int);
            }
            let count = groups[j].count + 1;
            proof {
                assert(values_view(groups@[j as int].key@).len() == values_view(key@).len());
            }
            groups.set(j, GroupCount { key, count });
            proof {
                assert(groups_view(groups@) =~= before.update(j as int, (before[j as int].0, before[j as int].1 + 1)));
                assert forall|k: Seq<ValueModel>| #[trigger] count_of(groups_view(groups@), k) == count_of(before, k) + if k == before[j as int].0 { 1nat } else { 0nat } by {
                    lemma_raise(before, j as int, 1, k);
                }
                lemma_raise(before, j as int, 1, before[j as int].0);
            }
        },
        None => {
            groups.push(GroupCount { key, count: 1 });
            proof {
                assert(groups_view(groups@) =~= before.push((values_view(key@), 1nat)));
                assert(groups_view(groups@).drop_last() =~= before);
            }
        },
    }
}

/// A row set gains one row: the count of that row's key rises by one.
proof fn lemma_rows_with_key_insert(
    p: DatabasePartition,
    columns: Seq<usize>,
    rows: Set<u32>,
    x: u32,
    k: Seq<ValueModel>,
)
    requires
        !rows.contains(x),
    ensures
        rows_with_key(p, columns, rows.insert(x), k) == rows_with_key(p, columns, rows, k) + if row_key(p, columns, x) == k { 1nat } else { 0nat },
{
    let f = |r: u32| row_key(p, columns, r) == k;
    lemma_rows_finite(rows.filter(f));
    if f(x) {
        assert(rows.insert(x).filter(f) =~= rows.filter(f).insert(x));
    } else {
        assert(rows.insert(x).filter(f) =~= rows.filter(f));
    }
}

/// Counts, under each row's key, the rows of `bitmap` in partition `p`.
fn count_partition(
    groups: &mut Vec<GroupCount>,
    p: &DatabasePartition,
    columns: &Vec<usize>,
    bitmap: &OperatorResult,
)
    requires
        columns_fit(*p, columns@),
        bitmap@.subset_of(row_range(p.sequence_count)),
        forall|j: int| 0 <= j < old(groups)@.len() ==> (#[trigger] old(groups)@[j]).key@.len() == columns@.len(),
        keys_distinct(groups_view(old(groups)@)),
        counts_positive(groups_view(old(groups)@)),
        bitmap@.finite(),
        sum_of(groups_view(old(groups)@)) + bitmap@.len() <= u64::MAX,
    ensures
        forall|j: int| 0 <= j < final(groups)@.len() ==> (#[trigger] final(groups)@[j]).key@.len() == columns@.len(),
        keys_distinct(groups_view(final(groups)@)),
        counts_positive(groups_view(final(groups)@)),
        sum_of(groups_view(final(groups)@)) == sum_of(groups_view(old(groups)@)) + bitmap@.len(),
        forall|k: Seq<ValueModel>|
            #![trigger count_of(groups_view(final(groups)@), k)]
            count_of(groups_view(final(groups)@), k) == count_of(groups_view(old(groups)@), k)
                + rows_with_key(*p, columns@, bitmap@, k),
{
    let rows = bitmap.rows();
    let ghost start = groups_view(groups@);
    let ghost mut processed: Set<u32> = Set::empty();
    let mut i: usize = 0;
    proof {
        assert forall|k: Seq<ValueModel>| #[trigger] rows_with_key(*p, columns@, processed, k) == 0 by {
            assert(processed.filter(|r: u32| row_key(*p, columns@, r) == k) =~= Set::empty());
        }
    }
    while i < rows.len()
        invariant
            columns_fit(*p, columns@),
            bitmap@.subset_of(row_range(p.sequence_count)),
            bitmap@.finite(),
            start.len() >= 0,
            sum_of(start) + bitmap@.len() <= u64::MAX,
            forall|a: int, b: int| 0 <= a < b < rows@.len() ==> rows@[a] < rows@[b],
            forall|x: u32| bitmap@.contains(x) <==> rows@.contains(x),
            i <= rows@.len(),
            forall|x: u32| processed.contains(x) <==> exists|t: int| 0 <= t < i && rows@[t] == x,
            processed.subset_of(bitmap@),
            processed.finite(),
            processed.len() == i,
            forall|j: int| 0 <= j < groups@.len() ==> (#[trigger] groups@[j]).key@.len() == columns@.len(),
            keys_distinct(groups_view(groups@)),
            counts_positive(groups_view(groups@)),
            sum_of(groups_view(groups@)) == sum_of(start) + i,
            forall|k: Seq<ValueModel>|
                #![trigger count_of(groups_view(groups@), k)]
                count_of(groups_view(groups@), k) == count_of(start, k) + rows_with_key(*p, columns@, processed, k),
        decreases rows@.len() - i,
    {
        let x = rows[i];
        proof {
            assert(rows@.contains(x));
            assert(!processed.contains(x)) by {
                if processed.contains(x) {
                    let t = choose|t: int| 0 <= t < i && rows@[t] == x;
                    assert(rows@[t] < rows@[i as int]);
                }
            }
            vstd::set_lib::lemma_len_subset(processed.insert(x), bitmap@);
            assert(row_range(p.sequence_count).contains(x));
        }
        let key = make_key(p, columns, x);
        let ghost before = groups_view(groups@);
        add_row(groups, key);
        proof {
            assert forall|k: Seq<ValueModel>| #[trigger] count_of(groups_view(groups@), k) == count_of(start, k) + rows_with_key(*p, columns@, processed.insert(x), k) by {
                lemma_rows_with_key_insert(*p, columns@, processed, x, k);
            }
            processed = processed.insert(x);
        }
        i = i + 1;
    }
    proof {
        assert(processed =~= bitmap@) by {
            assert forall|x: u32| bitmap@.contains(x) implies processed.contains(x) by {
                assert(rows@.contains(x));
                let t = choose|t: int| 0 <= t < rows@.len() && rows@[t] == x;
                assert(exists|t: int| 0 <= t < i && rows@[t] == x);
            }
        }
    }
}

/// The reserved field that holds a group's row count.
pub const COUNT_FIELD: &'static str = "count";

/// The name of the reserved count field.
pub open spec fn count_field() -> Seq<char> {
    seq!['c', 'o', 'u', 'n', 't']
}

/// A field to order the result rows by.
#[derive(Debug, Clone)]
pub struct OrderByField {
    pub name: String,
    pub ascending: bool,
}

/// The aggregation action: counts the matching rows, grouped by the values of
/// the group-by fields.
#[derive(Debug)]
pub struct Aggregated {
    pub group_by_fields: Vec<String>,
    pub order_by_fields: Vec<OrderByField>,
}

/// Why an aggregation could not be carried out.
#[derive(Debug, Clone, PartialEq, Eq)]
pub enum AggregationError {
    /// A group-by field is not a metadata field of the database.
    UnknownGroupByField(String),
    /// An order-by field is neither `count` nor a group-by field.
    InvalidOrderByField(String),
    /// The number of matching rows does not fit in a `u64`.
    Overflow,
}

/// One result row: the group-by fields with their values, and the row count.
#[derive(Debug)]
pub struct QueryResultEntry {
    pub fields: Vec<(String, Value)>,
    pub count: u64,
}

impl View for QueryResultEntry {
    type V = GroupModel;

    open spec fn view(&self) -> GroupModel {
        (Seq::new(self.fields@.len(), |i: int| self.fields@[i].1@), self.count as nat)
    }
}

/// The rows a query produced, in order.
#[derive(Debug)]
pub struct QueryResult {
    pub entries: Vec<QueryResultEntry>,
}

impl View for QueryResult {
    type V = Seq<GroupModel>;

    open spec fn view(&self) -> Seq<GroupModel> {
        self.entries@.map_values(|e: QueryResultEntry| e@)
    }
}

/// Every one of `entries` names exactly the fields `names`, in order.
pub open spec fn entries_named(entries: Seq<QueryResultEntry>, names: Seq<String>) -> bool {
    forall|e: int|
        0 <= e < entries.len() ==> {
            let fields = (#[trigger] entries[e]).fields@;
            &&& fields.len() == names.len()
            &&& forall|i: int| 0 <= i < fields.len() ==> (#[trigger] fields[i]).0@ == names[i]@
        }
}

/// The row sets held by `bitmaps`.
pub open spec fn row_sets(bitmaps: Seq<OperatorResult>) -> Seq<Set<u32>> {
    bitmaps.map_values(|b: OperatorResult| b@)
}

/// The total number of rows in the first `n` row sets.
pub open spec fn total_rows(sets: Seq<Set<u32>>, n: int) -> nat
    decreases n,
{
    if n <= 0 || sets.len() < n {
        0
    } else {
        total_rows(sets, n - 1) + sets[n - 1].len()
    }
}

/// When every row of every partition matches, the row sets hold as many rows
/// as the database.
pub proof fn lemma_full_match_count(partitions: Seq<DatabasePartition>, sets: Seq<Set<u32>>)
    requires
        sets.len() == partitions.len(),
        forall|i: int| 0 <= i < sets.len() ==> #[trigger] sets[i] == row_range(partitions[i].sequence_count),
    ensures
        total_rows(sets, sets.len() as int) == rows_in(partitions, partitions.len() as int),
{
    lemma_full_match_prefix(partitions, sets, sets.len() as int);
}

proof fn lemma_full_match_prefix(partitions: Seq<DatabasePartition>, sets: Seq<Set<u32>>, n: int)
    requires
        0 <= n <= sets.len(),
        sets.len() == partitions.len(),
        forall|i: int| 0 <= i < sets.len() ==> #[trigger] sets[i] == row_range(partitions[i].sequence_count),
    ensures
        total_rows(sets, n) == rows_in(partitions, n),
    decreases n,
{
    if n > 0 {
        lemma_full_match_prefix(partitions, sets, n - 1);
        crate::bitmap::lemma_row_range_len(partitions[n - 1].sequence_count);
        assert(sets[n - 1] == row_range(partitions[n - 1].sequence_count));
    }
}

/// The column indices of partition `p` that hold the fields `fields`.
pub open spec fn group_columns(p: DatabasePartition, fields: Seq<String>) -> Seq<usize> {
    Seq::new(fields.len(), |j: int| lookup_column(p.columns@, fields[j]@)->Some_0 as usize)
}

/// The number of rows in the first `n` partitions whose group-by values are `k`.
pub open spec fn total_with_key(
    partitions: Seq<DatabasePartition>,
    fields: Seq<String>,
    sets: Seq<Set<u32>>,
    k: Seq<ValueModel>,
    n: int,
) -> nat
    decreases n,
{
    if n <= 0 || partitions.len() < n || sets.len() < n {
        0
    } else {
        total_with_key(partitions, fields, sets, k, n - 1) + rows_with_key(
            partitions[n - 1],
            group_columns(partitions[n - 1], fields),
            sets[n - 1],
            k,
        )
    }
}

/// Every one of `fields` is a metadata field.
pub open spec fn fields_resolve(metadata: Seq<ColumnMetadata>, fields: Seq<String>) -> bool {
    forall|i: int| 0 <= i < fields.len() ==> has_metadata(metadata, (#[trigger] fields[i])@)
}

/// `name` is the first of `fields` that is not a metadata field.
pub open spec fn first_unknown_field(
    metadata: Seq<ColumnMetadata>,
    fields: Seq<String>,
    name: Seq<char>,
) -> bool {
    exists|i: int|
        0 <= i < fields.len() && #[trigger] fields[i]@ == name && !has_metadata(metadata, name)
            && forall|t: int| 0 <= t < i ==> has_metadata(metadata, (#[trigger] fields[t])@)
}

/// Every order-by field is `count` or one of the group-by fields.
pub open spec fn order_by_valid(order_by: Seq<OrderByField>, group_by: Seq<String>) -> bool {
    forall|o: int|
        0 <= o < order_by.len() ==> (#[trigger] order_by[o]).name@ == count_field() || exists|i: int|
            0 <= i < group_by.len() && #[trigger] group_by[i]@ == order_by[o].name@
}

/// The row sets of a query: one per partition, each within its partition.
pub open spec fn sets_fit(partitions: Seq<DatabasePartition>, sets: Seq<Set<u32>>) -> bool {
    &&& sets.len() == partitions.len()
    &&& forall|i: int|
        0 <= i < sets.len() ==> (#[trigger] sets[i]).subset_of(
            row_range(partitions[i].sequence_count),
        )
}

/// `name` is an order-by field that is neither `count` nor a group-by field.
pub open spec fn invalid_order_by(
    order_by: Seq<OrderByField>,
    group_by: Seq<String>,
    name: Seq<char>,
) -> bool {
    &&& exists|o: int| 0 <= o < order_by.len() && #[trigger] order_by[o].name@ == name
    &&& name != count_field()
    &&& forall|i: int| 0 <= i < group_by.len() ==> #[trigger] group_by[i]@ != name
}

/// `levels` orders by the order-by fields: `count` by the row count, any other
/// by the group-by field of that name, each in its direction.
pub open spec fn levels_match(
    levels: Seq<SortSpec>,
    order_by: Seq<OrderByField>,
    group_by: Seq<String>,
) -> bool {
    &&& levels.len() == order_by.len()
    &&& forall|o: int|
        0 <= o < levels.len() ==> {
            let level = #[trigger] levels[o];
            &&& level.ascending == order_by[o].ascending
            &&& order_by[o].name@ == count_field() ==> level.key == SortKey::Count
            &&& order_by[o].name@ != count_field() ==> (level.key matches SortKey::Field(i) && i
                < group_by.len() && group_by[i as int]@ == order_by[o].name@)
        }
}

/// The ordering levels for valid order-by fields.
fn sort_levels(order_by: &Vec<OrderByField>, group_by: &Vec<String>) -> (r: Vec<SortSpec>)
    requires
        order_by_valid(order_by@, group_by@),
    ensures
        levels_match(r@, order_by@, group_by@),
        levels_fit(r@, group_by@.len()),
{
    let count_name = String::from_str(COUNT_FIELD);
    proof {
        reveal_strlit("count");
        assert(count_name@ =~= count_field());
    }
    let mut levels: Vec<SortSpec> = Vec::new();
    let mut o: usize = 0;
    while o < order_by.len()
        invariant
            order_by_valid(order_by@, group_by@),
            count_name@ == count_field(),
            o <= order_by@.len(),
            levels@.len() == o,
            forall|t: int|
                0 <= t < o ==> {
                    let level = #[trigger] levels@[t];
                    &&& level.ascending == order_by@[t].ascending
                    &&& order_by@[t].name@ == count_field() ==> level.key == SortKey::Count
                    &&& order_by@[t].name@ != count_field() ==> (level.key matches SortKey::Field(
                        i,
                    ) && i < group_by@.len() && group_by@[i as int]@ == order_by@[t].name@)
                },
        decreases order_by@.len() - o,
    {
        let field = &order_by[o];
        if field.name == count_name {
            levels.push(SortSpec { key: SortKey::Count, ascending: field.ascending });
        } else {
            let mut i: usize = 0;
            while i < group_by.len() && group_by[i] != field.name
                invariant
                    i <= group_by@.len(),
                    forall|t: int| 0 <= t < i ==> #[trigger] group_by@[t]@ != field.name@,
                decreases group_by@.len() - i,
            {
                i = i + 1;
            }
            if i == group_by.len() {
                assert(field.name@ == count_field() || exists|g: int|
                    0 <= g < group_by@.len() && #[trigger] group_by@[g]@ == order_by@[o as int].name@);
                assert(false);
            }
            levels.push(SortSpec { key: SortKey::Field(i), ascending: field.ascending });
        }
        o = o + 1;
    }
    assert forall|l: int| 0 <= l < levels@.len() implies ((#[trigger] levels@[l]).key matches SortKey::Field(i) ==> i < group_by@.len()) by {}
    levels
}

/// Resolves the group-by fields against the database's metadata.
fn parse_group_by_fields(database: &Database, group_by_fields: &Vec<String>) -> (r: Result<
    Vec<ColumnMetadata>,
    AggregationError,
>)
    ensures
        r is Ok <==> fields_resolve(database.config.metadata@, group_by_fields@),
        r matches Ok(m) ==> m@.len() == group_by_fields@.len() && forall|i: int|
            0 <= i < m@.len() ==> first_metadata(
                database.config.metadata@,
                group_by_fields@[i]@,
                #[trigger] m@[i],
            ),
        r matches Err(e) ==> (e matches AggregationError::UnknownGroupByField(name)
            && first_unknown_field(database.config.metadata@, group_by_fields@, name@)),
{
    let mut metadata: Vec<ColumnMetadata> = Vec::new();
    let mut i: usize = 0;
    while i < group_by_fields.len()
        invariant
            i <= group_by_fields@.len(),
            metadata@.len() == i,
            forall|t: int| 0 <= t < i ==> has_metadata(database.config.metadata@, (#[trigger] group_by_fields@[t])@),
            forall|t: int| 0 <= t < i ==> first_metadata(
                database.config.metadata@,
                group_by_fields@[t]@,
                #[trigger] metadata@[t],
            ),
        decreases group_by_fields@.len() - i,
    {
        match database.config.get_metadata(&group_by_fields[i]) {
            Some(m) => metadata.push(m),
            None => {
                let name = group_by_fields[i].clone();
                assert(group_by_fields@[i as int]@ == name@);
                return Err(AggregationError::UnknownGroupByField(name));
            },
        }
        i = i + 1;
    }
    Ok(metadata)
}

/// The column indices of `p` that hold the fields `fields`.
fn resolve_group_columns(p: &DatabasePartition, fields: &Vec<String>) -> (r: Vec<usize>)
    requires
        p.wf(),
        forall|j: int| 0 <= j < fields@.len() ==> lookup_column(p.columns@, (#[trigger] fields@[j])@) is Some,
    ensures
        r@ == group_columns(*p, fields@),
        columns_fit(*p, r@),
{
    let mut columns: Vec<usize> = Vec::new();
    let mut j: usize = 0;
    while j < fields.len()
        invariant
            p.wf(),
            forall|j: int| 0 <= j < fields@.len() ==> lookup_column(p.columns@, (#[trigger] fields@[j])@) is Some,
            j <= fields@.len(),
            columns@ == group_columns(*p, fields@).take(j as int),
            forall|t: int| 0 <= t < j ==> #[trigger] columns@[t] < p.columns@.len(),
        decreases fields@.len() - j,
    {
        match find_column(&p.columns, &fields[j]) {
            Some(c) => columns.push(c),
            None => {
                assert(false);
                columns.push(0);
            },
        }
        j = j + 1;
        assert(columns@ =~= group_columns(*p, fields@).take(j as int));
    }
    assert(group_columns(*p, fields@).take(j as int) =~= group_columns(*p, fields@));
    columns
}

/// The sum of the cardinalities of all row sets, if it fits in a `u64`.
fn total_cardinality(bitmaps: &Vec<OperatorResult>) -> (r: Option<u64>)
    ensures
        r is Some <==> total_rows(row_sets(bitmaps@), bitmaps@.len() as int) <= u64::MAX,
        r matches Some(n) ==> n == total_rows(row_sets(bitmaps@), bitmaps@.len() as int),
{
    let mut total: u64 = 0;
    let mut i: usize = 0;
    while i < bitmaps.len()
        invariant
            i <= bitmaps@.len(),
            total == total_rows(row_sets(bitmaps@), i as int),
        decreases bitmaps@.len() - i,
    {
        let c = bitmaps[i].cardinality();
        match total.checked_add(c) {
            Some(t) => total = t,
            None => {
                proof {
                    lemma_total_rows_monotone(row_sets(bitmaps@), i + 1, bitmaps@.len() as int);
                }
                return None;
            },
        }
        i = i + 1;
    }
    Some(total)
}

/// Later prefixes hold at least as many rows.
proof fn lemma_total_rows_monotone(sets: Seq<Set<u32>>, a: int, b: int)
    requires
        0 <= a <= b <= sets.len(),
    ensures
        total_rows(sets, a) <= total_rows(sets, b),
    decreases b - a,
{
    if a < b {
        lemma_total_rows_monotone(sets, a, b - 1);
    }
}

/// The result of counting without grouping: one row holding the total.
fn aggregate_without_grouping(bitmap_filters: &Vec<OperatorResult>) -> (r: Result<
    QueryResult,
    AggregationError,
>)
    ensures
        r is Ok <==> total_rows(row_sets(bitmap_filters@), bitmap_filters@.len() as int) <= u64::MAX,
        r matches Ok(q) ==> q@ == seq![(Seq::<ValueModel>::empty(), total_rows(row_sets(bitmap_filters@), bitmap_filters@.len() as int))],
        r matches Err(e) ==> e == AggregationError::Overflow,
{
    match total_cardinality(bitmap_filters) {
        Some(count) => {
            let entry = QueryResultEntry { fields: Vec::new(), count };
            assert(entry@.0 =~= Seq::<ValueModel>::empty());
            let mut entries: Vec<QueryResultEntry> = Vec::new();
            entries.push(entry);
            let result = QueryResult { entries };
            assert(result@ =~= seq![(Seq::<ValueModel>::empty(), count as nat)]);
            Ok(result)
        },
        None => Err(AggregationError::Overflow),
    }
}

/// Turns the counted groups into result rows named by `fields`.
fn generate_result(groups: Vec<GroupCount>, fields: &Vec<String>) -> (r: QueryResult)
    requires
        forall|j: int| 0 <= j < groups@.len() ==> (#[trigger] groups@[j]).key@.len() == fields@.len(),
    ensures
        r@ == groups_view(groups@),
        entries_named(r.entries@, fields@),
{
    let mut entries: Vec<QueryResultEntry> = Vec::new();
    let mut j: usize = 0;
    while j < groups.len()
        invariant
            forall|j: int| 0 <= j < groups@.len() ==> (#[trigger] groups@[j]).key@.len() == fields@.len(),
            j <= groups@.len(),
            entries@.len() == j,
            forall|t: int| 0 <= t < j ==> (#[trigger] entries@[t])@ == groups@[t]@,
            entries_named(entries@, fields@),
        decreases groups@.len() - j,
    {
        let group = &groups[j];
        let mut row: Vec<(String, Value)> = Vec::new();
        let mut i: usize = 0;
        while i < group.key.len()
            invariant
                j < groups@.len(),
                *group == groups@[j as int],
                group.key@.len() == fields@.len(),
                i <= group.key@.len(),
                row@.len() == i,
                forall|t: int| 0 <= t < i ==> (#[trigger] row@[t]).1@ == group.key@[t]@ && row@[t].0@ == fields@[t]@,
            decreases group.key@.len() - i,
        {
            row.push((fields[i].clone(), group.key[i].copy()));
            i = i + 1;
        }
        assert(row@.len() == fields@.len());
        let entry = QueryResultEntry { fields: row, count: group.count };
        assert(entry@.0 =~= values_view(group.key@));
        let ghost prev = entries@;
        entries.push(entry);
        j = j + 1;
        assert forall|t: int| 0 <= t < j implies (#[trigger] entries@[t])@ == groups@[t]@ by {
            if t < j - 1 {
                assert(entries@[t] == prev[t]);
            }
        }
        assert forall|e: int| 0 <= e < entries@.len() implies {
            let named = (#[trigger] entries@[e]).fields@;
            &&& named.len() == fields@.len()
            &&& forall|i: int| 0 <= i < named.len() ==> (#[trigger] named[i]).0@ == fields@[i]@
        } by {
            if e < j - 1 {
                assert(entries@[e] == prev[e]);
            }
        }
    }
    let result = QueryResult { entries };
    assert(result@ =~= groups_view(groups@));
    result
}

impl Aggregated {
    /// What aggregating the row sets `sets`, one per partition of `database`,
    /// gives: one row with the total count without group-by fields; else, if
    /// every group-by field is known, one row per distinct combination of
    /// group-by values with the number of matching rows that carry it.
    pub open spec fn outcome(
        &self,
        database: Database,
        sets: Seq<Set<u32>>,
        r: Result<QueryResult, AggregationError>,
    ) -> bool {
        let metadata = database.config.metadata@;
        let fields = self.group_by_fields@;
        let total = total_rows(sets, sets.len() as int);
        &&& r is Ok <==> fields_resolve(metadata, fields) && total <= u64::MAX
        &&& r matches Err(e) ==> if fields_resolve(metadata, fields) {
            e == AggregationError::Overflow
        } else {
            e matches AggregationError::UnknownGroupByField(name) && first_unknown_field(
                metadata,
                fields,
                name@,
            )
        }
        &&& r matches Ok(q) ==> {
            &&& fields.len() == 0 ==> q@ == seq![(Seq::<ValueModel>::empty(), total)]
            &&& entries_named(q.entries@, fields)
            &&& keys_distinct(q@)
            &&& fields.len() > 0 ==> counts_positive(q@)
            &&& sum_of(q@) == total
            &&& fields.len() > 0 ==> forall|k: Seq<ValueModel>|
                #[trigger] count_of(q@, k) == total_with_key(
                    database.partitions@,
                    fields,
                    sets,
                    k,
                    database.partitions@.len() as int,
                )
        }
    }

    /// What aggregating and then ordering gives: a validation error where a
    /// group-by field is unknown or an order-by field is neither `count` nor a
    /// group-by field; otherwise the rows of `outcome`, in the order of the
    /// order-by fields.
    pub open spec fn ordered_outcome(
        &self,
        database: Database,
        sets: Seq<Set<u32>>,
        r: Result<QueryResult, AggregationError>,
    ) -> bool {
        let metadata = database.config.metadata@;
        let fields = self.group_by_fields@;
        if !fields_resolve(metadata, fields) {
            r matches Err(AggregationError::UnknownGroupByField(name)) && first_unknown_field(
                metadata,
                fields,
                name@,
            )
        } else if !order_by_valid(self.order_by_fields@, fields) {
            r matches Err(AggregationError::InvalidOrderByField(name)) && invalid_order_by(
                self.order_by_fields@,
                fields,
                name@,
            )
        } else {
            &&& r matches Err(e) ==> self.outcome(database, sets, Err(e))
            &&& r matches Ok(q) ==> exists|unordered: QueryResult|
                {
                    &&& self.outcome(database, sets, Ok(unordered))
                    &&& q.entries@.to_multiset() == unordered.entries@.to_multiset()
                    &&& exists|levels: Seq<SortSpec>|
                        levels_match(levels, self.order_by_fields@, fields) && rows_ordered(
                            q@,
                            levels,
                        )
                }
        }
    }

    /// An aggregation grouped by `group_by_fields`, without ordering.
    pub fn new(group_by_fields: Vec<String>) -> (r: Aggregated)
        ensures
            r.group_by_fields == group_by_fields,
            r.order_by_fields@.len() == 0,
    {
        Aggregated { group_by_fields, order_by_fields: Vec::new() }
    }

    /// Checks that the group-by fields are metadata fields and that every
    /// order-by field is `count` or a group-by field.
    pub fn validate_order_by_fields(&self, database: &Database) -> (r: Result<(), AggregationError>)
        ensures
            r is Ok <==> fields_resolve(database.config.metadata@, self.group_by_fields@)
                && order_by_valid(self.order_by_fields@, self.group_by_fields@),
            r matches Err(AggregationError::UnknownGroupByField(name)) ==> !fields_resolve(
                database.config.metadata@,
                self.group_by_fields@,
            ) && first_unknown_field(database.config.metadata@, self.group_by_fields@, name@),
            r matches Err(AggregationError::InvalidOrderByField(name)) ==> fields_resolve(
                database.config.metadata@,
                self.group_by_fields@,
            ) && exists|o: int|
                0 <= o < self.order_by_fields@.len() && #[trigger] self.order_by_fields@[o].name@
                    == name@ && name@ != count_field() && forall|i: int|
                    0 <= i < self.group_by_fields@.len() ==> #[trigger] self.group_by_fields@[i]@
                        != name@,
            r != Err::<(), AggregationError>(AggregationError::Overflow),
    {
        let metadata = parse_group_by_fields(database, &self.group_by_fields)?;
        let count_name = String::from_str(COUNT_FIELD);
        proof {
            reveal_strlit("count");
            assert(count_name@ =~= count_field());
        }
        let mut o: usize = 0;
        while o < self.order_by_fields.len()
            invariant
                fields_resolve(database.config.metadata@, self.group_by_fields@),
                o <= self.order_by_fields@.len(),
                count_name@ == count_field(),
                metadata@.len() == self.group_by_fields@.len(),
                forall|i: int| 0 <= i < metadata@.len() ==> (#[trigger] metadata@[i]).name@ == self.group_by_fields@[i]@,
                forall|t: int|
                    0 <= t < o ==> (#[trigger] self.order_by_fields@[t]).name@ == count_field() || exists|i: int|
                        0 <= i < self.group_by_fields@.len() && #[trigger] self.group_by_fields@[i]@ == self.order_by_fields@[t].name@,
            decreases self.order_by_fields@.len() - o,
        {
            let field = &self.order_by_fields[o];
            if field.name != count_name {
                let mut found = false;
                let mut i: usize = 0;
                while i < metadata.len()
                    invariant
                        i <= metadata@.len(),
                        metadata@.len() == self.group_by_fields@.len(),
                        forall|i: int| 0 <= i < metadata@.len() ==> (#[trigger] metadata@[i]).name@ == self.group_by_fields@[i]@,
                        found ==> exists|i: int|
                            0 <= i < self.group_by_fields@.len() && #[trigger] self.group_by_fields@[i]@ == field.name@,
                        !found ==> forall|t: int| 0 <= t < i ==> #[trigger] self.group_by_fields@[t]@ != field.name@,
                    decreases metadata@.len() - i,
                {
                    if metadata[i].name == field.name {
                        found = true;
                    }
                    i = i + 1;
                }
                if !found {
                    assert(self.order_by_fields@[o as int].name@ == field.name@);
                    return Err(AggregationError::InvalidOrderByField(field.name.clone()));
                }
            }
            o = o + 1;
        }
        Ok(())
    }

    /// Counts the rows of `bitmap_filters` (one row set per partition): in a
    /// single row without group-by fields, otherwise one row per distinct
    /// combination of group-by values, merged across partitions by value.
    pub fn execute(&self, database: &Database, bitmap_filters: Vec<OperatorResult>) -> (r: Result<
        QueryResult,
        AggregationError,
    >)
        requires
            database.wf(),
            sets_fit(database.partitions@, row_sets(bitmap_filters@)),
        ensures
            self.outcome(*database, row_sets(bitmap_filters@), r),
    {
        if self.group_by_fields.len() == 0 {
            let r = aggregate_without_grouping(&bitmap_filters);
            proof {
                assert(fields_resolve(database.config.metadata@, self.group_by_fields@));
                if r is Ok {
                    let groups = r->Ok_0@;
                    assert(groups.drop_last() =~= Seq::<GroupModel>::empty());
                    assert(sum_of(groups.drop_last()) == 0);
                    assert(sum_of(groups) == groups[0].1);
                    let q = r->Ok_0;
                    assert(q.entries@.len() == 1);
                    assert(q.entries@[0]@ == groups[0]);
                    assert(groups[0].0.len() == 0);
                    assert(q.entries@[0]@.0.len() == 0);
                    assert(q.entries@[0].fields@.len() == 0);
                    assert(entries_named(q.entries@, self.group_by_fields@));
                    assert(keys_distinct(groups));
                }
            }
            return r;
        }
        parse_group_by_fields(database, &self.group_by_fields)?;
        let total = match total_cardinality(&bitmap_filters) {
            Some(t) => t,
            None => {
                return Err(AggregationError::Overflow);
            },
        };
        let mut groups: Vec<GroupCount> = Vec::new();
        let mut i: usize = 0;
        while i < database.partitions.len()
            invariant
                database.wf(),
                sets_fit(database.partitions@, row_sets(bitmap_filters@)),
                fields_resolve(database.config.metadata@, self.group_by_fields@),
                total == total_rows(row_sets(bitmap_filters@), bitmap_filters@.len() as int),
                i <= database.partitions@.len(),
                forall|j: int| 0 <= j < groups@.len() ==> (#[trigger] groups@[j]).key@.len() == self.group_by_fields@.len(),
                keys_distinct(groups_view(groups@)),
                counts_positive(groups_view(groups@)),
                sum_of(groups_view(groups@)) == total_rows(row_sets(bitmap_filters@), i as int),
                forall|k: Seq<ValueModel>|
                    #![trigger count_of(groups_view(groups@), k)]
                    count_of(groups_view(groups@), k) == total_with_key(
                        database.partitions@,
                        self.group_by_fields@,
                        row_sets(bitmap_filters@),
                        k,
                        i as int,
                    ),
            decreases database.partitions@.len() - i,
        {
            let p = &database.partitions[i];
            proof {
                assert(partition_valid(database.config.metadata@, *p));
                assert forall|j: int| 0 <= j < self.group_by_fields@.len() implies lookup_column(p.columns@, (#[trigger] self.group_by_fields@[j])@) is Some by {
                    assert(has_metadata(database.config.metadata@, self.group_by_fields@[j]@));
                    let m = choose|m: int| 0 <= m < database.config.metadata@.len() && #[trigger] database.config.metadata@[m].name@ == self.group_by_fields@[j]@;
                    assert(database.config.metadata@[m].name@ == self.group_by_fields@[j]@);
                }
            }
            let columns = resolve_group_columns(p, &self.group_by_fields);
            proof {
                lemma_rows_finite(bitmap_filters@[i as int]@);
                lemma_total_rows_monotone(row_sets(bitmap_filters@), i + 1, bitmap_filters@.len() as int);
            }
            count_partition(&mut groups, p, &columns, &bitmap_filters[i]);
            i = i + 1;
        }
        Ok(generate_result(groups, &self.group_by_fields))
    }

    /// Checks the configuration, counts the rows as `execute` does, and puts
    /// the result rows in the order of the order-by fields.
    pub fn execute_and_order(&self, database: &Database, bitmap_filters: Vec<OperatorResult>) -> (r: Result<
        QueryResult,
        AggregationError,
    >)
        requires
            database.wf(),
            sets_fit(database.partitions@, row_sets(bitmap_filters@)),
        ensures
            self.ordered_outcome(*database, row_sets(bitmap_filters@), r),
    {
        self.validate_order_by_fields(database)?;
        let unordered = self.execute(database, bitmap_filters)?;
        let ghost snapshot = unordered;
        let levels = sort_levels(&self.order_by_fields, &self.group_by_fields);
        let entries = order_rows(unordered.entries, &levels);
        let result = QueryResult { entries };
        proof {
            assert(result@ == result.entries@.map_values(|e: QueryResultEntry| e@));
        }
        Ok(result)
    }
}

/// A key counted at all is the key of some group.
proof fn lemma_count_of_present(groups: Seq<GroupModel>, k: Seq<ValueModel>)
    requires
        count_of(groups, k) > 0,
    ensures
        exists|e: int| 0 <= e < groups.len() && #[trigger] groups[e].0 == k,
    decreases groups.len(),
{
    if groups.last().0 != k {
        lemma_count_of_present(groups.drop_last(), k);
        let e = choose|e: int| 0 <= e < groups.drop_last().len() && #[trigger] groups.drop_last()[e].0 == k;
        assert(groups[e].0 == k);
    } else {
        assert(groups[groups.len() - 1].0 == k);
    }
}

/// Later prefixes of the partitions count at least as many rows under a key.
proof fn lemma_total_with_key_monotone(
    partitions: Seq<DatabasePartition>,
    fields: Seq<String>,
    sets: Seq<Set<u32>>,
    k: Seq<ValueModel>,
    a: int,
    b: int,
)
    requires
        0 <= a <= b <= partitions.len(),
        partitions.len() == sets.len(),
    ensures
        total_with_key(partitions, fields, sets, k, a) <= total_with_key(partitions, fields, sets, k, b),
    decreases b - a,
{
    if a < b {
        lemma_total_with_key_monotone(partitions, fields, sets, k, a, b - 1);
    }
}

/// A row of partition `i` counts under its key.
proof fn lemma_row_counted(p: DatabasePartition, columns: Seq<usize>, rows: Set<u32>, r: u32)
    requires
        rows.contains(r),
    ensures
        rows_with_key(p, columns, rows, row_key(p, columns, r)) >= 1,
{
    let f = |x: u32| row_key(p, columns, x) == row_key(p, columns, r);
    lemma_rows_finite(rows.filter(f));
    assert(rows.filter(f).contains(r));
    assert(rows.filter(f).remove(r).len() + 1 == rows.filter(f).len());
}

/// Two rows of different partitions with equal group-by values are counted in
/// one and the same result row, whose count covers both.
pub proof fn lemma_merge_by_value(
    action: Aggregated,
    database: Database,
    sets: Seq<Set<u32>>,
    q: QueryResult,
    i: int,
    j: int,
    row_i: u32,
    row_j: u32,
)
    requires
        action.group_by_fields@.len() > 0,
        sets.len() == database.partitions@.len(),
        action.outcome(database, sets, Ok(q)),
        0 <= i < j < database.partitions@.len(),
        sets[i].contains(row_i),
        sets[j].contains(row_j),
        row_key(
            database.partitions@[i],
            group_columns(database.partitions@[i], action.group_by_fields@),
            row_i,
        ) == row_key(
            database.partitions@[j],
            group_columns(database.partitions@[j], action.group_by_fields@),
            row_j,
        ),
    ensures
        ({
            let k = row_key(
                database.partitions@[i],
                group_columns(database.partitions@[i], action.group_by_fields@),
                row_i,
            );
            exists|e: int|
                0 <= e < q@.len() && #[trigger] q@[e].0 == k && q@[e].1 >= 2 && forall|f: int|
                    0 <= f < q@.len() && f != e ==> q@[f].0 != k
        }),
{
    let parts = database.partitions@;
    let fields = action.group_by_fields@;
    let k = row_key(parts[i], group_columns(parts[i], fields), row_i);
    let n = parts.len() as int;
    lemma_row_counted(parts[i], group_columns(parts[i], fields), sets[i], row_i);
    lemma_row_counted(parts[j], group_columns(parts[j], fields), sets[j], row_j);
    lemma_total_with_key_monotone(parts, fields, sets, k, i + 1, j);
    lemma_total_with_key_monotone(parts, fields, sets, k, j + 1, n);
    assert(total_with_key(parts, fields, sets, k, i + 1) >= 1);
    assert(total_with_key(parts, fields, sets, k, j + 1) >= 2);
    assert(count_of(q@, k) >= 2);
    lemma_count_of_present(q@, k);
    let e = choose|e: int| 0 <= e < q@.len() && #[trigger] q@[e].0 == k;
    lemma_count_of_distinct(q@, e);
}

} // verus!
