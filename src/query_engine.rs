use vstd::prelude::*;
use crate::aggregated::{
    Aggregated, AggregationError, QueryResult, fields_resolve, lemma_full_match_count,
    lemma_zero_sum_is_empty, levels_match, order_by_valid, row_sets, total_rows,
};
use crate::order::{SortSpec, rows_ordered};
use crate::bitmap::{OperatorResult, row_range};
use crate::database::{Database, partition_valid, rows_in};
use crate::filter::{
    CompileError, Expression, compile_spec, expression_holds, expression_resolves, expression_rows,
};
use crate::storage::{DatabasePartition, ValueModel};

verus! {

/// A query: a filter selecting rows and an action over the selected rows.
#[derive(Debug)]
pub struct Query {
    pub filter: Expression,
    pub action: Aggregated,
}

/// Why a query failed.
#[derive(Debug, Clone, PartialEq, Eq)]
pub enum QueryError {
    Compile(CompileError),
    Aggregation(AggregationError),
}

/// Whether `filter` compiles against every partition.
pub open spec fn filter_resolves(filter: Expression, partitions: Seq<DatabasePartition>) -> bool {
    forall|i: int|
        0 <= i < partitions.len() ==> expression_resolves(filter, (#[trigger] partitions[i]).columns@)
}

/// The rows of each partition that satisfy `filter`.
pub open spec fn filter_sets(filter: Expression, partitions: Seq<DatabasePartition>) -> Seq<Set<u32>> {
    Seq::new(partitions.len(), |i: int| expression_rows(filter, partitions[i]))
}

/// Compiles `filter` against `partition` and evaluates it there.
pub fn compile_and_evaluate(filter: &Expression, partition: &DatabasePartition) -> (r: Result<
    OperatorResult,
    CompileError,
>)
    requires
        partition.wf(),
    ensures
        r is Ok <==> expression_resolves(*filter, partition.columns@),
        r matches Err(e) ==> compile_spec(*filter, partition.columns@) == Err::<
            crate::filter::Operator,
            CompileError,
        >(e),
        r matches Ok(b) ==> b@ == expression_rows(*filter, *partition) && b@.subset_of(
            row_range(partition.sequence_count),
        ),
{
    let op = filter.compile(partition)?;
    Ok(op.evaluate(partition))
}

/// What running `query` against `database` gives: a compile error exactly
/// when the filter does not compile against some partition (the error is that
/// partition's); otherwise what the action gives on the rows of each
/// partition that satisfy the filter.
pub open spec fn query_outcome(database: Database, query: Query, r: Result<QueryResult, QueryError>) -> bool {
    let partitions = database.partitions@;
    &&& (r matches Err(QueryError::Compile(_))) <==> !filter_resolves(query.filter, partitions)
    &&& r matches Err(QueryError::Compile(e)) ==> exists|i: int|
        0 <= i < partitions.len() && compile_spec(query.filter, (#[trigger] partitions[i]).columns@)
            == Err::<crate::filter::Operator, CompileError>(e)
    &&& filter_resolves(query.filter, partitions) ==> {
        let sets = filter_sets(query.filter, partitions);
        &&& r matches Ok(q) ==> query.action.ordered_outcome(database, sets, Ok(q))
        &&& r matches Err(QueryError::Aggregation(e)) ==> query.action.ordered_outcome(
            database,
            sets,
            Err(e),
        )
    }
}

/// Runs queries against one database.
pub struct QueryEngine<'a> {
    pub database: &'a Database,
}

impl<'a> QueryEngine<'a> {
    /// An engine over `database`.
    pub fn new(database: &'a Database) -> (r: QueryEngine<'a>)
        ensures
            r.database == database,
    {
        QueryEngine { database }
    }

    /// Compiles and evaluates the filter on every partition, then checks the
    /// action's configuration and runs it on the selected rows.
    pub fn execute_query(&self, query: &Query) -> (r: Result<QueryResult, QueryError>)
        requires
            self.database.wf(),
        ensures
            query_outcome(*self.database, *query, r),
    {
        let partitions = &self.database.partitions;
        let mut partition_filters: Vec<OperatorResult> = Vec::new();
        let mut i: usize = 0;
        while i < partitions.len()
            invariant
                self.database.wf(),
                *partitions == self.database.partitions,
                i <= partitions@.len(),
                partition_filters@.len() == i,
                forall|t: int| 0 <= t < i ==> expression_resolves(query.filter, (#[trigger] partitions@[t]).columns@),
                forall|t: int|
                    0 <= t < i ==> (#[trigger] partition_filters@[t])@ == expression_rows(
                        query.filter,
                        partitions@[t],
                    ),
                forall|t: int|
                    0 <= t < i ==> (#[trigger] partition_filters@[t])@.subset_of(
                        row_range(partitions@[t].sequence_count),
                    ),
            decreases partitions@.len() - i,
        {
            proof {
                assert(partition_valid(self.database.config.metadata@, partitions@[i as int]));
            }
            match compile_and_evaluate(&query.filter, &partitions[i]) {
                Ok(b) => partition_filters.push(b),
                Err(e) => {
                    return Err(QueryError::Compile(e));
                },
            }
            i = i + 1;
        }
        proof {
            assert(row_sets(partition_filters@) =~= filter_sets(query.filter, partitions@));
        }
        match query.action.execute_and_order(self.database, partition_filters) {
            Ok(q) => Ok(q),
            Err(e) => Err(QueryError::Aggregation(e)),
        }
    }
}

/// The rows of each partition that a filter matching every row selects are
/// all of its rows.
proof fn lemma_full_sets(filter: Expression, partitions: Seq<DatabasePartition>)
    requires
        forall|i: int, r: int|
            0 <= i < partitions.len() && 0 <= r < partitions[i].sequence_count
                ==> #[trigger] expression_holds(filter, partitions[i], r),
    ensures
        total_rows(filter_sets(filter, partitions), partitions.len() as int) == rows_in(
            partitions,
            partitions.len() as int,
        ),
{
    let sets = filter_sets(filter, partitions);
    assert forall|i: int| 0 <= i < sets.len() implies #[trigger] sets[i] == row_range(
        partitions[i].sequence_count,
    ) by {
        assert(sets[i] =~= row_range(partitions[i].sequence_count)) by {
            assert forall|r: u32| #[trigger] sets[i].contains(r) <==> row_range(
                partitions[i].sequence_count,
            ).contains(r) by {
                if r < partitions[i].sequence_count {
                    assert(expression_holds(filter, partitions[i], r as int));
                }
            }
        }
    }
    lemma_full_match_count(partitions, sets);
}

/// With a filter that matches every row, and a database whose row count fits
/// in a `u64`, counting without grouping succeeds with one row whose count is
/// the number of rows of the database.
pub proof fn lemma_full_match_aggregate(
    query: Query,
    database: Database,
    r: Result<QueryResult, AggregationError>,
)
    requires
        query.action.group_by_fields@.len() == 0,
        forall|i: int, row: int|
            0 <= i < database.partitions@.len() && 0 <= row < database.partitions@[i].sequence_count
                ==> #[trigger] expression_holds(query.filter, database.partitions@[i], row),
        rows_in(database.partitions@, database.partitions@.len() as int) <= u64::MAX,
        query.action.outcome(database, filter_sets(query.filter, database.partitions@), r),
    ensures
        r matches Ok(q) && q@ == seq![(Seq::<ValueModel>::empty(), rows_in(database.partitions@, database.partitions@.len() as int))],
{
    lemma_full_sets(query.filter, database.partitions@);
    assert(fields_resolve(database.config.metadata@, query.action.group_by_fields@));
}

/// A query whose filter compiles against every partition and matches every
/// row, counted without grouping (and ordered, if at all, by `count`), on a
/// database whose row count fits in a `u64`, gives one row whose count is the
/// number of rows of the database.
pub proof fn lemma_full_match_query(
    query: Query,
    database: Database,
    r: Result<QueryResult, QueryError>,
)
    requires
        query.action.group_by_fields@.len() == 0,
        order_by_valid(query.action.order_by_fields@, query.action.group_by_fields@),
        filter_resolves(query.filter, database.partitions@),
        forall|i: int, row: int|
            0 <= i < database.partitions@.len() && 0 <= row < database.partitions@[i].sequence_count
                ==> #[trigger] expression_holds(query.filter, database.partitions@[i], row),
        rows_in(database.partitions@, database.partitions@.len() as int) <= u64::MAX,
        query_outcome(database, query, r),
    ensures
        r matches Ok(q) && q@ == seq![(Seq::<ValueModel>::empty(), rows_in(database.partitions@, database.partitions@.len() as int))],
{
    broadcast use vstd::seq_lib::group_to_multiset_ensures;

    let parts = database.partitions@;
    let total = rows_in(parts, parts.len() as int);
    lemma_full_sets(query.filter, parts);
    assert(fields_resolve(database.config.metadata@, query.action.group_by_fields@));
    if let Ok(q) = r {
        let sets = filter_sets(query.filter, parts);
        let unordered = choose|unordered: QueryResult|
            {
                &&& query.action.outcome(database, sets, Ok(unordered))
                &&& q.entries@.to_multiset() == unordered.entries@.to_multiset()
                &&& exists|levels: Seq<SortSpec>|
                    levels_match(levels, query.action.order_by_fields@, query.action.group_by_fields@)
                        && rows_ordered(q@, levels)
            };
        assert(unordered@ == seq![(Seq::<ValueModel>::empty(), total)]);
        assert(unordered.entries@.len() == 1);
        vstd::seq_lib::to_multiset_len(q.entries@);
        vstd::seq_lib::to_multiset_len(unordered.entries@);
        assert(q.entries@.len() == 1);
        assert(q.entries@.contains(q.entries@[0]));
        assert(unordered.entries@.to_multiset().count(q.entries@[0]) > 0);
        assert(unordered.entries@.contains(q.entries@[0]));
        assert(q.entries@[0] == unordered.entries@[0]);
        assert(q@ =~= unordered@);
    }
}

/// A filter that matches no row of any partition gives no result rows when
/// grouping.
pub proof fn lemma_empty_match_aggregate(query: Query, database: Database, q: QueryResult)
    requires
        query.action.group_by_fields@.len() > 0,
        forall|i: int, r: int|
            0 <= i < database.partitions@.len() ==> !#[trigger] expression_holds(query.filter, database.partitions@[i], r),
        query.action.outcome(database, filter_sets(query.filter, database.partitions@), Ok(q)),
    ensures
        q.entries@.len() == 0,
{
    let parts = database.partitions@;
    let sets = filter_sets(query.filter, parts);
    assert forall|i: int| 0 <= i < sets.len() implies #[trigger] sets[i].len() == 0 by {
        assert(sets[i] =~= Set::<u32>::empty());
    }
    lemma_no_rows(sets, sets.len() as int);
    lemma_zero_sum_is_empty(q@);
}

proof fn lemma_no_rows(sets: Seq<Set<u32>>, n: int)
    requires
        0 <= n <= sets.len(),
        forall|i: int| 0 <= i < sets.len() ==> #[trigger] sets[i].len() == 0,
    ensures
        total_rows(sets, n) == 0,
    decreases n,
{
    if n > 0 {
        lemma_no_rows(sets, n - 1);
    }
}

} // verus!
