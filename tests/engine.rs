use silo::aggregated::{Aggregated, AggregationError, OrderByField, QueryResult};
use silo::bitmap::OperatorResult;
use silo::database::{Database, DatabaseConfig, DatabaseInfo, LoadError};
use silo::filter::{CompileError, Expression, Operator, Predicate};
use silo::numbers::add1;
use silo::query_engine::{compile_and_evaluate, Query, QueryEngine, QueryError};
use silo::storage::{
    Alphabet, Column, ColumnMetadata, ColumnType, DatabasePartition, SequenceStore, Value,
};

fn s(x: &str) -> String {
    x.to_string()
}

fn str_column(name: &str, values: &[&str]) -> Column {
    Column {
        name: s(name),
        column_type: ColumnType::Str,
        values: values.iter().map(|v| Value::Str(s(v))).collect(),
    }
}

fn int_column(name: &str, values: &[Option<i64>]) -> Column {
    Column {
        name: s(name),
        column_type: ColumnType::Int,
        values: values.iter().map(|v| match v {
            Some(i) => Value::Int(*i),
            None => Value::Null,
        }).collect(),
    }
}

fn config() -> DatabaseConfig {
    DatabaseConfig {
        default_nucleotide_sequence: Some(s("main")),
        default_amino_acid_sequence: None,
        metadata: vec![
            ColumnMetadata { name: s("country"), column_type: ColumnType::Str },
            ColumnMetadata { name: s("age"), column_type: ColumnType::Int },
        ],
    }
}

fn partition(countries: &[&str], ages: &[Option<i64>]) -> DatabasePartition {
    DatabasePartition::new(
        countries.len() as u32,
        vec![str_column("country", countries), int_column("age", ages)],
    )
    .unwrap()
}

/// Partition A: CH, CH, DE; partition B: CH.
fn two_partition_database() -> Database {
    let mut db = Database::new(config());
    db.partitions.push(partition(&["CH", "CH", "DE"], &[Some(30), None, Some(50)]));
    db.partitions.push(partition(&["CH"], &[Some(70)]));
    db
}

fn compare(column: &str, predicate: Predicate) -> Expression {
    Expression::Compare { column: s(column), predicate }
}

fn group_count(result: &QueryResult, value: &str) -> Option<u64> {
    result
        .entries
        .iter()
        .find(|e| e.fields.len() == 1 && e.fields[0].1 == Value::Str(s(value)))
        .map(|e| e.count)
}

fn group_by(fields: &[&str]) -> Aggregated {
    Aggregated::new(fields.iter().map(|f| s(f)).collect())
}

#[test]
fn add1_increments() {
    assert_eq!(add1(41), Ok(42));
    assert_eq!(add1(0), Ok(1));
}

#[test]
fn add1_fails_at_max() {
    assert_eq!(add1(u32::MAX), Err("add1: u32 number overflow"));
    assert_eq!(add1(u32::MAX - 1), Ok(u32::MAX));
}

#[test]
fn ungrouped_counts_sum_over_partitions() {
    let mut db = Database::new(config());
    db.partitions.push(DatabasePartition::new(10, vec![]).unwrap());
    db.partitions.push(DatabasePartition::new(5, vec![]).unwrap());
    let db = Database { config: DatabaseConfig { metadata: vec![], ..db.config }, ..db };
    let action = Aggregated::new(vec![]);
    let result = action
        .execute(&db, vec![OperatorResult::full(10), OperatorResult::full(5)])
        .unwrap();
    assert_eq!(result.entries.len(), 1);
    assert_eq!(result.entries[0].count, 15);
    assert!(result.entries[0].fields.is_empty());
}

#[test]
fn grouping_merges_equal_values_across_partitions() {
    let db = two_partition_database();
    let engine = QueryEngine::new(&db);
    let query = Query { filter: Expression::True, action: group_by(&["country"]) };
    let result = engine.execute_query(&query).unwrap();
    assert_eq!(result.entries.len(), 2);
    assert_eq!(group_count(&result, "CH"), Some(3));
    assert_eq!(group_count(&result, "DE"), Some(1));
    for e in &result.entries {
        assert_eq!(e.fields[0].0, "country");
    }
}

#[test]
fn grouped_counts_sum_to_matching_rows() {
    let db = two_partition_database();
    let engine = QueryEngine::new(&db);
    let filter = Expression::Not(Box::new(compare("age", Predicate::IsNull)));
    let query = Query { filter, action: group_by(&["country", "age"]) };
    let result = engine.execute_query(&query).unwrap();
    let total: u64 = result.entries.iter().map(|e| e.count).sum();
    assert_eq!(total, 3);
    assert_eq!(result.entries.len(), 3);
}

#[test]
fn full_match_counts_every_row() {
    let db = two_partition_database();
    let engine = QueryEngine::new(&db);
    let query = Query { filter: Expression::True, action: group_by(&[]) };
    let result = engine.execute_query(&query).unwrap();
    assert_eq!(result.entries.len(), 1);
    assert_eq!(result.entries[0].count, 4);
}

#[test]
fn empty_match_gives_no_rows() {
    let db = two_partition_database();
    let engine = QueryEngine::new(&db);
    let query = Query { filter: Expression::False, action: group_by(&["country"]) };
    let result = engine.execute_query(&query).unwrap();
    assert!(result.entries.is_empty());
    let query = Query {
        filter: compare("country", Predicate::StringEquals(s("FR"))),
        action: group_by(&["age"]),
    };
    assert!(engine.execute_query(&query).unwrap().entries.is_empty());
}

#[test]
fn order_by_field_outside_group_by_is_rejected() {
    let db = two_partition_database();
    let mut action = group_by(&["country"]);
    action.order_by_fields.push(OrderByField { name: s("age"), ascending: true });
    assert_eq!(
        action.validate_order_by_fields(&db),
        Err(AggregationError::InvalidOrderByField(s("age")))
    );
    let engine = QueryEngine::new(&db);
    let query = Query { filter: Expression::True, action };
    assert_eq!(
        engine.execute_query(&query).unwrap_err(),
        QueryError::Aggregation(AggregationError::InvalidOrderByField(s("age")))
    );
}

#[test]
fn order_by_count_and_group_field_are_accepted() {
    let db = two_partition_database();
    let mut action = group_by(&["country"]);
    action.order_by_fields.push(OrderByField { name: s("count"), ascending: false });
    action.order_by_fields.push(OrderByField { name: s("country"), ascending: true });
    assert_eq!(action.validate_order_by_fields(&db), Ok(()));
}

#[test]
fn unknown_group_by_field_is_rejected() {
    let db = two_partition_database();
    let action = group_by(&["country", "lineage"]);
    assert_eq!(
        action.validate_order_by_fields(&db),
        Err(AggregationError::UnknownGroupByField(s("lineage")))
    );
    let engine = QueryEngine::new(&db);
    let query = Query { filter: Expression::True, action: group_by(&["lineage"]) };
    assert_eq!(
        engine.execute_query(&query).unwrap_err(),
        QueryError::Aggregation(AggregationError::UnknownGroupByField(s("lineage")))
    );
}

#[test]
fn not_gives_complement_cardinality() {
    let p = DatabasePartition::new(10, vec![int_column("age", &[
        Some(1), Some(2), Some(3), Some(4), Some(5), Some(6), Some(7), Some(8), Some(9), Some(10),
    ])])
    .unwrap();
    let inner = compare("age", Predicate::IntBetween(Some(2), Some(4)));
    let matched = compile_and_evaluate(&inner, &p).unwrap();
    assert_eq!(matched.cardinality(), 3);
    let negated = compile_and_evaluate(&Expression::Not(Box::new(inner)), &p).unwrap();
    assert_eq!(negated.cardinality(), 7);
    assert_eq!(negated.rows(), vec![0, 4, 5, 6, 7, 8, 9]);
}

#[test]
fn evaluating_twice_gives_same_rows() {
    let db = two_partition_database();
    let p = &db.partitions[0];
    let op = compare("country", Predicate::StringEquals(s("CH"))).compile(p).unwrap();
    let first = op.evaluate(p);
    let second = op.evaluate(p);
    assert_eq!(first.cardinality(), second.cardinality());
    assert_eq!(first.rows(), second.rows());
    assert_eq!(first.rows(), vec![0, 1]);
}

#[test]
fn compiling_twice_gives_same_operator() {
    let db = two_partition_database();
    let p = &db.partitions[0];
    let filter = Expression::Or(
        Box::new(compare("age", Predicate::IntEquals(30))),
        Box::new(Expression::Not(Box::new(compare("country", Predicate::IsNull)))),
    );
    let first = filter.compile(p).unwrap();
    let second = filter.compile(p).unwrap();
    assert_eq!(first, second);
    assert_eq!(
        first,
        Operator::Union(
            Box::new(Operator::Selection { column: 1, predicate: Predicate::IntEquals(30) }),
            Box::new(Operator::Complement(Box::new(Operator::Selection {
                column: 0,
                predicate: Predicate::IsNull,
            }))),
        )
    );
}

#[test]
fn compile_reports_unknown_field_and_type_mismatch() {
    let db = two_partition_database();
    let p = &db.partitions[0];
    assert_eq!(
        compare("lineage", Predicate::IsNull).compile(p).unwrap_err(),
        CompileError::UnknownField(s("lineage"))
    );
    assert_eq!(
        compare("country", Predicate::IntEquals(3)).compile(p).unwrap_err(),
        CompileError::TypeMismatch(s("country"))
    );
    let engine = QueryEngine::new(&db);
    let query = Query {
        filter: compare("age", Predicate::StringEquals(s("x"))),
        action: group_by(&[]),
    };
    assert_eq!(
        engine.execute_query(&query).unwrap_err(),
        QueryError::Compile(CompileError::TypeMismatch(s("age")))
    );
}

#[test]
fn predicates_select_expected_rows() {
    let db = two_partition_database();
    let p = &db.partitions[0];
    let eval = |e: Expression| compile_and_evaluate(&e, p).unwrap().rows();
    assert_eq!(eval(compare("age", Predicate::IntEquals(50))), vec![2]);
    assert_eq!(eval(compare("age", Predicate::IntBetween(None, Some(40)))), vec![0]);
    assert_eq!(eval(compare("age", Predicate::IntBetween(Some(30), None))), vec![0, 2]);
    assert_eq!(eval(compare("age", Predicate::IsNull)), vec![1]);
    assert_eq!(eval(compare("country", Predicate::StringEquals(s("DE")))), vec![2]);
    assert_eq!(
        eval(Expression::And(
            Box::new(compare("country", Predicate::StringEquals(s("CH")))),
            Box::new(compare("age", Predicate::IsNull)),
        )),
        vec![1]
    );
    assert_eq!(eval(Expression::True), vec![0, 1, 2]);
    assert_eq!(eval(Expression::False), Vec::<u32>::new());
}

#[test]
fn operator_results_combine_as_sets() {
    let a = OperatorResult::from_rows(&vec![1, 3, 5, 7]);
    let b = OperatorResult::from_rows(&vec![3, 4, 5]);
    assert_eq!(a.and(&b).rows(), vec![3, 5]);
    assert_eq!(a.or(&b).rows(), vec![1, 3, 4, 5, 7]);
    assert_eq!(b.not(6).rows(), vec![0, 1, 2]);
    assert_eq!(a.copy().rows(), vec![1, 3, 5, 7]);
    assert_eq!(OperatorResult::full(3).rows(), vec![0, 1, 2]);
    assert_eq!(OperatorResult::empty().cardinality(), 0);
    let mut c = OperatorResult::empty();
    c.insert(9);
    c.insert(2);
    c.insert(9);
    assert_eq!(c.rows(), vec![2, 9]);
    assert_eq!(c.cardinality(), 2);
}

#[test]
fn validate_accepts_consistent_database() {
    assert_eq!(two_partition_database().validate(), Ok(()));
    assert_eq!(Database::new(config()).validate(), Ok(()));
}

#[test]
fn validate_reports_missing_and_mistyped_columns() {
    let mut db = two_partition_database();
    db.partitions.push(DatabasePartition::new(1, vec![str_column("country", &["FR"])]).unwrap());
    assert_eq!(
        db.validate(),
        Err(LoadError::MissingColumn { partition: 2, field: s("age") })
    );
    let mut db = two_partition_database();
    db.partitions.push(
        DatabasePartition::new(1, vec![
            str_column("country", &["FR"]),
            str_column("age", &["old"]),
        ])
        .unwrap(),
    );
    assert_eq!(
        db.validate(),
        Err(LoadError::ColumnTypeMismatch { partition: 2, field: s("age") })
    );
    let mut db = two_partition_database();
    db.partitions.push(DatabasePartition {
        columns: vec![str_column("country", &["FR", "IT"]), int_column("age", &[None])],
        sequence_count: 1,
        sequence_stores: vec![],
    });
    assert_eq!(db.validate(), Err(LoadError::InvalidColumn { partition: 2, column: 0 }));
}

#[test]
fn partition_rejects_misaligned_or_mistyped_columns() {
    assert_eq!(
        DatabasePartition::new(2, vec![str_column("country", &["CH"])]).unwrap_err(),
        0
    );
    let bad = Column {
        name: s("age"),
        column_type: ColumnType::Int,
        values: vec![Value::Int(1), Value::Str(s("x"))],
    };
    assert_eq!(DatabasePartition::new(2, vec![int_column("a", &[None, None]), bad]).unwrap_err(), 1);
}

#[test]
fn sequence_names_by_alphabet() {
    let mut db = Database::new(config());
    db.nucleotide_sequences = vec![s("main"), s("other")];
    db.amino_acid_sequences = vec![s("S")];
    assert_eq!(db.get_sequence_names(Alphabet::Nucleotide), vec![s("main"), s("other")]);
    assert_eq!(db.get_sequence_names(Alphabet::AminoAcid), vec![s("S")]);
    assert_eq!(db.get_default_sequence_name(Alphabet::Nucleotide), Some(s("main")));
    assert_eq!(db.get_default_sequence_name(Alphabet::AminoAcid), None);
}

#[test]
fn metadata_lookup_by_name() {
    let c = config();
    let m = c.get_metadata(&s("age")).unwrap();
    assert_eq!(m.name, "age");
    assert_eq!(m.column_type, ColumnType::Int);
    assert!(c.get_metadata(&s("date")).is_none());
}

#[test]
fn database_info_adds_partition_totals() {
    let mut db = two_partition_database();
    let missing = OperatorResult::from_rows(&vec![0, 2]);
    let missing_size = missing.size_in_bytes() as u64;
    assert!(missing_size >= 8);
    db.partitions[0].sequence_stores.push(SequenceStore {
        name: s("main"),
        alphabet: Alphabet::Nucleotide,
        data_size: 100,
        missing_symbol_bitmaps: vec![missing],
    });
    db.partitions[1].sequence_stores.push(SequenceStore {
        name: s("main"),
        alphabet: Alphabet::Nucleotide,
        data_size: 20,
        missing_symbol_bitmaps: vec![],
    });
    db.partitions[1].sequence_stores.push(SequenceStore {
        name: s("S"),
        alphabet: Alphabet::AminoAcid,
        data_size: 7,
        missing_symbol_bitmaps: vec![OperatorResult::full(1)],
    });
    let info = db.get_database_info().unwrap();
    assert_eq!(
        info,
        DatabaseInfo {
            sequence_count: 4,
            total_size: 120 + missing_size,
            n_bitmaps_size: missing_size,
            number_of_partitions: 2,
        }
    );
    let empty = Database::new(config()).get_database_info().unwrap();
    assert_eq!(empty.sequence_count, 0);
    assert_eq!(empty.total_size, 0);
    assert_eq!(empty.number_of_partitions, 0);
}

fn ordered(group: &[&str], order: &[(&str, bool)]) -> Aggregated {
    let mut action = group_by(group);
    for (name, ascending) in order {
        action.order_by_fields.push(OrderByField { name: s(name), ascending: *ascending });
    }
    action
}

fn keys_and_counts(result: &QueryResult) -> Vec<(Vec<Value>, u64)> {
    result
        .entries
        .iter()
        .map(|e| (e.fields.iter().map(|f| f.1.clone()).collect(), e.count))
        .collect()
}

#[test]
fn rows_ordered_by_count_descending() {
    let db = two_partition_database();
    let engine = QueryEngine::new(&db);
    let query = Query { filter: Expression::True, action: ordered(&["country"], &[("count", false)]) };
    let result = engine.execute_query(&query).unwrap();
    assert_eq!(
        keys_and_counts(&result),
        vec![(vec![Value::Str(s("CH"))], 3), (vec![Value::Str(s("DE"))], 1)]
    );
    let query = Query { filter: Expression::True, action: ordered(&["country"], &[("count", true)]) };
    let result = engine.execute_query(&query).unwrap();
    assert_eq!(
        keys_and_counts(&result),
        vec![(vec![Value::Str(s("DE"))], 1), (vec![Value::Str(s("CH"))], 3)]
    );
}

#[test]
fn rows_ordered_by_fields_then_ties() {
    let db = two_partition_database();
    let engine = QueryEngine::new(&db);
    let query = Query {
        filter: Expression::True,
        action: ordered(&["country", "age"], &[("country", false), ("age", true)]),
    };
    let result = engine.execute_query(&query).unwrap();
    assert_eq!(
        keys_and_counts(&result),
        vec![
            (vec![Value::Str(s("DE")), Value::Int(50)], 1),
            (vec![Value::Str(s("CH")), Value::Null], 1),
            (vec![Value::Str(s("CH")), Value::Int(30)], 1),
            (vec![Value::Str(s("CH")), Value::Int(70)], 1),
        ]
    );
}

#[test]
fn strings_order_lexicographically() {
    let mut db = Database::new(config());
    db.partitions.push(partition(&["CHE", "CH", "AT", "B", "CH"], &[None, None, None, None, None]));
    let engine = QueryEngine::new(&db);
    let query = Query { filter: Expression::True, action: ordered(&["country"], &[("country", true)]) };
    let result = engine.execute_query(&query).unwrap();
    assert_eq!(
        keys_and_counts(&result),
        vec![
            (vec![Value::Str(s("AT"))], 1),
            (vec![Value::Str(s("B"))], 1),
            (vec![Value::Str(s("CH"))], 2),
            (vec![Value::Str(s("CHE"))], 1),
        ]
    );
}

#[test]
fn operator_text_describes_compiled_plan() {
    let db = two_partition_database();
    let p = &db.partitions[0];
    let filter = Expression::Or(
        Box::new(compare("age", Predicate::IntEquals(30))),
        Box::new(Expression::Not(Box::new(compare("country", Predicate::IsNull)))),
    );
    let first = filter.compile(p).unwrap().to_text();
    let second = filter.compile(p).unwrap().to_text();
    assert_eq!(first, "(Selection(1, = 30) | !Selection(0, is null))");
    assert_eq!(first, second);
    let filter = Expression::And(
        Box::new(compare("age", Predicate::IntBetween(None, Some(-5)))),
        Box::new(compare("country", Predicate::StringEquals(s("CH")))),
    );
    assert_eq!(
        filter.compile(p).unwrap().to_text(),
        "(Selection(1, in [*, -5]) & Selection(0, = 'CH'))"
    );
    assert_eq!(Operator::Full.to_text(), "Full");
    assert_eq!(Operator::Empty.to_text(), "Empty");
}

#[test]
fn predicate_text_renders_integers() {
    assert_eq!(Predicate::IntEquals(i64::MIN).to_text(), "= -9223372036854775808");
    assert_eq!(Predicate::IntEquals(0).to_text(), "= 0");
    assert_eq!(Predicate::IntBetween(Some(1200), None).to_text(), "in [1200, *]");
    assert_eq!(Predicate::IsNull.to_text(), "is null");
}

#[test]
fn validate_reports_stores_outside_partition_and_duplicate_names() {
    let mut db = two_partition_database();
    db.partitions[1].sequence_stores.push(SequenceStore {
        name: s("main"),
        alphabet: Alphabet::Nucleotide,
        data_size: 1,
        missing_symbol_bitmaps: vec![OperatorResult::empty(), OperatorResult::from_rows(&vec![0, 1])],
    });
    assert_eq!(db.validate(), Err(LoadError::InvalidSequenceStore { partition: 1, store: 0 }));
    db.partitions[1].sequence_stores[0].missing_symbol_bitmaps[1] = OperatorResult::full(1);
    assert_eq!(db.validate(), Ok(()));
    db.nucleotide_sequences = vec![s("main"), s("other"), s("main")];
    assert_eq!(db.validate(), Err(LoadError::DuplicateSequenceName(s("main"))));
    db.nucleotide_sequences = vec![s("main")];
    db.amino_acid_sequences = vec![s("S"), s("S")];
    assert_eq!(db.validate(), Err(LoadError::DuplicateSequenceName(s("S"))));
}

#[test]
fn unknown_group_by_error_names_first_unknown_field() {
    let db = two_partition_database();
    let action = group_by(&["country", "lineage", "date"]);
    assert_eq!(
        action.validate_order_by_fields(&db),
        Err(AggregationError::UnknownGroupByField(s("lineage")))
    );
    let result = action.execute(&db, vec![OperatorResult::full(3), OperatorResult::full(1)]);
    assert_eq!(result.unwrap_err(), AggregationError::UnknownGroupByField(s("lineage")));
}

#[test]
fn database_info_sums_bitmap_sizes_in_any_partition_order() {
    let make = |first: bool| {
        let mut db = two_partition_database();
        let a = SequenceStore {
            name: s("main"),
            alphabet: Alphabet::Nucleotide,
            data_size: 10,
            missing_symbol_bitmaps: vec![OperatorResult::full(3), OperatorResult::from_rows(&vec![1])],
        };
        db.partitions[0].sequence_stores.push(a);
        if !first {
            db.partitions.swap(0, 1);
        }
        db
    };
    let bitmaps = OperatorResult::full(3).size_in_bytes() as u64
        + OperatorResult::from_rows(&vec![1]).size_in_bytes() as u64;
    let info = make(true).get_database_info().unwrap();
    assert_eq!(info.n_bitmaps_size, bitmaps);
    assert_eq!(info.total_size, 10 + bitmaps);
    assert_eq!(info, make(false).get_database_info().unwrap());
}
