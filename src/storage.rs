use vstd::prelude::*;

verus! {

/// One field value of a row.
#[derive(Debug, Clone, PartialEq, Eq)]
pub enum Value {
    Null,
    Int(i64),
    Str(String),
}

/// The mathematical value of a field.
pub ghost enum ValueModel {
    Null,
    Int(int),
    Str(Seq<char>),
}

impl View for Value {
    type V = ValueModel;

    open spec fn view(&self) -> ValueModel {
        match self {
            Value::Null => ValueModel::Null,
            Value::Int(i) => ValueModel::Int(*i as int),
            Value::Str(s) => ValueModel::Str(s@),
        }
    }
}

impl Value {
    /// Structural equality of two values.
    pub fn equals(&self, other: &Value) -> (r: bool)
        ensures
            r == (self@ == other@),
    {
        match (self, other) {
            (Value::Null, Value::Null) => true,
            (Value::Int(a), Value::Int(b)) => *a == *b,
            (Value::Str(a), Value::Str(b)) => *a == *b,
            _ => false,
        }
    }

    /// A copy of the value.
    pub fn copy(&self) -> (r: Value)
        ensures
            r@ == self@,
    {
        match self {
            Value::Null => Value::Null,
            Value::Int(i) => Value::Int(*i),
            Value::Str(s) => Value::Str(s.clone()),
        }
    }
}

/// The type of a column.
#[derive(Debug, Clone, Copy, PartialEq, Eq, Structural)]
pub enum ColumnType {
    Int,
    Str,
}

/// Whether `v` may be stored in a column of type `t` (null fits every type).
pub open spec fn value_fits(v: ValueModel, t: ColumnType) -> bool {
    match v {
        ValueModel::Null => true,
        ValueModel::Int(_) => t == ColumnType::Int,
        ValueModel::Str(_) => t == ColumnType::Str,
    }
}

/// A named column of one partition: one value per row.
#[derive(Debug, Clone)]
pub struct Column {
    pub name: String,
    pub column_type: ColumnType,
    pub values: Vec<Value>,
}

impl Column {
    /// Every value has the column's type and there is one per row.
    pub open spec fn wf(&self, row_count: nat) -> bool {
        &&& self.values@.len() == row_count
        &&& forall|r: int| 0 <= r < self.values@.len() ==> value_fits(
            #[trigger] self.values@[r]@,
            self.column_type,
        )
    }
}

/// The index of the first column named `name`, if any.
pub open spec fn lookup_column(columns: Seq<Column>, name: Seq<char>) -> Option<nat>
    decreases columns.len(),
{
    if columns.len() == 0 {
        None
    } else {
        match lookup_column(columns.drop_last(), name) {
            Some(i) => Some(i),
            None => if columns.last().name@ == name {
                Some((columns.len() - 1) as nat)
            } else {
                None
            },
        }
    }
}

pub(crate) proof fn lemma_lookup_column_bounds(columns: Seq<Column>, name: Seq<char>)
    ensures
        lookup_column(columns, name) matches Some(i) ==> i < columns.len() && columns[i as int].name@
            == name,
        lookup_column(columns, name) is None ==> forall|j: int|
            0 <= j < columns.len() ==> columns[j].name@ != name,
    decreases columns.len(),
{
    if columns.len() > 0 {
        lemma_lookup_column_bounds(columns.drop_last(), name);
        assert forall|j: int| 0 <= j < columns.len() - 1 implies columns.drop_last()[j] == columns[j] by {}
    }
}

/// Finds the first column named `name`.
pub fn find_column(columns: &Vec<Column>, name: &String) -> (r: Option<usize>)
    ensures
        r matches Some(i) ==> lookup_column(columns@, name@) == Some(i as nat),
        r is None ==> lookup_column(columns@, name@) is None,
        r matches Some(i) ==> i < columns@.len() && columns@[i as int].name@ == name@,
{
    let mut i: usize = 0;
    while i < columns.len()
        invariant
            i <= columns@.len(),
            lookup_column(columns@.take(i as int), name@) is None,
        decreases columns@.len() - i,
    {
        assert(columns@.take(i + 1).drop_last() == columns@.take(i as int));
        if columns[i].name == *name {
            proof {
                lemma_lookup_prefix(columns@, name@, i + 1);
            }
            return Some(i);
        }
        i = i + 1;
    }
    assert(columns@.take(i as int) == columns@);
    None
}

/// A match in a prefix of the columns is the match in all of them.
proof fn lemma_lookup_prefix(columns: Seq<Column>, name: Seq<char>, n: int)
    requires
        0 <= n <= columns.len(),
        lookup_column(columns.take(n), name) is Some,
    ensures
        lookup_column(columns, name) == lookup_column(columns.take(n), name),
    decreases columns.len(),
{
    if n < columns.len() {
        assert(columns.drop_last().take(n) == columns.take(n));
        lemma_lookup_prefix(columns.drop_last(), name, n);
    } else {
        assert(columns.take(n) == columns);
    }
}

/// The name and type under which a field is known to the database.
#[derive(Debug, Clone)]
pub struct ColumnMetadata {
    pub name: String,
    pub column_type: ColumnType,
}

/// The alphabet of a sequence store.
#[derive(Debug, Clone, Copy, PartialEq, Eq, Structural)]
pub enum Alphabet {
    Nucleotide,
    AminoAcid,
}

/// The in-memory footprint of one sequence store of a partition: the size of
/// its compressed symbol data, and per alphabet symbol the rows at which the
/// symbol is not definite.
#[derive(Debug)]
pub struct SequenceStore {
    pub name: String,
    pub alphabet: Alphabet,
    pub data_size: u64,
    pub missing_symbol_bitmaps: Vec<crate::bitmap::OperatorResult>,
}

/// One shard of the database: its columns, all aligned to the row indices
/// `0..sequence_count`, and its sequence stores.
#[derive(Debug)]
pub struct DatabasePartition {
    pub columns: Vec<Column>,
    pub sequence_count: u32,
    pub sequence_stores: Vec<SequenceStore>,
}

impl DatabasePartition {
    /// Every column holds one value of its type per row.
    pub open spec fn wf(&self) -> bool {
        forall|c: int|
            0 <= c < self.columns@.len() ==> (#[trigger] self.columns@[c]).wf(
                self.sequence_count as nat,
            )
    }

    /// Builds a partition, checking that every column holds one value of its
    /// type per row.
    pub fn new(sequence_count: u32, columns: Vec<Column>) -> (r: Result<DatabasePartition, usize>)
        ensures
            r matches Ok(p) ==> p.wf() && p.columns == columns && p.sequence_count
                == sequence_count && p.sequence_stores@.len() == 0,
            r matches Err(c) ==> c < columns@.len() && !columns@[c as int].wf(
                sequence_count as nat,
            ),
            r is Ok <==> forall|c: int|
                0 <= c < columns@.len() ==> (#[trigger] columns@[c]).wf(sequence_count as nat),
    {
        let mut c: usize = 0;
        while c < columns.len()
            invariant
                c <= columns@.len(),
                forall|k: int| 0 <= k < c ==> (#[trigger] columns@[k]).wf(sequence_count as nat),
            decreases columns@.len() - c,
        {
            if !column_is_valid(&columns[c], sequence_count) {
                return Err(c);
            }
            c = c + 1;
        }
        Ok(DatabasePartition { columns, sequence_count, sequence_stores: Vec::new() })
    }
}

/// Checks that `column` holds one value of its type for each of `row_count` rows.
pub fn column_is_valid(column: &Column, row_count: u32) -> (r: bool)
    ensures
        r == column.wf(row_count as nat),
{
    if column.values.len() != row_count as usize {
        return false;
    }
    let mut r: usize = 0;
    while r < column.values.len()
        invariant
            r <= column.values@.len(),
            forall|k: int|
                0 <= k < r ==> value_fits(#[trigger] column.values@[k]@, column.column_type),
        decreases column.values@.len() - r,
    {
        let fits = match &column.values[r] {
            Value::Null => true,
            Value::Int(_) => column.column_type == ColumnType::Int,
            Value::Str(_) => column.column_type == ColumnType::Str,
        };
        if !fits {
            assert(!value_fits(column.values@[r as int]@, column.column_type));
            return false;
        }
        r = r + 1;
    }
    true
}

} // verus!
