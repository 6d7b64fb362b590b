use vstd::prelude::*;
use crate::bitmap::{OperatorResult, row_range};
use crate::storage::{
    Column, ColumnType, DatabasePartition, Value, ValueModel, find_column, lookup_column,
};

verus! {

/// A condition on a single field value.
#[derive(Debug, Clone, PartialEq, Eq)]
pub enum Predicate {
    /// The value is the integer given.
    IntEquals(i64),
    /// The value is an integer within the bounds given (both inclusive; a
    /// missing bound does not restrict).
    IntBetween(Option<i64>, Option<i64>),
    /// The value is the string given.
    StringEquals(String),
    /// The value is null.
    IsNull,
}

/// Whether `predicate` holds of the value `v`.
pub open spec fn predicate_holds(predicate: Predicate, v: ValueModel) -> bool {
    match predicate {
        Predicate::IntEquals(x) => v == ValueModel::Int(x as int),
        Predicate::IntBetween(from, to) => match v {
            ValueModel::Int(i) => (from matches Some(f) ==> f <= i) && (to matches Some(t) ==> i
                <= t),
            _ => false,
        },
        Predicate::StringEquals(s) => v == ValueModel::Str(s@),
        Predicate::IsNull => v == ValueModel::Null,
    }
}

/// Whether `predicate` may be applied to a column of type `t`.
pub open spec fn predicate_accepts(predicate: Predicate, t: ColumnType) -> bool {
    match predicate {
        Predicate::IntEquals(_) => t == ColumnType::Int,
        Predicate::IntBetween(_, _) => t == ColumnType::Int,
        Predicate::StringEquals(_) => t == ColumnType::Str,
        Predicate::IsNull => true,
    }
}

fn predicate_accepts_type(predicate: &Predicate, t: ColumnType) -> (r: bool)
    ensures
        r == predicate_accepts(*predicate, t),
{
    match predicate {
        Predicate::IntEquals(_) => t == ColumnType::Int,
        Predicate::IntBetween(_, _) => t == ColumnType::Int,
        Predicate::StringEquals(_) => t == ColumnType::Str,
        Predicate::IsNull => true,
    }
}

fn predicate_matches(predicate: &Predicate, v: &Value) -> (r: bool)
    ensures
        r == predicate_holds(*predicate, v@),
{
    match (predicate, v) {
        (Predicate::IntEquals(x), Value::Int(i)) => *x == *i,
        (Predicate::IntBetween(from, to), Value::Int(i)) => {
            let above = match from {
                Some(f) => *f <= *i,
                None => true,
            };
            let below = match to {
                Some(t) => *i <= *t,
                None => true,
            };
            above && below
        },
        (Predicate::StringEquals(s), Value::Str(t)) => *s == *t,
        (Predicate::IsNull, Value::Null) => true,
        _ => false,
    }
}

fn copy_predicate(predicate: &Predicate) -> (r: Predicate)
    ensures
        r == *predicate,
{
    match predicate {
        Predicate::IntEquals(x) => Predicate::IntEquals(*x),
        Predicate::IntBetween(from, to) => Predicate::IntBetween(*from, *to),
        Predicate::StringEquals(s) => Predicate::StringEquals(s.clone()),
        Predicate::IsNull => Predicate::IsNull,
    }
}

/// A parsed filter expression, independent of any database.
#[derive(Debug)]
pub enum Expression {
    True,
    False,
    And(Box<Expression>, Box<Expression>),
    Or(Box<Expression>, Box<Expression>),
    Not(Box<Expression>),
    /// The named field satisfies the predicate.
    Compare { column: String, predicate: Predicate },
}

/// Why a filter could not be compiled against a partition.
#[derive(Debug, Clone, PartialEq, Eq)]
pub enum CompileError {
    /// No column of that name exists.
    UnknownField(String),
    /// The predicate does not apply to the column's type.
    TypeMismatch(String),
}

/// The physical form of a filter, bound to the columns of one partition.
#[derive(Debug, PartialEq, Eq)]
pub enum Operator {
    Full,
    Empty,
    /// The rows whose value in the column at that index satisfies the predicate.
    Selection { column: usize, predicate: Predicate },
    Intersection(Box<Operator>, Box<Operator>),
    Union(Box<Operator>, Box<Operator>),
    Complement(Box<Operator>),
}

/// Whether row `row` of partition `p` satisfies `e`.
pub open spec fn expression_holds(e: Expression, p: DatabasePartition, row: int) -> bool
    decreases e,
{
    match e {
        Expression::True => true,
        Expression::False => false,
        Expression::And(a, b) => expression_holds(*a, p, row) && expression_holds(*b, p, row),
        Expression::Or(a, b) => expression_holds(*a, p, row) || expression_holds(*b, p, row),
        Expression::Not(a) => !expression_holds(*a, p, row),
        Expression::Compare { column, predicate } => match lookup_column(p.columns@, column@) {
            Some(c) => predicate_holds(predicate, p.columns@[c as int].values@[row]@),
            None => false,
        },
    }
}

/// The rows of partition `p` that satisfy `e`.
pub open spec fn expression_rows(e: Expression, p: DatabasePartition) -> Set<u32> {
    Set::new(|r: u32| r < p.sequence_count && expression_holds(e, p, r as int))
}

/// What compiling `e` against the columns `columns` gives.
pub open spec fn compile_spec(e: Expression, columns: Seq<Column>) -> Result<Operator, CompileError>
    decreases e,
{
    match e {
        Expression::True => Ok(Operator::Full),
        Expression::False => Ok(Operator::Empty),
        Expression::And(a, b) => match compile_spec(*a, columns) {
            Err(err) => Err(err),
            Ok(x) => match compile_spec(*b, columns) {
                Err(err) => Err(err),
                Ok(y) => Ok(Operator::Intersection(Box::new(x), Box::new(y))),
            },
        },
        Expression::Or(a, b) => match compile_spec(*a, columns) {
            Err(err) => Err(err),
            Ok(x) => match compile_spec(*b, columns) {
                Err(err) => Err(err),
                Ok(y) => Ok(Operator::Union(Box::new(x), Box::new(y))),
            },
        },
        Expression::Not(a) => match compile_spec(*a, columns) {
            Err(err) => Err(err),
            Ok(x) => Ok(Operator::Complement(Box::new(x))),
        },
        Expression::Compare { column, predicate } => match lookup_column(columns, column@) {
            None => Err(CompileError::UnknownField(column)),
            Some(c) => if predicate_accepts(predicate, columns[c as int].column_type) {
                Ok(Operator::Selection { column: c as usize, predicate })
            } else {
                Err(CompileError::TypeMismatch(column))
            },
        },
    }
}

/// Whether every field that `e` names exists in `columns` with a type that its
/// predicate accepts.
pub open spec fn expression_resolves(e: Expression, columns: Seq<Column>) -> bool
    decreases e,
{
    match e {
        Expression::True => true,
        Expression::False => true,
        Expression::And(a, b) => expression_resolves(*a, columns) && expression_resolves(*b, columns),
        Expression::Or(a, b) => expression_resolves(*a, columns) && expression_resolves(*b, columns),
        Expression::Not(a) => expression_resolves(*a, columns),
        Expression::Compare { column, predicate } => match lookup_column(columns, column@) {
            None => false,
            Some(c) => predicate_accepts(predicate, columns[c as int].column_type),
        },
    }
}

/// Whether `op` only refers to columns that exist in partition `p`.
pub open spec fn operator_fits(op: Operator, p: DatabasePartition) -> bool
    decreases op,
{
    match op {
        Operator::Full => true,
        Operator::Empty => true,
        Operator::Selection { column, predicate } => column < p.columns@.len(),
        Operator::Intersection(a, b) => operator_fits(*a, p) && operator_fits(*b, p),
        Operator::Union(a, b) => operator_fits(*a, p) && operator_fits(*b, p),
        Operator::Complement(a) => operator_fits(*a, p),
    }
}

/// The rows of partition `p` that `op` selects.
pub open spec fn operator_rows(op: Operator, p: DatabasePartition) -> Set<u32>
    decreases op,
{
    match op {
        Operator::Full => row_range(p.sequence_count),
        Operator::Empty => Set::empty(),
        Operator::Selection { column, predicate } => Set::new(
            |r: u32|
                r < p.sequence_count && predicate_holds(
                    predicate,
                    p.columns@[column as int].values@[r as int]@,
                ),
        ),
        Operator::Intersection(a, b) => operator_rows(*a, p).intersect(operator_rows(*b, p)),
        Operator::Union(a, b) => operator_rows(*a, p).union(operator_rows(*b, p)),
        Operator::Complement(a) => row_range(p.sequence_count).difference(operator_rows(*a, p)),
    }
}

/// A compiled operator selects exactly the rows that satisfy its expression.
pub proof fn lemma_compile_sound(e: Expression, p: DatabasePartition)
    requires
        compile_spec(e, p.columns@) is Ok,
        p.columns@.len() <= usize::MAX,
    ensures
        operator_fits(compile_spec(e, p.columns@)->Ok_0, p),
        operator_rows(compile_spec(e, p.columns@)->Ok_0, p) == expression_rows(e, p),
    decreases e,
{
    match e {
        Expression::And(a, b) => {
            lemma_compile_sound(*a, p);
            lemma_compile_sound(*b, p);
            assert(operator_rows(compile_spec(e, p.columns@)->Ok_0, p) =~= expression_rows(e, p));
        },
        Expression::Or(a, b) => {
            lemma_compile_sound(*a, p);
            lemma_compile_sound(*b, p);
            assert(operator_rows(compile_spec(e, p.columns@)->Ok_0, p) =~= expression_rows(e, p));
        },
        Expression::Not(a) => {
            lemma_compile_sound(*a, p);
            assert(operator_rows(compile_spec(e, p.columns@)->Ok_0, p) =~= expression_rows(e, p));
        },
        Expression::Compare { column, predicate } => {
            crate::storage::lemma_lookup_column_bounds(p.columns@, column@);
            assert(operator_rows(compile_spec(e, p.columns@)->Ok_0, p) =~= expression_rows(e, p));
        },
        _ => {
            assert(operator_rows(compile_spec(e, p.columns@)->Ok_0, p) =~= expression_rows(e, p));
        },
    }
}

/// Compilation fails exactly when some field cannot be resolved.
proof fn lemma_compile_resolves(e: Expression, columns: Seq<Column>)
    ensures
        compile_spec(e, columns) is Ok <==> expression_resolves(e, columns),
    decreases e,
{
    match e {
        Expression::And(a, b) => {
            lemma_compile_resolves(*a, columns);
            lemma_compile_resolves(*b, columns);
        },
        Expression::Or(a, b) => {
            lemma_compile_resolves(*a, columns);
            lemma_compile_resolves(*b, columns);
        },
        Expression::Not(a) => {
            lemma_compile_resolves(*a, columns);
        },
        _ => {},
    }
}

impl Expression {
    /// Compiles the expression against the columns of `partition`, binding each
    /// field name to the index of its column.
    pub fn compile(&self, partition: &DatabasePartition) -> (r: Result<Operator, CompileError>)
        ensures
            r == compile_spec(*self, partition.columns@),
            r is Ok <==> expression_resolves(*self, partition.columns@),
            r matches Ok(op) ==> operator_fits(op, *partition) && operator_rows(op, *partition)
                == expression_rows(*self, *partition),
        decreases self,
    {
        let column_count = partition.columns.len();
        proof {
            lemma_compile_resolves(*self, partition.columns@);
            if compile_spec(*self, partition.columns@) is Ok {
                lemma_compile_sound(*self, *partition);
            }
        }
        match self {
            Expression::True => Ok(Operator::Full),
            Expression::False => Ok(Operator::Empty),
            Expression::And(a, b) => {
                let x = a.compile(partition)?;
                let y = b.compile(partition)?;
                Ok(Operator::Intersection(Box::new(x), Box::new(y)))
            },
            Expression::Or(a, b) => {
                let x = a.compile(partition)?;
                let y = b.compile(partition)?;
                Ok(Operator::Union(Box::new(x), Box::new(y)))
            },
            Expression::Not(a) => {
                let x = a.compile(partition)?;
                Ok(Operator::Complement(Box::new(x)))
            },
            Expression::Compare { column, predicate } => {
                match find_column(&partition.columns, column) {
                    None => Err(CompileError::UnknownField(column.clone())),
                    Some(c) => {
                        if predicate_accepts_type(predicate, partition.columns[c].column_type) {
                            Ok(Operator::Selection { column: c, predicate: copy_predicate(predicate) })
                        } else {
                            Err(CompileError::TypeMismatch(column.clone()))
                        }
                    },
                }
            },
        }
    }
}

impl Operator {
    /// Evaluates the operator on `partition`, giving the rows it selects.
    pub fn evaluate(&self, partition: &DatabasePartition) -> (r: OperatorResult)
        requires
            partition.wf(),
            operator_fits(*self, *partition),
        ensures
            r@ == operator_rows(*self, *partition),
            r@.subset_of(row_range(partition.sequence_count)),
        decreases self,
    {
        proof {
            lemma_operator_rows_in_range(*self, *partition);
        }
        match self {
            Operator::Full => OperatorResult::full(partition.sequence_count),
            Operator::Empty => OperatorResult::empty(),
            Operator::Selection { column, predicate } => {
                select_rows(&partition.columns[*column], predicate, partition.sequence_count)
            },
            Operator::Intersection(a, b) => {
                let x = a.evaluate(partition);
                let y = b.evaluate(partition);
                x.and(&y)
            },
            Operator::Union(a, b) => {
                let x = a.evaluate(partition);
                let y = b.evaluate(partition);
                x.or(&y)
            },
            Operator::Complement(a) => {
                let x = a.evaluate(partition);
                x.not(partition.sequence_count)
            },
        }
    }
}

/// The rows an operator selects lie within its partition.
pub proof fn lemma_operator_rows_in_range(op: Operator, p: DatabasePartition)
    ensures
        operator_rows(op, p).subset_of(row_range(p.sequence_count)),
    decreases op,
{
    match op {
        Operator::Intersection(a, b) => {
            lemma_operator_rows_in_range(*a, p);
            lemma_operator_rows_in_range(*b, p);
        },
        Operator::Union(a, b) => {
            lemma_operator_rows_in_range(*a, p);
            lemma_operator_rows_in_range(*b, p);
        },
        Operator::Complement(a) => {
            lemma_operator_rows_in_range(*a, p);
        },
        _ => {},
    }
}

/// The rows `r < row_count` whose value in `column` satisfies `predicate`.
fn select_rows(column: &Column, predicate: &Predicate, row_count: u32) -> (r: OperatorResult)
    requires
        column.wf(row_count as nat),
    ensures
        r@ == Set::new(
            |x: u32| x < row_count && predicate_holds(*predicate, column.values@[x as int]@),
        ),
{
    let mut result = OperatorResult::empty();
    let mut row: u32 = 0;
    while row < row_count
        invariant
            row <= row_count,
            column.values@.len() == row_count,
            result@ == Set::new(
                |x: u32| x < row && predicate_holds(*predicate, column.values@[x as int]@),
            ),
        decreases row_count - row,
    {
        if predicate_matches(predicate, &column.values[row as usize]) {
            result.insert(row);
        }
        row = row + 1;
        assert(result@ =~= Set::new(
            |x: u32| x < row && predicate_holds(*predicate, column.values@[x as int]@),
        ));
    }
    result
}

/// Evaluating the same compiled operator twice on the same partition selects
/// the same rows, and so the same number of rows.
pub proof fn lemma_evaluate_idempotent(
    op: Operator,
    p: DatabasePartition,
    first: OperatorResult,
    second: OperatorResult,
)
    requires
        first@ == operator_rows(op, p),
        second@ == operator_rows(op, p),
    ensures
        first@ == second@,
        first@.len() == second@.len(),
{
}

/// The decimal digits of `n`.
pub open spec fn decimal(n: nat) -> Seq<char>
    decreases n,
{
    let digit = seq!['0', '1', '2', '3', '4', '5', '6', '7', '8', '9'][(n % 10) as int];
    if n < 10 {
        seq![digit]
    } else {
        decimal(n / 10).push(digit)
    }
}

/// An integer in decimal, with a leading `-` when negative.
pub open spec fn int_text(i: int) -> Seq<char> {
    if i < 0 {
        seq!['-'] + decimal((-i) as nat)
    } else {
        decimal(i as nat)
    }
}

/// A bound of a range predicate; `*` when absent.
pub open spec fn bound_text(b: Option<i64>) -> Seq<char> {
    match b {
        Some(x) => int_text(x as int),
        None => seq!['*'],
    }
}

/// The textual form of a predicate.
pub open spec fn predicate_text(p: Predicate) -> Seq<char> {
    match p {
        Predicate::IntEquals(x) => "= "@ + int_text(x as int),
        Predicate::IntBetween(from, to) => "in ["@ + bound_text(from) + ", "@ + bound_text(to)
            + "]"@,
        Predicate::StringEquals(v) => "= '"@ + v@ + "'"@,
        Predicate::IsNull => "is null"@,
    }
}

/// The textual form of a compiled operator.
pub open spec fn operator_text(op: Operator) -> Seq<char>
    decreases op,
{
    match op {
        Operator::Full => "Full"@,
        Operator::Empty => "Empty"@,
        Operator::Selection { column, predicate } => "Selection("@ + decimal(column as nat) + ", "@
            + predicate_text(predicate) + ")"@,
        Operator::Intersection(a, b) => "("@ + operator_text(*a) + " & "@ + operator_text(*b)
            + ")"@,
        Operator::Union(a, b) => "("@ + operator_text(*a) + " | "@ + operator_text(*b) + ")"@,
        Operator::Complement(a) => "!"@ + operator_text(*a),
    }
}

fn append_decimal(out: &mut String, n: u64)
    ensures
        final(out)@ == old(out)@ + decimal(n as nat),
    decreases n,
{
    if n >= 10 {
        append_decimal(out, n / 10);
    }
    let digits = "0123456789";
    proof {
        reveal_strlit("0123456789");
    }
    let d = (n % 10) as usize;
    out.append(digits.substring_char(d, d + 1));
    proof {
        assert(digits@.subrange(d as int, d + 1) =~= seq![seq!['0', '1', '2', '3', '4', '5', '6', '7', '8', '9'][d as int]]);
    }
}

fn append_int(out: &mut String, i: i64)
    ensures
        final(out)@ == old(out)@ + int_text(i as int),
{
    if i < 0 {
        out.append("-");
        proof {
            reveal_strlit("-");
        }
        let m = (-(i as i128)) as u64;
        let ghost before = out@;
        append_decimal(out, m);
        assert(out@ =~= old(out)@ + int_text(i as int));
    } else {
        append_decimal(out, i as u64);
    }
}

fn append_bound(out: &mut String, b: Option<i64>)
    ensures
        final(out)@ == old(out)@ + bound_text(b),
{
    match b {
        Some(x) => append_int(out, x),
        None => {
            out.append("*");
            proof {
                reveal_strlit("*");
            }
            assert(out@ =~= old(out)@ + bound_text(b));
        },
    }
}

impl Predicate {
    /// The textual form of the predicate.
    pub fn to_text(&self) -> (r: String)
        ensures
            r@ == predicate_text(*self),
    {
        let mut out = String::new();
        match self {
            Predicate::IntEquals(x) => {
                out.append("= ");
                append_int(&mut out, *x);
            },
            Predicate::IntBetween(from, to) => {
                out.append("in [");
                append_bound(&mut out, *from);
                out.append(", ");
                append_bound(&mut out, *to);
                out.append("]");
            },
            Predicate::StringEquals(v) => {
                out.append("= '");
                out.append(v.as_str());
                out.append("'");
            },
            Predicate::IsNull => {
                out.append("is null");
            },
        }
        assert(out@ =~= predicate_text(*self));
        out
    }
}

impl Operator {
    /// The textual form of the operator.
    pub fn to_text(&self) -> (r: String)
        ensures
            r@ == operator_text(*self),
        decreases self,
    {
        let mut out = String::new();
        match self {
            Operator::Full => out.append("Full"),
            Operator::Empty => out.append("Empty"),
            Operator::Selection { column, predicate } => {
                out.append("Selection(");
                append_decimal(&mut out, *column as u64);
                out.append(", ");
                let p = predicate.to_text();
                out.append(p.as_str());
                out.append(")");
            },
            Operator::Intersection(a, b) => {
                out.append("(");
                let x = a.to_text();
                out.append(x.as_str());
                out.append(" & ");
                let y = b.to_text();
                out.append(y.as_str());
                out.append(")");
            },
            Operator::Union(a, b) => {
                out.append("(");
                let x = a.to_text();
                out.append(x.as_str());
                out.append(" | ");
                let y = b.to_text();
                out.append(y.as_str());
                out.append(")");
            },
            Operator::Complement(a) => {
                out.append("!");
                let x = a.to_text();
                out.append(x.as_str());
            },
        }
        assert(out@ =~= operator_text(*self));
        out
    }
}

/// Compiling the same filter against the same partition twice gives operators
/// with the same textual form.
pub proof fn lemma_compile_deterministic(
    e: Expression,
    p: DatabasePartition,
    first: Operator,
    second: Operator,
)
    requires
        compile_spec(e, p.columns@) == Ok::<Operator, CompileError>(first),
        compile_spec(e, p.columns@) == Ok::<Operator, CompileError>(second),
    ensures
        first == second,
        operator_text(first) == operator_text(second),
{
}

} // verus!
