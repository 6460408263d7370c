//! The data model shared by the storage engine and the executor: literal
//! values, column definitions, and the statement and expression trees that a
//! SQL front-end hands to the engine.

use vstd::prelude::*;
use vstd::std_specs::cmp::PartialEqSpecImpl;

verus! {

/// Declared type of a column. Informational only: nothing enforces it.
#[derive(Clone, Copy, Debug, PartialEq, Eq, Structural)]
pub enum ColumnType {
    Integer,
    Text,
}

/// What a column definition can ask of its column.
#[derive(Clone, Copy, Debug, PartialEq, Eq, Structural)]
pub enum ColumnConstraint {
    PrimaryKey,
}

/// The operators that take two operands.
#[derive(Clone, Copy, Debug, PartialEq, Eq, Structural)]
pub enum BinaryOperator {
    Equals,
}

/// A stored or literal value.
///
/// `Real` holds the IEEE 754 binary64 bit pattern of the number (what
/// `f64::to_bits` returns), so that the engine itself never does floating
/// point arithmetic; comparison of two reals is nevertheless the IEEE one,
/// see [`real_equal`].
#[derive(Debug)]
pub enum LiteralValue {
    Integer(i64),
    Text(String),
    Real(u64),
    Null,
}

/// Mathematical content of a [`LiteralValue`].
pub enum Value {
    Integer(i64),
    Text(Seq<char>),
    Real(u64),
    Null,
}

impl View for LiteralValue {
    type V = Value;

    open spec fn view(&self) -> Value {
        match *self {
            LiteralValue::Integer(i) => Value::Integer(i),
            LiteralValue::Text(s) => Value::Text(s@),
            LiteralValue::Real(bits) => Value::Real(bits),
            LiteralValue::Null => Value::Null,
        }
    }
}

/// Mask that clears the sign bit of a binary64 bit pattern.
pub const REAL_MAGNITUDE_MASK: u64 = 0x7fff_ffff_ffff_ffff;

/// Magnitude of the infinities; every larger magnitude is a NaN.
pub const REAL_INFINITY_BITS: u64 = 0x7ff0_0000_0000_0000;

/// The bit pattern encodes a NaN: all exponent bits set, fraction non-zero.
pub open spec fn real_is_nan(bits: u64) -> bool {
    (bits & REAL_MAGNITUDE_MASK) > REAL_INFINITY_BITS
}

/// The bit pattern encodes `+0.0` or `-0.0`.
pub open spec fn real_is_zero(bits: u64) -> bool {
    (bits & REAL_MAGNITUDE_MASK) == 0
}

/// IEEE 754 equality of two binary64 numbers, stated on their bit patterns:
/// a NaN equals nothing, not even itself; the two zeros equal each other;
/// every other number equals exactly the number with the same bits.
pub open spec fn real_equal(a: u64, b: u64) -> bool {
    &&& !real_is_nan(a)
    &&& !real_is_nan(b)
    &&& (a == b || (real_is_zero(a) && real_is_zero(b)))
}

/// Equality of values as the `Equals` operator and `==` compute it.
///
/// It is structural and sensitive to the tag: values of different tags are
/// never equal (`Integer(1)` differs from `Real(1.0)`). `Null` takes part like
/// any other value, so `Null` equals `Null`; there is no three-valued logic.
pub open spec fn values_equal(a: Value, b: Value) -> bool {
    match (a, b) {
        (Value::Integer(x), Value::Integer(y)) => x == y,
        (Value::Text(x), Value::Text(y)) => x == y,
        (Value::Real(x), Value::Real(y)) => real_equal(x, y),
        (Value::Null, Value::Null) => true,
        _ => false,
    }
}

/// Content of a row: the view of each cell, in order.
pub open spec fn row_view(row: Seq<LiteralValue>) -> Seq<Value> {
    row.map_values(|v: LiteralValue| v@)
}

fn real_bits_equal(a: u64, b: u64) -> (r: bool)
    ensures
        r == real_equal(a, b),
{
    let ma: u64 = a & REAL_MAGNITUDE_MASK;
    let mb: u64 = b & REAL_MAGNITUDE_MASK;
    ma <= REAL_INFINITY_BITS && mb <= REAL_INFINITY_BITS && (a == b || (ma == 0 && mb == 0))
}

impl PartialEq for LiteralValue {
    fn eq(&self, other: &LiteralValue) -> (r: bool) {
        match (self, other) {
            (LiteralValue::Integer(x), LiteralValue::Integer(y)) => *x == *y,
            (LiteralValue::Text(x), LiteralValue::Text(y)) => *x == *y,
            (LiteralValue::Real(x), LiteralValue::Real(y)) => real_bits_equal(*x, *y),
            (LiteralValue::Null, LiteralValue::Null) => true,
            _ => false,
        }
    }
}

impl PartialEqSpecImpl for LiteralValue {
    open spec fn obeys_eq_spec() -> bool {
        true
    }

    open spec fn eq_spec(&self, other: &LiteralValue) -> bool {
        values_equal(self@, other@)
    }
}

impl Clone for LiteralValue {
    fn clone(&self) -> (r: LiteralValue)
        ensures
            r@ == self@,
    {
        match self {
            LiteralValue::Integer(i) => LiteralValue::Integer(*i),
            LiteralValue::Text(s) => LiteralValue::Text(s.clone()),
            LiteralValue::Real(bits) => LiteralValue::Real(*bits),
            LiteralValue::Null => LiteralValue::Null,
        }
    }
}

impl LiteralValue {
    /// Whether the value is `Null`.
    pub fn is_null(&self) -> (r: bool)
        ensures
            r == (self@ is Null),
    {
        match self {
            LiteralValue::Null => true,
            _ => false,
        }
    }
}

/// One column of a table header.
#[derive(Debug)]
pub struct ColumnDef {
    pub name: String,
    pub column_type: Option<ColumnType>,
    pub column_constraints: Vec<ColumnConstraint>,
}

/// Mathematical content of a [`ColumnDef`].
pub struct ColumnSpec {
    pub name: Seq<char>,
    pub column_type: Option<ColumnType>,
    pub constraints: Seq<ColumnConstraint>,
}

impl View for ColumnDef {
    type V = ColumnSpec;

    open spec fn view(&self) -> ColumnSpec {
        ColumnSpec {
            name: self.name@,
            column_type: self.column_type,
            constraints: self.column_constraints@,
        }
    }
}

impl Clone for ColumnDef {
    fn clone(&self) -> (r: ColumnDef)
        ensures
            r@ == self@,
    {
        let mut constraints: Vec<ColumnConstraint> = Vec::new();
        let mut i: usize = 0;
        while i < self.column_constraints.len()
            invariant
                i <= self.column_constraints@.len(),
                constraints@ == self.column_constraints@.subrange(0, i as int),
            decreases self.column_constraints@.len() - i,
        {
            constraints.push(self.column_constraints[i]);
            i += 1;
        }
        assert(constraints@ == self.column_constraints@);
        ColumnDef {
            name: self.name.clone(),
            column_type: self.column_type,
            column_constraints: constraints,
        }
    }
}

/// Content of a header: the view of each column definition, in order.
pub open spec fn header_view(header: Seq<ColumnDef>) -> Seq<ColumnSpec> {
    header.map_values(|c: ColumnDef| c@)
}

/// `CREATE TABLE`: the name, the columns in order, and whether an existing
/// table of that name is to be left alone.
#[derive(Debug)]
pub struct TableDef {
    pub table_name: String,
    pub columns: Vec<ColumnDef>,
    pub if_not_exists: bool,
}

/// An expression: a literal, the name of a column, or an operator applied
/// to two expressions.
#[derive(Debug)]
pub enum Expression {
    LiteralValue(LiteralValue),
    ColumnName(String),
    BinaryOperator((BinaryOperator, Box<Expression>, Box<Expression>)),
}

/// What a `SELECT` projects: every input column, or a list of expressions.
#[derive(Debug)]
pub enum ResultColumn {
    Asterisk,
    Expressions(Vec<Expression>),
}

/// `SELECT`: `table_or_subquery` is `None` where the statement has no `FROM`
/// clause; the input is then a single row without columns.
#[derive(Debug)]
pub struct SelectDef {
    pub result_column: ResultColumn,
    pub table_or_subquery: Option<Vec<String>>,
    pub where_expr: Option<Expression>,
}

/// Where the rows of an `INSERT` come from. `DefaultValues` and `Error` are
/// accepted and insert nothing.
#[derive(Debug)]
pub enum InsertDataSource {
    Values(Vec<Vec<LiteralValue>>),
    Select(SelectDef),
    DefaultValues,
    Error,
}

/// `INSERT`: the table, the columns that the values are for (every column,
/// in header order, where none is named), and the rows.
#[derive(Debug)]
pub struct InsertDef {
    pub table_name: String,
    pub column_names: Option<Vec<String>>,
    pub data_source: InsertDataSource,
}

/// `DROP TABLE`.
#[derive(Debug)]
pub struct DropTableDef {
    pub name: String,
}

/// What an `ALTER TABLE` does to its table.
#[derive(Debug)]
pub enum AlterTable {
    RenameTo(String),
    AddColumn(ColumnDef),
}

/// `ALTER TABLE`.
#[derive(Debug)]
pub struct AlterTableDef {
    pub name: String,
    pub mode: AlterTable,
}

/// `DELETE`: without a `WHERE` expression every row goes.
#[derive(Debug)]
pub struct DeleteDef {
    pub name: String,
    pub where_expr: Option<Expression>,
}

/// `UPDATE`: the assignments, column name and expression, in the order in
/// which they are applied to each row.
#[derive(Debug)]
pub struct UpdateDef {
    pub name: String,
    pub set: Vec<(String, Expression)>,
    pub where_expr: Option<Expression>,
}

/// One statement.
#[derive(Debug)]
pub enum RusqlStatement {
    AlterTable(AlterTableDef),
    CreateTable(TableDef),
    Delete(DeleteDef),
    DropTable(DropTableDef),
    Insert(InsertDef),
    Select(SelectDef),
    Update(UpdateDef),
}

} // verus!
