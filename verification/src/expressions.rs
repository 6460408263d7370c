//! Evaluation of an expression against one row.

use vstd::prelude::*;
use crate::definitions::{
    header_view, row_view, values_equal, BinaryOperator, ColumnDef, ColumnSpec, Expression,
    LiteralValue, Value,
};
use crate::error::Error;
use crate::table::{
    column_index, find_column, has_column, lemma_column_index, lemma_column_index_some, Table,
    TableHeader, TableRow,
};

verus! {

/// What an expression evaluates to.
#[derive(Debug)]
pub enum ExpressionResult {
    Value(LiteralValue),
    ColumnDef(ColumnDef),
    Boolean(bool),
}

/// Mathematical content of an [`ExpressionResult`].
pub enum Outcome {
    Value(Value),
    ColumnDef(ColumnSpec),
    Boolean(bool),
}

impl View for ExpressionResult {
    type V = Outcome;

    open spec fn view(&self) -> Outcome {
        match *self {
            ExpressionResult::Value(v) => Outcome::Value(v@),
            ExpressionResult::ColumnDef(def) => Outcome::ColumnDef(def@),
            ExpressionResult::Boolean(b) => Outcome::Boolean(b),
        }
    }
}

/// The header of a joined row: the headers of the joined tables, one after
/// the other.
pub open spec fn joined_header(headers: Seq<Seq<ColumnSpec>>) -> Seq<ColumnSpec>
    decreases headers.len(),
{
    if headers.len() == 0 {
        Seq::empty()
    } else {
        joined_header(headers.drop_last()) + headers.last()
    }
}

/// The headers of a list of tables.
pub open spec fn table_headers(tables: Seq<&Table>) -> Seq<Seq<ColumnSpec>> {
    tables.map_values(|t: &Table| t@.header)
}

/// The result of a binary operator on two values.
pub open spec fn apply_operator(op: BinaryOperator, left: Value, right: Value) -> bool {
    match op {
        BinaryOperator::Equals => values_equal(left, right),
    }
}

/// The value of `expr` on `row`, whose columns `header` names.
///
/// A literal is its value. A column name is the cell of the first column
/// of that name. A comparison takes the values of its two operands, the
/// left one first, and is a boolean; an operand that is itself a comparison
/// is refused.
pub open spec fn eval(expr: Expression, row: Seq<Value>, header: Seq<ColumnSpec>) -> Result<
    Outcome,
    Error,
>
    decreases expr,
{
    match expr {
        Expression::LiteralValue(v) => Ok(Outcome::Value(v@)),
        Expression::ColumnName(name) => match column_index(header, name@) {
            Some(i) => if i < row.len() {
                Ok(Outcome::Value(row[i]))
            } else {
                Err(Error::SchemaWidthMismatch)
            },
            None => Err(Error::UnknownColumn),
        },
        Expression::BinaryOperator((op, left, right)) => match eval(*left, row, header) {
            Ok(Outcome::Value(a)) => match eval(*right, row, header) {
                Ok(Outcome::Value(b)) => Ok(Outcome::Boolean(apply_operator(op, a, b))),
                Ok(_) => Err(Error::NotAValue),
                Err(e) => Err(e),
            },
            Ok(_) => Err(Error::NotAValue),
            Err(e) => Err(e),
        },
    }
}

/// What `expr` says of the output column that it makes: a column name
/// hands on the definition of the column that it names; for anything else
/// this is the value of the expression.
pub open spec fn eval_column_def(expr: Expression, row: Seq<Value>, header: Seq<ColumnSpec>) -> Result<
    Outcome,
    Error,
> {
    match expr {
        Expression::ColumnName(name) => match column_index(header, name@) {
            Some(i) => Ok(Outcome::ColumnDef(header[i])),
            None => Err(Error::UnknownColumn),
        },
        _ => eval(expr, row, header),
    }
}

/// The truth of `expr` on `row`: the boolean that it evaluates to, and
/// `false` where it evaluates to a value.
pub open spec fn eval_bool(expr: Expression, row: Seq<Value>, header: Seq<ColumnSpec>) -> Result<
    bool,
    Error,
> {
    match eval(expr, row, header) {
        Ok(Outcome::Boolean(b)) => Ok(b),
        Ok(_) => Ok(false),
        Err(e) => Err(e),
    }
}

/// The value of `expr` on `row`, where it has one.
pub open spec fn eval_value(expr: Expression, row: Seq<Value>, header: Seq<ColumnSpec>) -> Result<
    Value,
    Error,
> {
    match eval(expr, row, header) {
        Ok(Outcome::Value(v)) => Ok(v),
        Ok(_) => Err(Error::NotAValue),
        Err(e) => Err(e),
    }
}

/// The headers of the first tables of a join are the front of the joined
/// header.
pub proof fn lemma_joined_header_prefix(headers: Seq<Seq<ColumnSpec>>, n: int)
    requires
        0 <= n <= headers.len(),
    ensures
        joined_header(headers.take(n)).len() <= joined_header(headers).len(),
        joined_header(headers.take(n)) == joined_header(headers).take(
            joined_header(headers.take(n)).len() as int,
        ),
    decreases headers.len() - n,
{
    if n == headers.len() {
        assert(headers.take(n) =~= headers);
        assert(joined_header(headers) =~= joined_header(headers).take(
            joined_header(headers).len() as int,
        ));
    } else {
        lemma_joined_header_prefix(headers, n + 1);
        assert(headers.take(n + 1).drop_last() =~= headers.take(n));
        let shorter = joined_header(headers.take(n));
        let longer = joined_header(headers.take(n + 1));
        assert(longer == shorter + headers[n]);
        assert(shorter =~= joined_header(headers).take(shorter.len() as int));
    }
}

/// Evaluates expressions against one row.
///
/// Column names are looked up in the header given to [`ExpressionEvaluator::new`],
/// or, after [`ExpressionEvaluator::with_tables`], in the headers of those
/// tables, one after the other.
pub struct ExpressionEvaluator<'a> {
    row: &'a TableRow,
    head: &'a TableHeader,
    tables: Option<&'a Vec<&'a Table>>,
    get_column_def: bool,
}

impl<'a> ExpressionEvaluator<'a> {
    /// The row that expressions are evaluated on.
    pub closed spec fn row(&self) -> Seq<Value> {
        row_view(self.row@)
    }

    /// The header in which column names are looked up.
    pub closed spec fn scope(&self) -> Seq<ColumnSpec> {
        match self.tables {
            Some(tables) => joined_header(table_headers(tables@)),
            None => header_view(self.head@),
        }
    }

    /// Whether a column name evaluates to the column's definition.
    pub closed spec fn column_def_mode(&self) -> bool {
        self.get_column_def
    }

    /// An evaluator for `row`, whose columns `head` names.
    pub fn new(row: &'a TableRow, head: &'a TableHeader) -> (evaluator: ExpressionEvaluator<'a>)
        ensures
            evaluator.row() == row_view(row@),
            evaluator.scope() == header_view(head@),
            !evaluator.column_def_mode(),
    {
        ExpressionEvaluator { row: row, head: head, tables: None, get_column_def: false }
    }

    /// Looks column names up in the headers of `tables`, taken one after
    /// the other, as a row of their join has them.
    pub fn with_tables(self, tables: &'a Vec<&'a Table>) -> (evaluator: ExpressionEvaluator<'a>)
        ensures
            evaluator.row() == self.row(),
            evaluator.scope() == joined_header(table_headers(tables@)),
            evaluator.column_def_mode() == self.column_def_mode(),
    {
        ExpressionEvaluator {
            row: self.row,
            head: self.head,
            tables: Some(tables),
            get_column_def: self.get_column_def,
        }
    }

    /// Makes a column name evaluate to the definition of its column.
    pub fn with_column_def(self) -> (evaluator: ExpressionEvaluator<'a>)
        ensures
            evaluator.row() == self.row(),
            evaluator.scope() == self.scope(),
            evaluator.column_def_mode(),
    {
        ExpressionEvaluator {
            row: self.row,
            head: self.head,
            tables: self.tables,
            get_column_def: true,
        }
    }

    /// The first column called `name`: its position in the row, unless that
    /// is beyond any row, and its definition.
    fn find(&self, name: &String) -> (r: Option<(Option<usize>, &ColumnDef)>)
        ensures
            match r {
                Some((position, def)) => column_index(self.scope(), name@) matches Some(i) && def@
                    == self.scope()[i] && match position {
                    Some(p) => p == i,
                    None => i > usize::MAX,
                },
                None => column_index(self.scope(), name@) is None,
            },
    {
        match self.tables {
            Some(tables) => {
                let ghost headers = table_headers(tables@);
                let mut offset: Option<usize> = Some(0);
                let mut t: usize = 0;
                while t < tables.len()
                    invariant
                        t <= tables@.len(),
                        headers == table_headers(tables@),
                        self.tables == Some(tables),
                        match offset {
                            Some(o) => o == joined_header(headers.take(t as int)).len(),
                            None => joined_header(headers.take(t as int)).len() > usize::MAX,
                        },
                        !has_column(joined_header(headers.take(t as int)), name@),
                    decreases tables@.len() - t,
                {
                    let header = tables[t].header();
                    proof {
                        assert(headers.take(t + 1).drop_last() =~= headers.take(t as int));
                        assert(headers.take(t + 1).last() == header_view(header@));
                        lemma_joined_header_prefix(headers, t + 1);
                    }
                    let ghost front = joined_header(headers.take(t as int));
                    let ghost upto = joined_header(headers.take(t + 1));
                    match find_column(header, name) {
                        Some(i) => {
                            let position = match offset {
                                Some(o) => o.checked_add(i),
                                None => None,
                            };
                            proof {
                                let at = front.len() + i;
                                let scope = joined_header(headers);
                                assert(upto[at] == header_view(header@)[i as int]);
                                assert(scope[at] == upto[at]);
                                lemma_column_index_some(header_view(header@), name@);
                                assert forall|j: int| 0 <= j < at implies scope[j].name
                                    != name@ by {
                                    assert(scope[j] == upto[j]);
                                    if j < front.len() {
                                        assert(upto[j] == front[j]);
                                    } else {
                                        assert(upto[j] == header_view(header@)[j - front.len()]);
                                    }
                                }
                                lemma_column_index(scope, name@, at);
                            }
                            return Some((position, &header[i]));
                        },
                        None => {
                            proof {
                                if has_column(upto, name@) {
                                    let j = choose|j: int|
                                        0 <= j < upto.len() && upto[j].name == name@;
                                    if j < front.len() {
                                        assert(front[j] == upto[j]);
                                    } else {
                                        assert(header_view(header@)[j - front.len()] == upto[j]);
                                    }
                                }
                            }
                            offset =
                            match offset {
                                Some(o) => o.checked_add(header.len()),
                                None => None,
                            };
                        },
                    }
                    t += 1;
                }
                assert(headers.take(t as int) =~= headers);
                None
            },
            None => match find_column(self.head, name) {
                Some(i) => Some((Some(i), &self.head[i])),
                None => None,
            },
        }
    }

    /// Evaluates `expr` on the row.
    pub fn eval_expr(&self, expr: &Expression) -> (r: Result<ExpressionResult, Error>)
        ensures
            match r {
                Ok(result) => Ok::<Outcome, Error>(result@) == if self.column_def_mode() {
                    eval_column_def(*expr, self.row(), self.scope())
                } else {
                    eval(*expr, self.row(), self.scope())
                },
                Err(e) => Err::<Outcome, Error>(e) == if self.column_def_mode() {
                    eval_column_def(*expr, self.row(), self.scope())
                } else {
                    eval(*expr, self.row(), self.scope())
                },
            },
    {
        if self.get_column_def {
            match expr {
                Expression::ColumnName(name) => match self.find(name) {
                    Some((_, def)) => Ok(ExpressionResult::ColumnDef(def.clone())),
                    None => Err(Error::UnknownColumn),
                },
                _ => self.eval_plain(expr),
            }
        } else {
            self.eval_plain(expr)
        }
    }

    /// Evaluates `expr` on the row, a column name to its cell.
    fn eval_plain(&self, expr: &Expression) -> (r: Result<ExpressionResult, Error>)
        ensures
            match r {
                Ok(result) => Ok::<Outcome, Error>(result@) == eval(
                    *expr,
                    self.row(),
                    self.scope(),
                ),
                Err(e) => Err::<Outcome, Error>(e) == eval(*expr, self.row(), self.scope()),
            },
        decreases *expr,
    {
        match expr {
            Expression::LiteralValue(v) => Ok(ExpressionResult::Value(v.clone())),
            Expression::ColumnName(name) => match self.find(name) {
                Some((Some(position), _)) => {
                    if position < self.row.len() {
                        assert(self.row()[position as int] == self.row@[position as int]@);
                        Ok(ExpressionResult::Value(self.row[position].clone()))
                    } else {
                        Err(Error::SchemaWidthMismatch)
                    }
                },
                Some((None, _)) => {
                    assert(self.row().len() == self.row.len());
                    Err(Error::SchemaWidthMismatch)
                },
                None => Err(Error::UnknownColumn),
            },
            Expression::BinaryOperator((op, left, right)) => {
                let a = match self.eval_plain(&**left) {
                    Ok(ExpressionResult::Value(a)) => a,
                    Ok(_) => {
                        return Err(Error::NotAValue);
                    },
                    Err(e) => {
                        return Err(e);
                    },
                };
                let b = match self.eval_plain(&**right) {
                    Ok(ExpressionResult::Value(b)) => b,
                    Ok(_) => {
                        return Err(Error::NotAValue);
                    },
                    Err(e) => {
                        return Err(e);
                    },
                };
                match op {
                    BinaryOperator::Equals => Ok(ExpressionResult::Boolean(a == b)),
                }
            },
        }
    }

    /// The truth of `expr` on the row. An expression that evaluates to a
    /// value, not to a boolean, counts as `false`.
    pub fn eval_bool(&self, expr: &Expression) -> (r: Result<bool, Error>)
        ensures
            r == eval_bool(*expr, self.row(), self.scope()),
    {
        match self.eval_plain(expr) {
            Ok(ExpressionResult::Boolean(b)) => Ok(b),
            Ok(_) => Ok(false),
            Err(e) => Err(e),
        }
    }

    /// The value of `expr` on the row. An expression that evaluates to a
    /// boolean is refused.
    pub fn eval_value(&self, expr: &Expression) -> (r: Result<LiteralValue, Error>)
        ensures
            match r {
                Ok(v) => eval_value(*expr, self.row(), self.scope()) == Ok::<Value, Error>(v@),
                Err(e) => eval_value(*expr, self.row(), self.scope()) == Err::<Value, Error>(e),
            },
    {
        match self.eval_plain(expr) {
            Ok(ExpressionResult::Value(v)) => Ok(v),
            Ok(_) => Err(Error::NotAValue),
            Err(e) => Err(e),
        }
    }
}

} // verus!
