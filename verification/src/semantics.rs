//! What each statement does, stated on the mathematical content of the
//! tables and of the catalog.

use vstd::prelude::*;
use crate::definitions::{
    AlterTable, AlterTableDef, ColumnSpec, DeleteDef, Expression, InsertDataSource, InsertDef,
    ResultColumn, RusqlStatement, SelectDef, UpdateDef, Value,
};
use crate::error::Error;
use crate::expressions::{eval_bool, eval_value, joined_header};
use crate::rusql::{create_table, rename_table, CatalogView};
use crate::table::{column_index, names_view, rows_seq_view, PkType, Table, TableView};

verus! {

/// The first failure in a list of outcomes.
pub open spec fn first_error<T>(outcomes: Seq<Result<T, Error>>) -> Option<Error>
    decreases outcomes.len(),
{
    if outcomes.len() == 0 {
        None
    } else {
        match first_error(outcomes.drop_last()) {
            Some(e) => Some(e),
            None => match outcomes.last() {
                Err(e) => Some(e),
                Ok(_) => None,
            },
        }
    }
}

/// A failure among the first outcomes is the failure of the whole list.
pub proof fn lemma_first_error_stops<T>(outcomes: Seq<Result<T, Error>>, n: int)
    requires
        0 <= n <= outcomes.len(),
        first_error(outcomes.take(n)) is Some,
    ensures
        first_error(outcomes) == first_error(outcomes.take(n)),
    decreases outcomes.len() - n,
{
    if n == outcomes.len() {
        assert(outcomes.take(n) =~= outcomes);
    } else {
        assert(outcomes.take(n + 1).drop_last() =~= outcomes.take(n));
        lemma_first_error_stops(outcomes, n + 1);
    }
}

/// Where a list has no failure, every outcome in it is a success.
pub proof fn lemma_first_error_none<T>(outcomes: Seq<Result<T, Error>>)
    requires
        first_error(outcomes) is None,
    ensures
        forall|i: int| 0 <= i < outcomes.len() ==> (#[trigger] outcomes[i]) is Ok,
    decreases outcomes.len(),
{
    if outcomes.len() > 0 {
        lemma_first_error_none(outcomes.drop_last());
        assert forall|i: int| 0 <= i < outcomes.len() implies (#[trigger] outcomes[i]) is Ok by {
            if i < outcomes.len() - 1 {
                assert(outcomes.drop_last()[i] == outcomes[i]);
            }
        }
    }
}

/// The truth of `expr` on each row of `table`, in key order. Column names
/// are looked up in `scope`.
pub open spec fn row_checks(table: TableView, expr: Expression, scope: Seq<ColumnSpec>) -> Seq<
    Result<bool, Error>,
> {
    table.ordered_rows().map_values(|row: Seq<Value>| eval_bool(expr, row, scope))
}

/// The table with those of its rows on which `expr` is `wanted`.
pub open spec fn rows_where(
    table: TableView,
    expr: Expression,
    scope: Seq<ColumnSpec>,
    wanted: bool,
) -> TableView {
    TableView {
        rows: Map::new(
            |k: PkType|
                table.rows.contains_key(k) && eval_bool(expr, table.rows[k], scope) == Ok::<
                    bool,
                    Error,
                >(wanted),
            |k: PkType| table.rows[k],
        ),
        ..table
    }
}

/// `DELETE` on one table: without a condition every row goes; with one,
/// the rows on which it is true go. Where the condition cannot be
/// evaluated on some row, nothing is deleted.
pub open spec fn delete_rows(table: TableView, where_expr: Option<Expression>) -> Result<
    TableView,
    Error,
> {
    match where_expr {
        None => Ok(table.clear()),
        Some(expr) => match first_error(row_checks(table, expr, table.header)) {
            Some(e) => Err(e),
            None => Ok(rows_where(table, expr, table.header, false)),
        },
    }
}

/// `DELETE`.
pub open spec fn delete(db: CatalogView, def: DeleteDef) -> Result<CatalogView, Error> {
    if db.contains_key(def.name@) {
        match delete_rows(db[def.name@], def.where_expr) {
            Ok(table) => Ok(db.insert(def.name@, table)),
            Err(e) => Err(e),
        }
    } else {
        Err(Error::UnknownTable)
    }
}

/// `ALTER TABLE`.
pub open spec fn alter_table(db: CatalogView, def: AlterTableDef) -> Result<CatalogView, Error> {
    match def.mode {
        AlterTable::RenameTo(new_name) => rename_table(db, def.name@, new_name@),
        AlterTable::AddColumn(column) => if db.contains_key(def.name@) {
            Ok(db.insert(def.name@, db[def.name@].add_column(column@)))
        } else {
            Err(Error::UnknownTable)
        },
    }
}

/// The row after the assignments of an `UPDATE`, applied in the order
/// given: each one sees what those before it wrote.
pub open spec fn assign(
    row: Seq<Value>,
    header: Seq<ColumnSpec>,
    set: Seq<(String, Expression)>,
) -> Result<Seq<Value>, Error>
    decreases set.len(),
{
    if set.len() == 0 {
        Ok(row)
    } else {
        match assign(row, header, set.drop_last()) {
            Err(e) => Err(e),
            Ok(sofar) => match column_index(header, set.last().0@) {
                None => Err(Error::UnknownColumn),
                Some(i) => match eval_value(set.last().1, sofar, header) {
                    Err(e) => Err(e),
                    Ok(v) => if i < sofar.len() {
                        Ok(sofar.update(i, v))
                    } else {
                        Err(Error::SchemaWidthMismatch)
                    },
                },
            },
        }
    }
}

/// Whether a statement with this condition is about `row`.
pub open spec fn row_selected(
    where_expr: Option<Expression>,
    row: Seq<Value>,
    header: Seq<ColumnSpec>,
) -> Result<bool, Error> {
    match where_expr {
        Some(expr) => eval_bool(expr, row, header),
        None => Ok(true),
    }
}

/// One row after an `UPDATE`: as it was where the condition is false.
pub open spec fn update_row(
    row: Seq<Value>,
    header: Seq<ColumnSpec>,
    set: Seq<(String, Expression)>,
    where_expr: Option<Expression>,
) -> Result<Seq<Value>, Error> {
    match row_selected(where_expr, row, header) {
        Err(e) => Err(e),
        Ok(false) => Ok(row),
        Ok(true) => assign(row, header, set),
    }
}

/// `UPDATE` on one table. Every row stays under its key. Where some row
/// cannot be updated, no row is.
pub open spec fn update_rows(
    table: TableView,
    set: Seq<(String, Expression)>,
    where_expr: Option<Expression>,
) -> Result<TableView, Error> {
    match first_error(
        table.ordered_rows().map_values(
            |row: Seq<Value>| update_row(row, table.header, set, where_expr),
        ),
    ) {
        Some(e) => Err(e),
        None => Ok(
            TableView {
                rows: table.rows.map_values(
                    |row: Seq<Value>| update_row(row, table.header, set, where_expr)->Ok_0,
                ),
                ..table
            },
        ),
    }
}

/// `UPDATE`.
pub open spec fn update(db: CatalogView, def: UpdateDef) -> Result<CatalogView, Error> {
    if db.contains_key(def.name@) {
        match update_rows(db[def.name@], def.set@, def.where_expr) {
            Ok(table) => Ok(db.insert(def.name@, table)),
            Err(e) => Err(e),
        }
    } else {
        Err(Error::UnknownTable)
    }
}

/// The rows that begin with `prefix` and go on with one row of each of
/// `tables`, in the order of the tables; the first table's rows change
/// slowest.
pub open spec fn product_rows(prefix: Seq<Value>, tables: Seq<TableView>) -> Seq<Seq<Value>>
    decreases tables.len(), 0nat,
{
    if tables.len() == 0 {
        seq![prefix]
    } else {
        extend_rows(prefix, tables.first().ordered_rows(), tables.drop_first())
    }
}

/// For each of `rows` in order: the rows that begin with `prefix` and that
/// row and go on with one row of each of `rest`.
pub open spec fn extend_rows(
    prefix: Seq<Value>,
    rows: Seq<Seq<Value>>,
    rest: Seq<TableView>,
) -> Seq<Seq<Value>>
    decreases rest.len(), rows.len() + 1,
{
    if rows.len() == 0 {
        Seq::empty()
    } else {
        extend_rows(prefix, rows.drop_last(), rest) + product_rows(prefix + rows.last(), rest)
    }
}

/// The cross product of `tables`. No table, no row.
pub open spec fn joined_rows(tables: Seq<TableView>) -> Seq<Seq<Value>> {
    if tables.len() == 0 {
        Seq::empty()
    } else {
        product_rows(Seq::empty(), tables)
    }
}

/// The rows that `product` stores: with a row to begin with, that row
/// extended by one row of each table; without one, the cross product of
/// the tables.
pub open spec fn product_of(prefix: Option<Seq<Value>>, tables: Seq<TableView>) -> Seq<Seq<Value>> {
    match prefix {
        Some(prefix) => product_rows(prefix, tables),
        None => joined_rows(tables),
    }
}

/// The content of a list of tables.
pub open spec fn table_views(tables: Seq<&Table>) -> Seq<TableView> {
    tables.map_values(|t: &Table| t@)
}

/// The tables that a list of names stands for.
pub open spec fn lookup_tables(db: CatalogView, names: Seq<String>) -> Result<
    Seq<TableView>,
    Error,
>
    decreases names.len(),
{
    if names.len() == 0 {
        Ok(Seq::empty())
    } else {
        match lookup_tables(db, names.drop_last()) {
            Err(e) => Err(e),
            Ok(tables) => if db.contains_key(names.last()@) {
                Ok(tables.push(db[names.last()@]))
            } else {
                Err(Error::UnknownTable)
            },
        }
    }
}

/// The headers of a list of tables.
pub open spec fn headers_of(tables: Seq<TableView>) -> Seq<Seq<ColumnSpec>> {
    tables.map_values(|t: TableView| t.header)
}

/// The input of a `SELECT`: the cross product of its source tables under
/// their joined header; without a `FROM` clause, one row without columns.
/// The rows are keyed 1, 2, 3, and so on.
pub open spec fn generate_inputs(sources: Option<Seq<TableView>>) -> (TableView, Option<Error>) {
    match sources {
        Some(tables) => TableView::result_table(joined_header(headers_of(tables))).insert(
            joined_rows(tables),
            None,
        ),
        None => TableView::result_table(Seq::empty()).insert(seq![Seq::<Value>::empty()], None),
    }
}

/// The input rows that a `WHERE` clause lets through. Where the condition
/// cannot be evaluated on some row, the statement fails.
pub open spec fn filter_inputs(
    input: TableView,
    where_expr: Option<Expression>,
    scope: Seq<ColumnSpec>,
) -> Result<TableView, Error> {
    match where_expr {
        None => Ok(input),
        Some(expr) => match first_error(row_checks(input, expr, scope)) {
            Some(e) => Err(e),
            None => Ok(rows_where(input, expr, scope, true)),
        },
    }
}

pub open spec fn digit_char(d: nat) -> char {
    if d == 0 {
        '0'
    } else if d == 1 {
        '1'
    } else if d == 2 {
        '2'
    } else if d == 3 {
        '3'
    } else if d == 4 {
        '4'
    } else if d == 5 {
        '5'
    } else if d == 6 {
        '6'
    } else if d == 7 {
        '7'
    } else if d == 8 {
        '8'
    } else {
        '9'
    }
}

/// The decimal digits of `n`, without leading zeros.
pub open spec fn decimal_digits(n: nat) -> Seq<char>
    decreases n,
{
    if n < 10 {
        seq![digit_char(n)]
    } else {
        decimal_digits(n / 10).push(digit_char(n % 10))
    }
}

/// The output column of a projected expression that names no column:
/// it is called `column` and its position in the projection, counted
/// from 1, and has neither type nor constraint.
pub open spec fn default_column(position: nat) -> ColumnSpec {
    ColumnSpec {
        name: "column"@ + decimal_digits(position + 1),
        column_type: None,
        constraints: Seq::empty(),
    }
}

/// The output column of the projected expression at `position`: a column
/// name hands on the definition of its column.
pub open spec fn output_column(expr: Expression, position: nat, scope: Seq<ColumnSpec>) -> ColumnSpec {
    match expr {
        Expression::ColumnName(name) => match column_index(scope, name@) {
            Some(i) => scope[i],
            None => default_column(position),
        },
        _ => default_column(position),
    }
}

/// The header of a projection.
pub open spec fn output_header(exprs: Seq<Expression>, scope: Seq<ColumnSpec>) -> Seq<ColumnSpec> {
    Seq::new(exprs.len(), |i: int| output_column(exprs[i], i as nat, scope))
}

/// The cells of a projection of `row`: the value of each expression.
pub open spec fn project_row(
    exprs: Seq<Expression>,
    row: Seq<Value>,
    scope: Seq<ColumnSpec>,
) -> Result<Seq<Value>, Error>
    decreases exprs.len(),
{
    if exprs.len() == 0 {
        Ok(Seq::empty())
    } else {
        match project_row(exprs.drop_last(), row, scope) {
            Err(e) => Err(e),
            Ok(cells) => match eval_value(exprs.last(), row, scope) {
                Ok(v) => Ok(cells.push(v)),
                Err(e) => Err(e),
            },
        }
    }
}

/// The result table after one more input row was projected into it. A
/// result table without header gets the header of the projection first.
/// A row that cannot be projected leaves the table as it was.
pub open spec fn generate_row(
    results: TableView,
    row: Seq<Value>,
    exprs: Seq<Expression>,
    scope: Seq<ColumnSpec>,
) -> (TableView, Option<Error>) {
    match project_row(exprs, row, scope) {
        Err(e) => (results, Some(e)),
        Ok(cells) => {
            let prepared = if results.header.len() == 0 {
                results.add_columns(output_header(exprs, scope))
            } else {
                results
            };
            match prepared.push_row(cells) {
                Ok(after) => (after, None),
                Err(e) => (prepared, Some(e)),
            }
        },
    }
}

/// The result table after the input rows were projected into it, in order,
/// up to the first that cannot be.
pub open spec fn generate_rows(
    results: TableView,
    rows: Seq<Seq<Value>>,
    exprs: Seq<Expression>,
    scope: Seq<ColumnSpec>,
) -> (TableView, Option<Error>)
    decreases rows.len(),
{
    if rows.len() == 0 {
        (results, None)
    } else {
        let (before, failed) = generate_rows(results, rows.drop_last(), exprs, scope);
        if failed is Some {
            (before, failed)
        } else {
            generate_row(before, rows.last(), exprs, scope)
        }
    }
}

/// The result of a `SELECT` from its filtered input. With an asterisk the
/// input's header and rows pass through. With expressions each row is
/// projected; the header is that of the projection, and stays empty where
/// there is no row. The rows are keyed 1, 2, 3, and so on, in the order
/// of the input.
pub open spec fn generate_result_set(
    input: TableView,
    result_column: ResultColumn,
    scope: Seq<ColumnSpec>,
) -> (TableView, Option<Error>) {
    match result_column {
        ResultColumn::Asterisk => TableView::result_table(input.header).insert(
            input.ordered_rows(),
            None,
        ),
        ResultColumn::Expressions(exprs) => generate_rows(
            TableView::result_table(Seq::empty()),
            input.ordered_rows(),
            exprs@,
            scope,
        ),
    }
}

/// The source tables of a `SELECT`.
pub open spec fn select_sources(db: CatalogView, from: Option<Vec<String>>) -> Result<
    Option<Seq<TableView>>,
    Error,
> {
    match from {
        None => Ok(None),
        Some(names) => match lookup_tables(db, names@) {
            Ok(tables) => Ok(Some(tables)),
            Err(e) => Err(e),
        },
    }
}

/// `SELECT`: cross product of the sources, then the filter, then the
/// projection.
pub open spec fn select(db: CatalogView, def: SelectDef) -> Result<TableView, Error> {
    match select_sources(db, def.table_or_subquery) {
        Err(e) => Err(e),
        Ok(sources) => {
            let (input, failed) = generate_inputs(sources);
            match failed {
                Some(e) => Err(e),
                None => match filter_inputs(input, def.where_expr, input.header) {
                    Err(e) => Err(e),
                    Ok(filtered) => {
                        let (result, failed) = generate_result_set(
                            filtered,
                            def.result_column,
                            input.header,
                        );
                        match failed {
                            Some(e) => Err(e),
                            None => Ok(result),
                        }
                    },
                },
            }
        },
    }
}

/// `INSERT`: the catalog afterwards and the error that stopped the
/// statement, if any. Rows stored before the error stay stored.
pub open spec fn insert(db: CatalogView, def: InsertDef) -> (CatalogView, Option<Error>) {
    match def.data_source {
        InsertDataSource::Values(rows) => if db.contains_key(def.table_name@) {
            let (table, failed) = db[def.table_name@].insert(
                rows_seq_view(rows@),
                match def.column_names {
                    Some(names) => Some(names_view(names@)),
                    None => None,
                },
            );
            (db.insert(def.table_name@, table), failed)
        } else {
            (db, Some(Error::UnknownTable))
        },
        InsertDataSource::Select(select_def) => match select(db, select_def) {
            Err(e) => (db, Some(e)),
            Ok(result) => if db.contains_key(def.table_name@) {
                let (table, failed) = db[def.table_name@].insert(result.ordered_rows(), None);
                (db.insert(def.table_name@, table), failed)
            } else {
                (db, Some(Error::UnknownTable))
            },
        },
        InsertDataSource::DefaultValues => (db, None),
        InsertDataSource::Error => (db, None),
    }
}

/// What one statement leaves behind.
pub struct Effect {
    /// The catalog after the statement.
    pub db: CatalogView,
    /// The error that stopped the statement, if any.
    pub failed: Option<Error>,
    /// The result table, where the statement is a `SELECT` that succeeded.
    pub result: Option<TableView>,
}

/// The effect of a statement that changes the catalog or fails.
pub open spec fn changed(db: CatalogView, outcome: Result<CatalogView, Error>) -> Effect {
    match outcome {
        Ok(after) => Effect { db: after, failed: None, result: None },
        Err(e) => Effect { db: db, failed: Some(e), result: None },
    }
}

/// One statement.
pub open spec fn execute(db: CatalogView, statement: RusqlStatement) -> Effect {
    match statement {
        RusqlStatement::AlterTable(def) => changed(db, alter_table(db, def)),
        RusqlStatement::CreateTable(def) => changed(db, Ok(create_table(db, def))),
        RusqlStatement::Delete(def) => changed(db, delete(db, def)),
        RusqlStatement::DropTable(def) => changed(db, Ok(db.remove(def.name@))),
        RusqlStatement::Insert(def) => Effect {
            db: insert(db, def).0,
            failed: insert(db, def).1,
            result: None,
        },
        RusqlStatement::Select(def) => match select(db, def) {
            Ok(table) => Effect { db: db, failed: None, result: Some(table) },
            Err(e) => Effect { db: db, failed: Some(e), result: None },
        },
        RusqlStatement::Update(def) => changed(db, update(db, def)),
    }
}

/// A batch of statements, in order. The first statement that fails ends
/// the batch; what the statements before it did, and what it did itself
/// before it failed, stays. The result is that of the first `SELECT`.
pub open spec fn execute_all(db: CatalogView, statements: Seq<RusqlStatement>) -> Effect
    decreases statements.len(),
{
    if statements.len() == 0 {
        Effect { db: db, failed: None, result: None }
    } else {
        let before = execute_all(db, statements.drop_last());
        if before.failed is Some {
            before
        } else {
            let last = execute(before.db, statements.last());
            Effect {
                db: last.db,
                failed: last.failed,
                result: if before.result is Some {
                    before.result
                } else {
                    last.result
                },
            }
        }
    }
}

} // verus!
