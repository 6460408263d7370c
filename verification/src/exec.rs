//! The executor: runs statements against the catalog.

use vstd::prelude::*;
use vstd::string::StringExecFns;
use crate::definitions::{
    header_view, row_view, AlterTable, AlterTableDef, ColumnDef, ColumnSpec, DeleteDef,
    Expression, InsertDataSource, InsertDef, ResultColumn, RusqlStatement,
    SelectDef, UpdateDef, Value,
};
use crate::error::Error;
use crate::expressions::{
    eval_bool, eval_value, joined_header, table_headers, ExpressionEvaluator, ExpressionResult,
};
use crate::rusql::{CatalogView, Rusql};
use crate::semantics;
use crate::order::key_order;
use crate::table::{
    clone_header, clone_row, find_column, has_column, lemma_column_index_some,
    lemma_insert_concat, lemma_insert_keeps_header, lemma_insert_one,
    lemma_insert_stops, lemma_ordered_row, lemma_rows_view_dom, PkType,
    Table, TableHeader, TableRow, TableView,
};

verus! {

/// The digit `d` as text.
fn digit_str(d: usize) -> (s: &'static str)
    requires
        d < 10,
    ensures
        s@ == seq![semantics::digit_char(d as nat)],
{
    proof {
        reveal_strlit("0");
        reveal_strlit("1");
        reveal_strlit("2");
        reveal_strlit("3");
        reveal_strlit("4");
        reveal_strlit("5");
        reveal_strlit("6");
        reveal_strlit("7");
        reveal_strlit("8");
        reveal_strlit("9");
    }
    let s = if d == 0 {
        "0"
    } else if d == 1 {
        "1"
    } else if d == 2 {
        "2"
    } else if d == 3 {
        "3"
    } else if d == 4 {
        "4"
    } else if d == 5 {
        "5"
    } else if d == 6 {
        "6"
    } else if d == 7 {
        "7"
    } else if d == 8 {
        "8"
    } else {
        "9"
    };
    assert(s@ =~= seq![semantics::digit_char(d as nat)]);
    s
}

/// Appends the decimal digits of `n` to `text`.
fn push_decimal(text: &mut String, n: usize)
    ensures
        final(text)@ == old(text)@ + semantics::decimal_digits(n as nat),
    decreases n,
{
    if n >= 10 {
        push_decimal(text, n / 10);
    }
    let ghost before = text@;
    text.append(digit_str(n % 10));
    proof {
        if n >= 10 {
            assert(text@ =~= old(text)@ + semantics::decimal_digits((n / 10) as nat).push(
                semantics::digit_char((n % 10) as nat),
            ));
        } else {
            assert(text@ =~= old(text)@ + seq![semantics::digit_char(n as nat)]);
        }
    }
}

/// The definition of an output column that is named by its position.
pub fn default_column_def(position: usize) -> (def: ColumnDef)
    requires
        position < usize::MAX,
    ensures
        def@ == semantics::default_column(position as nat),
{
    let mut name = String::from_str("column");
    push_decimal(&mut name, position + 1);
    ColumnDef { name: name, column_type: None, column_constraints: Vec::new() }
}

/// Once an expression of the list cannot be evaluated, the rest of the
/// list does not matter.
pub proof fn lemma_project_row_stops(
    exprs: Seq<Expression>,
    row: Seq<Value>,
    scope: Seq<ColumnSpec>,
    n: int,
)
    requires
        0 <= n <= exprs.len(),
        semantics::project_row(exprs.take(n), row, scope) is Err,
    ensures
        semantics::project_row(exprs, row, scope) == semantics::project_row(
            exprs.take(n),
            row,
            scope,
        ),
    decreases exprs.len() - n,
{
    if n == exprs.len() {
        assert(exprs.take(n) =~= exprs);
    } else {
        assert(exprs.take(n + 1).drop_last() =~= exprs.take(n));
        lemma_project_row_stops(exprs, row, scope, n + 1);
    }
}

/// Projects `row` through `exprs` and stores the outcome in
/// `results_table`. Where that table has no header yet, it first gets the
/// header of the projection. Column names are looked up in the headers of
/// `input_tables`. Where an expression cannot be evaluated, the table
/// stays as it was.
pub fn generate_row_from_expressions(
    results_table: &mut Table,
    row: &TableRow,
    exprs: &Vec<Expression>,
    input_tables: &Vec<&Table>,
) -> (r: Result<(), Error>)
    requires
        old(results_table).wf(),
    ensures
        final(results_table).wf(),
        final(results_table)@ == semantics::generate_row(
            old(results_table)@,
            row_view(row@),
            exprs@,
            joined_header(table_headers(input_tables@)),
        ).0,
        match r {
            Ok(()) => semantics::generate_row(
                old(results_table)@,
                row_view(row@),
                exprs@,
                joined_header(table_headers(input_tables@)),
            ).1 is None,
            Err(e) => semantics::generate_row(
                old(results_table)@,
                row_view(row@),
                exprs@,
                joined_header(table_headers(input_tables@)),
            ).1 == Some(e),
        },
{
    let ghost scope = joined_header(table_headers(input_tables@));
    let ghost cells = row_view(row@);
    let push_header = results_table.header().len() == 0;
    let mut new_row: TableRow = Vec::new();
    let mut columns: TableHeader = Vec::new();
    let mut i: usize = 0;
    assert(row_view(new_row@) =~= Seq::<Value>::empty());
    while i < exprs.len()
        invariant
            i <= exprs@.len(),
            results_table.wf(),
            scope == joined_header(table_headers(input_tables@)),
            cells == row_view(row@),
            *results_table == *old(results_table),
            push_header == (results_table@.header.len() == 0),
            semantics::project_row(exprs@.take(i as int), cells, scope) == Ok::<Seq<Value>, Error>(
                row_view(new_row@),
            ),
            push_header ==> columns@.len() == i,
            push_header ==> forall|j: int|
                0 <= j < i ==> (#[trigger] columns@[j])@ == semantics::output_column(
                    exprs@[j],
                    j as nat,
                    scope,
                ),
        decreases exprs@.len() - i,
    {
        proof {
            assert(exprs@.take(i + 1).drop_last() =~= exprs@.take(i as int));
            assert(exprs@.take(i + 1).last() == exprs@[i as int]);
        }
        if push_header {
            let describing = ExpressionEvaluator::new(row, results_table.header()).with_tables(
                input_tables,
            ).with_column_def();
            match describing.eval_expr(&exprs[i]) {
                Ok(ExpressionResult::ColumnDef(def)) => {
                    columns.push(def);
                },
                Ok(_) => {
                    columns.push(default_column_def(i));
                },
                Err(e) => {
                    proof {
                        assert(eval_value(exprs@[i as int], cells, scope) == Err::<Value, Error>(e));
                        lemma_project_row_stops(exprs@, cells, scope, i + 1);
                    }
                    return Err(e);
                },
            }
        }
        let evaluator = ExpressionEvaluator::new(row, results_table.header()).with_tables(
            input_tables,
        );
        match evaluator.eval_value(&exprs[i]) {
            Ok(v) => {
                let ghost before = row_view(new_row@);
                new_row.push(v);
                assert(row_view(new_row@) =~= before.push(v@));
            },
            Err(e) => {
                proof {
                    lemma_project_row_stops(exprs@, cells, scope, i + 1);
                }
                return Err(e);
            },
        }
        i += 1;
    }
    proof {
        assert(exprs@.take(i as int) =~= exprs@);
    }
    if push_header {
        assert(header_view(columns@) =~= semantics::output_header(exprs@, scope));
        results_table.add_columns(columns);
    }
    results_table.push_row(new_row)
}

/// Content of an optional row.
pub open spec fn opt_row_view(row: Option<TableRow>) -> Option<Seq<Value>> {
    match row {
        Some(row) => Some(row_view(row@)),
        None => None,
    }
}

/// The cells that every row of a product begins with.
pub open spec fn begin_of(prefix: Option<Seq<Value>>) -> Seq<Value> {
    match prefix {
        Some(prefix) => prefix,
        None => Seq::empty(),
    }
}

/// Appends copies of the cells of `tail` to `row`.
fn extend_row(row: &mut TableRow, tail: &TableRow)
    ensures
        row_view(final(row)@) == row_view(old(row)@) + row_view(tail@),
{
    let mut i: usize = 0;
    while i < tail.len()
        invariant
            i <= tail@.len(),
            row@.len() == old(row)@.len() + i,
            forall|j: int| 0 <= j < old(row)@.len() ==> row@[j] == old(row)@[j],
            forall|j: int|
                old(row)@.len() <= j < old(row)@.len() + i ==> (#[trigger] row@[j])@ == tail@[j
                    - old(row)@.len()]@,
        decreases tail@.len() - i,
    {
        row.push(tail[i].clone());
        i += 1;
    }
    assert(row_view(row@) =~= row_view(old(row)@) + row_view(tail@));
}

/// Stores in `input_product` the rows of the cross product of the tables
/// from position `first` on, each after the cells of `new_row_opt`. The
/// first table's rows change slowest. Without tables it stores the row
/// given, if one is given.
pub fn product(
    tables: &Vec<&Table>,
    first: usize,
    input_product: &mut Table,
    new_row_opt: Option<TableRow>,
) -> (r: Result<(), Error>)
    requires
        old(input_product).wf(),
        first <= tables@.len(),
    ensures
        final(input_product).wf(),
        final(input_product)@ == old(input_product)@.insert(
            semantics::product_of(
                opt_row_view(new_row_opt),
                semantics::table_views(tables@).skip(first as int),
            ),
            None,
        ).0,
        match r {
            Ok(()) => old(input_product)@.insert(
                semantics::product_of(
                    opt_row_view(new_row_opt),
                    semantics::table_views(tables@).skip(first as int),
                ),
                None,
            ).1 is None,
            Err(e) => old(input_product)@.insert(
                semantics::product_of(
                    opt_row_view(new_row_opt),
                    semantics::table_views(tables@).skip(first as int),
                ),
                None,
            ).1 == Some(e),
        },
    decreases tables@.len() - first,
{
    let ghost remaining = semantics::table_views(tables@).skip(first as int);
    if first < tables.len() {
        let table = tables[first];
        let ghost rest = semantics::table_views(tables@).skip(first + 1);
        let ghost prefix = begin_of(opt_row_view(new_row_opt));
        let ghost source = table@.ordered_rows();
        proof {
            assert(remaining.first() == table@);
            assert(remaining.drop_first() =~= rest);
            assert(semantics::product_of(opt_row_view(new_row_opt), remaining)
                == semantics::extend_rows(prefix, source, rest));
        }
        let keys = table.keys();
        let mut i: usize = 0;
        proof {
            if keys@.len() > 0 {
                lemma_ordered_row(table@, 0);
            }
            assert(source.take(0) =~= Seq::<Seq<Value>>::empty());
        }
        while i < keys.len()
            invariant
                i <= keys@.len(),
                keys@ == key_order(table@.rows.dom()),
                source == table@.ordered_rows(),
                source.len() == keys@.len(),
                rest == semantics::table_views(tables@).skip(first + 1),
                first < tables@.len(),
                tables@.len() <= usize::MAX,
                semantics::product_of(
                    opt_row_view(new_row_opt),
                    semantics::table_views(tables@).skip(first as int),
                ) == semantics::extend_rows(prefix, source, rest),
                prefix == begin_of(opt_row_view(new_row_opt)),
                input_product.wf(),
                old(input_product)@.insert(
                    semantics::extend_rows(prefix, source.take(i as int), rest),
                    None,
                ) == (input_product@, None::<Error>),
            decreases keys@.len() - i,
        {
            proof {
                lemma_ordered_row(table@, i as int);
                assert(source.take(i + 1).drop_last() =~= source.take(i as int));
                assert(source.take(i + 1).last() == source[i as int]);
            }
            let mut new_row: TableRow = match &new_row_opt {
                Some(row) => clone_row(row),
                None => Vec::new(),
            };
            assert(row_view(new_row@) =~= prefix);
            match table.get_row(keys[i]) {
                Some(row) => {
                    extend_row(&mut new_row, row);
                },
                None => {},
            }
            let ghost done = semantics::extend_rows(prefix, source.take(i as int), rest);
            let ghost more = semantics::product_rows(prefix + source[i as int], rest);
            proof {
                lemma_insert_concat(old(input_product)@, done, more, None);
            }
            match product(tables, first + 1, input_product, Some(new_row)) {
                Ok(()) => {},
                Err(e) => {
                    proof {
                        let all = semantics::extend_rows(prefix, source, rest);
                        lemma_extend_rows_prefix(prefix, source, rest, i + 1);
                        assert(semantics::extend_rows(prefix, source.take(i + 1), rest) == done
                            + more);
                        assert(all.take((done + more).len() as int) == done + more);
                        lemma_insert_stops(
                            old(input_product)@,
                            all,
                            None,
                            (done + more).len() as int,
                        );
                    }
                    return Err(e);
                },
            }
            i += 1;
        }
        assert(source.take(i as int) =~= source);
        Ok(())
    } else {
        proof {
            assert(remaining =~= Seq::<TableView>::empty());
        }
        match new_row_opt {
            Some(new_row) => {
                proof {
                    lemma_insert_one(old(input_product)@, row_view(new_row@), None);
                }
                input_product.push_row(new_row)
            },
            None => Ok(()),
        }
    }
}

/// The rows made from the first rows of a table are the first rows made
/// from the table.
pub proof fn lemma_extend_rows_prefix(
    prefix: Seq<Value>,
    rows: Seq<Seq<Value>>,
    rest: Seq<TableView>,
    n: int,
)
    requires
        0 <= n <= rows.len(),
    ensures
        semantics::extend_rows(prefix, rows.take(n), rest).len() <= semantics::extend_rows(
            prefix,
            rows,
            rest,
        ).len(),
        semantics::extend_rows(prefix, rows.take(n), rest) == semantics::extend_rows(
            prefix,
            rows,
            rest,
        ).take(semantics::extend_rows(prefix, rows.take(n), rest).len() as int),
    decreases rows.len() - n,
{
    let all = semantics::extend_rows(prefix, rows, rest);
    if n == rows.len() {
        assert(rows.take(n) =~= rows);
        assert(all =~= all.take(all.len() as int));
    } else {
        lemma_extend_rows_prefix(prefix, rows, rest, n + 1);
        assert(rows.take(n + 1).drop_last() =~= rows.take(n));
        let shorter = semantics::extend_rows(prefix, rows.take(n), rest);
        let longer = semantics::extend_rows(prefix, rows.take(n + 1), rest);
        assert(longer == shorter + semantics::product_rows(prefix + rows.take(n + 1).last(), rest));
        assert(shorter =~= all.take(shorter.len() as int));
    }
}

/// The header in which a statement looks its column names up: that of the
/// joined tables, or, without any, that of the table itself.
pub open spec fn scope_of(table: TableView, tables: Option<&Vec<&Table>>) -> Seq<ColumnSpec> {
    match tables {
        Some(tables) => joined_header(table_headers(tables@)),
        None => table.header,
    }
}

/// The keys of the rows of `table` on which `expr` is `wanted`, each once,
/// in ascending order. It fails where `expr` cannot be evaluated on some
/// row, with the error of the first such row in key order.
pub fn keys_where(
    table: &Table,
    tables: Option<&Vec<&Table>>,
    expr: &Expression,
    wanted: bool,
) -> (r: Result<Vec<PkType>, Error>)
    ensures
        match r {
            Ok(keys) => semantics::first_error(
                semantics::row_checks(table@, *expr, scope_of(table@, tables)),
            ) is None && keys@ == key_order(
                semantics::rows_where(table@, *expr, scope_of(table@, tables), wanted).rows.dom(),
            ) && forall|k: PkType|
                keys@.contains(k) <==> table@.rows.contains_key(k) && eval_bool(
                    *expr,
                    table@.rows[k],
                    scope_of(table@, tables),
                ) == Ok::<bool, Error>(wanted),
            Err(e) => semantics::first_error(
                semantics::row_checks(table@, *expr, scope_of(table@, tables)),
            ) == Some(e),
        },
{
    let ghost scope = scope_of(table@, tables);
    let ghost checks = semantics::row_checks(table@, *expr, scope);
    let keys = table.keys();
    let mut found: Vec<PkType> = Vec::new();
    let mut i: usize = 0;
    proof {
        crate::order::lemma_key_order(table@.rows.dom());
        if keys@.len() > 0 {
            lemma_ordered_row(table@, 0);
        }
        assert(checks.take(0) =~= Seq::<Result<bool, Error>>::empty());
    }
    while i < keys.len()
        invariant
            i <= keys@.len(),
            keys@ == key_order(table@.rows.dom()),
            crate::order::lists_keys(keys@, table@.rows.dom()),
            scope == scope_of(table@, tables),
            checks == semantics::row_checks(table@, *expr, scope),
            checks.len() == keys@.len(),
            semantics::first_error(checks.take(i as int)) is None,
            forall|k: PkType|
                found@.contains(k) <==> exists|j: int|
                    0 <= j < i && keys@[j] == k && checks[j] == Ok::<bool, Error>(wanted),
            crate::order::strictly_increasing(found@),
        decreases keys@.len() - i,
    {
        proof {
            lemma_ordered_row(table@, i as int);
            assert(checks.take(i + 1).drop_last() =~= checks.take(i as int));
            assert(checks.take(i + 1).last() == checks[i as int]);
        }
        let key = keys[i];
        let ghost before = found@;
        match table.get_row(key) {
            Some(row) => {
                let evaluator = ExpressionEvaluator::new(row, table.header());
                let outcome = match tables {
                    Some(tables) => evaluator.with_tables(tables).eval_bool(expr),
                    None => evaluator.eval_bool(expr),
                };
                assert(outcome == checks[i as int]);
                match outcome {
                    Ok(truth) => {
                        if truth == wanted {
                            found.push(key);
                        }
                    },
                    Err(e) => {
                        proof {
                            semantics::lemma_first_error_stops(checks, i + 1);
                        }
                        return Err(e);
                    },
                }
            },
            None => {},
        }
        proof {
            assert forall|a: int, b: int| 0 <= a < b < found@.len() implies found@[a]
                < found@[b] by {
                if b < before.len() {
                    assert(before[a] < before[b]);
                } else {
                    assert(before[a] == found@[a]);
                    assert(before.contains(before[a]));
                    let j = choose|j: int|
                        0 <= j < i && keys@[j] == before[a] && checks[j] == Ok::<bool, Error>(
                            wanted,
                        );
                    assert(keys@[j] < keys@[i as int]);
                }
            }
            assert forall|k: PkType|
                found@.contains(k) <==> exists|j: int|
                    0 <= j < i + 1 && keys@[j] == k && checks[j] == Ok::<bool, Error>(
                        wanted,
                    ) by {
                if found@.contains(k) {
                    let x = choose|x: int| 0 <= x < found@.len() && found@[x] == k;
                    if x < before.len() {
                        assert(before[x] == k);
                        assert(before.contains(k));
                        let j = choose|j: int|
                            0 <= j < i && keys@[j] == k && checks[j] == Ok::<bool, Error>(wanted);
                        assert(0 <= j < i + 1 && keys@[j] == k && checks[j] == Ok::<bool, Error>(
                            wanted,
                        ));
                    } else {
                        assert(keys@[i as int] == k && checks[i as int] == Ok::<bool, Error>(
                            wanted,
                        ));
                    }
                }
                if exists|j: int|
                    0 <= j < i + 1 && keys@[j] == k && checks[j] == Ok::<bool, Error>(wanted) {
                    let j = choose|j: int|
                        0 <= j < i + 1 && keys@[j] == k && checks[j] == Ok::<bool, Error>(wanted);
                    if j < i {
                        assert(before.contains(k));
                        let x = choose|x: int| 0 <= x < before.len() && before[x] == k;
                        assert(found@[x] == k);
                    } else {
                        assert(found@[before.len() as int] == k);
                    }
                }
            }
        }
        i += 1;
    }
    proof {
        assert(checks.take(i as int) =~= checks);
        assert forall|k: PkType|
            found@.contains(k) <==> table@.rows.contains_key(k) && eval_bool(
                *expr,
                table@.rows[k],
                scope,
            ) == Ok::<bool, Error>(wanted) by {
            if found@.contains(k) {
                let j = choose|j: int|
                    0 <= j < i && keys@[j] == k && checks[j] == Ok::<bool, Error>(wanted);
                lemma_ordered_row(table@, j);
            }
            if table@.rows.contains_key(k) && eval_bool(*expr, table@.rows[k], scope) == Ok::<
                bool,
                Error,
            >(wanted) {
                assert(keys@.contains(k));
                let j = choose|j: int| 0 <= j < keys@.len() && keys@[j] == k;
                lemma_ordered_row(table@, j);
                assert(0 <= j < i && keys@[j] == k && checks[j] == Ok::<bool, Error>(wanted));
            }
        }
        let kept = semantics::rows_where(table@, *expr, scope, wanted).rows.dom();
        assert forall|k: PkType| kept.contains(k) <==> found@.contains(k) by {}
        crate::order::lemma_key_order_is(found@, kept);
    }
    Ok(found)
}

/// Keeps the rows of the input of a `SELECT` on which its `WHERE` clause
/// is true. Column names are looked up in the headers of `input_tables`.
/// Where the condition cannot be evaluated on some row, no row is removed.
pub fn filter_inputs(
    input_product: &mut Table,
    input_tables: &Vec<&Table>,
    select_def: &SelectDef,
) -> (r: Result<(), Error>)
    requires
        old(input_product).wf(),
    ensures
        final(input_product).wf(),
        match r {
            Ok(()) => semantics::filter_inputs(
                old(input_product)@,
                select_def.where_expr,
                joined_header(table_headers(input_tables@)),
            ) == Ok::<TableView, Error>(final(input_product)@),
            Err(e) => semantics::filter_inputs(
                old(input_product)@,
                select_def.where_expr,
                joined_header(table_headers(input_tables@)),
            ) == Err::<TableView, Error>(e) && final(input_product)@ == old(input_product)@,
        },
{
    match &select_def.where_expr {
        Some(expr) => {
            let ghost scope = joined_header(table_headers(input_tables@));
            let rejected = match keys_where(input_product, Some(input_tables), expr, false) {
                Ok(keys) => keys,
                Err(e) => {
                    return Err(e);
                },
            };
            input_product.remove_rows(&rejected);
            proof {
                let before = old(input_product)@;
                lemma_rows_decided(before, *expr, scope);
                assert(input_product@.rows =~= semantics::rows_where(
                    before,
                    *expr,
                    scope,
                    true,
                ).rows);
            }
            Ok(())
        },
        None => Ok(()),
    }
}

/// Where a condition can be evaluated on every row, it is true or false on
/// each of them.
pub proof fn lemma_rows_decided(table: TableView, expr: Expression, scope: Seq<ColumnSpec>)
    requires
        semantics::first_error(semantics::row_checks(table, expr, scope)) is None,
    ensures
        forall|k: PkType| #[trigger]
            table.rows.contains_key(k) ==> eval_bool(expr, table.rows[k], scope) is Ok,
{
    let checks = semantics::row_checks(table, expr, scope);
    semantics::lemma_first_error_none(checks);
    crate::order::lemma_key_order(table.rows.dom());
    let keys = key_order(table.rows.dom());
    assert forall|k: PkType| #[trigger] table.rows.contains_key(k) implies eval_bool(
        expr,
        table.rows[k],
        scope,
    ) is Ok by {
        assert(keys.contains(k));
        let j = choose|j: int| 0 <= j < keys.len() && keys[j] == k;
        lemma_ordered_row(table, j);
        assert(checks[j] is Ok);
    }
}

/// `DELETE`: removes the rows of the table on which the condition is true,
/// or all rows where there is no condition. Where the table is unknown or
/// the condition cannot be evaluated on some row, nothing changes.
pub fn delete(db: &mut Rusql, delete_def: DeleteDef) -> (r: Result<(), Error>)
    requires
        old(db).wf(),
    ensures
        final(db).wf(),
        match r {
            Ok(()) => semantics::delete(old(db)@, delete_def) == Ok::<CatalogView, Error>(
                final(db)@,
            ),
            Err(e) => semantics::delete(old(db)@, delete_def) == Err::<CatalogView, Error>(e)
                && final(db)@ == old(db)@,
        },
{
    let table = match db.get_mut_table(&delete_def.name) {
        Ok(table) => table,
        Err(e) => {
            return Err(e);
        },
    };
    let ghost before = table@;
    match &delete_def.where_expr {
        Some(expr) => {
            match keys_where(table, None, expr, true) {
                Ok(selected) => {
                    table.remove_rows(&selected);
                    proof {
                        lemma_rows_decided(before, *expr, before.header);
                        assert(table@.rows =~= semantics::rows_where(
                            before,
                            *expr,
                            before.header,
                            false,
                        ).rows);
                    }
                },
                Err(e) => {
                    proof {
                        assert(old(db)@.insert(delete_def.name@, before) =~= old(db)@);
                    }
                    return Err(e);
                },
            }
        },
        None => {
            table.clear();
        },
    }
    Ok(())
}

/// `ALTER TABLE`: renames the table or gives it one more column.
pub fn alter_table(db: &mut Rusql, alter_table_def: AlterTableDef) -> (r: Result<(), Error>)
    requires
        old(db).wf(),
    ensures
        final(db).wf(),
        match r {
            Ok(()) => semantics::alter_table(old(db)@, alter_table_def) == Ok::<
                CatalogView,
                Error,
            >(final(db)@),
            Err(e) => semantics::alter_table(old(db)@, alter_table_def) == Err::<
                CatalogView,
                Error,
            >(e) && final(db)@ == old(db)@,
        },
{
    match alter_table_def.mode {
        AlterTable::RenameTo(new_name) => db.rename_table(&alter_table_def.name, new_name),
        AlterTable::AddColumn(column_def) => {
            match db.get_mut_table(&alter_table_def.name) {
                Ok(table) => {
                    table.add_column(column_def);
                    Ok(())
                },
                Err(e) => Err(e),
            }
        },
    }
}

/// The source tables of a `SELECT`, in the order of its `FROM` clause.
pub fn lookup_tables<'a>(db: &'a Rusql, names: &Vec<String>) -> (r: Result<Vec<&'a Table>, Error>)
    requires
        db.wf(),
    ensures
        match r {
            Ok(tables) => semantics::lookup_tables(db@, names@) == Ok::<Seq<TableView>, Error>(
                semantics::table_views(tables@),
            ) && forall|i: int| 0 <= i < tables@.len() ==> (#[trigger] tables@[i]).wf(),
            Err(e) => semantics::lookup_tables(db@, names@) == Err::<Seq<TableView>, Error>(e),
        },
{
    let mut tables: Vec<&'a Table> = Vec::new();
    let mut i: usize = 0;
    assert(semantics::table_views(tables@) =~= Seq::<TableView>::empty());
    while i < names.len()
        invariant
            i <= names@.len(),
            db.wf(),
            semantics::lookup_tables(db@, names@.take(i as int)) == Ok::<Seq<TableView>, Error>(
                semantics::table_views(tables@),
            ),
            forall|j: int| 0 <= j < tables@.len() ==> (#[trigger] tables@[j]).wf(),
        decreases names@.len() - i,
    {
        proof {
            assert(names@.take(i + 1).drop_last() =~= names@.take(i as int));
            assert(names@.take(i + 1).last() == names@[i as int]);
        }
        match db.get_table(&names[i]) {
            Ok(table) => {
                let ghost before = semantics::table_views(tables@);
                tables.push(table);
                assert(semantics::table_views(tables@) =~= before.push(table@));
            },
            Err(e) => {
                proof {
                    lemma_lookup_tables_stops(db@, names@, i + 1);
                }
                return Err(e);
            },
        }
        i += 1;
    }
    assert(names@.take(i as int) =~= names@);
    Ok(tables)
}

/// Once a name of the list is unknown, the rest of the list does not
/// matter.
pub proof fn lemma_lookup_tables_stops(db: CatalogView, names: Seq<String>, n: int)
    requires
        0 <= n <= names.len(),
        semantics::lookup_tables(db, names.take(n)) is Err,
    ensures
        semantics::lookup_tables(db, names) == semantics::lookup_tables(db, names.take(n)),
    decreases names.len() - n,
{
    if n == names.len() {
        assert(names.take(n) =~= names);
    } else {
        assert(names.take(n + 1).drop_last() =~= names.take(n));
        lemma_lookup_tables_stops(db, names, n + 1);
    }
}

/// The header of the join of `tables`.
pub fn join_headers(tables: &Vec<&Table>) -> (header: TableHeader)
    ensures
        header_view(header@) == joined_header(table_headers(tables@)),
{
    let ghost headers = table_headers(tables@);
    let mut header: TableHeader = Vec::new();
    let mut t: usize = 0;
    assert(header_view(header@) =~= joined_header(headers.take(0)));
    while t < tables.len()
        invariant
            t <= tables@.len(),
            headers == table_headers(tables@),
            header_view(header@) == joined_header(headers.take(t as int)),
        decreases tables@.len() - t,
    {
        proof {
            assert(headers.take(t + 1).drop_last() =~= headers.take(t as int));
            assert(headers.take(t + 1).last() == tables@[t as int]@.header);
        }
        let source = tables[t].header();
        let ghost before = header@;
        let mut c: usize = 0;
        while c < source.len()
            invariant
                c <= source@.len(),
                header@.len() == before.len() + c,
                forall|j: int| 0 <= j < before.len() ==> header@[j] == before[j],
                forall|j: int|
                    before.len() <= j < before.len() + c ==> (#[trigger] header@[j])@ == source@[j
                        - before.len()]@,
            decreases source@.len() - c,
        {
            header.push(source[c].clone());
            c += 1;
        }
        assert(header_view(header@) =~= header_view(before) + header_view(source@));
        t += 1;
    }
    assert(headers.take(t as int) =~= headers);
    header
}

/// The input of a `SELECT`: the source tables, which are the tables that
/// the `FROM` clause names, in its order, and the table of their cross
/// product, under the joined header, with rows keyed 1, 2, 3 and so on.
/// Without a `FROM` clause there is no source table, and the input is one
/// row without columns.
pub fn generate_inputs<'a>(db: &'a Rusql, select_def: &SelectDef) -> (r: Result<
    (Vec<&'a Table>, Table),
    Error,
>)
    requires
        db.wf(),
    ensures
        match r {
            Ok((input_tables, input_product)) => semantics::select_sources(
                db@,
                select_def.table_or_subquery,
            ) matches Ok(sources) && semantics::generate_inputs(sources) == (
                input_product@,
                None::<Error>,
            ) && input_product.wf() && input_product@.header == joined_header(
                table_headers(input_tables@),
            ) && match sources {
                Some(tables) => semantics::table_views(input_tables@) == tables,
                None => input_tables@.len() == 0,
            } && forall|i: int|
                0 <= i < input_tables@.len() ==> (#[trigger] input_tables@[i]).wf(),
            Err(e) => match semantics::select_sources(db@, select_def.table_or_subquery) {
                Ok(sources) => semantics::generate_inputs(sources).1 == Some(e),
                Err(failed) => failed == e,
            },
        },
{
    match &select_def.table_or_subquery {
        Some(names) => {
            let input_tables = match lookup_tables(db, names) {
                Ok(tables) => tables,
                Err(e) => {
                    return Err(e);
                },
            };
            let mut input_product = Table::new_result_table(join_headers(&input_tables));
            proof {
                let views = semantics::table_views(input_tables@);
                assert(views.skip(0) =~= views);
                assert(semantics::headers_of(views) =~= table_headers(input_tables@));
            }
            let ghost fresh = input_product@;
            match product(&input_tables, 0, &mut input_product, None) {
                Ok(()) => {
                    proof {
                        let views = semantics::table_views(input_tables@);
                        assert(semantics::select_sources(db@, select_def.table_or_subquery)
                            == Ok::<Option<Seq<TableView>>, Error>(Some(views)));
                        assert(fresh == TableView::result_table(
                            joined_header(semantics::headers_of(views)),
                        ));
                        assert(semantics::product_of(None, views) == semantics::joined_rows(views));
                        lemma_insert_keeps_header(fresh, semantics::joined_rows(views), None);
                    }
                    Ok((input_tables, input_product))
                },
                Err(e) => Err(e),
            }
        },
        None => {
            let mut input_product = Table::new_result_table(Vec::new());
            let empty_row: TableRow = Vec::new();
            let input_tables: Vec<&'a Table> = Vec::new();
            proof {
                assert(header_view(Seq::<ColumnDef>::empty()) =~= Seq::<ColumnSpec>::empty());
                assert(row_view(empty_row@) =~= Seq::<Value>::empty());
                assert(table_headers(input_tables@) =~= Seq::<Seq<ColumnSpec>>::empty());
                lemma_insert_one(input_product@, Seq::<Value>::empty(), None);
            }
            let ghost fresh = input_product@;
            match input_product.push_row(empty_row) {
                Ok(()) => {
                    proof {
                        assert(fresh == TableView::result_table(Seq::<ColumnSpec>::empty()));
                        assert(semantics::select_sources(db@, select_def.table_or_subquery)
                            == Ok::<Option<Seq<TableView>>, Error>(None));
                    }
                    Ok((input_tables, input_product))
                },
                Err(e) => Err(e),
            }
        },
    }
}

/// Once an input row cannot be projected, the rows after it do not matter.
pub proof fn lemma_generate_rows_stops(
    results: TableView,
    rows: Seq<Seq<Value>>,
    exprs: Seq<Expression>,
    scope: Seq<ColumnSpec>,
    n: int,
)
    requires
        0 <= n <= rows.len(),
        semantics::generate_rows(results, rows.take(n), exprs, scope).1 is Some,
    ensures
        semantics::generate_rows(results, rows, exprs, scope) == semantics::generate_rows(
            results,
            rows.take(n),
            exprs,
            scope,
        ),
    decreases rows.len() - n,
{
    if n == rows.len() {
        assert(rows.take(n) =~= rows);
    } else {
        assert(rows.take(n + 1).drop_last() =~= rows.take(n));
        lemma_generate_rows_stops(results, rows, exprs, scope, n + 1);
    }
}

/// The result of a `SELECT` from its filtered input: with an asterisk, the
/// header and the rows of the input; with expressions, the projection of
/// each row. The rows are keyed 1, 2, 3 and so on, in the key order of the
/// input. Column names are looked up in the headers of `input_tables`.
pub fn generate_result_set(
    input_product: Table,
    input_tables: &Vec<&Table>,
    select_def: &SelectDef,
) -> (r: Result<Table, Error>)
    requires
        input_product.wf(),
    ensures
        match r {
            Ok(results) => semantics::generate_result_set(
                input_product@,
                select_def.result_column,
                joined_header(table_headers(input_tables@)),
            ) == (results@, None::<Error>) && results.wf(),
            Err(e) => semantics::generate_result_set(
                input_product@,
                select_def.result_column,
                joined_header(table_headers(input_tables@)),
            ).1 == Some(e),
        },
{
    let ghost scope = joined_header(table_headers(input_tables@));
    let ghost source = input_product@.ordered_rows();
    let keys = input_product.keys();
    proof {
        if keys@.len() > 0 {
            lemma_ordered_row(input_product@, 0);
        }
    }
    match &select_def.result_column {
        ResultColumn::Asterisk => {
            let mut results = Table::new_result_table(clone_header(input_product.header()));
            let ghost fresh = results@;
            let mut i: usize = 0;
            assert(source.take(0) =~= Seq::<Seq<Value>>::empty());
            while i < keys.len()
                invariant
                    i <= keys@.len(),
                    keys@ == key_order(input_product@.rows.dom()),
                    source == input_product@.ordered_rows(),
                    source.len() == keys@.len(),
                    select_def.result_column is Asterisk,
                    results.wf(),
                    fresh == TableView::result_table(input_product@.header),
                    fresh.insert(source.take(i as int), None) == (results@, None::<Error>),
                decreases keys@.len() - i,
            {
                proof {
                    lemma_ordered_row(input_product@, i as int);
                    assert(source.take(i + 1).drop_last() =~= source.take(i as int));
                    assert(source.take(i + 1).last() == source[i as int]);
                }
                match input_product.get_row(keys[i]) {
                    Some(row) => {
                        match results.push_row(clone_row(row)) {
                            Ok(()) => {},
                            Err(e) => {
                                proof {
                                    lemma_insert_stops(fresh, source, None, i + 1);
                                }
                                return Err(e);
                            },
                        }
                    },
                    None => {},
                }
                i += 1;
            }
            assert(source.take(i as int) =~= source);
            Ok(results)
        },
        ResultColumn::Expressions(exprs) => {
            let mut results = Table::new_result_table(Vec::new());
            let ghost fresh = results@;
            let mut i: usize = 0;
            proof {
                assert(header_view(Seq::<ColumnDef>::empty()) =~= Seq::<ColumnSpec>::empty());
                assert(source.take(0) =~= Seq::<Seq<Value>>::empty());
            }
            while i < keys.len()
                invariant
                    i <= keys@.len(),
                    keys@ == key_order(input_product@.rows.dom()),
                    source == input_product@.ordered_rows(),
                    source.len() == keys@.len(),
                    scope == joined_header(table_headers(input_tables@)),
                    results.wf(),
                    fresh == TableView::result_table(Seq::<ColumnSpec>::empty()),
                    select_def.result_column == ResultColumn::Expressions(*exprs),
                    semantics::generate_rows(fresh, source.take(i as int), exprs@, scope) == (
                        results@,
                        None::<Error>,
                    ),
                decreases keys@.len() - i,
            {
                proof {
                    lemma_ordered_row(input_product@, i as int);
                    assert(source.take(i + 1).drop_last() =~= source.take(i as int));
                    assert(source.take(i + 1).last() == source[i as int]);
                }
                match input_product.get_row(keys[i]) {
                    Some(row) => {
                        match generate_row_from_expressions(&mut results, row, exprs, input_tables) {
                            Ok(()) => {},
                            Err(e) => {
                                proof {
                                    lemma_generate_rows_stops(fresh, source, exprs@, scope, i + 1);
                                }
                                return Err(e);
                            },
                        }
                    },
                    None => {},
                }
                i += 1;
            }
            assert(source.take(i as int) =~= source);
            Ok(results)
        },
    }
}

/// `SELECT`: builds the cross product of the source tables, keeps the rows
/// that the `WHERE` clause lets through and projects them. The result is
/// handed back, and each of its rows, in key order, is also handed to
/// `callback` together with the result's header.
pub fn select<F: Fn(&TableRow, &TableHeader)>(
    db: &Rusql,
    select_def: &SelectDef,
    callback: &F,
) -> (r: Result<Table, Error>)
    requires
        db.wf(),
        forall|row: &TableRow, header: &TableHeader| callback.requires((row, header)),
    ensures
        match r {
            Ok(results) => semantics::select(db@, *select_def) == Ok::<TableView, Error>(
                results@,
            ) && results.wf() && forall|k: PkType| #[trigger]
                results.stored().contains_key(k) ==> callback.ensures(
                    (&results.stored()[k], &results.columns()),
                    (),
                ),
            Err(e) => semantics::select(db@, *select_def) == Err::<TableView, Error>(e),
        },
{
    let (input_tables, mut input_product) = match generate_inputs(db, select_def) {
        Ok(inputs) => inputs,
        Err(e) => {
            return Err(e);
        },
    };
    let ghost input = input_product@;
    match filter_inputs(&mut input_product, &input_tables, select_def) {
        Ok(()) => {},
        Err(e) => {
            return Err(e);
        },
    }
    proof {
        if select_def.where_expr is Some {
            assert(input_product@.header == input.header);
        }
    }
    let results_table = match generate_result_set(input_product, &input_tables, select_def) {
        Ok(results) => results,
        Err(e) => {
            return Err(e);
        },
    };
    let keys = results_table.keys();
    proof {
        crate::order::lemma_key_order(results_table@.rows.dom());
        results_table.lemma_view();
        lemma_rows_view_dom(results_table.stored());
    }
    let mut i: usize = 0;
    while i < keys.len()
        invariant
            i <= keys@.len(),
            crate::order::lists_keys(keys@, results_table.stored().dom()),
            forall|row: &TableRow, header: &TableHeader| callback.requires((row, header)),
            forall|j: int|
                0 <= j < i ==> callback.ensures(
                    (&results_table.stored()[#[trigger] keys@[j]], &results_table.columns()),
                    (),
                ),
        decreases keys@.len() - i,
    {
        proof {
            assert(keys@.contains(keys@[i as int]));
            results_table.lemma_view();
            lemma_rows_view_dom(results_table.stored());
        }
        match results_table.get_row(keys[i]) {
            Some(row) => {
                callback(row, results_table.header());
            },
            None => {},
        }
        i += 1;
    }
    proof {
        assert forall|k: PkType| #[trigger]
            results_table.stored().contains_key(k) implies callback.ensures(
            (&results_table.stored()[k], &results_table.columns()),
            (),
        ) by {
            assert(keys@.contains(k));
            let j = choose|j: int| 0 <= j < keys@.len() && keys@[j] == k;
            assert(callback.ensures(
                (&results_table.stored()[keys@[j]], &results_table.columns()),
                (),
            ));
        }
    }
    Ok(results_table)
}

/// `INSERT`: stores literal rows, or the rows of the result of a nested
/// `SELECT` as they are, in the table. The first row that is refused ends
/// the statement; the rows before it stay stored. The other kinds of data
/// source do nothing.
pub fn insert(db: &mut Rusql, insert_def: InsertDef) -> (r: Result<(), Error>)
    requires
        old(db).wf(),
    ensures
        final(db).wf(),
        final(db)@ == semantics::insert(old(db)@, insert_def).0,
        match r {
            Ok(()) => semantics::insert(old(db)@, insert_def).1 is None,
            Err(e) => semantics::insert(old(db)@, insert_def).1 == Some(e),
        },
{
    let InsertDef { table_name, column_names, data_source } = insert_def;
    match data_source {
        InsertDataSource::Values(column_data) => {
            let table = match db.get_mut_table(&table_name) {
                Ok(table) => table,
                Err(e) => {
                    return Err(e);
                },
            };
            table.insert(column_data, &column_names)
        },
        InsertDataSource::Select(select_def) => {
            let ignore = |_row: &TableRow, _header: &TableHeader| {};
            let results_table = match select(db, &select_def, &ignore) {
                Ok(results) => results,
                Err(e) => {
                    return Err(e);
                },
            };
            let rows = results_table.rows();
            let table = match db.get_mut_table(&table_name) {
                Ok(table) => table,
                Err(e) => {
                    return Err(e);
                },
            };
            table.insert(rows, &None)
        },
        InsertDataSource::DefaultValues => Ok(()),
        InsertDataSource::Error => Ok(()),
    }
}

/// Once an assignment of the list fails, the rest of the list does not
/// matter.
pub proof fn lemma_assign_stops(
    row: Seq<Value>,
    header: Seq<ColumnSpec>,
    set: Seq<(String, Expression)>,
    n: int,
)
    requires
        0 <= n <= set.len(),
        semantics::assign(row, header, set.take(n)) is Err,
    ensures
        semantics::assign(row, header, set) == semantics::assign(row, header, set.take(n)),
    decreases set.len() - n,
{
    if n == set.len() {
        assert(set.take(n) =~= set);
    } else {
        assert(set.take(n + 1).drop_last() =~= set.take(n));
        lemma_assign_stops(row, header, set, n + 1);
    }
}

/// Assignments leave the width of a row as it is.
pub proof fn lemma_assign_len(
    row: Seq<Value>,
    header: Seq<ColumnSpec>,
    set: Seq<(String, Expression)>,
)
    ensures
        semantics::assign(row, header, set) matches Ok(after) ==> after.len() == row.len(),
    decreases set.len(),
{
    if set.len() > 0 {
        lemma_assign_len(row, header, set.drop_last());
        if has_column(header, set.last().0@) {
            lemma_column_index_some(header, set.last().0@);
        }
    }
}

/// The row after the assignments of an `UPDATE`, applied in order, each
/// one to what those before it left.
pub fn assign_row(row: &TableRow, header: &TableHeader, set: &Vec<(String, Expression)>) -> (r:
    Result<TableRow, Error>)
    ensures
        match r {
            Ok(after) => semantics::assign(row_view(row@), header_view(header@), set@) == Ok::<
                Seq<Value>,
                Error,
            >(row_view(after@)),
            Err(e) => semantics::assign(row_view(row@), header_view(header@), set@) == Err::<
                Seq<Value>,
                Error,
            >(e),
        },
{
    let ghost cells = row_view(row@);
    let ghost columns = header_view(header@);
    let mut new_row = clone_row(row);
    let mut i: usize = 0;
    while i < set.len()
        invariant
            i <= set@.len(),
            cells == row_view(row@),
            columns == header_view(header@),
            semantics::assign(cells, columns, set@.take(i as int)) == Ok::<Seq<Value>, Error>(
                row_view(new_row@),
            ),
        decreases set@.len() - i,
    {
        proof {
            assert(set@.take(i + 1).drop_last() =~= set@.take(i as int));
            assert(set@.take(i + 1).last() == set@[i as int]);
        }
        let position = match find_column(header, &set[i].0) {
            Some(position) => position,
            None => {
                proof {
                    lemma_assign_stops(cells, columns, set@, i + 1);
                }
                return Err(Error::UnknownColumn);
            },
        };
        let value = match ExpressionEvaluator::new(&new_row, header).eval_value(&set[i].1) {
            Ok(value) => value,
            Err(e) => {
                proof {
                    lemma_assign_stops(cells, columns, set@, i + 1);
                }
                return Err(e);
            },
        };
        if position >= new_row.len() {
            proof {
                lemma_assign_stops(cells, columns, set@, i + 1);
            }
            return Err(Error::SchemaWidthMismatch);
        }
        let ghost before = row_view(new_row@);
        new_row[position] = value;
        assert(row_view(new_row@) =~= before.update(position as int, value@));
        i += 1;
    }
    assert(set@.take(i as int) =~= set@);
    Ok(new_row)
}

/// One row after an `UPDATE`: a copy of the row where the condition is
/// false on it, the row after the assignments where it is true.
pub fn update_row(
    row: &TableRow,
    header: &TableHeader,
    set: &Vec<(String, Expression)>,
    where_expr: &Option<Expression>,
) -> (r: Result<TableRow, Error>)
    ensures
        match r {
            Ok(after) => semantics::update_row(
                row_view(row@),
                header_view(header@),
                set@,
                *where_expr,
            ) == Ok::<Seq<Value>, Error>(row_view(after@)),
            Err(e) => semantics::update_row(
                row_view(row@),
                header_view(header@),
                set@,
                *where_expr,
            ) == Err::<Seq<Value>, Error>(e),
        },
{
    let selected = match where_expr {
        Some(expr) => match ExpressionEvaluator::new(row, header).eval_bool(expr) {
            Ok(truth) => truth,
            Err(e) => {
                return Err(e);
            },
        },
        None => true,
    };
    if selected {
        assign_row(row, header, set)
    } else {
        Ok(clone_row(row))
    }
}

/// What `UPDATE` makes of each row of `table`, in key order.
pub open spec fn update_outcomes(
    table: TableView,
    set: Seq<(String, Expression)>,
    where_expr: Option<Expression>,
) -> Seq<Result<Seq<Value>, Error>> {
    table.ordered_rows().map_values(
        |row: Seq<Value>| semantics::update_row(row, table.header, set, where_expr),
    )
}

/// `UPDATE`: applies the assignments, in the order given, to every row on
/// which the condition is true, or to every row where there is no
/// condition. Rows stay under their keys. Where the table is unknown or
/// some row cannot be updated, nothing changes.
#[verifier::loop_isolation(false)]
pub fn update(db: &mut Rusql, update_def: UpdateDef) -> (r: Result<(), Error>)
    requires
        old(db).wf(),
    ensures
        final(db).wf(),
        match r {
            Ok(()) => semantics::update(old(db)@, update_def) == Ok::<CatalogView, Error>(
                final(db)@,
            ),
            Err(e) => semantics::update(old(db)@, update_def) == Err::<CatalogView, Error>(e)
                && final(db)@ == old(db)@,
        },
{
    let table = match db.get_mut_table(&update_def.name) {
        Ok(table) => table,
        Err(e) => {
            return Err(e);
        },
    };
    let ghost before = table@;
    let ghost outcomes = update_outcomes(before, update_def.set@, update_def.where_expr);
    let keys = table.keys();
    let mut new_rows: Vec<TableRow> = Vec::new();
    let mut i: usize = 0;
    proof {
        crate::order::lemma_key_order(before.rows.dom());
        if keys@.len() > 0 {
            lemma_ordered_row(before, 0);
        }
        assert(outcomes.take(0) =~= Seq::<Result<Seq<Value>, Error>>::empty());
    }
    while i < keys.len()
        invariant
            i <= keys@.len(),
            table@ == before,
            table.wf(),
            keys@ == key_order(before.rows.dom()),
            outcomes == update_outcomes(before, update_def.set@, update_def.where_expr),
            outcomes.len() == keys@.len(),
            new_rows@.len() == i,
            semantics::first_error(outcomes.take(i as int)) is None,
            forall|j: int|
                0 <= j < i ==> outcomes[j] == Ok::<Seq<Value>, Error>(
                    row_view((#[trigger] new_rows@[j])@),
                ),
        decreases keys@.len() - i,
    {
        proof {
            lemma_ordered_row(before, i as int);
            assert(outcomes.take(i + 1).drop_last() =~= outcomes.take(i as int));
            assert(outcomes.take(i + 1).last() == outcomes[i as int]);
        }
        match table.get_row(keys[i]) {
            Some(row) => {
                match update_row(row, table.header(), &update_def.set, &update_def.where_expr) {
                    Ok(new_row) => {
                        new_rows.push(new_row);
                    },
                    Err(e) => {
                        proof {
                            semantics::lemma_first_error_stops(outcomes, i + 1);
                            assert(old(db)@.insert(update_def.name@, before) =~= old(db)@);
                        }
                        return Err(e);
                    },
                }
            },
            None => {
                new_rows.push(Vec::new());
            },
        }
        i += 1;
    }
    assert(outcomes.take(i as int) =~= outcomes);
    let ghost target = TableView {
        rows: before.rows.map_values(
            |row: Seq<Value>|
                semantics::update_row(
                    row,
                    before.header,
                    update_def.set@,
                    update_def.where_expr,
                )->Ok_0,
        ),
        ..before
    };
    let ghost planned = new_rows@;
    assert(new_rows@.len() == new_rows.len());
    let mut n: usize = 0;
    for new_row in it: new_rows
        invariant
            n == it.index(),
            it.seq() == planned,
            planned.len() == keys@.len(),
            planned.len() <= usize::MAX,
            table.wf(),
            crate::order::lists_keys(keys@, before.rows.dom()),
            keys@ == key_order(before.rows.dom()),
            before.well_formed(),
            outcomes == update_outcomes(before, update_def.set@, update_def.where_expr),
            outcomes.len() == keys@.len(),
            forall|j: int|
                0 <= j < planned.len() ==> outcomes[j] == Ok::<Seq<Value>, Error>(
                    row_view((#[trigger] planned[j])@),
                ),
            table@ == (TableView { rows: table@.rows, ..before }),
            table@.rows.dom() == before.rows.dom(),
            forall|j: int|
                0 <= j < n ==> table@.rows[#[trigger] keys@[j]] == row_view(planned[j]@),
            forall|j: int|
                n <= j < keys@.len() ==> table@.rows[#[trigger] keys@[j]] == before.rows[keys@[j]],
    {
        let ghost during = table@;
        proof {
            lemma_ordered_row(before, n as int);
            assert(keys@.contains(keys@[n as int]));
            let row = before.rows[keys@[n as int]];
            lemma_assign_len(row, before.header, update_def.set@);
            assert(outcomes[n as int] == semantics::update_row(
                row,
                before.header,
                update_def.set@,
                update_def.where_expr,
            ));
            assert(row_view(new_row@).len() == new_row@.len());
        }
        let replaced = table.replace_row(keys[n], new_row);
        proof {
            assert(replaced);
            assert(table@.rows.dom() =~= before.rows.dom());
            assert forall|j: int| 0 <= j < n + 1 implies table@.rows[#[trigger] keys@[j]]
                == row_view(planned[j]@) by {
                if j < n {
                    assert(keys@[j] < keys@[n as int]);
                    assert(during.rows[keys@[j]] == row_view(planned[j]@));
                }
            }
            assert forall|j: int| n + 1 <= j < keys@.len() implies table@.rows[#[trigger] keys@[j]]
                == before.rows[keys@[j]] by {
                assert(keys@[n as int] < keys@[j]);
                assert(during.rows[keys@[j]] == before.rows[keys@[j]]);
            }
        }
        n += 1;
    }
    proof {
        assert forall|k: PkType| #[trigger] target.rows.contains_key(k) implies table@.rows[k]
            == target.rows[k] by {
            assert(keys@.contains(k));
            let j = choose|j: int| 0 <= j < keys@.len() && keys@[j] == k;
            lemma_ordered_row(before, j);
            assert(table@.rows[keys@[j]] == row_view(planned[j]@));
            assert(outcomes[j] == semantics::update_row(
                before.rows[k],
                before.header,
                update_def.set@,
                update_def.where_expr,
            ));
        }
        assert(table@.rows =~= target.rows);
        assert(table@ == target);
    }
    Ok(())
}

/// Once a statement of the batch fails, the statements after it do not
/// matter.
pub proof fn lemma_execute_all_stops(db: CatalogView, statements: Seq<RusqlStatement>, n: int)
    requires
        0 <= n <= statements.len(),
        semantics::execute_all(db, statements.take(n)).failed is Some,
    ensures
        semantics::execute_all(db, statements) == semantics::execute_all(db, statements.take(n)),
    decreases statements.len() - n,
{
    if n == statements.len() {
        assert(statements.take(n) =~= statements);
    } else {
        assert(statements.take(n + 1).drop_last() =~= statements.take(n));
        lemma_execute_all_stops(db, statements, n + 1);
    }
}

/// Content of an optional table.
pub open spec fn opt_table_view(table: Option<Table>) -> Option<TableView> {
    match table {
        Some(table) => Some(table@),
        None => None,
    }
}

/// Runs the statements in order against the catalog. The first statement
/// that fails ends the batch with its error; what was done until then
/// stays done. Each `SELECT` hands its rows to `callback`; the result
/// table of the first `SELECT` of the batch is handed back.
#[verifier::loop_isolation(false)]
pub fn rusql_exec<F: Fn(&TableRow, &TableHeader)>(
    db: &mut Rusql,
    statements: Vec<RusqlStatement>,
    callback: F,
) -> (r: Result<Option<Table>, Error>)
    requires
        old(db).wf(),
        forall|row: &TableRow, header: &TableHeader| callback.requires((row, header)),
    ensures
        final(db).wf(),
        final(db)@ == semantics::execute_all(old(db)@, statements@).db,
        match r {
            Ok(result) => semantics::execute_all(old(db)@, statements@).failed is None
                && semantics::execute_all(old(db)@, statements@).result == opt_table_view(result)
                && (result matches Some(table) ==> table.wf() && forall|k: PkType| #[trigger]
                    table.stored().contains_key(k) ==> callback.ensures(
                        (&table.stored()[k], &table.columns()),
                        (),
                    )),
            Err(e) => semantics::execute_all(old(db)@, statements@).failed == Some(e),
        },
{
    let ghost all = statements@;
    assert(statements@.len() == statements.len());
    let mut first: Option<Table> = None;
    let mut n: usize = 0;
    for statement in it: statements
        invariant
            n == it.index(),
            it.seq() == all,
            all.len() <= usize::MAX,
            db.wf(),
            semantics::execute_all(old(db)@, all.take(n as int)) == (semantics::Effect {
                db: db@,
                failed: None,
                result: opt_table_view(first),
            }),
            first matches Some(table) ==> table.wf() && forall|k: PkType| #[trigger]
                table.stored().contains_key(k) ==> callback.ensures(
                    (&table.stored()[k], &table.columns()),
                    (),
                ),
    {
        proof {
            assert(all.take(n + 1).drop_last() =~= all.take(n as int));
            assert(all.take(n + 1).last() == statement);
        }
        let ghost before = db@;
        let done = match statement {
            RusqlStatement::AlterTable(alter_table_def) => alter_table(db, alter_table_def),
            RusqlStatement::CreateTable(table_def) => {
                db.create_table(table_def);
                Ok(())
            },
            RusqlStatement::Delete(delete_def) => delete(db, delete_def),
            RusqlStatement::DropTable(drop_table_def) => {
                db.drop_table(&drop_table_def.name);
                Ok(())
            },
            RusqlStatement::Insert(insert_def) => insert(db, insert_def),
            RusqlStatement::Select(select_def) => match select(db, &select_def, &callback) {
                Ok(table) => {
                    if first.is_none() {
                        first = Some(table);
                    }
                    Ok(())
                },
                Err(e) => Err(e),
            },
            RusqlStatement::Update(update_def) => update(db, update_def),
        };
        match done {
            Ok(()) => {},
            Err(e) => {
                proof {
                    lemma_execute_all_stops(old(db)@, all, n + 1);
                }
                return Err(e);
            },
        }
        n += 1;
    }
    assert(all.take(n as int) =~= all);
    Ok(first)
}

} // verus!
