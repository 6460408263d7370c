//! What holds of the engine whatever the tables and the statements are.

use vstd::prelude::*;
use crate::definitions::{
    values_equal, BinaryOperator, ColumnSpec, Expression, LiteralValue, SelectDef, Value,
};
use crate::error::Error;
use crate::expressions::{eval, eval_bool, joined_header, Outcome};
use crate::order::{key_order, lemma_key_order, lemma_key_order_is, lemma_key_order_len, lists_keys};
use crate::rusql::CatalogView;
use crate::semantics;
use crate::table::{column_index, lemma_ordered_row, PkType, TableView};

verus! {

/// The keys 1, 2, 3 and so on, up to `count`.
pub open spec fn surrogate_keys(count: nat) -> Seq<PkType> {
    Seq::new(count, |i: int| (i + 1) as PkType)
}

/// Rows stored in an empty result table get the keys 1, 2, 3 and so on, in
/// their order; none is refused so long as each has the width of the
/// header and the keys do not run out.
proof fn lemma_collect(header: Seq<ColumnSpec>, rows: Seq<Seq<Value>>)
    requires
        rows.len() <= PkType::MAX,
        forall|i: int| 0 <= i < rows.len() ==> (#[trigger] rows[i]).len() == header.len(),
    ensures
        ({
            let (table, failed) = TableView::result_table(header).insert(rows, None);
            &&& failed is None
            &&& table.well_formed()
            &&& table.header == header
            &&& table.name == Seq::<char>::empty()
            &&& table.pk is None
            &&& table.max_pk == rows.len()
            &&& key_order(table.rows.dom()) == surrogate_keys(rows.len())
            &&& table.rows.dom().len() == rows.len()
            &&& table.ordered_rows() == rows
            &&& forall|i: int|
                0 <= i < rows.len() ==> #[trigger] table.rows.contains_key((i + 1) as PkType)
            &&& forall|i: int|
                0 <= i < rows.len() ==> #[trigger] table.rows[(i + 1) as PkType] == rows[i]
        }),
    decreases rows.len(),
{
    let fresh = TableView::result_table(header);
    let (table, failed) = fresh.insert(rows, None);
    if rows.len() == 0 {
        crate::order::lemma_key_order_empty();
        assert(table.rows.dom() =~= Set::<PkType>::empty());
        assert(surrogate_keys(0) =~= Seq::<PkType>::empty());
        assert(table.ordered_rows() =~= rows);
    } else {
        let front = rows.drop_last();
        assert forall|i: int| 0 <= i < front.len() implies (#[trigger] front[i]).len()
            == header.len() by {
            assert(front[i] == rows[i]);
        }
        lemma_collect(header, front);
        let before = fresh.insert(front, None).0;
        let key = (front.len() + 1) as PkType;
        assert(before.push_row(rows.last()) == Ok::<TableView, Error>(
            before.store(key, rows.last()),
        ));
        assert(table == before.store(key, rows.last()));
        let keys = surrogate_keys(rows.len());
        assert forall|k: PkType| table.rows.dom().contains(k) <==> keys.contains(k) by {
            lemma_key_order(before.rows.dom());
            let old_keys = surrogate_keys(front.len());
            if table.rows.dom().contains(k) {
                if k == key {
                    assert(keys[rows.len() - 1] == k);
                } else {
                    assert(old_keys.contains(k));
                    let i = choose|i: int| 0 <= i < old_keys.len() && old_keys[i] == k;
                    assert(keys[i] == k);
                }
            }
            if keys.contains(k) {
                let i = choose|i: int| 0 <= i < keys.len() && keys[i] == k;
                if i < front.len() {
                    assert(old_keys[i] == k);
                    assert(old_keys.contains(k));
                }
            }
        }
        assert(lists_keys(keys, table.rows.dom()));
        lemma_key_order_is(keys, table.rows.dom());
        lemma_key_order_len(table.rows.dom());
        assert forall|i: int| 0 <= i < rows.len() implies #[trigger] table.rows.contains_key(
            (i + 1) as PkType,
        ) by {
            if i < front.len() {
                assert(before.rows.contains_key((i + 1) as PkType));
            }
        }
        assert forall|i: int| 0 <= i < rows.len() implies #[trigger] table.rows[(i + 1) as PkType]
            == rows[i] by {
            if i < front.len() {
                assert(before.rows[(i + 1) as PkType] == front[i]);
            }
        }
        assert(table.ordered_rows() =~= rows);
        assert forall|k: PkType| #[trigger] table.rows.contains_key(k) implies table.rows[k].len()
            == table.header.len() && k <= table.max_pk by {
            assert(keys.contains(k));
            let i = choose|i: int| 0 <= i < keys.len() && keys[i] == k;
            assert(table.rows[(i + 1) as PkType] == rows[i]);
        }
    }
}

/// The product of the row counts of `tables`.
pub open spec fn row_count_product(tables: Seq<TableView>) -> nat
    decreases tables.len(),
{
    if tables.len() == 0 {
        1
    } else {
        tables.first().rows.dom().len() * row_count_product(tables.drop_first())
    }
}

/// The sum of the header widths of `tables`.
pub open spec fn total_width(tables: Seq<TableView>) -> nat
    decreases tables.len(),
{
    if tables.len() == 0 {
        0
    } else {
        tables.first().header.len() + total_width(tables.drop_first())
    }
}

/// A well-formed table hands out as many rows as it has keys, each as
/// wide as its header.
proof fn lemma_ordered_rows(table: TableView)
    requires
        table.well_formed(),
    ensures
        table.ordered_rows().len() == table.rows.dom().len(),
        forall|i: int|
            0 <= i < table.ordered_rows().len() ==> (#[trigger] table.ordered_rows()[i]).len()
                == table.header.len(),
{
    lemma_key_order_len(table.rows.dom());
    assert forall|i: int| 0 <= i < table.ordered_rows().len() implies (
    #[trigger] table.ordered_rows()[i]).len() == table.header.len() by {
        lemma_ordered_row(table, i);
    }
}

/// The cross product has one row for each choice of one row from each
/// table, and each of its rows is as wide as all the headers together.
proof fn lemma_product_rows(prefix: Seq<Value>, tables: Seq<TableView>)
    requires
        forall|t: int| 0 <= t < tables.len() ==> (#[trigger] tables[t]).well_formed(),
    ensures
        semantics::product_rows(prefix, tables).len() == row_count_product(tables),
        forall|i: int|
            0 <= i < semantics::product_rows(prefix, tables).len() ==> (
            #[trigger] semantics::product_rows(prefix, tables)[i]).len() == prefix.len()
                + total_width(tables),
    decreases tables.len(), 0nat,
{
    if tables.len() > 0 {
        let first = tables.first();
        let rest = tables.drop_first();
        assert(first.well_formed());
        assert forall|t: int| 0 <= t < rest.len() implies (#[trigger] rest[t]).well_formed() by {
            assert(rest[t] == tables[t + 1]);
        }
        lemma_ordered_rows(first);
        lemma_extend_rows(prefix, first.ordered_rows(), rest, first.header.len());
    }
}

/// The rows made from `rows` and the tables of `rest`: as many as `rows`
/// times the product of the row counts of `rest`.
proof fn lemma_extend_rows(
    prefix: Seq<Value>,
    rows: Seq<Seq<Value>>,
    rest: Seq<TableView>,
    width: nat,
)
    requires
        forall|t: int| 0 <= t < rest.len() ==> (#[trigger] rest[t]).well_formed(),
        forall|i: int| 0 <= i < rows.len() ==> (#[trigger] rows[i]).len() == width,
    ensures
        semantics::extend_rows(prefix, rows, rest).len() == rows.len() * row_count_product(rest),
        forall|i: int|
            0 <= i < semantics::extend_rows(prefix, rows, rest).len() ==> (
            #[trigger] semantics::extend_rows(prefix, rows, rest)[i]).len() == prefix.len() + width
                + total_width(rest),
    decreases rest.len(), rows.len() + 1,
{
    if rows.len() > 0 {
        let front = rows.drop_last();
        assert forall|i: int| 0 <= i < front.len() implies (#[trigger] front[i]).len() == width by {
            assert(front[i] == rows[i]);
        }
        lemma_extend_rows(prefix, front, rest, width);
        lemma_product_rows(prefix + rows.last(), rest);
        let done = semantics::extend_rows(prefix, front, rest);
        let more = semantics::product_rows(prefix + rows.last(), rest);
        let all = semantics::extend_rows(prefix, rows, rest);
        assert(all == done + more);
        let c = row_count_product(rest);
        assert(rows.len() * c == front.len() * c + c) by (nonlinear_arith)
            requires
                rows.len() == front.len() + 1,
        ;
        assert forall|i: int| 0 <= i < all.len() implies (#[trigger] all[i]).len() == prefix.len()
            + width + total_width(rest) by {
            if i < done.len() {
                assert(all[i] == done[i]);
            } else {
                assert(all[i] == more[i - done.len()]);
            }
        }
    } else {
        assert(rows.len() * row_count_product(rest) == 0) by (nonlinear_arith)
            requires
                rows.len() == 0,
        ;
    }
}

/// The joined header is as wide as all the headers together.
proof fn lemma_joined_header_len(tables: Seq<TableView>)
    ensures
        joined_header(semantics::headers_of(tables)).len() == total_width(tables),
    decreases tables.len(),
{
    let headers = semantics::headers_of(tables);
    if tables.len() > 0 {
        lemma_joined_header_len(tables.drop_last());
        assert(headers.drop_last() =~= semantics::headers_of(tables.drop_last()));
        lemma_total_width_last(tables);
    }
}

/// The sum of the widths, taken from the end.
proof fn lemma_total_width_last(tables: Seq<TableView>)
    requires
        tables.len() > 0,
    ensures
        total_width(tables) == total_width(tables.drop_last()) + tables.last().header.len(),
    decreases tables.len(),
{
    if tables.len() == 1 {
        assert(tables.drop_first() =~= tables.drop_last());
    } else {
        lemma_total_width_last(tables.drop_first());
        assert(tables.drop_first().drop_last() =~= tables.drop_last().drop_first());
    }
}

/// Schema growth: a new column makes the header one longer and every row
/// one cell longer; the new cell is `Null`, and what was there stays.
pub proof fn law_schema_growth(table: TableView, column: ColumnSpec)
    requires
        table.well_formed(),
    ensures
        table.add_column(column).well_formed(),
        table.add_column(column).header.len() == table.header.len() + 1,
        table.add_column(column).header.last() == column,
        table.add_column(column).header.drop_last() == table.header,
        table.add_column(column).rows.dom() == table.rows.dom(),
        forall|k: PkType| #[trigger]
            table.rows.contains_key(k) ==> {
                let row = table.add_column(column).rows[k];
                &&& row.len() == table.rows[k].len() + 1
                &&& row.last() == Value::Null
                &&& row.drop_last() == table.rows[k]
            },
{
    let after = table.add_column(column);
    assert(after.header.drop_last() =~= table.header);
    assert(after.rows.dom() =~= table.rows.dom());
    assert forall|k: PkType| #[trigger] table.rows.contains_key(k) implies {
        let row = after.rows[k];
        &&& row.len() == table.rows[k].len() + 1
        &&& row.last() == Value::Null
        &&& row.drop_last() == table.rows[k]
    } by {
        assert(after.rows[k] == table.rows[k].push(Value::Null));
        assert(after.rows[k].drop_last() =~= table.rows[k]);
    }
    assert forall|k: PkType| #[trigger] after.rows.contains_key(k) implies after.rows[k].len()
        == after.header.len() && k <= after.max_pk by {
        assert(table.rows.contains_key(k));
    }
}

/// Surrogate keys: two rows that are inserted by column names and leave
/// the primary key out get the next two integers above the high-water
/// mark as keys, the second above the first, and hold them in their
/// primary-key cell.
pub proof fn law_surrogate_keys(
    table: TableView,
    names: Seq<Seq<char>>,
    first: Seq<Value>,
    second: Seq<Value>,
)
    requires
        table.well_formed(),
        table.pk is Some,
        names.len() == first.len(),
        names.len() == second.len(),
        table.scatter(names, first) matches Ok(row) && row[table.pk->0] is Null,
        table.scatter(names, second) matches Ok(row) && row[table.pk->0] is Null,
        table.max_pk + 2 <= i64::MAX,
    ensures
        ({
            let (after, failed) = table.insert(seq![first, second], Some(names));
            let one = (table.max_pk + 1) as PkType;
            let two = (table.max_pk + 2) as PkType;
            &&& failed is None
            &&& one < two
            &&& !table.rows.contains_key(one)
            &&& !table.rows.contains_key(two)
            &&& after.rows.dom() == table.rows.dom().insert(one).insert(two)
            &&& after.rows[one] == table.scatter(names, first)->Ok_0.update(
                table.pk->0,
                Value::Integer(one as i64),
            )
            &&& after.rows[two] == table.scatter(names, second)->Ok_0.update(
                table.pk->0,
                Value::Integer(two as i64),
            )
            &&& after.max_pk == two
        }),
{
    let rows = seq![first, second];
    let both = Some(names);
    let one = (table.max_pk + 1) as PkType;
    let two = (table.max_pk + 2) as PkType;
    let pk = table.pk->0;
    assert(rows.drop_last() =~= seq![first]);
    assert(seq![first].drop_last() =~= Seq::<Seq<Value>>::empty());
    assert(table.insert(Seq::<Seq<Value>>::empty(), both) == (table, None::<Error>));
    lemma_scatter_len(table, names, first);
    lemma_scatter_len(table, names, second);
    let row1 = table.scatter(names, first)->Ok_0.update(pk, Value::Integer(one as i64));
    assert(table.complete_row(names, first) == Ok::<Seq<Value>, Error>(row1));
    assert(table.push_row(row1) == Ok::<TableView, Error>(table.store(one, row1)));
    let middle = table.store(one, row1);
    assert(table.insert(seq![first], both) == (middle, None::<Error>));
    assert(middle.scatter(names, second) == table.scatter(names, second)) by {
        lemma_scatter_header_only(table, middle, names, second);
    }
    let row2 = table.scatter(names, second)->Ok_0.update(pk, Value::Integer(two as i64));
    assert(middle.complete_row(names, second) == Ok::<Seq<Value>, Error>(row2));
    assert(middle.push_row(row2) == Ok::<TableView, Error>(middle.store(two, row2)));
    let after = middle.store(two, row2);
    assert(table.insert(rows, both) == (after, None::<Error>));
    assert(after.rows.dom() =~= table.rows.dom().insert(one).insert(two));
}

/// The row that names and values describe is as wide as the header.
proof fn lemma_scatter_len(table: TableView, names: Seq<Seq<char>>, values: Seq<Value>)
    ensures
        table.scatter(names, values) matches Ok(row) ==> row.len() == table.header.len(),
    decreases names.len(),
{
    if names.len() > 0 {
        lemma_scatter_len(table, names.drop_last(), values.drop_last());
        if crate::table::has_column(table.header, names.last()) {
            crate::table::lemma_column_index_some(table.header, names.last());
        }
    }
}

/// The row that names and values describe depends on the header alone.
proof fn lemma_scatter_header_only(
    a: TableView,
    b: TableView,
    names: Seq<Seq<char>>,
    values: Seq<Value>,
)
    requires
        a.header == b.header,
    ensures
        a.scatter(names, values) == b.scatter(names, values),
    decreases names.len(),
{
    if names.len() > 0 {
        lemma_scatter_header_only(a, b, names.drop_last(), values.drop_last());
    }
}

/// Cross-join cardinality: `SELECT *` from two tables without a `WHERE`
/// clause has one row for each pair of a row of the first and a row of the
/// second table, and each row is as wide as the two headers together.
pub proof fn law_cross_join_cardinality(
    db: CatalogView,
    def: SelectDef,
    left: String,
    right: String,
)
    requires
        forall|name: Seq<char>| #[trigger] db.contains_key(name) ==> db[name].well_formed(),
        db.contains_key(left@),
        db.contains_key(right@),
        def.result_column is Asterisk,
        def.where_expr is None,
        def.table_or_subquery matches Some(names) && names@ == seq![left, right],
        db[left@].rows.dom().len() * db[right@].rows.dom().len() <= PkType::MAX,
    ensures
        semantics::select(db, def) matches Ok(result) && result.rows.dom().len()
            == db[left@].rows.dom().len() * db[right@].rows.dom().len() && result.header.len()
            == db[left@].header.len() + db[right@].header.len() && forall|k: PkType| #[trigger]
            result.rows.contains_key(k) ==> result.rows[k].len() == db[left@].header.len()
                + db[right@].header.len(),
{
    let names = def.table_or_subquery->0@;
    let a = db[left@];
    let b = db[right@];
    let tables = seq![a, b];
    let m = a.rows.dom().len();
    let n = b.rows.dom().len();
    assert(names.drop_last() =~= seq![left]);
    assert(seq![left].drop_last() =~= Seq::<String>::empty());
    assert(semantics::lookup_tables(db, Seq::<String>::empty()) == Ok::<Seq<TableView>, Error>(
        Seq::<TableView>::empty(),
    ));
    assert(Seq::<TableView>::empty().push(a) =~= seq![a]);
    assert(semantics::lookup_tables(db, seq![left]) == Ok::<Seq<TableView>, Error>(seq![a]));
    assert(seq![a].push(b) =~= tables);
    assert(semantics::lookup_tables(db, names) == Ok::<Seq<TableView>, Error>(tables));
    let joined = semantics::joined_rows(tables);
    let header = joined_header(semantics::headers_of(tables));
    lemma_product_rows(Seq::<Value>::empty(), tables);
    lemma_joined_header_len(tables);
    assert(tables.drop_first() =~= seq![b]);
    assert(seq![b].drop_first() =~= Seq::<TableView>::empty());
    assert(row_count_product(Seq::<TableView>::empty()) == 1);
    assert(seq![b].first() == b);
    assert(row_count_product(seq![b]) == n * 1);
    assert(row_count_product(tables) == m * n) by (nonlinear_arith)
        requires
            row_count_product(tables) == m * (n * 1),
    ;
    assert(total_width(Seq::<TableView>::empty()) == 0);
    assert(total_width(seq![b]) == b.header.len());
    assert(total_width(tables) == a.header.len() + b.header.len());
    lemma_collect(header, joined);
    let input = TableView::result_table(header).insert(joined, None).0;
    lemma_collect(input.header, input.ordered_rows());
}

/// The outcome is a value, not a boolean.
pub open spec fn yields_value(outcome: Result<Outcome, Error>) -> bool {
    outcome matches Ok(Outcome::Value(_))
}

/// Filter correctness: a row is in the filtered input of a `SELECT` if and
/// only if the `WHERE` clause is true on it. A row on which the clause
/// evaluates to a value, not to a boolean, is not.
pub proof fn law_filter_correctness(
    input: TableView,
    expr: Expression,
    scope: Seq<ColumnSpec>,
)
    requires
        semantics::filter_inputs(input, Some(expr), scope) is Ok,
    ensures
        ({
            let filtered = semantics::filter_inputs(input, Some(expr), scope)->Ok_0;
            &&& filtered.header == input.header
            &&& forall|k: PkType|
                filtered.rows.contains_key(k) <==> input.rows.contains_key(k) && eval_bool(
                    expr,
                    input.rows[k],
                    scope,
                ) == Ok::<bool, Error>(true)
            &&& forall|k: PkType| #[trigger]
                filtered.rows.contains_key(k) ==> filtered.rows[k] == input.rows[k]
            &&& forall|k: PkType|
                input.rows.contains_key(k) && yields_value(eval(expr, input.rows[k], scope))
                    ==> !filtered.rows.contains_key(k)
        }),
{
}

/// Equality typing: values of different kinds are never equal; integers
/// and texts are equal where they are the same; `Null` equals `Null`.
pub proof fn law_equality_typing(a: Value, b: Value)
    ensures
        (a is Integer) != (b is Integer) ==> !values_equal(a, b),
        (a is Text) != (b is Text) ==> !values_equal(a, b),
        (a is Real) != (b is Real) ==> !values_equal(a, b),
        (a is Null) != (b is Null) ==> !values_equal(a, b),
        a is Integer && b is Integer ==> values_equal(a, b) == (a == b),
        a is Text && b is Text ==> values_equal(a, b) == (a == b),
        a is Null && b is Null ==> values_equal(a, b),
{
}

/// A comparison of two literals is the equality of their values.
pub proof fn law_equals_on_literals(
    left: LiteralValue,
    right: LiteralValue,
    row: Seq<Value>,
    header: Seq<ColumnSpec>,
)
    ensures
        eval(
            Expression::BinaryOperator(
                (
                    BinaryOperator::Equals,
                    Box::new(Expression::LiteralValue(left)),
                    Box::new(Expression::LiteralValue(right)),
                ),
            ),
            row,
            header,
        ) == Ok::<Outcome, Error>(Outcome::Boolean(values_equal(left@, right@))),
{
    reveal_with_fuel(eval, 2);
}

/// Update ordering: the assignments of an `UPDATE` are applied one after
/// the other. With `SET a = b, b = v` the cell `a` gets what `b` held
/// before the statement, and `b` gets `v`.
pub proof fn law_update_in_order(
    row: Seq<Value>,
    header: Seq<ColumnSpec>,
    a: String,
    b: String,
    v: LiteralValue,
)
    requires
        row.len() == header.len(),
        column_index(header, a@) is Some,
        column_index(header, b@) is Some,
    ensures
        semantics::assign(
            row,
            header,
            seq![(a, Expression::ColumnName(b)), (b, Expression::LiteralValue(v))],
        ) == Ok::<Seq<Value>, Error>(
            row.update(column_index(header, a@)->0, row[column_index(header, b@)->0]).update(
                column_index(header, b@)->0,
                v@,
            ),
        ),
{
    let first = (a, Expression::ColumnName(b));
    let second = (b, Expression::LiteralValue(v));
    let set = seq![first, second];
    let ia = column_index(header, a@)->0;
    let ib = column_index(header, b@)->0;
    crate::table::lemma_column_index_some(header, a@);
    crate::table::lemma_column_index_some(header, b@);
    assert(set.drop_last() =~= seq![first]);
    assert(seq![first].drop_last() =~= Seq::<(String, Expression)>::empty());
    assert(semantics::assign(row, header, Seq::<(String, Expression)>::empty()) == Ok::<
        Seq<Value>,
        Error,
    >(row));
    let middle = row.update(ia, row[ib]);
    assert(semantics::assign(row, header, seq![first]) == Ok::<Seq<Value>, Error>(middle));
}

/// Where an empty result table took all of `rows`, each of them has the
/// width of the header, and the keys did not run out.
proof fn lemma_collected(header: Seq<ColumnSpec>, rows: Seq<Seq<Value>>)
    requires
        TableView::result_table(header).insert(rows, None).1 is None,
    ensures
        rows.len() <= PkType::MAX,
        forall|i: int| 0 <= i < rows.len() ==> (#[trigger] rows[i]).len() == header.len(),
    decreases rows.len(),
{
    if rows.len() > 0 {
        let fresh = TableView::result_table(header);
        let front = rows.drop_last();
        lemma_collected(header, front);
        lemma_collect(header, front);
        let before = fresh.insert(front, None).0;
        assert(before.push_row(rows.last()) is Ok);
        assert forall|i: int| 0 <= i < rows.len() implies (#[trigger] rows[i]).len()
            == header.len() by {
            if i < front.len() {
                assert(front[i] == rows[i]);
            }
        }
    }
}

/// Filter correctness of a whole `SELECT *`: a row is in the result if and
/// only if it is a row of the input on which the `WHERE` clause is true.
pub proof fn law_select_filters(db: CatalogView, def: SelectDef)
    requires
        def.result_column is Asterisk,
        def.where_expr is Some,
        semantics::select(db, def) is Ok,
    ensures
        ({
            let input = semantics::generate_inputs(
                semantics::select_sources(db, def.table_or_subquery)->Ok_0,
            ).0;
            let result = semantics::select(db, def)->Ok_0;
            &&& result.header == input.header
            &&& forall|row: Seq<Value>|
                result.ordered_rows().contains(row) <==> exists|k: PkType|
                    input.rows.contains_key(k) && #[trigger] input.rows[k] == row && eval_bool(
                        def.where_expr->0,
                        row,
                        input.header,
                    ) == Ok::<bool, Error>(true)
        }),
{
    let sources = semantics::select_sources(db, def.table_or_subquery)->Ok_0;
    let input = semantics::generate_inputs(sources).0;
    let expr = def.where_expr->0;
    let filtered = semantics::rows_where(input, expr, input.header, true);
    let result = semantics::select(db, def)->Ok_0;
    let kept = filtered.ordered_rows();
    assert(result == TableView::result_table(filtered.header).insert(kept, None).0);
    lemma_collected(filtered.header, kept);
    lemma_collect(filtered.header, kept);
    assert(result.ordered_rows() == kept);
    lemma_key_order(filtered.rows.dom());
    let keys = key_order(filtered.rows.dom());
    assert forall|row: Seq<Value>| kept.contains(row) <==> exists|k: PkType|
        input.rows.contains_key(k) && #[trigger] input.rows[k] == row && eval_bool(
            expr,
            row,
            input.header,
        ) == Ok::<bool, Error>(true) by {
        if kept.contains(row) {
            let i = choose|i: int| 0 <= i < kept.len() && kept[i] == row;
            lemma_ordered_row(filtered, i);
            let k = keys[i];
            assert(filtered.rows.contains_key(k));
            assert(input.rows.contains_key(k) && input.rows[k] == row);
        }
        if exists|k: PkType|
            input.rows.contains_key(k) && #[trigger] input.rows[k] == row && eval_bool(
                expr,
                row,
                input.header,
            ) == Ok::<bool, Error>(true) {
            let k = choose|k: PkType|
                input.rows.contains_key(k) && #[trigger] input.rows[k] == row && eval_bool(
                    expr,
                    row,
                    input.header,
                ) == Ok::<bool, Error>(true);
            assert(filtered.rows.contains_key(k));
            assert(keys.contains(k));
            let i = choose|i: int| 0 <= i < keys.len() && keys[i] == k;
            lemma_ordered_row(filtered, i);
            assert(kept[i] == row);
        }
    }
}

/// The test that a `WHERE` clause makes of a row: the clause is true on it.
pub open spec fn passes(expr: Expression, scope: Seq<ColumnSpec>) -> spec_fn(Seq<Value>) -> bool {
    |row: Seq<Value>| eval_bool(expr, row, scope) == Ok::<bool, Error>(true)
}

/// The same `SELECT` without its `WHERE` clause.
pub open spec fn without_filter(def: SelectDef) -> SelectDef {
    SelectDef {
        result_column: def.result_column,
        table_or_subquery: def.table_or_subquery,
        where_expr: None,
    }
}

/// To look the rows of a list of keys up and drop those that fail a test
/// is to drop the keys whose rows fail it and look the others up.
proof fn lemma_filter_lookup(
    keys: Seq<PkType>,
    row_of: spec_fn(PkType) -> Seq<Value>,
    on_row: spec_fn(Seq<Value>) -> bool,
    on_key: spec_fn(PkType) -> bool,
)
    requires
        forall|k: PkType| #[trigger] on_key(k) == on_row(row_of(k)),
    ensures
        keys.map_values(row_of).filter(on_row) == keys.filter(on_key).map_values(row_of),
    decreases keys.len(),
{
    reveal(Seq::filter);
    let rows = keys.map_values(row_of);
    if keys.len() == 0 {
        assert(rows.filter(on_row) =~= keys.filter(on_key).map_values(row_of));
    } else {
        let front = keys.drop_last();
        lemma_filter_lookup(front, row_of, on_row, on_key);
        assert(rows.drop_last() =~= front.map_values(row_of));
        assert(rows.last() == row_of(keys.last()));
        assert(on_key(keys.last()) == on_row(rows.last()));
        assert(rows.filter(on_row) =~= keys.filter(on_key).map_values(row_of));
    }
}

/// The input of a `SELECT` that did not fail is well formed, and a
/// `SELECT *` without a `WHERE` clause hands its rows on in their order.
proof fn lemma_unfiltered(db: CatalogView, def: SelectDef)
    requires
        def.result_column is Asterisk,
        semantics::select(db, def) is Ok,
    ensures
        ({
            let input = semantics::generate_inputs(
                semantics::select_sources(db, def.table_or_subquery)->Ok_0,
            ).0;
            let all = semantics::select(db, without_filter(def));
            &&& input.well_formed()
            &&& all is Ok
            &&& all->Ok_0.header == input.header
            &&& all->Ok_0.ordered_rows() == input.ordered_rows()
        }),
{
    let sources = semantics::select_sources(db, def.table_or_subquery)->Ok_0;
    let input = semantics::generate_inputs(sources).0;
    match sources {
        Some(tables) => {
            let header = joined_header(semantics::headers_of(tables));
            lemma_collected(header, semantics::joined_rows(tables));
            lemma_collect(header, semantics::joined_rows(tables));
        },
        None => {
            let header = Seq::<ColumnSpec>::empty();
            lemma_collected(header, seq![Seq::<Value>::empty()]);
            lemma_collect(header, seq![Seq::<Value>::empty()]);
        },
    }
    lemma_ordered_rows(input);
    lemma_collect(input.header, input.ordered_rows());
}

/// Filter correctness, with the order: the rows of a `SELECT *` with a
/// `WHERE` clause are the rows of the same `SELECT` without the clause on
/// which the clause is true, in the order that they have there. A row on
/// which the clause evaluates to a value, not to a boolean, is not among
/// them.
pub proof fn law_select_filters_in_order(db: CatalogView, def: SelectDef)
    requires
        def.result_column is Asterisk,
        def.where_expr is Some,
        semantics::select(db, def) is Ok,
    ensures
        semantics::select(db, without_filter(def)) is Ok,
        semantics::select(db, def)->Ok_0.header == semantics::select(
            db,
            without_filter(def),
        )->Ok_0.header,
        semantics::select(db, def)->Ok_0.ordered_rows() == semantics::select(
            db,
            without_filter(def),
        )->Ok_0.ordered_rows().filter(
            passes(def.where_expr->0, semantics::select(db, without_filter(def))->Ok_0.header),
        ),
        forall|row: Seq<Value>|
            yields_value(
                eval(
                    def.where_expr->0,
                    row,
                    semantics::select(db, without_filter(def))->Ok_0.header,
                ),
            ) ==> !(#[trigger] passes(
                def.where_expr->0,
                semantics::select(db, without_filter(def))->Ok_0.header,
            )(row)),
{
    let sources = semantics::select_sources(db, def.table_or_subquery)->Ok_0;
    let input = semantics::generate_inputs(sources).0;
    let expr = def.where_expr->0;
    let filtered = semantics::rows_where(input, expr, input.header, true);
    let result = semantics::select(db, def)->Ok_0;
    lemma_unfiltered(db, def);
    let kept = filtered.ordered_rows();
    assert(result == TableView::result_table(filtered.header).insert(kept, None).0);
    lemma_collected(filtered.header, kept);
    lemma_collect(filtered.header, kept);
    let on_row = passes(expr, input.header);
    let on_key = |k: PkType| on_row(input.rows[k]);
    let row_of = |k: PkType| input.rows[k];
    let keys = key_order(input.rows.dom());
    lemma_key_order(input.rows.dom());
    crate::order::lemma_key_order_filter(input.rows.dom(), on_key);
    assert(filtered.rows.dom() =~= input.rows.dom().filter(on_key));
    let passing = keys.filter(on_key);
    lemma_key_order(filtered.rows.dom());
    assert(kept =~= passing.map_values(row_of)) by {
        assert forall|i: int| 0 <= i < passing.len() implies filtered.rows[passing[i]]
            == input.rows[passing[i]] by {
            assert(passing.contains(passing[i]));
            assert(filtered.rows.dom().contains(passing[i]));
        }
    }
    assert(input.ordered_rows() =~= keys.map_values(row_of));
    lemma_filter_lookup(keys, row_of, on_row, on_key);
}

} // verus!
