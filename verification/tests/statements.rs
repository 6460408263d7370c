use rusql::exec::{
    alter_table, assign_row, default_column_def, delete, filter_inputs, generate_inputs,
    generate_result_set, generate_row_from_expressions, insert, join_headers, keys_where,
    lookup_tables, product, select, update, update_row,
};
use rusql::{
    AlterTable, AlterTableDef, BinaryOperator, ColumnConstraint, ColumnDef, ColumnType, DeleteDef,
    Error, Expression, InsertDataSource, InsertDef, LiteralValue, ResultColumn, Rusql, SelectDef,
    Table, TableDef, TableHeader, TableRow, UpdateDef,
};

fn plain(name: &str) -> ColumnDef {
    ColumnDef { name: name.to_string(), column_type: Some(ColumnType::Integer), column_constraints: vec![] }
}

fn key(name: &str) -> ColumnDef {
    ColumnDef {
        name: name.to_string(),
        column_type: Some(ColumnType::Integer),
        column_constraints: vec![ColumnConstraint::PrimaryKey],
    }
}

fn num(i: i64) -> LiteralValue {
    LiteralValue::Integer(i)
}

fn word(s: &str) -> LiteralValue {
    LiteralValue::Text(s.to_string())
}

fn lit(v: LiteralValue) -> Expression {
    Expression::LiteralValue(v)
}

fn col(name: &str) -> Expression {
    Expression::ColumnName(name.to_string())
}

fn same(left: Expression, right: Expression) -> Expression {
    Expression::BinaryOperator((BinaryOperator::Equals, Box::new(left), Box::new(right)))
}

fn nothing(_: &TableRow, _: &TableHeader) {}

fn database(tables: &[(&str, Vec<ColumnDef>, Vec<TableRow>)]) -> Rusql {
    let mut db = Rusql::new();
    for (name, columns, rows) in tables {
        db.create_table(TableDef {
            table_name: name.to_string(),
            columns: columns.clone(),
            if_not_exists: false,
        });
        let table = db.get_mut_table(&name.to_string()).unwrap();
        for row in rows {
            table.push_row(row.clone()).unwrap();
        }
    }
    db
}

fn people() -> Rusql {
    database(&[(
        "People",
        vec![key("Id"), plain("A"), plain("B")],
        vec![
            vec![num(1), num(10), num(100)],
            vec![num(2), num(20), num(200)],
            vec![num(3), num(10), num(300)],
        ],
    )])
}

fn rows_of(db: &Rusql, name: &str) -> Vec<TableRow> {
    db.get_table(&name.to_string()).unwrap().rows()
}

fn from(tables: &[&str], result_column: ResultColumn, where_expr: Option<Expression>) -> SelectDef {
    SelectDef {
        result_column,
        table_or_subquery: Some(tables.iter().map(|t| t.to_string()).collect()),
        where_expr,
    }
}

fn names_of(header: &TableHeader) -> Vec<String> {
    header.iter().map(|c| c.name.clone()).collect()
}

#[test]
fn update_reads_the_row_as_the_earlier_assignments_left_it() {
    let mut db = people();
    let def = UpdateDef {
        name: "People".to_string(),
        set: vec![("A".to_string(), col("B")), ("B".to_string(), lit(num(5)))],
        where_expr: None,
    };
    assert_eq!(update(&mut db, def), Ok(()));
    assert_eq!(
        rows_of(&db, "People"),
        vec![
            vec![num(1), num(100), num(5)],
            vec![num(2), num(200), num(5)],
            vec![num(3), num(300), num(5)],
        ]
    );
}

#[test]
fn a_later_assignment_sees_an_earlier_one() {
    let row = vec![num(1), num(2)];
    let header = vec![plain("A"), plain("B")];
    let set = vec![("A".to_string(), lit(num(7))), ("B".to_string(), col("A"))];
    assert_eq!(assign_row(&row, &header, &set), Ok(vec![num(7), num(7)]));
    let set = vec![("B".to_string(), col("A")), ("A".to_string(), lit(num(7)))];
    assert_eq!(assign_row(&row, &header, &set), Ok(vec![num(7), num(1)]));
}

#[test]
fn assign_row_with_nothing_to_set_copies_the_row() {
    let row = vec![num(1), word("x")];
    let header = vec![plain("A"), plain("B")];
    assert_eq!(assign_row(&row, &header, &Vec::new()), Ok(row.clone()));
}

#[test]
fn assign_row_refuses_what_it_cannot_place_or_evaluate() {
    let row = vec![num(1), num(2)];
    let header = vec![plain("A"), plain("B")];
    let set = vec![("C".to_string(), lit(num(7)))];
    assert_eq!(assign_row(&row, &header, &set), Err(Error::UnknownColumn));
    let set = vec![("A".to_string(), col("C"))];
    assert_eq!(assign_row(&row, &header, &set), Err(Error::UnknownColumn));
    let set = vec![("A".to_string(), same(lit(num(1)), lit(num(1))))];
    assert_eq!(assign_row(&row, &header, &set), Err(Error::NotAValue));
    let short = vec![num(1)];
    let set = vec![("B".to_string(), lit(num(7)))];
    assert_eq!(assign_row(&short, &header, &set), Err(Error::SchemaWidthMismatch));
}

#[test]
fn update_row_leaves_a_row_that_is_not_selected() {
    let row = vec![num(1), num(2)];
    let header = vec![plain("A"), plain("B")];
    let set = vec![("B".to_string(), lit(num(9)))];
    let hit = Some(same(col("A"), lit(num(1))));
    let miss = Some(same(col("A"), lit(num(2))));
    let no_truth = Some(col("A"));
    assert_eq!(update_row(&row, &header, &set, &hit), Ok(vec![num(1), num(9)]));
    assert_eq!(update_row(&row, &header, &set, &miss), Ok(vec![num(1), num(2)]));
    assert_eq!(update_row(&row, &header, &set, &no_truth), Ok(vec![num(1), num(2)]));
    assert_eq!(update_row(&row, &header, &set, &None), Ok(vec![num(1), num(9)]));
    let broken = Some(same(col("Z"), lit(num(2))));
    assert_eq!(update_row(&row, &header, &set, &broken), Err(Error::UnknownColumn));
}

#[test]
fn update_changes_only_the_rows_that_match() {
    let mut db = people();
    let def = UpdateDef {
        name: "People".to_string(),
        set: vec![("B".to_string(), lit(word("hit")))],
        where_expr: Some(same(col("A"), lit(num(10)))),
    };
    assert_eq!(update(&mut db, def), Ok(()));
    assert_eq!(
        rows_of(&db, "People"),
        vec![
            vec![num(1), num(10), word("hit")],
            vec![num(2), num(20), num(200)],
            vec![num(3), num(10), word("hit")],
        ]
    );
}

#[test]
fn update_that_fails_changes_nothing() {
    let mut db = people();
    let def = UpdateDef {
        name: "People".to_string(),
        set: vec![("A".to_string(), lit(num(0))), ("Nope".to_string(), lit(num(0)))],
        where_expr: None,
    };
    assert_eq!(update(&mut db, def), Err(Error::UnknownColumn));
    assert_eq!(rows_of(&db, "People"), rows_of(&people(), "People"));
}

#[test]
fn update_of_an_empty_table_evaluates_nothing() {
    let mut db = database(&[("E", vec![key("Id")], vec![])]);
    let def = UpdateDef {
        name: "E".to_string(),
        set: vec![("Nope".to_string(), col("Nope"))],
        where_expr: None,
    };
    assert_eq!(update(&mut db, def), Ok(()));
}

#[test]
fn update_of_an_unknown_table_fails() {
    let mut db = people();
    let def = UpdateDef { name: "Nope".to_string(), set: vec![], where_expr: None };
    assert_eq!(update(&mut db, def), Err(Error::UnknownTable));
}

#[test]
fn update_keeps_each_row_under_its_key() {
    let mut db = people();
    let def = UpdateDef {
        name: "People".to_string(),
        set: vec![("Id".to_string(), lit(num(50)))],
        where_expr: Some(same(col("Id"), lit(num(2)))),
    };
    assert_eq!(update(&mut db, def), Ok(()));
    let table = db.get_table(&"People".to_string()).unwrap();
    assert_eq!(table.keys(), vec![1, 2, 3]);
    assert_eq!(table.get_row(2), Some(&vec![num(50), num(20), num(200)]));
}

#[test]
fn select_keeps_exactly_the_rows_for_which_the_filter_is_true() {
    let db = people();
    let def = from(&["People"], ResultColumn::Asterisk, Some(same(col("A"), lit(num(10)))));
    let result = select(&db, &def, &nothing).unwrap();
    assert_eq!(result.rows(), vec![vec![num(1), num(10), num(100)], vec![num(3), num(10), num(300)]]);
    assert_eq!(names_of(result.header()), vec!["Id", "A", "B"]);
    assert_eq!(result.pk(), None);
    assert_eq!(result.keys(), vec![1, 2]);
}

#[test]
fn a_filter_that_is_no_comparison_keeps_no_row() {
    let db = people();
    let def = from(&["People"], ResultColumn::Asterisk, Some(col("A")));
    let result = select(&db, &def, &nothing).unwrap();
    assert_eq!(result.len(), 0);
    assert_eq!(names_of(result.header()), vec!["Id", "A", "B"]);
}

#[test]
fn a_filter_that_cannot_be_evaluated_fails_the_select() {
    let db = people();
    let def = from(&["People"], ResultColumn::Asterisk, Some(same(col("Nope"), lit(num(1)))));
    assert_eq!(select(&db, &def, &nothing).err(), Some(Error::UnknownColumn));
}

#[test]
fn a_filter_on_no_rows_is_never_evaluated() {
    let db = database(&[("E", vec![key("Id")], vec![])]);
    let def = from(&["E"], ResultColumn::Asterisk, Some(same(col("Nope"), lit(num(1)))));
    let result = select(&db, &def, &nothing).unwrap();
    assert_eq!(result.len(), 0);
}

#[test]
fn filter_inputs_without_filter_keeps_every_row() {
    let db = people();
    let def = from(&["People"], ResultColumn::Asterisk, None);
    let (tables, mut input) = generate_inputs(&db, &def).unwrap();
    assert_eq!(filter_inputs(&mut input, &tables, &def), Ok(()));
    assert_eq!(input.len(), 3);
}

#[test]
fn filter_inputs_removes_the_rows_that_do_not_match() {
    let db = people();
    let def = from(&["People"], ResultColumn::Asterisk, Some(same(col("B"), lit(num(200)))));
    let (tables, mut input) = generate_inputs(&db, &def).unwrap();
    assert_eq!(input.keys(), vec![1, 2, 3]);
    assert_eq!(filter_inputs(&mut input, &tables, &def), Ok(()));
    assert_eq!(input.keys(), vec![2]);
    assert_eq!(input.rows(), vec![vec![num(2), num(20), num(200)]]);
}

#[test]
fn keys_where_lists_the_keys_by_the_truth_of_the_expression() {
    let db = people();
    let table = db.get_table(&"People".to_string()).unwrap();
    let expr = same(col("A"), lit(num(10)));
    assert_eq!(keys_where(table, None, &expr, true), Ok(vec![1, 3]));
    assert_eq!(keys_where(table, None, &expr, false), Ok(vec![2]));
    let broken = same(col("Nope"), lit(num(10)));
    assert_eq!(keys_where(table, None, &broken, true), Err(Error::UnknownColumn));
    let tables = vec![table];
    assert_eq!(keys_where(table, Some(&tables), &expr, true), Ok(vec![1, 3]));
}

#[test]
fn select_by_expressions_projects_each_row() {
    let db = people();
    let def = from(
        &["People"],
        ResultColumn::Expressions(vec![col("B"), lit(word("x")), col("Id")]),
        Some(same(col("A"), lit(num(10)))),
    );
    let result = select(&db, &def, &nothing).unwrap();
    assert_eq!(
        result.rows(),
        vec![vec![num(100), word("x"), num(1)], vec![num(300), word("x"), num(3)]]
    );
    assert_eq!(names_of(result.header()), vec!["B", "column2", "Id"]);
    assert_eq!(result.header()[1].column_type, None);
    assert_eq!(result.header()[2].column_constraints, vec![ColumnConstraint::PrimaryKey]);
    assert_eq!(result.pk(), None);
}

#[test]
fn select_by_expressions_of_no_rows_has_no_columns() {
    let db = database(&[("E", vec![key("Id")], vec![])]);
    let def = from(&["E"], ResultColumn::Expressions(vec![col("Id")]), None);
    let result = select(&db, &def, &nothing).unwrap();
    assert_eq!(result.len(), 0);
    assert_eq!(result.header().len(), 0);
}

#[test]
fn select_without_from_evaluates_once() {
    let db = Rusql::new();
    let def = SelectDef {
        result_column: ResultColumn::Expressions(vec![lit(num(1)), lit(word("a"))]),
        table_or_subquery: None,
        where_expr: None,
    };
    let result = select(&db, &def, &nothing).unwrap();
    assert_eq!(result.rows(), vec![vec![num(1), word("a")]]);
    assert_eq!(names_of(result.header()), vec!["column1", "column2"]);
}

#[test]
fn select_all_without_from_is_one_empty_row() {
    let db = Rusql::new();
    let def = SelectDef {
        result_column: ResultColumn::Asterisk,
        table_or_subquery: None,
        where_expr: None,
    };
    let result = select(&db, &def, &nothing).unwrap();
    assert_eq!(result.rows(), vec![Vec::<LiteralValue>::new()]);
    assert_eq!(result.header().len(), 0);
}

#[test]
fn select_refuses_a_comparison_as_a_result_column() {
    let db = people();
    let def = from(&["People"], ResultColumn::Expressions(vec![same(col("A"), col("B"))]), None);
    assert_eq!(select(&db, &def, &nothing).err(), Some(Error::NotAValue));
}

#[test]
fn select_refuses_an_unknown_result_column() {
    let db = people();
    let def = from(&["People"], ResultColumn::Expressions(vec![col("Nope")]), None);
    assert_eq!(select(&db, &def, &nothing).err(), Some(Error::UnknownColumn));
}

#[test]
fn select_of_an_unknown_table_is_refused() {
    let db = people();
    let def = from(&["People", "Nope"], ResultColumn::Asterisk, None);
    assert_eq!(select(&db, &def, &nothing).err(), Some(Error::UnknownTable));
}

#[test]
fn a_join_finds_a_column_in_the_table_that_has_it() {
    let db = database(&[
        ("L", vec![key("Id"), plain("X")], vec![vec![num(1), num(7)], vec![num(2), num(8)]]),
        ("R", vec![key("Rid"), plain("Y")], vec![vec![num(1), num(8)], vec![num(2), num(9)]]),
    ]);
    let def = from(&["L", "R"], ResultColumn::Asterisk, Some(same(col("X"), col("Y"))));
    let result = select(&db, &def, &nothing).unwrap();
    assert_eq!(result.rows(), vec![vec![num(2), num(8), num(1), num(8)]]);
    assert_eq!(names_of(result.header()), vec!["Id", "X", "Rid", "Y"]);
    let def = from(&["L", "R"], ResultColumn::Expressions(vec![col("Y"), col("X")]), None);
    let result = select(&db, &def, &nothing).unwrap();
    assert_eq!(
        result.rows(),
        vec![
            vec![num(8), num(7)],
            vec![num(9), num(7)],
            vec![num(8), num(8)],
            vec![num(9), num(8)],
        ]
    );
}

#[test]
fn three_tables_multiply() {
    let one = |n: i64| vec![num(n)];
    let db = database(&[
        ("A", vec![key("a")], vec![one(1), one(2)]),
        ("B", vec![key("b")], vec![one(1), one(2), one(3)]),
        ("C", vec![key("c")], vec![one(1), one(2), one(3), one(4)]),
    ]);
    let def = from(&["A", "B", "C"], ResultColumn::Asterisk, None);
    let result = select(&db, &def, &nothing).unwrap();
    assert_eq!(result.len(), 24);
    assert_eq!(result.header().len(), 3);
    assert_eq!(result.get_row(1), Some(&vec![num(1), num(1), num(1)]));
    assert_eq!(result.get_row(2), Some(&vec![num(1), num(1), num(2)]));
    assert_eq!(result.get_row(5), Some(&vec![num(1), num(2), num(1)]));
    assert_eq!(result.get_row(24), Some(&vec![num(2), num(3), num(4)]));
}

#[test]
fn product_extends_the_row_it_is_given() {
    let db = database(&[
        ("A", vec![key("a")], vec![vec![num(1)], vec![num(2)]]),
        ("B", vec![key("b")], vec![vec![num(7)], vec![num(8)]]),
    ]);
    let a = db.get_table(&"A".to_string()).unwrap();
    let b = db.get_table(&"B".to_string()).unwrap();
    let tables = vec![a, b];
    let mut out = Table::new_result_table(vec![plain("p"), plain("q")]);
    assert_eq!(product(&tables, 1, &mut out, Some(vec![word("x")])), Ok(()));
    assert_eq!(out.rows(), vec![vec![word("x"), num(7)], vec![word("x"), num(8)]]);
    let mut out = Table::new_result_table(vec![plain("p"), plain("q")]);
    assert_eq!(product(&tables, 2, &mut out, Some(vec![num(5), num(6)])), Ok(()));
    assert_eq!(out.rows(), vec![vec![num(5), num(6)]]);
    let mut out = Table::new_result_table(vec![plain("p"), plain("q")]);
    assert_eq!(product(&tables, 0, &mut out, None), Ok(()));
    assert_eq!(out.len(), 4);
    let mut out = Table::new_result_table(vec![plain("p")]);
    assert_eq!(product(&tables, 0, &mut out, None), Err(Error::SchemaWidthMismatch));
    assert_eq!(out.len(), 0);
}

#[test]
fn lookup_tables_finds_each_or_fails() {
    let db = database(&[("A", vec![key("a")], vec![]), ("B", vec![key("b"), plain("c")], vec![])]);
    let found = lookup_tables(&db, &vec!["B".to_string(), "A".to_string(), "B".to_string()]).unwrap();
    let found_names: Vec<&str> = found.iter().map(|t| t.name().as_str()).collect();
    assert_eq!(found_names, vec!["B", "A", "B"]);
    assert_eq!(names_of(&join_headers(&found)), vec!["b", "c", "a", "b", "c"]);
    assert!(lookup_tables(&db, &vec!["A".to_string(), "Z".to_string()]).is_err());
    assert_eq!(lookup_tables(&db, &Vec::new()).unwrap().len(), 0);
}

#[test]
fn generate_inputs_gives_the_tables_and_their_product() {
    let db = people();
    let def = from(&["People", "People"], ResultColumn::Asterisk, None);
    let (tables, input) = generate_inputs(&db, &def).unwrap();
    assert_eq!(tables.len(), 2);
    assert_eq!(input.len(), 9);
    assert_eq!(input.header().len(), 6);
    assert_eq!(input.pk(), None);
    let def = SelectDef { result_column: ResultColumn::Asterisk, table_or_subquery: None, where_expr: None };
    let (tables, input) = generate_inputs(&db, &def).unwrap();
    assert_eq!(tables.len(), 0);
    assert_eq!(input.rows(), vec![Vec::<LiteralValue>::new()]);
}

#[test]
fn generate_result_set_copies_or_projects() {
    let db = people();
    let def = from(&["People"], ResultColumn::Asterisk, None);
    let (tables, input) = generate_inputs(&db, &def).unwrap();
    let result = generate_result_set(input, &tables, &def).unwrap();
    assert_eq!(result.rows(), rows_of(&db, "People"));
    let def = from(&["People"], ResultColumn::Expressions(vec![col("A")]), None);
    let (tables, input) = generate_inputs(&db, &def).unwrap();
    let result = generate_result_set(input, &tables, &def).unwrap();
    assert_eq!(result.rows(), vec![vec![num(10)], vec![num(20)], vec![num(10)]]);
    assert_eq!(names_of(result.header()), vec!["A"]);
}

#[test]
fn the_first_projected_row_makes_the_header() {
    let db = people();
    let table = db.get_table(&"People".to_string()).unwrap();
    let tables = vec![table];
    let mut out = Table::new_result_table(Vec::new());
    let exprs = vec![col("B"), lit(num(0))];
    let row = vec![num(1), num(10), num(100)];
    assert_eq!(generate_row_from_expressions(&mut out, &row, &exprs, &tables), Ok(()));
    assert_eq!(names_of(out.header()), vec!["B", "column2"]);
    let row = vec![num(2), num(20), num(200)];
    assert_eq!(generate_row_from_expressions(&mut out, &row, &exprs, &tables), Ok(()));
    assert_eq!(names_of(out.header()), vec!["B", "column2"]);
    assert_eq!(out.rows(), vec![vec![num(100), num(0)], vec![num(200), num(0)]]);
    let wider = vec![col("B"), lit(num(0)), col("A")];
    assert_eq!(
        generate_row_from_expressions(&mut out, &row, &wider, &tables),
        Err(Error::SchemaWidthMismatch)
    );
    assert_eq!(out.len(), 2);
}

#[test]
fn default_columns_are_numbered_from_one() {
    assert_eq!(default_column_def(0).name, "column1");
    assert_eq!(default_column_def(8).name, "column9");
    assert_eq!(default_column_def(9).name, "column10");
    assert_eq!(default_column_def(99).name, "column100");
    assert_eq!(default_column_def(1233).name, "column1234");
    let def = default_column_def(3);
    assert_eq!(def.column_type, None);
    assert!(def.column_constraints.is_empty());
}

#[test]
fn delete_keeps_the_rows_that_do_not_match() {
    let mut db = people();
    let def = DeleteDef { name: "People".to_string(), where_expr: Some(same(col("A"), lit(num(10)))) };
    assert_eq!(delete(&mut db, def), Ok(()));
    assert_eq!(rows_of(&db, "People"), vec![vec![num(2), num(20), num(200)]]);
}

#[test]
fn delete_with_a_filter_that_is_no_comparison_removes_nothing() {
    let mut db = people();
    let def = DeleteDef { name: "People".to_string(), where_expr: Some(lit(num(1))) };
    assert_eq!(delete(&mut db, def), Ok(()));
    assert_eq!(rows_of(&db, "People").len(), 3);
}

#[test]
fn delete_that_fails_removes_nothing() {
    let mut db = people();
    let def = DeleteDef { name: "People".to_string(), where_expr: Some(same(col("Z"), lit(num(10)))) };
    assert_eq!(delete(&mut db, def), Err(Error::UnknownColumn));
    assert_eq!(rows_of(&db, "People").len(), 3);
    let def = DeleteDef { name: "Nope".to_string(), where_expr: None };
    assert_eq!(delete(&mut db, def), Err(Error::UnknownTable));
}

#[test]
fn delete_of_everything_keeps_the_high_water_mark() {
    let mut db = people();
    let def = DeleteDef { name: "People".to_string(), where_expr: None };
    assert_eq!(delete(&mut db, def), Ok(()));
    let def = InsertDef {
        table_name: "People".to_string(),
        column_names: Some(vec!["A".to_string()]),
        data_source: InsertDataSource::Values(vec![vec![num(1)]]),
    };
    assert_eq!(insert(&mut db, def), Ok(()));
    assert_eq!(rows_of(&db, "People"), vec![vec![num(4), num(1), LiteralValue::Null]]);
}

#[test]
fn alter_table_adds_a_column_of_nulls() {
    let mut db = people();
    let def = AlterTableDef { name: "People".to_string(), mode: AlterTable::AddColumn(plain("C")) };
    assert_eq!(alter_table(&mut db, def), Ok(()));
    let table = db.get_table(&"People".to_string()).unwrap();
    assert_eq!(names_of(table.header()), vec!["Id", "A", "B", "C"]);
    assert_eq!(table.keys(), vec![1, 2, 3]);
    for row in table.rows() {
        assert_eq!(row.len(), 4);
        assert_eq!(row[3], LiteralValue::Null);
    }
    assert_eq!(table.get_row(2), Some(&vec![num(2), num(20), num(200), LiteralValue::Null]));
}

#[test]
fn alter_table_does_not_move_the_key_to_an_added_column() {
    let mut db = people();
    let def = AlterTableDef { name: "People".to_string(), mode: AlterTable::AddColumn(key("K")) };
    assert_eq!(alter_table(&mut db, def), Ok(()));
    assert_eq!(db.get_table(&"People".to_string()).unwrap().pk(), Some(0));
}

#[test]
fn alter_table_renames() {
    let mut db = people();
    let def = AlterTableDef { name: "People".to_string(), mode: AlterTable::RenameTo("Folk".to_string()) };
    assert_eq!(alter_table(&mut db, def), Ok(()));
    assert!(db.get_table(&"People".to_string()).is_err());
    assert_eq!(rows_of(&db, "Folk").len(), 3);
    assert_eq!(db.get_table(&"Folk".to_string()).unwrap().name(), "People");
}

#[test]
fn renaming_onto_another_table_replaces_it() {
    let mut db = database(&[
        ("A", vec![key("a")], vec![vec![num(1)]]),
        ("B", vec![key("b")], vec![vec![num(2)], vec![num(3)]]),
        ("C", vec![key("c")], vec![]),
    ]);
    assert_eq!(db.rename_table(&"A".to_string(), "B".to_string()), Ok(()));
    assert!(db.get_table(&"A".to_string()).is_err());
    assert_eq!(rows_of(&db, "B"), vec![vec![num(1)]]);
    assert_eq!(rows_of(&db, "C").len(), 0);
    assert_eq!(db.rename_table(&"B".to_string(), "B".to_string()), Ok(()));
    assert_eq!(rows_of(&db, "B"), vec![vec![num(1)]]);
}

#[test]
fn alter_table_of_an_unknown_table_fails() {
    let mut db = people();
    let def = AlterTableDef { name: "Nope".to_string(), mode: AlterTable::AddColumn(plain("C")) };
    assert_eq!(alter_table(&mut db, def), Err(Error::UnknownTable));
    let def = AlterTableDef { name: "Nope".to_string(), mode: AlterTable::RenameTo("X".to_string()) };
    assert_eq!(alter_table(&mut db, def), Err(Error::UnknownTable));
    assert_eq!(db.rename_table(&"Nope".to_string(), "People".to_string()), Err(Error::UnknownTable));
    assert_eq!(rows_of(&db, "People").len(), 3);
}

#[test]
fn insert_from_select_copies_the_result_rows() {
    let mut db = database(&[
        ("Src", vec![key("Id"), plain("V")], vec![vec![num(5), num(50)], vec![num(6), num(60)]]),
        ("Dst", vec![key("Id"), plain("V")], vec![vec![num(5), num(0)]]),
    ]);
    let def = InsertDef {
        table_name: "Dst".to_string(),
        column_names: None,
        data_source: InsertDataSource::Select(from(&["Src"], ResultColumn::Asterisk, None)),
    };
    assert_eq!(insert(&mut db, def), Ok(()));
    assert_eq!(rows_of(&db, "Dst"), vec![vec![num(5), num(50)], vec![num(6), num(60)]]);
    assert_eq!(rows_of(&db, "Src").len(), 2);
}

#[test]
fn insert_from_a_select_on_the_same_table() {
    let mut db = database(&[("T", vec![plain("V")], vec![vec![num(1)], vec![num(2)]])]);
    let def = InsertDef {
        table_name: "T".to_string(),
        column_names: None,
        data_source: InsertDataSource::Select(from(&["T"], ResultColumn::Asterisk, None)),
    };
    assert_eq!(insert(&mut db, def), Ok(()));
    assert_eq!(rows_of(&db, "T"), vec![vec![num(1)], vec![num(2)], vec![num(1)], vec![num(2)]]);
}

#[test]
fn insert_fails_where_the_select_or_the_table_does() {
    let mut db = people();
    let def = InsertDef {
        table_name: "People".to_string(),
        column_names: None,
        data_source: InsertDataSource::Select(from(&["Nope"], ResultColumn::Asterisk, None)),
    };
    assert_eq!(insert(&mut db, def), Err(Error::UnknownTable));
    let def = InsertDef {
        table_name: "Nope".to_string(),
        column_names: None,
        data_source: InsertDataSource::Select(from(&["People"], ResultColumn::Asterisk, None)),
    };
    assert_eq!(insert(&mut db, def), Err(Error::UnknownTable));
    let def = InsertDef {
        table_name: "Nope".to_string(),
        column_names: None,
        data_source: InsertDataSource::Values(vec![]),
    };
    assert_eq!(insert(&mut db, def), Err(Error::UnknownTable));
    let def = InsertDef {
        table_name: "People".to_string(),
        column_names: None,
        data_source: InsertDataSource::Select(from(
            &["People"],
            ResultColumn::Expressions(vec![col("A")]),
            None,
        )),
    };
    assert_eq!(insert(&mut db, def), Err(Error::SchemaWidthMismatch));
    assert_eq!(rows_of(&db, "People"), rows_of(&people(), "People"));
}

#[test]
fn insert_keeps_the_rows_before_the_one_it_refuses() {
    let mut db = people();
    let def = InsertDef {
        table_name: "People".to_string(),
        column_names: None,
        data_source: InsertDataSource::Values(vec![
            vec![num(4), num(40), num(400)],
            vec![word("k"), num(50), num(500)],
            vec![num(6), num(60), num(600)],
        ]),
    };
    assert_eq!(insert(&mut db, def), Err(Error::InvalidPrimaryKey));
    let table = db.get_table(&"People".to_string()).unwrap();
    assert_eq!(table.keys(), vec![1, 2, 3, 4]);
}

#[test]
fn insert_of_other_sources_does_nothing() {
    let mut db = people();
    let def = InsertDef {
        table_name: "People".to_string(),
        column_names: None,
        data_source: InsertDataSource::DefaultValues,
    };
    assert_eq!(insert(&mut db, def), Ok(()));
    let def = InsertDef {
        table_name: "Nope".to_string(),
        column_names: None,
        data_source: InsertDataSource::Error,
    };
    assert_eq!(insert(&mut db, def), Ok(()));
    assert_eq!(rows_of(&db, "People").len(), 3);
}

#[test]
fn generate_inputs_hands_back_the_named_tables_in_order() {
    let db = database(&[
        ("A", vec![key("a")], vec![vec![num(1)]]),
        ("B", vec![key("b"), plain("c")], vec![vec![num(2), num(3)]]),
        ("E", vec![], vec![]),
    ]);
    let def = from(&["B", "E", "A", "B"], ResultColumn::Asterisk, None);
    let (tables, input) = generate_inputs(&db, &def).unwrap();
    let found: Vec<&str> = tables.iter().map(|t| t.name().as_str()).collect();
    assert_eq!(found, vec!["B", "E", "A", "B"]);
    assert_eq!(names_of(tables[0].header()), vec!["b", "c"]);
    assert_eq!(tables[2].rows(), vec![vec![num(1)]]);
    assert_eq!(input.len(), 0);
    let def = from(&["E"], ResultColumn::Asterisk, None);
    let (tables, input) = generate_inputs(&db, &def).unwrap();
    assert_eq!(tables.len(), 1);
    assert_eq!(tables[0].name(), "E");
    assert_eq!(input.header().len(), 0);
}

#[test]
fn keys_where_hands_the_keys_back_ascending() {
    let db = database(&[(
        "T",
        vec![key("Id"), plain("V")],
        vec![
            vec![num(9), num(1)],
            vec![num(2), num(1)],
            vec![num(7), num(0)],
            vec![num(4), num(1)],
            vec![num(1), num(0)],
        ],
    )]);
    let table = db.get_table(&"T".to_string()).unwrap();
    let expr = same(col("V"), lit(num(1)));
    assert_eq!(keys_where(table, None, &expr, true), Ok(vec![2, 4, 9]));
    assert_eq!(keys_where(table, None, &expr, false), Ok(vec![1, 7]));
}

#[test]
fn a_filtered_select_keeps_the_order_of_the_unfiltered_one() {
    let db = database(&[
        ("L", vec![key("Id"), plain("X")], vec![
            vec![num(3), num(1)],
            vec![num(1), num(2)],
            vec![num(2), num(1)],
        ]),
        ("R", vec![key("Rid"), plain("Y")], vec![
            vec![num(20), num(1)],
            vec![num(10), num(2)],
        ]),
    ]);
    let all = select(&db, &from(&["L", "R"], ResultColumn::Asterisk, None), &nothing).unwrap();
    let some = select(
        &db,
        &from(&["L", "R"], ResultColumn::Asterisk, Some(same(col("X"), col("Y")))),
        &nothing,
    )
    .unwrap();
    let expected: Vec<TableRow> = all.rows().into_iter().filter(|row| row[1] == row[3]).collect();
    assert_eq!(some.rows(), expected);
    assert_eq!(
        some.rows(),
        vec![
            vec![num(1), num(2), num(10), num(2)],
            vec![num(2), num(1), num(20), num(1)],
            vec![num(3), num(1), num(20), num(1)],
        ]
    );
    assert_eq!(some.keys(), vec![1, 2, 3]);
}
