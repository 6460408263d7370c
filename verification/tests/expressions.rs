use rusql::{
    BinaryOperator, ColumnConstraint, ColumnDef, ColumnType, Error, Expression,
    ExpressionEvaluator, ExpressionResult, LiteralValue, Table, TableDef,
};

fn column(name: &str) -> ColumnDef {
    ColumnDef { name: name.to_string(), column_type: Some(ColumnType::Text), column_constraints: vec![] }
}

fn lit(v: LiteralValue) -> Expression {
    Expression::LiteralValue(v)
}

fn col(name: &str) -> Expression {
    Expression::ColumnName(name.to_string())
}

fn equals(left: Expression, right: Expression) -> Expression {
    Expression::BinaryOperator((BinaryOperator::Equals, Box::new(left), Box::new(right)))
}

fn real_of(x: f64) -> LiteralValue {
    LiteralValue::Real(x.to_bits())
}

fn text(s: &str) -> LiteralValue {
    LiteralValue::Text(s.to_string())
}

fn truth(expr: &Expression) -> Result<bool, Error> {
    let row = Vec::new();
    let head = Vec::new();
    ExpressionEvaluator::new(&row, &head).eval_bool(expr)
}

#[test]
fn integer_one_does_not_equal_real_one() {
    assert_eq!(truth(&equals(lit(LiteralValue::Integer(1)), lit(real_of(1.0)))), Ok(false));
    assert!(LiteralValue::Integer(1) != real_of(1.0));
}

#[test]
fn integer_one_equals_integer_one() {
    assert_eq!(truth(&equals(lit(LiteralValue::Integer(1)), lit(LiteralValue::Integer(1)))), Ok(true));
    assert_eq!(truth(&equals(lit(LiteralValue::Integer(1)), lit(LiteralValue::Integer(2)))), Ok(false));
}

#[test]
fn null_equals_null() {
    assert_eq!(truth(&equals(lit(LiteralValue::Null), lit(LiteralValue::Null))), Ok(true));
    assert_eq!(truth(&equals(lit(LiteralValue::Null), lit(LiteralValue::Integer(0)))), Ok(false));
}

#[test]
fn texts_are_equal_where_they_are_the_same() {
    assert_eq!(truth(&equals(lit(text("a")), lit(text("a")))), Ok(true));
    assert_eq!(truth(&equals(lit(text("a")), lit(text("A")))), Ok(false));
    assert_eq!(truth(&equals(lit(text("1")), lit(LiteralValue::Integer(1)))), Ok(false));
}

#[test]
fn reals_are_equal_as_numbers() {
    assert!(real_of(1.5) == real_of(1.5));
    assert!(real_of(1.5) != real_of(2.5));
    assert!(real_of(0.0) == real_of(-0.0));
    assert!(real_of(f64::NAN) != real_of(f64::NAN));
    assert!(real_of(f64::INFINITY) == real_of(f64::INFINITY));
    assert!(real_of(f64::INFINITY) != real_of(f64::NEG_INFINITY));
    assert_eq!(truth(&equals(lit(real_of(f64::NAN)), lit(real_of(f64::NAN)))), Ok(false));
    assert_eq!(truth(&equals(lit(real_of(0.0)), lit(real_of(-0.0)))), Ok(true));
}

#[test]
fn equality_of_reals_agrees_with_the_machine() {
    let samples = [
        0.0,
        -0.0,
        1.0,
        -1.0,
        f64::MIN_POSITIVE,
        f64::MAX,
        f64::INFINITY,
        f64::NEG_INFINITY,
        f64::NAN,
        -f64::NAN,
        5e-324,
    ];
    for a in samples {
        for b in samples {
            assert_eq!(real_of(a) == real_of(b), a == b);
        }
    }
}

#[test]
fn a_value_counts_as_false() {
    assert_eq!(truth(&lit(LiteralValue::Integer(1))), Ok(false));
    assert_eq!(truth(&lit(text("true"))), Ok(false));
}

#[test]
fn a_literal_evaluates_to_itself() {
    let row = Vec::new();
    let head = Vec::new();
    let e = ExpressionEvaluator::new(&row, &head);
    assert_eq!(e.eval_value(&lit(text("x"))), Ok(text("x")));
    match e.eval_expr(&lit(LiteralValue::Integer(7))) {
        Ok(ExpressionResult::Value(v)) => assert_eq!(v, LiteralValue::Integer(7)),
        other => panic!("{:?}", other),
    }
}

#[test]
fn a_column_name_evaluates_to_its_cell() {
    let row = vec![LiteralValue::Integer(1), text("Bar1")];
    let head = vec![column("Id"), column("Name")];
    let e = ExpressionEvaluator::new(&row, &head);
    assert_eq!(e.eval_value(&col("Name")), Ok(text("Bar1")));
    assert_eq!(e.eval_bool(&equals(col("Id"), lit(LiteralValue::Integer(1)))), Ok(true));
    assert_eq!(e.eval_bool(&equals(col("Id"), col("Name"))), Ok(false));
    assert_eq!(e.eval_bool(&col("Id")), Ok(false));
}

#[test]
fn an_unknown_column_is_an_error() {
    let row = vec![LiteralValue::Integer(1)];
    let head = vec![column("Id")];
    let e = ExpressionEvaluator::new(&row, &head);
    assert_eq!(e.eval_value(&col("Nope")), Err(Error::UnknownColumn));
    assert_eq!(e.eval_bool(&equals(lit(LiteralValue::Null), col("Nope"))), Err(Error::UnknownColumn));
}

#[test]
fn a_row_shorter_than_its_header_is_an_error() {
    let row = vec![LiteralValue::Integer(1)];
    let head = vec![column("Id"), column("Name")];
    let e = ExpressionEvaluator::new(&row, &head);
    assert_eq!(e.eval_value(&col("Id")), Ok(LiteralValue::Integer(1)));
    assert_eq!(e.eval_value(&col("Name")), Err(Error::SchemaWidthMismatch));
}

#[test]
fn a_comparison_is_no_operand() {
    let inner = equals(lit(LiteralValue::Integer(1)), lit(LiteralValue::Integer(1)));
    assert_eq!(truth(&equals(inner, lit(LiteralValue::Integer(1)))), Err(Error::NotAValue));
    let inner = equals(lit(LiteralValue::Integer(1)), lit(LiteralValue::Integer(1)));
    assert_eq!(truth(&equals(lit(LiteralValue::Integer(1)), inner)), Err(Error::NotAValue));
}

#[test]
fn the_left_operand_fails_first() {
    let inner = equals(lit(LiteralValue::Integer(1)), lit(LiteralValue::Integer(1)));
    assert_eq!(truth(&equals(col("Nope"), inner)), Err(Error::UnknownColumn));
    let inner = equals(lit(LiteralValue::Integer(1)), lit(LiteralValue::Integer(1)));
    assert_eq!(truth(&equals(inner, col("Nope"))), Err(Error::NotAValue));
}

#[test]
fn a_comparison_has_no_value() {
    let row = Vec::new();
    let head = Vec::new();
    let e = ExpressionEvaluator::new(&row, &head);
    let cmp = equals(lit(LiteralValue::Null), lit(LiteralValue::Null));
    assert_eq!(e.eval_value(&cmp), Err(Error::NotAValue));
    match e.eval_expr(&cmp) {
        Ok(ExpressionResult::Boolean(b)) => assert!(b),
        other => panic!("{:?}", other),
    }
}

fn table(name: &str, columns: &[&str]) -> Table {
    Table::new(TableDef {
        table_name: name.to_string(),
        columns: columns.iter().map(|c| column(c)).collect(),
        if_not_exists: false,
    })
}

#[test]
fn joined_tables_are_searched_one_after_the_other() {
    let a = table("A", &["Id", "Name"]);
    let b = table("B", &["Id", "Nick", "Age"]);
    let tables = vec![&a, &b];
    let row = vec![
        LiteralValue::Integer(1),
        text("n"),
        LiteralValue::Integer(2),
        text("k"),
        LiteralValue::Integer(30),
    ];
    let head = Vec::new();
    let e = ExpressionEvaluator::new(&row, &head).with_tables(&tables);
    assert_eq!(e.eval_value(&col("Id")), Ok(LiteralValue::Integer(1)));
    assert_eq!(e.eval_value(&col("Nick")), Ok(text("k")));
    assert_eq!(e.eval_value(&col("Age")), Ok(LiteralValue::Integer(30)));
    assert_eq!(e.eval_value(&col("Nope")), Err(Error::UnknownColumn));
}

#[test]
fn without_joined_tables_nothing_is_found() {
    let tables = Vec::new();
    let row = vec![LiteralValue::Integer(1)];
    let head = vec![column("Id")];
    let e = ExpressionEvaluator::new(&row, &head).with_tables(&tables);
    assert_eq!(e.eval_value(&col("Id")), Err(Error::UnknownColumn));
}

#[test]
fn a_column_name_can_hand_on_its_definition() {
    let a = table("A", &["Id"]);
    let mut b = Table::new(TableDef {
        table_name: "B".to_string(),
        columns: vec![ColumnDef {
            name: "Key".to_string(),
            column_type: Some(ColumnType::Integer),
            column_constraints: vec![ColumnConstraint::PrimaryKey],
        }],
        if_not_exists: false,
    });
    b.push_row(vec![LiteralValue::Integer(3)]).unwrap();
    let tables = vec![&a, &b];
    let row = Vec::new();
    let head = Vec::new();
    let e = ExpressionEvaluator::new(&row, &head).with_tables(&tables).with_column_def();
    match e.eval_expr(&col("Key")) {
        Ok(ExpressionResult::ColumnDef(def)) => {
            assert_eq!(def.name, "Key");
            assert_eq!(def.column_type, Some(ColumnType::Integer));
            assert_eq!(def.column_constraints, vec![ColumnConstraint::PrimaryKey]);
        },
        other => panic!("{:?}", other),
    }
    match e.eval_expr(&lit(LiteralValue::Integer(5))) {
        Ok(ExpressionResult::Value(v)) => assert_eq!(v, LiteralValue::Integer(5)),
        other => panic!("{:?}", other),
    }
    assert_eq!(e.eval_expr(&col("Nope")).err(), Some(Error::UnknownColumn));
    assert_eq!(e.eval_value(&col("Key")), Err(Error::SchemaWidthMismatch));
}
