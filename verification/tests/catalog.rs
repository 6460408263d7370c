use rusql::{ColumnConstraint, ColumnDef, ColumnType, Error, LiteralValue, Rusql, TableDef};

fn definition(name: &str, columns: &[&str], if_not_exists: bool) -> TableDef {
    TableDef {
        table_name: name.to_string(),
        columns: columns
            .iter()
            .map(|c| ColumnDef {
                name: c.to_string(),
                column_type: Some(ColumnType::Integer),
                column_constraints: vec![ColumnConstraint::PrimaryKey],
            })
            .collect(),
        if_not_exists,
    }
}

#[test]
fn a_new_catalog_has_no_table() {
    let db = Rusql::new();
    assert_eq!(db.get_table(&"Foo".to_string()).err(), Some(Error::UnknownTable));
}

#[test]
fn a_created_table_is_found_under_its_name() {
    let mut db = Rusql::new();
    db.create_table(definition("Foo", &["Id"], false));
    db.create_table(definition("Bar", &["A", "B"], false));
    let foo = db.get_table(&"Foo".to_string()).unwrap();
    assert_eq!(foo.name(), "Foo");
    assert_eq!(foo.header().len(), 1);
    assert_eq!(foo.len(), 0);
    let bar = db.get_table(&"Bar".to_string()).unwrap();
    assert_eq!(bar.name(), "Bar");
    assert_eq!(bar.header().len(), 2);
    assert_eq!(bar.pk(), Some(1));
    assert!(db.get_table(&"foo".to_string()).is_err());
}

#[test]
fn a_change_through_get_mut_table_stays_in_the_catalog() {
    let mut db = Rusql::new();
    db.create_table(definition("Foo", &["Id"], false));
    db.create_table(definition("Bar", &["Id"], false));
    db.get_mut_table(&"Foo".to_string()).unwrap().push_row(vec![LiteralValue::Integer(7)]).unwrap();
    assert_eq!(db.get_table(&"Foo".to_string()).unwrap().keys(), vec![7]);
    assert_eq!(db.get_table(&"Bar".to_string()).unwrap().len(), 0);
    assert_eq!(db.get_mut_table(&"Nope".to_string()).err(), Some(Error::UnknownTable));
}

#[test]
fn create_table_replaces_or_keeps_by_the_flag() {
    let mut db = Rusql::new();
    db.create_table(definition("Foo", &["Id"], false));
    db.get_mut_table(&"Foo".to_string()).unwrap().push_row(vec![LiteralValue::Integer(1)]).unwrap();
    db.create_table(definition("Foo", &["A", "B"], true));
    let foo = db.get_table(&"Foo".to_string()).unwrap();
    assert_eq!(foo.header().len(), 1);
    assert_eq!(foo.len(), 1);
    db.create_table(definition("Foo", &["A", "B"], false));
    let foo = db.get_table(&"Foo".to_string()).unwrap();
    assert_eq!(foo.header().len(), 2);
    assert_eq!(foo.len(), 0);
}

#[test]
fn drop_table_takes_one_table_and_leaves_the_others() {
    let mut db = Rusql::new();
    db.create_table(definition("A", &["a"], false));
    db.create_table(definition("B", &["b"], false));
    db.create_table(definition("C", &["c"], false));
    db.drop_table(&"B".to_string());
    assert!(db.get_table(&"B".to_string()).is_err());
    assert_eq!(db.get_table(&"A".to_string()).unwrap().header()[0].name, "a");
    assert_eq!(db.get_table(&"C".to_string()).unwrap().header()[0].name, "c");
    db.drop_table(&"B".to_string());
    assert!(db.get_table(&"A".to_string()).is_ok());
}

#[test]
fn rename_table_moves_the_table_to_the_new_name() {
    let mut db = Rusql::new();
    db.create_table(definition("A", &["a"], false));
    db.create_table(definition("B", &["b"], false));
    assert_eq!(db.rename_table(&"A".to_string(), "Z".to_string()), Ok(()));
    assert!(db.get_table(&"A".to_string()).is_err());
    assert_eq!(db.get_table(&"Z".to_string()).unwrap().header()[0].name, "a");
    assert_eq!(db.get_table(&"B".to_string()).unwrap().header()[0].name, "b");
    assert_eq!(db.rename_table(&"A".to_string(), "Y".to_string()), Err(Error::UnknownTable));
    assert!(db.get_table(&"Y".to_string()).is_err());
}
