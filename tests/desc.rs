use upsert::desc::{PostgresColumnDesc, PostgresKeyDesc, PostgresTableDesc, TableAltered};

fn column(name: &str, num: u16, nullable: bool) -> PostgresColumnDesc {
    PostgresColumnDesc { name: name.to_string(), col_num: Some(num), type_oid: 23, type_mod: -1, nullable }
}

fn key(oid: u32, cols: Vec<u16>) -> PostgresKeyDesc {
    PostgresKeyDesc { oid, name: format!("k{}", oid), cols, is_primary: oid == 1, nulls_not_distinct: false }
}

fn table(columns: Vec<PostgresColumnDesc>, keys: Vec<PostgresKeyDesc>) -> PostgresTableDesc {
    PostgresTableDesc { oid: 100, namespace: "public".to_string(), name: "t".to_string(), columns, keys }
}

fn altered() -> Result<(), TableAltered> {
    Err(TableAltered { name: "t".to_string(), oid: 100 })
}

#[test]
fn equal_tables_are_compatible() {
    let t = table(vec![column("a", 1, false)], vec![key(1, vec![1])]);
    assert_eq!(t.determine_compatibility(&t.clone()), Ok(()));
}

#[test]
fn added_columns_and_keys_are_compatible() {
    let before = table(vec![column("a", 1, true)], vec![key(1, vec![1])]);
    let after = table(vec![column("a", 1, false), column("b", 2, true)], vec![key(2, vec![2]), key(1, vec![1])]);
    assert_eq!(before.determine_compatibility(&after), Ok(()));
}

#[test]
fn dropped_not_null_is_incompatible() {
    let before = table(vec![column("a", 1, false)], vec![]);
    let after = table(vec![column("a", 1, true)], vec![]);
    assert_eq!(before.determine_compatibility(&after), altered());
}

#[test]
fn removed_column_or_key_is_incompatible() {
    let before = table(vec![column("a", 1, true), column("b", 2, true)], vec![key(1, vec![1])]);
    let fewer_columns = table(vec![column("a", 1, true)], vec![key(1, vec![1])]);
    assert_eq!(before.determine_compatibility(&fewer_columns), altered());
    let changed_key = table(vec![column("a", 1, true), column("b", 2, true)], vec![key(1, vec![1, 2])]);
    assert_eq!(before.determine_compatibility(&changed_key), altered());
}

#[test]
fn renamed_table_is_incompatible() {
    let before = table(vec![], vec![]);
    let mut after = before.clone();
    after.name = "u".to_string();
    assert_eq!(before.determine_compatibility(&after), altered());
}

#[test]
fn column_compatibility() {
    assert!(column("a", 1, true).is_compatible(&column("a", 1, false)));
    assert!(!column("a", 1, false).is_compatible(&column("a", 1, true)));
    assert!(!column("a", 1, true).is_compatible(&column("b", 1, true)));
    assert!(!column("a", 1, true).is_compatible(&column("a", 2, true)));
}
