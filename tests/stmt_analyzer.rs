use calvinite::record::Record;
use calvinite::stmt_analyzer::{find_id, parse_number, AnalyzeErr, SqlExpr, SqlOperand, SqlStmt, StmtAction};

#[test]
fn get_impacted_records_for_insert() {
    let stmt = "INSERT INTO foo VALUES (1, 2)".to_string();
    let analyzed_stmt = SqlStmt::from_raw_stmt(stmt).unwrap();

    assert_eq!(analyzed_stmt.inserted_records, vec![Record { id: 1 }]);
    assert_eq!(analyzed_stmt.actions, vec![StmtAction::Insert(1, Some(2))]);
}

#[test]
fn get_impacted_records_for_insert_multiple_values() {
    let stmt = "INSERT INTO foo VALUES (1, 2), (2, 3), (3, 4)".to_string();
    let analyzed_stmt = SqlStmt::from_raw_stmt(stmt).unwrap();

    assert_eq!(
        analyzed_stmt.inserted_records,
        vec![Record { id: 1 }, Record { id: 2 }, Record { id: 3 }]
    );
    assert_eq!(
        analyzed_stmt.actions,
        vec![
            StmtAction::Insert(1, Some(2)),
            StmtAction::Insert(2, Some(3)),
            StmtAction::Insert(3, Some(4))
        ]
    );
}

#[test]
fn select_reads_its_predicated_record() {
    let s = SqlStmt::from_raw_stmt("SELECT * FROM foo WHERE id = 7".to_string()).unwrap();
    assert_eq!(s.read_records, vec![Record { id: 7 }]);
    assert!(s.inserted_records.is_empty());
    assert!(s.updated_records.is_empty());
    assert_eq!(s.actions, vec![StmtAction::Select(7)]);
}

#[test]
fn update_updates_its_predicated_record() {
    let s = SqlStmt::from_raw_stmt("UPDATE foo SET val = 200 WHERE id = 7".to_string()).unwrap();
    assert_eq!(s.updated_records, vec![Record { id: 7 }]);
    assert!(s.read_records.is_empty());
    assert_eq!(s.actions, vec![StmtAction::Update(7, Some(200))]);
}

#[test]
fn lock_set_covers_reads_inserts_and_updates() {
    let s = SqlStmt::from_raw_stmt("SELECT * FROM foo WHERE id = 3".to_string()).unwrap();
    assert_eq!(s.lock_set(), vec![3]);
    let u = SqlStmt::from_raw_stmt("UPDATE foo SET val = 1 WHERE id = 4".to_string()).unwrap();
    assert_eq!(u.lock_set(), vec![4]);
    let i = SqlStmt::from_raw_stmt("INSERT INTO foo VALUES (5, 6), (8, 9)".to_string()).unwrap();
    assert_eq!(i.lock_set(), vec![5, 8]);
}

#[test]
fn analysis_is_repeatable() {
    let a = SqlStmt::from_raw_stmt("INSERT INTO foo VALUES (1, 2), (2, 3)".to_string()).unwrap();
    let b = SqlStmt::from_raw_stmt("INSERT INTO foo VALUES (1, 2), (2, 3)".to_string()).unwrap();
    assert_eq!(a.actions, b.actions);
    assert_eq!(a.read_records, b.read_records);
    assert_eq!(a.inserted_records, b.inserted_records);
    assert_eq!(a.updated_records, b.updated_records);
}

#[test]
fn unparseable_text_is_a_parse_error() {
    let r = SqlStmt::from_raw_stmt("INSERT INTO".to_string());
    assert_eq!(r.unwrap_err(), AnalyzeErr::ParseError);
}

#[test]
fn select_without_id_predicate_is_unsupported() {
    let r = SqlStmt::from_raw_stmt("SELECT * FROM foo WHERE val = 1".to_string());
    assert_eq!(r.unwrap_err(), AnalyzeErr::UnsupportedPredicate);
    let r = SqlStmt::from_raw_stmt("SELECT * FROM foo".to_string());
    assert_eq!(r.unwrap_err(), AnalyzeErr::UnsupportedPredicate);
}

#[test]
fn update_with_non_integer_value_still_updates_its_record() {
    let s = SqlStmt::from_raw_stmt("UPDATE foo SET val = 'x' WHERE id = 1".to_string()).unwrap();
    assert_eq!(s.updated_records, vec![Record { id: 1 }]);
    assert_eq!(s.actions, vec![StmtAction::Update(1, None)]);
    let r = SqlStmt::from_raw_stmt("UPDATE foo SET val = 1 WHERE id > 1".to_string());
    assert_eq!(r.unwrap_err(), AnalyzeErr::UnsupportedPredicate);
}

#[test]
fn insert_row_with_non_integer_value_keeps_its_key() {
    let s = SqlStmt::from_raw_stmt("INSERT INTO foo VALUES (4, 'x'), (5, 6)".to_string()).unwrap();
    assert_eq!(s.inserted_records, vec![Record { id: 4 }, Record { id: 5 }]);
    assert_eq!(s.actions, vec![StmtAction::Insert(4, None), StmtAction::Insert(5, Some(6))]);
}

#[test]
fn grant_without_grantor_name_is_a_parse_error() {
    let r = SqlStmt::from_raw_stmt("GRANT SELECT ON foo TO bar GRANTED BY".to_string());
    assert_eq!(r.unwrap_err(), AnalyzeErr::ParseError);
}

#[test]
fn deep_nesting_is_a_parse_error() {
    let text = format!("SELECT * FROM foo WHERE id = {}1{}", "(".repeat(5000), ")".repeat(5000));
    let r = SqlStmt::from_raw_stmt(text);
    assert_eq!(r.unwrap_err(), AnalyzeErr::ParseError);
}

#[test]
fn non_integer_insert_rows_touch_nothing() {
    let s = SqlStmt::from_raw_stmt("INSERT INTO foo VALUES ('a', 2), (4, 5)".to_string()).unwrap();
    assert_eq!(s.inserted_records, vec![Record { id: 4 }]);
}

#[test]
fn other_statements_touch_nothing() {
    let s = SqlStmt::from_raw_stmt("DELETE FROM foo WHERE id = 1".to_string()).unwrap();
    assert!(s.actions.is_empty());
    let e = SqlStmt::from_raw_stmt("".to_string()).unwrap();
    assert!(e.actions.is_empty());
}

#[test]
fn numbers_are_decimal_and_fit_in_u64() {
    assert_eq!(parse_number(&b"0".to_vec()), Some(0));
    assert_eq!(parse_number(&b"12345".to_vec()), Some(12345));
    assert_eq!(parse_number(&b"18446744073709551615".to_vec()), Some(u64::MAX));
    assert_eq!(parse_number(&b"18446744073709551616".to_vec()), None);
    assert_eq!(parse_number(&b"".to_vec()), None);
    assert_eq!(parse_number(&b"1.5".to_vec()), None);
}

#[test]
fn find_id_needs_id_equals_integer() {
    let e = SqlExpr::Equals(SqlOperand::Identifier(b"id".to_vec()), SqlOperand::Number(b"42".to_vec()));
    assert_eq!(find_id(&e), Some(42));
    let e = SqlExpr::Equals(SqlOperand::Identifier(b"val".to_vec()), SqlOperand::Number(b"42".to_vec()));
    assert_eq!(find_id(&e), None);
    let e = SqlExpr::Number(b"42".to_vec());
    assert_eq!(find_id(&e), None);
}

#[test]
fn insert_from_a_query_touches_nothing() {
    let s = SqlStmt::from_raw_stmt("INSERT INTO foo SELECT * FROM bar".to_string()).unwrap();
    assert!(s.actions.is_empty());
    assert!(s.inserted_records.is_empty());
}

#[test]
fn set_operation_query_touches_nothing() {
    let s = SqlStmt::from_raw_stmt("SELECT 1 UNION SELECT 2".to_string()).unwrap();
    assert!(s.actions.is_empty());
}

#[test]
fn nested_comparison_is_not_an_id_predicate() {
    let e = SqlExpr::Equals(SqlOperand::Comparison, SqlOperand::Number(b"1".to_vec()));
    assert_eq!(find_id(&e), None);
    let r = SqlStmt::from_raw_stmt("SELECT * FROM foo WHERE (id = 1) = 1".to_string());
    assert_eq!(r.unwrap_err(), AnalyzeErr::UnsupportedPredicate);
}
