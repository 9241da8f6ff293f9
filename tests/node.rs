use calvinite::executor::{execute_loaded, ExecutorErr, RecordStorage};
use calvinite::scheduler::{txn_id, Scheduler, SchedulerErr};
use calvinite::stmt_analyzer::{AnalyzeErr, SqlStmt};
use std::collections::HashMap;
use uuid::Uuid;

/// One replica: a scheduler and an in-memory store, run one transaction at a time.
struct Node {
    scheduler: Scheduler<u32>,
    kv: HashMap<u64, u64>,
}

impl Node {
    fn new() -> Node {
        Node { scheduler: Scheduler::new(), kv: HashMap::new() }
    }

    fn run(&mut self, uuid: &str, query: &str) -> Result<Vec<RecordStorage>, ExecutorErr> {
        let txn = txn_id(uuid).unwrap();
        let stmt = SqlStmt::from_raw_stmt(query.to_string()).map_err(ExecutorErr::Analyze)?;
        let woken = self.scheduler.submit_txn(txn, &stmt, 7).unwrap();
        assert_eq!(woken, vec![(txn, 7)]);
        let out = execute(&mut self.kv, &stmt);
        let woken = self.scheduler.complete_txn(txn).unwrap();
        assert!(woken.is_empty());
        out
    }
}

fn execute(kv: &mut HashMap<u64, u64>, stmt: &SqlStmt) -> Result<Vec<RecordStorage>, ExecutorErr> {
    let loaded: Vec<Option<u64>> =
        stmt.records_to_load().iter().map(|r| kv.get(&r.id).copied()).collect();
    let outcome = execute_loaded(stmt, &loaded)?;
    for (id, val) in outcome.writes {
        kv.insert(id, val);
    }
    Ok(outcome.results)
}

fn fresh_uuid() -> String {
    Uuid::new_v4().to_string()
}

#[test]
fn test_write_then_read() {
    let mut node = Node::new();
    assert_eq!(node.run(&fresh_uuid(), "INSERT INTO foo VALUES (1, 2)"), Ok(vec![]));
    assert_eq!(
        node.run(&fresh_uuid(), "SELECT * FROM foo WHERE id = 1"),
        Ok(vec![RecordStorage { val: 2 }])
    );
}

#[test]
fn test_write_then_read_then_read() {
    let mut node = Node::new();
    assert_eq!(node.run(&fresh_uuid(), "INSERT INTO foo VALUES (1, 2)"), Ok(vec![]));
    assert_eq!(
        node.run(&fresh_uuid(), "SELECT * FROM foo WHERE id = 1"),
        Ok(vec![RecordStorage { val: 2 }])
    );
    assert_eq!(
        node.run(&fresh_uuid(), "SELECT * FROM foo WHERE id = 1"),
        Ok(vec![RecordStorage { val: 2 }])
    );
}

#[test]
fn test_multiple_write_then_read() {
    let log = vec![
        (fresh_uuid(), "INSERT INTO foo VALUES (1, 2)"),
        (fresh_uuid(), "SELECT * FROM foo WHERE id = 1"),
    ];
    let mut a = Node::new();
    let mut b = Node::new();
    let mut results_a = Vec::new();
    let mut results_b = Vec::new();
    for (uuid, query) in log.iter() {
        results_a.push(a.run(uuid, query));
        results_b.push(b.run(uuid, query));
    }
    assert_eq!(results_a[0], Ok(vec![]));
    assert_eq!(results_a[1], Ok(vec![RecordStorage { val: 2 }]));
    assert_eq!(results_b[1], Ok(vec![RecordStorage { val: 2 }]));
    assert_eq!(a.kv, b.kv);
}

#[test]
fn update_then_read() {
    let mut node = Node::new();
    assert_eq!(node.run(&fresh_uuid(), "INSERT INTO foo VALUES (7, 100)"), Ok(vec![]));
    assert_eq!(node.run(&fresh_uuid(), "UPDATE foo SET val = 200 WHERE id = 7"), Ok(vec![]));
    assert_eq!(
        node.run(&fresh_uuid(), "SELECT * FROM foo WHERE id = 7"),
        Ok(vec![RecordStorage { val: 200 }])
    );
}

#[test]
fn missing_key_read_fails() {
    let mut node = Node::new();
    assert_eq!(
        node.run(&fresh_uuid(), "SELECT * FROM foo WHERE id = 999"),
        Err(ExecutorErr::MissingRecord(999))
    );
}

#[test]
fn update_of_missing_record_fails_and_writes_nothing() {
    let mut node = Node::new();
    assert_eq!(
        node.run(&fresh_uuid(), "UPDATE foo SET val = 1 WHERE id = 5"),
        Err(ExecutorErr::MissingRecord(5))
    );
    assert!(node.kv.is_empty());
}

#[test]
fn non_integer_values_fail_at_execution() {
    let mut node = Node::new();
    assert_eq!(node.run(&fresh_uuid(), "INSERT INTO foo VALUES (3, 'x')"), Err(ExecutorErr::UnsupportedValue(3)));
    assert_eq!(node.run(&fresh_uuid(), "INSERT INTO foo VALUES (3, 4)"), Ok(vec![]));
    assert_eq!(
        node.run(&fresh_uuid(), "UPDATE foo SET val = 'y' WHERE id = 3"),
        Err(ExecutorErr::UnsupportedValue(3))
    );
    assert_eq!(node.kv.get(&3), Some(&4));
}

#[test]
fn analysis_errors_reach_the_client() {
    let mut node = Node::new();
    assert_eq!(
        node.run(&fresh_uuid(), "SELEC nonsense"),
        Err(ExecutorErr::Analyze(AnalyzeErr::ParseError))
    );
}

#[test]
fn conflicting_writes_serialize_in_log_order() {
    let mut scheduler: Scheduler<&str> = Scheduler::new();
    let mut kv: HashMap<u64, u64> = HashMap::new();
    let t1 = txn_id(&fresh_uuid()).unwrap();
    let t2 = txn_id(&fresh_uuid()).unwrap();
    let s1 = SqlStmt::from_raw_stmt("INSERT INTO foo VALUES (1, 2)".to_string()).unwrap();
    let s2 = SqlStmt::from_raw_stmt("INSERT INTO foo VALUES (1, 3)".to_string()).unwrap();

    assert_eq!(scheduler.submit_txn(t1, &s1, "first").unwrap(), vec![(t1, "first")]);
    assert_eq!(scheduler.submit_txn(t2, &s2, "second").unwrap(), vec![]);

    assert_eq!(execute(&mut kv, &s1), Ok(vec![]));
    assert_eq!(scheduler.complete_txn(t1).unwrap(), vec![(t2, "second")]);
    assert_eq!(execute(&mut kv, &s2), Ok(vec![]));
    assert_eq!(scheduler.complete_txn(t2).unwrap(), vec![]);

    let s3 = SqlStmt::from_raw_stmt("SELECT * FROM foo WHERE id = 1".to_string()).unwrap();
    assert_eq!(execute(&mut kv, &s3), Ok(vec![RecordStorage { val: 3 }]));
}

#[test]
fn reader_waits_for_earlier_writer() {
    let mut scheduler: Scheduler<u8> = Scheduler::new();
    let w = SqlStmt::from_raw_stmt("INSERT INTO foo VALUES (4, 1)".to_string()).unwrap();
    let r = SqlStmt::from_raw_stmt("SELECT * FROM foo WHERE id = 4".to_string()).unwrap();
    assert_eq!(scheduler.submit_txn(1, &w, 1).unwrap(), vec![(1, 1)]);
    assert_eq!(scheduler.submit_txn(2, &r, 2).unwrap(), vec![]);
    assert_eq!(scheduler.complete_txn(1).unwrap(), vec![(2, 2)]);
}

#[test]
fn duplicate_submission_is_refused() {
    let mut scheduler: Scheduler<u8> = Scheduler::new();
    let s = SqlStmt::from_raw_stmt("INSERT INTO foo VALUES (1, 2)".to_string()).unwrap();
    assert_eq!(scheduler.submit_txn(5, &s, 0).unwrap(), vec![(5, 0)]);
    assert_eq!(scheduler.submit_txn(5, &s, 1), Err(SchedulerErr::DuplicateTxn(5)));
}

#[test]
fn completing_a_waiting_txn_is_refused() {
    let mut scheduler: Scheduler<u8> = Scheduler::new();
    let s = SqlStmt::from_raw_stmt("INSERT INTO foo VALUES (1, 2)".to_string()).unwrap();
    scheduler.submit_txn(1, &s, 0).unwrap();
    scheduler.submit_txn(2, &s, 0).unwrap();
    assert_eq!(scheduler.complete_txn(2), Err(SchedulerErr::LockInvariantViolation(2)));
    assert_eq!(scheduler.complete_txn(3), Err(SchedulerErr::LockInvariantViolation(3)));
}

#[test]
fn txn_ids_come_from_uuids() {
    let u = Uuid::new_v4();
    assert_eq!(txn_id(&u.to_string()), Ok(u.as_u128()));
    assert_eq!(txn_id("not-a-uuid"), Err(SchedulerErr::InvalidUuid));
}

#[test]
fn execution_reports_dirty_writes_only() {
    let s = SqlStmt::from_raw_stmt("UPDATE foo SET val = 9 WHERE id = 2".to_string()).unwrap();
    let outcome = execute_loaded(&s, &vec![Some(4)]).unwrap();
    assert!(outcome.results.is_empty());
    assert_eq!(outcome.writes, vec![(2, 9)]);
    let q = SqlStmt::from_raw_stmt("SELECT * FROM foo WHERE id = 2".to_string()).unwrap();
    let outcome = execute_loaded(&q, &vec![Some(4)]).unwrap();
    assert_eq!(outcome.results, vec![RecordStorage { val: 4 }]);
    assert!(outcome.writes.is_empty());
}

#[test]
fn multi_row_insert_writes_every_row() {
    let s = SqlStmt::from_raw_stmt("INSERT INTO foo VALUES (1, 2), (2, 3), (1, 4)".to_string()).unwrap();
    let outcome = execute_loaded(&s, &vec![]).unwrap();
    let mut writes = outcome.writes.clone();
    writes.sort();
    assert_eq!(writes, vec![(1, 4), (2, 3)]);
}
