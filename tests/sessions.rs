use kvdb::command::is_valid_command;
use kvdb::dispatch::{dispatch_command, Outcome};
use kvdb::scope::transaction;
use kvdb::stack::{begin, commit, rollback, Signal};

struct Session {
    current: transaction,
    stack: Vec<transaction>,
}

impl Session {
    fn new() -> Session {
        Session { current: transaction::new(), stack: Vec::new() }
    }

    fn run(&mut self, line: &str) -> Outcome {
        let words: Vec<&str> = line.split_whitespace().collect();
        let cmd = is_valid_command(&words).expect("valid command");
        dispatch_command(cmd, &mut self.current, &mut self.stack)
    }
}

#[test]
fn two_keys_counted_by_numequalto() {
    let mut s = Session::new();
    assert_eq!(s.run("SET a 10"), Outcome::Silent);
    assert_eq!(s.run("SET b 10"), Outcome::Silent);
    assert_eq!(s.run("NUMEQUALTO 10"), Outcome::Count(2));
}

#[test]
fn rollback_keeps_stale_zero_entry() {
    let mut s = Session::new();
    s.run("SET a 10");
    assert_eq!(s.run("BEGIN"), Outcome::Silent);
    s.run("SET a 20");
    assert_eq!(s.run("NUMEQUALTO 10"), Outcome::Count(0));
    assert_eq!(s.run("NUMEQUALTO 20"), Outcome::Count(1));
    assert_eq!(s.run("ROLLBACK"), Outcome::Silent);
    assert_eq!(s.run("NUMEQUALTO 10"), Outcome::Count(1));
    assert_eq!(s.run("NUMEQUALTO 20"), Outcome::Count(0));
    assert_eq!(s.run("GET a"), Outcome::Value(10));
}

#[test]
fn one_commit_flattens_nested_levels() {
    let mut s = Session::new();
    s.run("BEGIN");
    s.run("BEGIN");
    s.run("SET a 30");
    assert_eq!(s.run("COMMIT"), Outcome::Silent);
    assert_eq!(s.run("GET a"), Outcome::Value(30));
    assert_eq!(s.run("ROLLBACK"), Outcome::NoTransaction);
    assert_eq!(s.run("GET a"), Outcome::Value(30));
}

#[test]
fn rollback_without_begin() {
    let mut s = Session::new();
    assert_eq!(s.run("ROLLBACK"), Outcome::NoTransaction);
}

#[test]
fn commit_without_begin() {
    let mut s = Session::new();
    s.run("SET a 1");
    assert_eq!(s.run("COMMIT"), Outcome::NoTransaction);
    assert_eq!(s.run("GET a"), Outcome::Value(1));
    assert_eq!(s.run("NUMEQUALTO 1"), Outcome::Count(1));
}

#[test]
fn unset_missing_reports_nothing() {
    let mut s = Session::new();
    assert_eq!(s.run("UNSET missing"), Outcome::Silent);
    assert_eq!(s.run("GET missing"), Outcome::Null);
    assert_eq!(s.run("NUMEQUALTO 0"), Outcome::Count(0));
}

#[test]
fn end_stops_processing() {
    let mut s = Session::new();
    s.run("SET a 1");
    assert_eq!(s.run("END"), Outcome::End);
    assert_eq!(s.run("GET a"), Outcome::Value(1));
}

#[test]
fn get_reports_null_for_absent_key() {
    let mut s = Session::new();
    assert_eq!(s.run("GET a"), Outcome::Null);
    s.run("SET a 5");
    s.run("UNSET a");
    assert_eq!(s.run("GET a"), Outcome::Null);
}

#[test]
fn nested_rollbacks_restore_each_level() {
    let mut s = Session::new();
    s.run("SET a 10");
    s.run("BEGIN");
    s.run("SET a 20");
    s.run("SET b 20");
    s.run("BEGIN");
    s.run("UNSET a");
    s.run("SET c 99");
    assert_eq!(s.run("GET a"), Outcome::Null);
    assert_eq!(s.run("NUMEQUALTO 20"), Outcome::Count(1));
    assert_eq!(s.run("ROLLBACK"), Outcome::Silent);
    assert_eq!(s.run("GET a"), Outcome::Value(20));
    assert_eq!(s.run("GET c"), Outcome::Null);
    assert_eq!(s.run("NUMEQUALTO 20"), Outcome::Count(2));
    assert_eq!(s.run("NUMEQUALTO 99"), Outcome::Count(0));
    assert_eq!(s.run("ROLLBACK"), Outcome::Silent);
    assert_eq!(s.run("GET a"), Outcome::Value(10));
    assert_eq!(s.run("GET b"), Outcome::Null);
    assert_eq!(s.run("NUMEQUALTO 20"), Outcome::Count(0));
    assert_eq!(s.run("NUMEQUALTO 10"), Outcome::Count(1));
    assert_eq!(s.run("ROLLBACK"), Outcome::NoTransaction);
}

#[test]
fn rollback_after_inner_commit_is_empty() {
    let mut s = Session::new();
    s.run("BEGIN");
    s.run("SET a 1");
    s.run("BEGIN");
    s.run("SET a 2");
    assert_eq!(s.run("COMMIT"), Outcome::Silent);
    assert_eq!(s.run("ROLLBACK"), Outcome::NoTransaction);
    assert_eq!(s.run("GET a"), Outcome::Value(2));
}

#[test]
fn stack_operations_directly() {
    let mut ct = transaction::new();
    let mut ts: Vec<transaction> = Vec::new();
    assert_eq!(rollback(&mut ct, &mut ts), Signal::NoTransaction);
    assert_eq!(commit(&mut ts), Signal::NoTransaction);
    ct.set("k".to_string(), 3);
    begin(&ct, &mut ts);
    begin(&ct, &mut ts);
    assert_eq!(ts.len(), 2);
    ct.set("k".to_string(), 4);
    assert_eq!(rollback(&mut ct, &mut ts), Signal::Done);
    assert_eq!(ts.len(), 1);
    assert_eq!(ct.get("k".to_string()), Some(3));
    ct.set("k".to_string(), 5);
    assert_eq!(commit(&mut ts), Signal::Done);
    assert_eq!(ts.len(), 0);
    assert_eq!(ct.get("k".to_string()), Some(5));
}
