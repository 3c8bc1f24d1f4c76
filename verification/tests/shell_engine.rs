use deepsql::cli::commands::DotCommand;
use deepsql::cli::repl::{ReplAction, ReplState};
use deepsql::error::Error;
use deepsql::locking::{LockMode, LockState, LockStep};
use deepsql::sql_engine::{Prepared, SqlEngine};
use deepsql::storage::pager::Pager;
use deepsql::vm::opcode::Opcode;
use deepsql::storage::record::Value;
use deepsql::cli::formatter::{format_value, result_summary};
use deepsql::vm::executor::QueryResult;

#[test]
fn test_shared_lock() {
    let mut lock = LockState::new();
    assert_eq!(lock.request_shared(), LockStep::Acquire(LockMode::Shared));
    lock.acquired(LockMode::Shared, true).unwrap();
    assert_eq!(lock.mode(), LockMode::Shared);
    assert!(lock.is_read_locked());
    assert_eq!(lock.request_unlock(), LockStep::Release);
    lock.released();
    assert_eq!(lock.mode(), LockMode::Unlocked);
}

#[test]
fn test_exclusive_lock() {
    let mut lock = LockState::new();
    assert_eq!(lock.request_exclusive(), LockStep::Acquire(LockMode::Exclusive));
    lock.acquired(LockMode::Exclusive, true).unwrap();
    assert_eq!(lock.mode(), LockMode::Exclusive);
    assert!(lock.is_write_locked());
    assert_eq!(lock.request_exclusive(), LockStep::Done);
    lock.released();
    assert_eq!(lock.mode(), LockMode::Unlocked);
}

#[test]
fn test_lock_upgrade() {
    let mut lock = LockState::new();
    lock.acquired(LockMode::Shared, true).unwrap();
    assert_eq!(lock.mode(), LockMode::Shared);
    assert_eq!(lock.request_exclusive(), LockStep::Upgrade);
    lock.upgraded(true).unwrap();
    assert_eq!(lock.mode(), LockMode::Exclusive);
    lock.released();
}

#[test]
fn lock_refusals() {
    let mut lock = LockState::new();
    lock.acquired(LockMode::Shared, true).unwrap();
    assert_eq!(lock.request_shared(), LockStep::Fail(Error::Internal("Lock already held".to_string())));
    assert_eq!(lock.upgraded(false), Err(Error::Internal("Could not upgrade lock".to_string())));
    assert_eq!(lock.mode(), LockMode::Shared);
    let mut other = LockState::new();
    assert_eq!(
        other.acquired(LockMode::Exclusive, false),
        Err(Error::Internal("Could not acquire exclusive lock".to_string()))
    );
    assert_eq!(other.mode(), LockMode::Unlocked);
    assert_eq!(other.request_unlock(), LockStep::Done);
}

#[test]
fn repl_collects_multi_line_statements() {
    let mut repl = ReplState::new();
    assert_eq!(repl.prompt(), "deepsql> ");
    assert_eq!(repl.on_line("   "), ReplAction::Skip);
    assert_eq!(repl.on_line("SELECT *"), ReplAction::Continue);
    assert_eq!(repl.prompt(), "      -> ");
    assert_eq!(repl.on_line("  FROM t;; "), ReplAction::Execute("SELECT * FROM t".to_string()));
    assert_eq!(repl.prompt(), "deepsql> ");
}

#[test]
fn repl_dot_commands() {
    let mut repl = ReplState::new();
    assert_eq!(repl.on_line(".quit"), ReplAction::Quit);
    assert_eq!(repl.on_line(" .exit "), ReplAction::Quit);
    assert_eq!(repl.on_line(".open x.db"), ReplAction::Open("x.db".to_string()));
    assert_eq!(repl.on_line(".tables"), ReplAction::Command(DotCommand::Tables));
    assert_eq!(repl.on_line(".bogus"), ReplAction::UnknownCommand);
    assert_eq!(repl.on_line("SELECT"), ReplAction::Continue);
    assert_eq!(repl.on_line(".tables"), ReplAction::Continue);
    repl.interrupt();
    assert_eq!(repl.prompt(), "deepsql> ");
}

fn engine() -> SqlEngine {
    SqlEngine::new(Pager::open_image(Vec::new(), 256).unwrap())
}

#[test]
fn test_sql_engine_creation() {
    let _engine = engine();
}

#[test]
fn sql_engine_create_insert_and_select() {
    let mut e = engine();
    e.load_catalog().unwrap();
    match e.execute("CREATE TABLE users (id INTEGER PRIMARY KEY, name TEXT)").unwrap() {
        Prepared::Done(q) => assert_eq!(q.rows_affected, 0),
        _ => panic!("Expected a finished statement"),
    }
    assert_eq!(
        e.execute("CREATE TABLE users (id INTEGER)").unwrap_err(),
        Error::Internal("Table 'users' already exists".to_string())
    );
    assert_eq!(
        e.execute("INSERT INTO users VALUES (1)").unwrap_err(),
        Error::Internal("Column count mismatch: table has 2 columns but 1 values provided".to_string())
    );
    assert_eq!(
        e.execute("INSERT INTO users (id) VALUES (1, 'a')").unwrap_err(),
        Error::Internal("Column count mismatch: 1 columns specified but 2 values provided".to_string())
    );
    match e.execute("INSERT INTO users VALUES (1, 'a')").unwrap() {
        Prepared::Program(p) => {
            assert_eq!(p.opcodes[0], Opcode::TableScan { table: "users".to_string(), cursor_id: 0 });
            assert!(matches!(p.opcodes[3], Opcode::Insert { cursor_id: 0, register_start: 0, register_count: 2 }));
            assert_eq!(p.opcodes[4], Opcode::Halt);
        }
        _ => panic!("Expected a program"),
    }
    match e.execute("SELECT * FROM users").unwrap() {
        Prepared::Program(p) => assert_eq!(*p.opcodes.last().unwrap(), Opcode::Halt),
        _ => panic!("Expected a program"),
    }
    assert_eq!(
        e.execute("UPDATE users SET id = 2").unwrap_err(),
        Error::Internal("UPDATE not yet implemented".to_string())
    );
    assert_eq!(
        e.execute("INSERT INTO nope VALUES (1)").unwrap_err(),
        Error::Internal("Table 'nope' does not exist".to_string())
    );
    assert!(e.execute("SELEC 1").is_err());
}

#[test]
fn test_format_value() {
    assert_eq!(format_value(&Value::Null).unwrap(), "NULL");
    assert_eq!(format_value(&Value::Integer(42)).unwrap(), "42");
    assert_eq!(format_value(&Value::Text("hello".to_string())).unwrap(), "hello");
    assert_eq!(format_value(&Value::Blob(vec![1, 2, 3])).unwrap(), "<BLOB 3 bytes>");
    // A REAL's text is a floating-point rendering, done by the shell program.
    assert_eq!(format_value(&Value::Real(3.14159f64.to_bits())), None);
    assert_eq!(format_value(&Value::Integer(i64::MIN)).unwrap(), "-9223372036854775808");
}

#[test]
fn test_format_empty_result() {
    let result = QueryResult::new();
    assert_eq!(result_summary(&result).unwrap(), "No rows returned.");
}

#[test]
fn test_format_affected_rows() {
    let result = QueryResult::with_affected(5);
    assert_eq!(result_summary(&result).unwrap(), "5 row(s) affected.");
}
