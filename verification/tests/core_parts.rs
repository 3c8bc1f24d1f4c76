use deepsql::catalog::manager::CatalogManager;
use deepsql::catalog::schema::{Catalog, ColumnSchema, ColumnType, IndexSchema, TableSchema};
use deepsql::cli::commands::DotCommand;
use deepsql::error::Error;
use deepsql::storage::btree::rebalance::{RebalanceStrategy, WorkloadAnalyzer};
use deepsql::transaction::TransactionContext;

#[test]
fn test_catalog_manager_creation() {
    let manager = CatalogManager::new();
    assert_eq!(manager.list_tables().len(), 0);
}

#[test]
fn test_catalog_creation() {
    let catalog = Catalog::new();
    assert_eq!(catalog.tables.len(), 0);
    assert_eq!(catalog.indexes.len(), 0);
}

#[test]
fn test_table_schema() {
    let mut table = TableSchema::new("users".to_string(), 1);
    let col1 = ColumnSchema::new("id".to_string(), ColumnType::Integer).with_primary_key();
    let col2 = ColumnSchema::new("name".to_string(), ColumnType::Text).with_not_null();
    table.add_column(col1);
    table.add_column(col2);
    assert_eq!(table.columns.len(), 2);
    assert_eq!(table.primary_key, Some(0));
    assert_eq!(table.get_column("name").unwrap().data_type, ColumnType::Text);
}

#[test]
fn test_catalog_operations() {
    let mut catalog = Catalog::new();
    let mut table = TableSchema::new("users".to_string(), 1);
    table.add_column(ColumnSchema::new("id".to_string(), ColumnType::Integer));
    catalog.add_table(table);
    assert_eq!(catalog.table_names().len(), 1);
    assert!(catalog.get_table("users").is_some());
    catalog.remove_table("users");
    assert_eq!(catalog.table_names().len(), 0);
}

#[test]
fn catalog_replaces_table_of_same_name_and_tracks_indexes() {
    let mut catalog = Catalog::new();
    catalog.add_table(TableSchema::new("t".to_string(), 2));
    catalog.add_table(TableSchema::new("t".to_string(), 5));
    assert_eq!(catalog.table_names().len(), 1);
    assert_eq!(catalog.get_table("t").unwrap().root_page, 5);
    let mut idx = IndexSchema::new("i".to_string(), "t".to_string(), 7);
    idx.add_column("a".to_string());
    catalog.add_index(idx);
    assert_eq!(catalog.get_index("i").unwrap().columns, vec!["a".to_string()]);
    assert!(catalog.remove_index("i").is_some());
    assert!(catalog.get_index("i").is_none());
}

#[test]
fn manager_drop_table_errors_when_missing() {
    let mut manager = CatalogManager::new();
    assert_eq!(manager.drop_table("nope"), Err(Error::Internal("Table 'nope' does not exist".to_string())));
    manager.catalog_mut().add_table(TableSchema::new("t".to_string(), 2));
    assert!(manager.drop_table("t").is_ok());
    assert!(manager.get_table("t").is_none());
}

#[test]
fn test_parse_tables() {
    assert_eq!(DotCommand::parse(".tables"), Some(DotCommand::Tables));
}

#[test]
fn test_parse_schema() {
    assert_eq!(DotCommand::parse(".schema users"), Some(DotCommand::Schema(Some("users".to_string()))));
    assert_eq!(DotCommand::parse(".schema"), Some(DotCommand::Schema(None)));
}

#[test]
fn test_parse_open() {
    assert_eq!(DotCommand::parse(".open test.db"), Some(DotCommand::Open("test.db".to_string())));
}

#[test]
fn test_parse_help() {
    assert_eq!(DotCommand::parse(".help"), Some(DotCommand::Help));
}

#[test]
fn test_parse_quit() {
    assert_eq!(DotCommand::parse(".quit"), Some(DotCommand::Quit));
    assert_eq!(DotCommand::parse(".exit"), Some(DotCommand::Exit));
}

#[test]
fn test_parse_invalid() {
    assert_eq!(DotCommand::parse(".invalid"), None);
    assert_eq!(DotCommand::parse("SELECT * FROM users"), None);
}

#[test]
fn dot_command_execute_outputs() {
    let mut manager = CatalogManager::new();
    assert_eq!(DotCommand::Tables.execute(&manager).unwrap(), "No tables found.");
    let mut t = TableSchema::new("users".to_string(), 2);
    t.add_column(ColumnSchema::new("id".to_string(), ColumnType::Integer).with_primary_key());
    manager.catalog_mut().add_table(t);
    assert_eq!(DotCommand::Tables.execute(&manager).unwrap(), "users");
    assert_eq!(
        DotCommand::Schema(Some("users".to_string())).execute(&manager).unwrap(),
        "CREATE TABLE users (\n  id INTEGER PRIMARY KEY\n);"
    );
    assert_eq!(DotCommand::Schema(Some("x".to_string())).execute(&manager).unwrap(), "Table 'x' not found.");
    assert_eq!(DotCommand::Quit.execute(&manager).unwrap(), "Goodbye!");
}

#[test]
fn test_error_display() {
    let err = Error::TableNotFound("users".to_string());
    assert_eq!(err.message(), "Table not found: users");
    let err = Error::ParseError { message: "Unexpected token".to_string(), line: 1, column: 5 };
    assert_eq!(err.message(), "Parse error at line 1, column 5: Unexpected token");
}

#[test]
fn test_error_type_checks() {
    let err = Error::TableNotFound("users".to_string());
    assert!(err.is_not_found());
    assert!(!err.is_constraint_violation());
    let err = Error::ConstraintViolation("Unique constraint violated".to_string());
    assert!(!err.is_not_found());
    assert!(err.is_constraint_violation());
}

#[test]
fn error_messages_of_other_kinds() {
    assert_eq!(Error::NotFound.message(), "Record not found");
    assert!(Error::NotFound.is_not_found());
    assert!(Error::ColumnNotFound("c".to_string()).is_not_found());
}

#[test]
fn test_transaction_lifecycle() {
    let mut ctx = TransactionContext::new();
    assert!(!ctx.is_active());
    ctx.begin().unwrap();
    assert!(ctx.is_active());
    ctx.commit();
    assert!(!ctx.is_active());
}

#[test]
fn test_save_original() {
    let mut ctx = TransactionContext::new();
    ctx.begin().unwrap();
    let original = vec![1, 2, 3];
    ctx.save_original(1, original.clone());
    ctx.save_original(1, vec![4, 5, 6]);
    assert_eq!(ctx.get_original_data(1), Some(&original));
}

#[test]
fn test_rollback_returns_originals() {
    let mut ctx = TransactionContext::new();
    ctx.begin().unwrap();
    ctx.save_original(1, vec![1, 2, 3]);
    ctx.save_original(2, vec![4, 5, 6]);
    let originals = ctx.rollback();
    assert_eq!(originals.len(), 2);
    assert_eq!(originals.get(&1), Some(&vec![1, 2, 3]));
    assert!(!ctx.is_active());
}

#[test]
fn begin_twice_is_an_error() {
    let mut ctx = TransactionContext::new();
    ctx.begin().unwrap();
    assert!(ctx.begin().is_err());
}

#[test]
fn test_workload_analyzer_delete_heavy() {
    let mut analyzer = WorkloadAnalyzer::new();
    for _ in 0..100 {
        analyzer.record_delete();
    }
    for _ in 0..20 {
        analyzer.record_insert();
    }
    assert!(analyzer.is_delete_heavy());
    assert_eq!(analyzer.get_strategy(), RebalanceStrategy::Aggressive);
}

#[test]
fn test_workload_analyzer_insert_heavy() {
    let mut analyzer = WorkloadAnalyzer::new();
    for _ in 0..100 {
        analyzer.record_insert();
    }
    for _ in 0..20 {
        analyzer.record_delete();
    }
    assert!(analyzer.is_insert_heavy());
    assert_eq!(analyzer.get_strategy(), RebalanceStrategy::Conservative);
}

#[test]
fn test_workload_analyzer_mixed() {
    let mut analyzer = WorkloadAnalyzer::new();
    for _ in 0..50 {
        analyzer.record_insert();
    }
    for _ in 0..50 {
        analyzer.record_delete();
    }
    assert!(!analyzer.is_delete_heavy());
    assert!(!analyzer.is_insert_heavy());
    assert_eq!(analyzer.get_strategy(), RebalanceStrategy::Standard);
}

#[test]
fn test_workload_stats() {
    let mut analyzer = WorkloadAnalyzer::new();
    analyzer.record_insert();
    analyzer.record_insert();
    analyzer.record_delete();
    let stats = analyzer.get_stats();
    assert_eq!(stats.insert_count, 2);
    assert_eq!(stats.delete_count, 1);
    assert_eq!(stats.update_count, 0);
}

#[test]
fn dot_command_names_ignore_case() {
    assert_eq!(DotCommand::parse(".TABLES"), Some(DotCommand::Tables));
    assert_eq!(DotCommand::parse(".Schema users"), Some(DotCommand::Schema(Some("users".to_string()))));
}
