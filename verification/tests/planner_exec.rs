use deepsql::catalog::manager::CatalogManager;
use deepsql::catalog::schema::{ColumnSchema, ColumnType, IndexSchema, TableSchema};
use deepsql::error::Error;
use deepsql::execution::delete::DeleteExecutor;
use deepsql::execution::insert::InsertExecutor;
use deepsql::execution::limit::LimitExecutor;
use deepsql::execution::order_by::OrderByExecutor;
use deepsql::execution::update::UpdateExecutor;
use deepsql::index::index_btree::{IndexBTree, IndexKeyBuilder};
use deepsql::index::manager::IndexManager;
use deepsql::planner::builder::PlanBuilder;
use deepsql::planner::compiler::VMCompiler;
use deepsql::planner::logical::{ColumnSpec, DataType, LogicalPlan, ProjectionExpr};
use deepsql::planner::optimizer::Optimizer;
use deepsql::planner::physical::PhysicalPlan;
use deepsql::sql::ast::{BinaryOperator, Expr, Literal, OrderDirection, UnaryOperator};
use deepsql::sql::lexer::Lexer;
use deepsql::sql::parser::Parser;
use deepsql::storage::btree::bulk_load::{bulk_load_with_target, is_sorted, sort_records};
use deepsql::storage::btree::BTree;
use deepsql::storage::pager::Pager;
use deepsql::storage::record::{Record, Value};
use deepsql::vm::opcode::Opcode;

fn fresh_pager() -> Pager {
    Pager::open_image(Vec::new(), 256).unwrap()
}

fn plan_of(sql: &str) -> LogicalPlan {
    let mut lexer = Lexer::new(sql);
    let mut parser = Parser::new(lexer.tokenize());
    PlanBuilder::new().build(parser.parse_statement().unwrap()).unwrap()
}

fn target_fill(page_size: usize) -> usize {
    (page_size as f32 * 0.9f32) as usize
}

#[test]
fn test_build_select_plan() {
    let plan = plan_of("SELECT name, age FROM users WHERE age > 18");
    assert!(matches!(plan, LogicalPlan::Projection { .. }));
    match plan {
        LogicalPlan::Projection { input, expressions } => {
            assert_eq!(expressions.len(), 2);
            assert!(matches!(*input, LogicalPlan::Filter { .. }));
        }
        _ => panic!("Expected projection"),
    }
}

#[test]
fn test_build_insert_plan() {
    let plan = plan_of("INSERT INTO users (name, age) VALUES ('Alice', 30)");
    assert!(matches!(plan, LogicalPlan::Insert { .. }));
}

#[test]
fn build_select_without_from_fails_and_limit_wraps() {
    let mut lexer = Lexer::new("SELECT 1");
    let mut parser = Parser::new(lexer.tokenize());
    let r = PlanBuilder::new().build(parser.parse_statement().unwrap());
    assert_eq!(r, Err(Error::Internal("SELECT must have FROM clause".to_string())));
    let plan = plan_of("SELECT * FROM t ORDER BY a LIMIT 3");
    match plan {
        LogicalPlan::Limit { input, limit, offset } => {
            assert_eq!(limit, 3);
            assert_eq!(offset, None);
            assert!(matches!(*input, LogicalPlan::Sort { .. }));
        }
        _ => panic!("Expected limit"),
    }
}

#[test]
fn build_create_table_primary_key_implies_not_null() {
    let plan = plan_of("CREATE TABLE t (id INTEGER PRIMARY KEY, name TEXT UNIQUE)");
    match plan {
        LogicalPlan::CreateTable { table, columns } => {
            assert_eq!(table, "t");
            assert!(columns[0].primary_key && columns[0].not_null && !columns[0].unique);
            assert!(!columns[1].primary_key && !columns[1].not_null && columns[1].unique);
            assert_eq!(columns[1].data_type, DataType::Text);
        }
        _ => panic!("Expected create table"),
    }
}

#[test]
fn test_constant_folding() {
    let optimizer = Optimizer::new();
    let expr = Expr::BinaryOp {
        left: Box::new(Expr::Literal(Literal::Integer(2))),
        op: BinaryOperator::Add,
        right: Box::new(Expr::Literal(Literal::Integer(3))),
    };
    let folded = optimizer.fold_constants(expr);
    assert!(matches!(folded, Expr::Literal(Literal::Integer(5))));
}

#[test]
fn folding_keeps_overflow_and_negates_reals() {
    let optimizer = Optimizer::new();
    let expr = Expr::BinaryOp {
        left: Box::new(Expr::Literal(Literal::Integer(i64::MAX))),
        op: BinaryOperator::Add,
        right: Box::new(Expr::Literal(Literal::Integer(1))),
    };
    assert!(matches!(optimizer.fold_constants(expr), Expr::BinaryOp { .. }));
    let neg = Expr::UnaryOp { op: UnaryOperator::Minus, expr: Box::new(Expr::Literal(Literal::Real("2.5".to_string()))) };
    assert_eq!(optimizer.fold_constants(neg), Expr::Literal(Literal::Real("-2.5".to_string())));
    let not = Expr::UnaryOp { op: UnaryOperator::Not, expr: Box::new(Expr::Literal(Literal::Boolean(true))) };
    assert_eq!(optimizer.fold_constants(not), Expr::Literal(Literal::Boolean(false)));
}

#[test]
fn test_expression_simplification() {
    let optimizer = Optimizer::new();
    let expr = Expr::BinaryOp {
        left: Box::new(Expr::Column { table: None, name: "x".to_string() }),
        op: BinaryOperator::Add,
        right: Box::new(Expr::Literal(Literal::Integer(0))),
    };
    let simplified = optimizer.simplify_expression(expr);
    assert!(matches!(simplified, Expr::Column { .. }));
    let times_zero = Expr::BinaryOp {
        left: Box::new(Expr::Column { table: None, name: "x".to_string() }),
        op: BinaryOperator::Multiply,
        right: Box::new(Expr::Literal(Literal::Integer(0))),
    };
    assert_eq!(optimizer.simplify_expression(times_zero), Expr::Literal(Literal::Integer(0)));
}

#[test]
fn optimize_merges_filters_and_pushes_them_below_projection() {
    let mut optimizer = Optimizer::new();
    optimizer.register_index("t".to_string(), "a".to_string());
    optimizer.register_index("t".to_string(), "a".to_string());
    let scan = LogicalPlan::Scan { table: "t".to_string(), alias: None };
    let inner = LogicalPlan::Filter { input: Box::new(scan), predicate: Expr::Literal(Literal::Boolean(true)) };
    let outer = LogicalPlan::Filter { input: Box::new(inner), predicate: Expr::Literal(Literal::Boolean(false)) };
    match optimizer.optimize(outer) {
        LogicalPlan::Filter { input, predicate } => {
            assert!(matches!(*input, LogicalPlan::Scan { .. }));
            assert!(matches!(predicate, Expr::BinaryOp { op: BinaryOperator::And, .. }));
        }
        _ => panic!("Expected merged filter"),
    }
    let proj = LogicalPlan::Projection {
        input: Box::new(LogicalPlan::Scan { table: "t".to_string(), alias: None }),
        expressions: vec![ProjectionExpr { expr: Expr::Column { table: None, name: "a".to_string() }, alias: None }],
    };
    let f = LogicalPlan::Filter { input: Box::new(proj), predicate: Expr::Literal(Literal::Boolean(true)) };
    match optimizer.optimize(f) {
        LogicalPlan::Projection { input, .. } => assert!(matches!(*input, LogicalPlan::Filter { .. })),
        _ => panic!("Expected projection on top"),
    }
}

#[test]
fn physical_plan_from_logical() {
    let plan = plan_of("SELECT a FROM t LIMIT 2");
    match PhysicalPlan::from_logical(plan) {
        PhysicalPlan::Limit { input, limit, offset } => {
            assert_eq!((limit, offset), (2, 0));
            match *input {
                PhysicalPlan::Project { expressions, aliases, .. } => {
                    assert_eq!(expressions.len(), 1);
                    assert_eq!(aliases, vec![None]);
                }
                _ => panic!("Expected project"),
            }
        }
        _ => panic!("Expected limit"),
    }
    let idx = LogicalPlan::CreateIndex { name: "i".to_string(), table: "t".to_string(), columns: vec![], unique: false };
    assert_eq!(PhysicalPlan::from_logical(idx), PhysicalPlan::TableScan { table: "t_i".to_string() });
}

#[test]
fn test_compiler_creation() {
    let compiler = VMCompiler::new();
    assert_eq!(compiler.opcodes.len(), 0);
}

#[test]
fn compile_table_scan_program() {
    let mut compiler = VMCompiler::new();
    let program = compiler.compile(&PhysicalPlan::TableScan { table: "t".to_string() }).unwrap();
    assert_eq!(
        program.opcodes,
        vec![
            Opcode::TableScan { table: "t".to_string(), cursor_id: 0 },
            Opcode::Rewind { cursor_id: 0, jump_if_empty: 5 },
            Opcode::ResultRow { register_start: 0, register_count: 1 },
            Opcode::Next { cursor_id: 0, jump_if_done: 5 },
            Opcode::Goto { target: 2 },
            Opcode::Halt,
        ]
    );
    assert!(compiler.compile(&PhysicalPlan::IndexScan { table: "t".to_string(), index: "i".to_string() }).is_err());
}

#[test]
fn compile_filtered_projection_uses_schema_columns() {
    let mut compiler = VMCompiler::new();
    let mut t = TableSchema::new("t".to_string(), 2);
    t.add_column(ColumnSchema::new("a".to_string(), ColumnType::Integer));
    t.add_column(ColumnSchema::new("b".to_string(), ColumnType::Integer));
    compiler.set_table_schemas(vec![("t".to_string(), t)]);
    let plan = PhysicalPlan::from_logical(plan_of("SELECT b FROM t WHERE a = 1"));
    let program = compiler.compile(&plan).unwrap();
    assert_eq!(program.opcodes[0], Opcode::TableScan { table: "t".to_string(), cursor_id: 0 });
    assert_eq!(program.opcodes[2], Opcode::Column { cursor_id: 0, column_index: 0, register: 0 });
    assert!(matches!(program.opcodes[3], Opcode::Filter { jump_target: 6, .. }));
    assert_eq!(program.opcodes[4], Opcode::Column { cursor_id: 0, column_index: 1, register: 0 });
    assert_eq!(program.opcodes[5], Opcode::ResultRow { register_start: 0, register_count: 1 });
    assert_eq!(program.opcodes[6], Opcode::Next { cursor_id: 0, jump_if_done: 8 });
    assert_eq!(program.opcodes[8], Opcode::Halt);
}

#[test]
fn compile_delete_program() {
    let mut compiler = VMCompiler::new();
    let plan = PhysicalPlan::Delete { table: "t".to_string(), filter: None };
    let program = compiler.compile(&plan).unwrap();
    assert_eq!(
        program.opcodes,
        vec![
            Opcode::TableScan { table: "t".to_string(), cursor_id: 0 },
            Opcode::Rewind { cursor_id: 0, jump_if_empty: 5 },
            Opcode::Delete { cursor_id: 0 },
            Opcode::Next { cursor_id: 0, jump_if_done: 5 },
            Opcode::Goto { target: 2 },
            Opcode::Halt,
        ]
    );
}

#[test]
fn test_index_manager_creation() {
    let manager = IndexManager::new();
    assert_eq!(manager.indexes.len(), 0);
}

#[test]
fn test_load_index() {
    let mut manager = IndexManager::new();
    let mut pager = fresh_pager();
    let mut schema = IndexSchema::new("idx_users_email".to_string(), "users".to_string(), 2);
    schema.add_column("email".to_string());
    schema.unique = true;
    manager.load_index(&schema, &mut pager).unwrap();
    assert!(manager.get_index("idx_users_email").is_some());
}

#[test]
fn index_manager_insert_search_delete() {
    let mut manager = IndexManager::new();
    let mut pager = fresh_pager();
    let mut schema = IndexSchema::new("ix".to_string(), "t".to_string(), 2);
    schema.unique = true;
    manager.load_index(&schema, &mut pager).unwrap();
    let vals = vec![Value::Integer(7)];
    manager.insert_into_index("ix", &vals, 11, &mut pager).unwrap();
    assert_eq!(manager.search_index("ix", &vals, &mut pager).unwrap(), Some(11));
    assert_eq!(
        manager.insert_into_index("ix", &vals, 12, &mut pager),
        Err(Error::Internal("Unique constraint violation".to_string()))
    );
    manager.delete_from_index("ix", &vals, &mut pager).unwrap();
    assert_eq!(manager.search_index("ix", &vals, &mut pager).unwrap(), None);
    assert_eq!(
        manager.search_index("nope", &vals, &mut pager),
        Err(Error::Internal("Index 'nope' not found".to_string()))
    );
    assert_eq!(manager.get_table_indexes("t"), vec!["ix".to_string()]);
}

#[test]
fn test_index_btree_creation() {
    let mut pager = fresh_pager();
    let index = IndexBTree::new(&mut pager, 2, true).unwrap();
    assert!(index.is_unique());
}

#[test]
fn non_unique_index_keeps_all_ids() {
    let mut pager = fresh_pager();
    let mut index = IndexBTree::new(&mut pager, 2, false).unwrap();
    index.insert(&mut pager, &[1, 2], 5).unwrap();
    index.insert(&mut pager, &[1, 2], 6).unwrap();
    index.insert(&mut pager, &[9], 7).unwrap();
    assert_eq!(index.search(&mut pager, &[1, 2]).unwrap(), Some(5));
    assert_eq!(index.scan_range(&mut pager, None, None).unwrap(), vec![5, 6, 7]);
}

#[test]
fn test_index_key_builder() {
    let values = vec![Value::Integer(42), Value::Text("test".to_string())];
    let key = IndexKeyBuilder::build_key(&values);
    assert!(!key.is_empty());
    assert_eq!(key[0], 1);
    assert_eq!(key, vec![1, 0, 0, 0, 0, 0, 0, 0, 42, 3, b't', b'e', b's', b't', 0]);
    assert_eq!(IndexKeyBuilder::build_key(&[Value::Null, Value::Blob(vec![9])]), vec![0, 4, 0, 0, 0, 1, 9]);
}

#[test]
fn test_limit_only() {
    let rows = vec![vec![Value::Integer(1)], vec![Value::Integer(2)], vec![Value::Integer(3)], vec![Value::Integer(4)]];
    let result = LimitExecutor::apply(rows, Some(2), None).unwrap();
    assert_eq!(result.len(), 2);
    assert_eq!(result[0][0], Value::Integer(1));
    assert_eq!(result[1][0], Value::Integer(2));
}

#[test]
fn test_offset_only() {
    let rows = vec![vec![Value::Integer(1)], vec![Value::Integer(2)], vec![Value::Integer(3)], vec![Value::Integer(4)]];
    let result = LimitExecutor::apply(rows, None, Some(2)).unwrap();
    assert_eq!(result.len(), 2);
    assert_eq!(result[0][0], Value::Integer(3));
    assert_eq!(result[1][0], Value::Integer(4));
}

#[test]
fn test_limit_and_offset() {
    let rows = vec![
        vec![Value::Integer(1)],
        vec![Value::Integer(2)],
        vec![Value::Integer(3)],
        vec![Value::Integer(4)],
        vec![Value::Integer(5)],
    ];
    let result = LimitExecutor::apply(rows, Some(2), Some(1)).unwrap();
    assert_eq!(result.len(), 2);
    assert_eq!(result[0][0], Value::Integer(2));
    assert_eq!(result[1][0], Value::Integer(3));
}

#[test]
fn offset_past_end_gives_nothing() {
    let rows = vec![vec![Value::Integer(1)]];
    assert_eq!(LimitExecutor::apply(rows, Some(5), Some(3)).unwrap().len(), 0);
}

#[test]
fn test_sort_by_column_asc() {
    let mut rows = vec![vec![Value::Integer(3)], vec![Value::Integer(1)], vec![Value::Integer(2)]];
    OrderByExecutor::sort_by_column(&mut rows, 0, OrderDirection::Asc).unwrap();
    assert_eq!(rows[0][0], Value::Integer(1));
    assert_eq!(rows[1][0], Value::Integer(2));
    assert_eq!(rows[2][0], Value::Integer(3));
}

#[test]
fn test_sort_by_column_desc() {
    let mut rows = vec![vec![Value::Integer(1)], vec![Value::Integer(3)], vec![Value::Integer(2)]];
    OrderByExecutor::sort_by_column(&mut rows, 0, OrderDirection::Desc).unwrap();
    assert_eq!(rows[0][0], Value::Integer(3));
    assert_eq!(rows[1][0], Value::Integer(2));
    assert_eq!(rows[2][0], Value::Integer(1));
}

#[test]
fn sort_is_stable_and_orders_text() {
    let mut rows = vec![
        vec![Value::Text("b".to_string()), Value::Integer(1)],
        vec![Value::Text("a".to_string()), Value::Integer(2)],
        vec![Value::Text("b".to_string()), Value::Integer(3)],
    ];
    OrderByExecutor::sort_by_column(&mut rows, 0, OrderDirection::Asc).unwrap();
    assert_eq!(rows[0][1], Value::Integer(2));
    assert_eq!(rows[1][1], Value::Integer(1));
    assert_eq!(rows[2][1], Value::Integer(3));
}

fn users_plan() -> LogicalPlan {
    LogicalPlan::CreateTable {
        table: "users".to_string(),
        columns: vec![
            ColumnSpec {
                name: "id".to_string(),
                data_type: DataType::Integer,
                not_null: true,
                primary_key: true,
                unique: false,
                default: None,
            },
            ColumnSpec {
                name: "name".to_string(),
                data_type: DataType::Text,
                not_null: true,
                primary_key: false,
                unique: false,
                default: None,
            },
        ],
    }
}

#[test]
fn test_create_table() {
    let mut manager = CatalogManager::new();
    let mut pager = fresh_pager();
    manager.create_table(&users_plan(), &mut pager).unwrap();
    assert_eq!(manager.list_tables().len(), 1);
    assert!(manager.get_table("users").is_some());
    let table = manager.get_table("users").unwrap();
    assert_eq!(table.columns.len(), 2);
    assert_eq!(table.primary_key, Some(0));
    assert_eq!(table.root_page, 2);
}

#[test]
fn test_duplicate_table() {
    let mut manager = CatalogManager::new();
    let mut pager = fresh_pager();
    manager.create_table(&users_plan(), &mut pager).unwrap();
    let result = manager.create_table(&users_plan(), &mut pager);
    assert!(result.is_err());
    assert_eq!(result, Err(Error::Internal("Table 'users' already exists".to_string())));
}

#[test]
fn test_insert_executor() {
    let mut pager = fresh_pager();
    let mut catalog = CatalogManager::new();
    catalog.create_table(&users_plan(), &mut pager).unwrap();
    let insert_plan = LogicalPlan::Insert {
        table: "users".to_string(),
        columns: None,
        values: vec![vec![Expr::Literal(Literal::Integer(1))]],
    };
    let result = InsertExecutor::execute(insert_plan, &mut catalog, &mut pager);
    assert!(result.is_ok());
    assert_eq!(result.unwrap().rows_affected, 1);
}

#[test]
fn executors_reject_missing_tables_and_wrong_plans() {
    let mut pager = fresh_pager();
    let mut catalog = CatalogManager::new();
    let del = LogicalPlan::Delete { table: "x".to_string(), filter: None };
    assert_eq!(
        DeleteExecutor::execute(del, &catalog, &mut pager).unwrap_err(),
        Error::Internal("Table 'x' does not exist".to_string())
    );
    let scan = LogicalPlan::Scan { table: "x".to_string(), alias: None };
    assert_eq!(
        UpdateExecutor::execute(scan, &catalog, &mut pager).unwrap_err(),
        Error::Internal("Expected UPDATE plan".to_string())
    );
    let scan = LogicalPlan::Scan { table: "x".to_string(), alias: None };
    assert_eq!(
        InsertExecutor::execute(scan, &mut catalog, &mut pager).unwrap_err(),
        Error::Internal("Expected INSERT plan".to_string())
    );
}

#[test]
fn test_sort_records() {
    let mut records = Vec::new();
    for i in (0..10).rev() {
        records.push(Record::new(vec![i as u8], vec![Value::Integer(i as i64)]));
    }
    let sorted = sort_records(records);
    assert!(is_sorted(&sorted));
    assert_eq!(sorted[0].key, vec![0]);
}

#[test]
fn test_bulk_load_sorted() {
    let mut pager = fresh_pager();
    let mut btree = BTree::new(&mut pager).unwrap();
    let mut records = Vec::new();
    for i in 0..100 {
        let key = format!("key_{:05}", i).into_bytes();
        records.push(Record::new(key, vec![Value::Integer(i as i64)]));
    }
    let fill = target_fill(pager.page_size());
    let count = bulk_load_with_target(&mut btree, &mut pager, records, fill).unwrap();
    assert_eq!(count, 100);
    for i in 0..100 {
        let key = format!("key_{:05}", i).into_bytes();
        let found = btree.search(&mut pager, &key);
        assert!(found.is_ok(), "Failed to find key {}", i);
    }
}

#[test]
fn test_bulk_load_unsorted_error() {
    let mut pager = fresh_pager();
    let mut btree = BTree::new(&mut pager).unwrap();
    let mut records = Vec::new();
    for i in (0..100).rev() {
        records.push(Record::new(vec![i as u8], vec![Value::Integer(i as i64)]));
    }
    let fill = target_fill(pager.page_size());
    let result = bulk_load_with_target(&mut btree, &mut pager, records, fill);
    assert!(result.is_err());
}

#[test]
fn test_bulk_load_small_dataset() {
    let mut pager = fresh_pager();
    let mut btree_bulk = BTree::new(&mut pager).unwrap();
    let mut records = Vec::new();
    for i in 0..50 {
        let key = format!("key_{:03}", i).into_bytes();
        records.push(Record::new(key, vec![Value::Integer(i as i64)]));
    }
    let fill = target_fill(pager.page_size());
    let count = bulk_load_with_target(&mut btree_bulk, &mut pager, records, fill).unwrap();
    assert_eq!(count, 50);
    assert!(btree_bulk.search(&mut pager, &format!("key_{:03}", 0).into_bytes()).is_ok());
    assert!(btree_bulk.search(&mut pager, &format!("key_{:03}", 25).into_bytes()).is_ok());
    assert!(btree_bulk.search(&mut pager, &format!("key_{:03}", 49).into_bytes()).is_ok());
}

#[test]
fn bulk_load_of_nothing_loads_nothing() {
    let mut pager = fresh_pager();
    let mut btree = BTree::new(&mut pager).unwrap();
    assert_eq!(bulk_load_with_target(&mut btree, &mut pager, Vec::new(), 100).unwrap(), 0);
}

#[test]
fn logical_plan_input_mut_replaces_the_input() {
    let mut plan = LogicalPlan::Limit {
        input: Box::new(LogicalPlan::Scan { table: "users".to_string(), alias: None }),
        limit: 5,
        offset: None,
    };
    if let Some(input) = plan.input_mut() {
        *input = LogicalPlan::Scan { table: "orders".to_string(), alias: Some("o".to_string()) };
    }
    match plan.input() {
        Some(LogicalPlan::Scan { table, alias }) => {
            assert_eq!(table, "orders");
            assert_eq!(alias.as_deref(), Some("o"));
        },
        _ => panic!("input was not replaced"),
    }
    let mut scan = LogicalPlan::Scan { table: "t".to_string(), alias: None };
    assert!(scan.input_mut().is_none());
}

#[test]
fn logical_plan_text_nests_inputs() {
    let plan = LogicalPlan::Limit {
        input: Box::new(LogicalPlan::Filter {
            input: Box::new(LogicalPlan::Scan { table: "users".to_string(), alias: Some("u".to_string()) }),
            predicate: Expr::Literal(Literal::Boolean(true)),
        }),
        limit: 10,
        offset: Some(5),
    };
    assert_eq!(plan.to_string(), "Limit: 10 OFFSET 5\n  Filter\n  Scan: users AS u");
    let create = LogicalPlan::CreateTable { table: "t".to_string(), columns: vec![] };
    assert_eq!(create.to_string(), "CreateTable: t (0 columns)");
}

#[test]
fn physical_plan_text_nests_inputs() {
    let plan = PhysicalPlan::Limit {
        input: Box::new(PhysicalPlan::Sort {
            input: Box::new(PhysicalPlan::IndexScan { table: "t".to_string(), index: "i".to_string() }),
            order_by: vec![],
        }),
        limit: 3,
        offset: 0,
    };
    assert_eq!(plan.to_string(), "Limit(3)\n  Sort(0 keys)\n  IndexScan(t.i)");
    let offset = PhysicalPlan::Limit {
        input: Box::new(PhysicalPlan::TableScan { table: "t".to_string() }),
        limit: 3,
        offset: 2,
    };
    assert_eq!(offset.to_string(), "Limit(3 OFFSET 2)\n  TableScan(t)");
}

#[test]
fn bulk_load_keeps_the_first_leaf_first() {
    let mut pager = fresh_pager();
    let mut btree = BTree::new(&mut pager).unwrap();
    let mut records = Vec::new();
    for i in 0..40 {
        let key = format!("key_{:05}", i).into_bytes();
        records.push(Record::new(key, vec![Value::Integer(i as i64)]));
    }
    assert_eq!(bulk_load_with_target(&mut btree, &mut pager, records, 200).unwrap(), 40);
    let cursor = deepsql::storage::btree::cursor::Cursor::new(&mut pager, btree.root_page_id()).unwrap();
    let first = cursor.current(&mut pager).unwrap();
    assert_eq!(first.key, b"key_00000".to_vec());
    assert_eq!(first.values, vec![Value::Integer(0)]);
}

#[test]
fn create_table_makes_not_null_and_key_columns_non_nullable() {
    let mut manager = CatalogManager::new();
    let mut pager = fresh_pager();
    let spec = |name: &str, not_null: bool, primary_key: bool| ColumnSpec {
        name: name.to_string(),
        data_type: DataType::Text,
        not_null,
        primary_key,
        unique: false,
        default: None,
    };
    let plan = LogicalPlan::CreateTable {
        table: "t".to_string(),
        columns: vec![spec("id", false, true), spec("name", true, false), spec("note", false, false)],
    };
    manager.create_table(&plan, &mut pager).unwrap();
    let table = manager.get_table("t").unwrap();
    assert!(!table.columns[0].nullable);
    assert!(!table.columns[1].nullable);
    assert!(table.columns[2].nullable);
}

#[test]
fn bulk_loaded_leaf_finds_each_record_and_nothing_else() {
    let mut pager = fresh_pager();
    let mut btree = BTree::new(&mut pager).unwrap();
    let mut records = Vec::new();
    for i in 0..10 {
        records.push(Record::new(vec![b'a' + i as u8], vec![Value::Integer(i as i64)]));
    }
    assert_eq!(bulk_load_with_target(&mut btree, &mut pager, records, 2000).unwrap(), 10);
    for i in 0..10 {
        let found = btree.search(&mut pager, &[b'a' + i as u8]).unwrap();
        assert_eq!(found.values, vec![Value::Integer(i as i64)]);
    }
    assert_eq!(btree.search(&mut pager, b"zz").unwrap_err(), Error::NotFound);
}

#[test]
fn bulk_load_over_several_leaves_under_one_page_loads_everything() {
    let mut pager = fresh_pager();
    let mut btree = BTree::new(&mut pager).unwrap();
    let mut records = Vec::new();
    for i in 0..10 {
        let key = format!("r{}", i).into_bytes();
        records.push(Record::new(key, vec![Value::Text("v".repeat(150))]));
    }
    assert_eq!(bulk_load_with_target(&mut btree, &mut pager, records, 400).unwrap(), 10);
    let root = pager.read_page(btree.root_page_id()).unwrap();
    let node = deepsql::storage::btree::node::BTreeNode::from_page(root);
    assert!(!node.is_leaf().unwrap());
    assert!(node.cell_count().unwrap() >= 2);
    let cursor = deepsql::storage::btree::cursor::Cursor::new(&mut pager, btree.root_page_id()).unwrap();
    assert_eq!(cursor.current(&mut pager).unwrap().key, b"r0".to_vec());
}

#[test]
fn bulk_load_separators_send_a_leafs_keys_to_the_next_leaf() {
    let mut pager = fresh_pager();
    let mut btree = BTree::new(&mut pager).unwrap();
    let mut records = Vec::new();
    for i in 0..10 {
        let key = format!("r{}", i).into_bytes();
        records.push(Record::new(key, vec![Value::Text("v".repeat(150))]));
    }
    assert_eq!(bulk_load_with_target(&mut btree, &mut pager, records, 400).unwrap(), 10);
    assert_eq!(btree.search(&mut pager, b"r0").unwrap_err(), Error::NotFound);
    assert_eq!(btree.search(&mut pager, b"r1").unwrap_err(), Error::NotFound);
    let last = btree.search(&mut pager, b"r9").unwrap();
    assert_eq!(last.values, vec![Value::Text("v".repeat(150))]);
}
