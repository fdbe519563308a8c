use ferrite_db::catalog::Catalog;
use ferrite_db::catalog::Column;
use ferrite_db::executor::ExecError;
use ferrite_db::executor::ExecOutcome;
use ferrite_db::executor::Executor;
use ferrite_db::executor::Statement;
use ferrite_db::catalog::TableSchema;
use ferrite_db::storage::MemStorageBackend;
use ferrite_db::storage::Row;
use ferrite_db::storage::StorageBackend;
use ferrite_db::storage::StorageError;

fn row(values: &[&str]) -> Row {
    Row { values: values.iter().map(|v| v.to_string()).collect() }
}

fn columns(cols: &[(&str, &str)]) -> Vec<Column> {
    cols.iter().map(|(n, t)| Column { name: n.to_string(), data_type: t.to_string() }).collect()
}

fn new_executor() -> Executor<MemStorageBackend> {
    Executor::new(Catalog::new(), MemStorageBackend::new())
}

fn select_rows(executor: &mut Executor<MemStorageBackend>, table: &str) -> Vec<Row> {
    match executor.execute(Statement::Select { table: table.to_string() }) {
        Ok(ExecOutcome::Rows { rows }) => rows,
        _ => panic!("select must yield rows"),
    }
}

#[test]
fn end_to_end_create_insert_select() {
    let mut executor = new_executor();

    let outcome = executor.execute(Statement::CreateTable {
        name: "users".to_string(),
        columns: columns(&[("id", "INT"), ("name", "TEXT")]),
    });
    assert!(matches!(outcome, Ok(ExecOutcome::Created)));

    let got = executor.catalog().get_table("users").expect("users must be registered");
    assert_eq!(got.name, "users");
    assert_eq!(got.columns.len(), 2);
    assert_eq!(got.columns[0].name, "id");
    assert_eq!(got.columns[0].data_type, "INT");
    assert_eq!(got.columns[1].name, "name");
    assert_eq!(got.columns[1].data_type, "TEXT");

    let outcome = executor.execute(Statement::Insert {
        table: "users".to_string(),
        rows: vec![row(&["1", "'Alice'"]), row(&["2", "'Bob'"])],
    });
    assert!(matches!(outcome, Ok(ExecOutcome::Inserted { count: 2 })));

    let rows = select_rows(&mut executor, "users");
    assert_eq!(rows, vec![row(&["1", "'Alice'"]), row(&["2", "'Bob'"])]);
}

#[test]
fn append_then_scan_preserves_insertion_order() {
    let mut executor = new_executor();
    executor
        .execute(Statement::CreateTable {
            name: "t".to_string(),
            columns: columns(&[("v", "TEXT")]),
        })
        .expect("create must succeed");
    for i in 0..7 {
        let outcome = executor.execute(Statement::Insert {
            table: "t".to_string(),
            rows: vec![row(&[&format!("value-{}", i)])],
        });
        assert!(matches!(outcome, Ok(ExecOutcome::Inserted { count: 1 })));
    }
    let rows = select_rows(&mut executor, "t");
    let expected: Vec<Row> = (0..7).map(|i| row(&[&format!("value-{}", i)])).collect();
    assert_eq!(rows, expected);
}

#[test]
fn scan_of_never_created_table_is_empty_not_an_error() {
    let mut executor = new_executor();
    let rows = select_rows(&mut executor, "ghost_town");
    assert!(rows.is_empty());
}

#[test]
fn repeated_create_table_preserves_existing_rows() {
    let mut executor = new_executor();
    executor
        .execute(Statement::CreateTable {
            name: "t".to_string(),
            columns: columns(&[("a", "INT")]),
        })
        .expect("create must succeed");
    executor
        .execute(Statement::Insert { table: "t".to_string(), rows: vec![row(&["1"]), row(&["2"])] })
        .expect("insert must succeed");
    executor
        .execute(Statement::CreateTable {
            name: "t".to_string(),
            columns: columns(&[("a", "INT"), ("b", "TEXT")]),
        })
        .expect("repeated create must succeed");
    let rows = select_rows(&mut executor, "t");
    assert_eq!(rows, vec![row(&["1"]), row(&["2"])]);
    let got = executor.catalog().get_table("t").expect("t stays registered");
    assert_eq!(got.columns.len(), 2);
}

#[test]
fn insert_into_never_created_table_then_scan() {
    let mut executor = new_executor();
    let outcome = executor
        .execute(Statement::Insert { table: "implicit".to_string(), rows: vec![row(&["x"])] });
    assert!(matches!(outcome, Ok(ExecOutcome::Inserted { count: 1 })));
    assert_eq!(select_rows(&mut executor, "implicit"), vec![row(&["x"])]);
}

/// A backing store whose medium is out of order: every operation
/// reports an I/O failure.
struct BrokenBackend;

impl StorageBackend for BrokenBackend {
    fn create_table(&mut self, _schema: &TableSchema) -> Result<(), StorageError> {
        Err(StorageError::Io("medium out of order".to_string()))
    }

    fn insert_row(&mut self, _table_name: &str, _row: Row) -> Result<(), StorageError> {
        Err(StorageError::Io("medium out of order".to_string()))
    }

    fn read_all_rows(&self, _table_name: &str) -> Result<Vec<Row>, StorageError> {
        Err(StorageError::Io("medium out of order".to_string()))
    }
}

#[test]
fn storage_failure_surfaces_but_catalog_registration_still_happens() {
    let mut executor = Executor::new(Catalog::new(), BrokenBackend);
    let outcome = executor.execute(Statement::CreateTable {
        name: "t".to_string(),
        columns: columns(&[("a", "INT")]),
    });
    assert!(matches!(
        outcome,
        Err(ExecError::Storage(StorageError::Io(_)))
    ));
    assert!(executor.catalog().get_table("t").is_some());

    let outcome = executor
        .execute(Statement::Insert { table: "t".to_string(), rows: vec![row(&["1"])] });
    assert!(matches!(outcome, Err(ExecError::Storage(StorageError::Io(_)))));

    let outcome = executor.execute(Statement::Select { table: "t".to_string() });
    assert!(matches!(outcome, Err(ExecError::Storage(StorageError::Io(_)))));
}

#[test]
fn unsupported_statement_is_a_recoverable_error() {
    let mut executor = new_executor();
    let outcome = executor.execute(Statement::Unsupported);
    assert_eq!(outcome.unwrap_err(), ExecError::Unsupported);
    executor
        .execute(Statement::CreateTable {
            name: "t".to_string(),
            columns: columns(&[("a", "INT")]),
        })
        .expect("the session goes on after an unsupported statement");
    assert!(executor.catalog().get_table("t").is_some());
}
