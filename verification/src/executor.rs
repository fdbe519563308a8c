//! The executor: turns one structured statement into the corresponding
//! catalog update and storage calls, and reports every failure as a
//! recoverable per-statement error.

use vstd::prelude::*;

use crate::catalog::Catalog;
use crate::catalog::Column;
use crate::catalog::SchemaModel;
use crate::catalog::TableSchema;
use crate::storage::backend::Row;
use crate::storage::backend::StorageBackend;
use crate::storage::backend::StorageError;
use crate::storage::backend::stored_rows;

verus! {

/// A structured statement, as the parsing collaborator hands it over.
/// Every recognized shape carries plain rendered values; anything the
/// executor does not support arrives as `Unsupported`.
pub enum Statement {
    CreateTable { name: String, columns: Vec<Column> },
    Insert { table: String, rows: Vec<Row> },
    Select { table: String },
    Unsupported,
}

/// What a successfully executed statement yields to the caller.
#[derive(Debug)]
pub enum ExecOutcome {
    Created,
    Inserted { count: usize },
    Rows { rows: Vec<Row> },
}

/// Why a statement could not be executed: the storage layer failed, or
/// the statement shape is not supported. Either way the session may go
/// on; no statement failure is fatal to the executor.
#[derive(Debug, Clone, PartialEq, Eq)]
pub enum ExecError {
    Storage(StorageError),
    Unsupported,
}

/// The storage state after appending a sequence of rows to one table:
/// unchanged when nothing was appended, otherwise the table holds its
/// earlier rows followed by the appended ones.
pub open spec fn after_inserts(
    tables: Map<Seq<char>, Seq<Seq<Seq<char>>>>,
    name: Seq<char>,
    added: Seq<Seq<Seq<char>>>,
) -> Map<Seq<char>, Seq<Seq<Seq<char>>>> {
    if added.len() == 0 {
        tables
    } else {
        tables.insert(name, stored_rows(tables, name) + added)
    }
}

/// Consumes structured statements and performs them against the catalog
/// and the storage backend it owns.
pub struct Executor<B: StorageBackend> {
    catalog: Catalog,
    backend: B,
}

impl<B: StorageBackend> Executor<B> {
    /// The registered schemas, by table name.
    pub closed spec fn spec_catalog(&self) -> Map<Seq<char>, SchemaModel> {
        self.catalog@
    }

    /// The stored rows, by table name.
    pub closed spec fn storage(&self) -> Map<Seq<char>, Seq<Seq<Seq<char>>>> {
        self.backend.tables()
    }

    /// Builds an executor over the given catalog and backend.
    pub fn new(catalog: Catalog, backend: B) -> (e: Self)
        ensures
            e.spec_catalog() == catalog@,
            e.storage() == backend.tables(),
    {
        Executor { catalog, backend }
    }

    /// The catalog the executor works against, for lookups.
    pub fn catalog(&self) -> (c: &Catalog)
        ensures
            c@ == self.spec_catalog(),
    {
        &self.catalog
    }

    /// Performs one statement.
    ///
    /// Creating a table registers its schema under its name — replacing
    /// any earlier schema, never failing — and then asks the backend for
    /// the table's persistent structure; both are attempted even if the
    /// backend fails. Inserting appends each row in order, stopping at
    /// the first storage failure. Selecting yields every stored row of
    /// the table in insertion order. An unsupported statement changes
    /// nothing and is reported as such.
    pub fn execute(&mut self, stmt: Statement) -> (r: Result<ExecOutcome, ExecError>)
        ensures
            (match stmt {
                Statement::CreateTable { name, columns } => {
                    &&& final(self).spec_catalog() == old(self).spec_catalog().insert(
                        name@,
                        (SchemaModel { name: name@, columns: columns.deep_view() }),
                    )
                    &&& (r matches Ok(o) ==> o is Created && final(self).storage() == (
                    if old(self).storage().dom().contains(name@) {
                        old(self).storage()
                    } else {
                        old(self).storage().insert(name@, Seq::<Seq<Seq<char>>>::empty())
                    }))
                    &&& (r matches Err(e) ==> e is Storage && final(self).storage() == old(
                        self,
                    ).storage())
                },
                Statement::Insert { table, rows } => {
                    &&& final(self).spec_catalog() == old(self).spec_catalog()
                    &&& (r matches Ok(o) ==> (o matches ExecOutcome::Inserted { count }
                        && count == rows@.len()) && final(self).storage() == after_inserts(
                        old(self).storage(),
                        table@,
                        rows.deep_view(),
                    ))
                    &&& (r matches Err(e) ==> e is Storage && (exists|k: int|
                        0 <= k <= rows@.len() && final(self).storage() == after_inserts(
                            old(self).storage(),
                            table@,
                            rows.deep_view().take(k),
                        )))
                },
                Statement::Select { table } => {
                    &&& final(self).spec_catalog() == old(self).spec_catalog()
                    &&& final(self).storage() == old(self).storage()
                    &&& (r matches Ok(o) ==> o matches ExecOutcome::Rows { rows: out }
                        && out.deep_view() == stored_rows(old(self).storage(), table@))
                    &&& (r matches Err(e) ==> e is Storage)
                },
                Statement::Unsupported => {
                    &&& final(self).spec_catalog() == old(self).spec_catalog()
                    &&& final(self).storage() == old(self).storage()
                    &&& r matches Err(ExecError::Unsupported)
                },
            }),
    {
        match stmt {
            Statement::CreateTable { name, columns } => {
                let schema = TableSchema { name, columns };
                let outcome = self.backend.create_table(&schema);
                self.catalog.create_table(schema);
                match outcome {
                    Ok(()) => Ok(ExecOutcome::Created),
                    Err(e) => Err(ExecError::Storage(e)),
                }
            },
            Statement::Insert { table, rows } => self.do_insert(table, rows),
            Statement::Select { table } => {
                match self.backend.read_all_rows(table.as_str()) {
                    Ok(rows) => Ok(ExecOutcome::Rows { rows }),
                    Err(e) => Err(ExecError::Storage(e)),
                }
            },
            Statement::Unsupported => Err(ExecError::Unsupported),
        }
    }

    /// Appends each row to the table in order, stopping at the first
    /// storage failure; rows already appended stay appended.
    fn do_insert(&mut self, table: String, rows: Vec<Row>) -> (r: Result<ExecOutcome, ExecError>)
        ensures
            final(self).spec_catalog() == old(self).spec_catalog(),
            r matches Ok(o) ==> (o matches ExecOutcome::Inserted { count } && count == rows@.len())
                && final(self).storage() == after_inserts(
                old(self).storage(),
                table@,
                rows.deep_view(),
            ),
            r matches Err(e) ==> e is Storage && (exists|k: int|
                0 <= k <= rows@.len() && final(self).storage() == after_inserts(
                    old(self).storage(),
                    table@,
                    rows.deep_view().take(k),
                )),
    {
        let ghost start = self.backend.tables();
        let count = rows.len();
        let mut k: usize = 0;
                while k < count
                    invariant
                        0 <= k <= count,
                        count == rows@.len(),
                        self.catalog == old(self).catalog,
                        start == old(self).backend.tables(),
                        self.backend.tables() == after_inserts(
                            start,
                            table@,
                            rows.deep_view().take(k as int),
                        ),
                    decreases count - k,
                {
                    let row = rows[k].duplicate();
                    let ghost rowv = row.deep_view();
                    proof {
                        assert(rowv == rows.deep_view()[k as int]);
                    }
                    let ghost cur = self.backend.tables();
                    match self.backend.insert_row(table.as_str(), row) {
                        Ok(()) => {
                            proof {
                                assert(rows.deep_view().take(k as int).push(rowv)
                                    =~= rows.deep_view().take(k as int + 1));
                                assert(stored_rows(cur, table@).push(rowv) =~= stored_rows(
                                    start,
                                    table@,
                                ) + rows.deep_view().take(k as int + 1));
                                assert(cur.insert(table@, stored_rows(cur, table@).push(rowv))
                                    =~= after_inserts(
                                    start,
                                    table@,
                                    rows.deep_view().take(k as int + 1),
                                ));
                            }
                            k = k + 1;
                        },
                        Err(e) => {
                            proof {
                                assert(0 <= k as int <= rows@.len() && self.backend.tables()
                                    == after_inserts(
                                    old(self).backend.tables(),
                                    table@,
                                    rows.deep_view().take(k as int),
                                ));
                            }
                            return Err(ExecError::Storage(e));
                        },
                    }
                }
        proof {
            assert(rows.deep_view().take(count as int) =~= rows.deep_view());
        }
        Ok(ExecOutcome::Inserted { count })
    }
}

} // verus!
