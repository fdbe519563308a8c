//! The value container for one table record, the errors the storage layer
//! reports, and the capability trait every backing store implements.

use vstd::prelude::*;

use crate::catalog::TableSchema;

verus! {

/// One table record: an ordered sequence of textual field values, one per
/// column, in table-declaration order. A row is never validated against a
/// schema; its cardinality may differ from the column count.
#[derive(Debug, Clone, PartialEq, Eq)]
pub struct Row {
    pub values: Vec<String>,
}

impl View for Row {
    type V = Seq<Seq<char>>;

    open spec fn view(&self) -> Seq<Seq<char>> {
        self.values.deep_view()
    }
}

impl DeepView for Row {
    type V = Seq<Seq<char>>;

    open spec fn deep_view(&self) -> Seq<Seq<char>> {
        self.values.deep_view()
    }
}

impl Row {
    /// Copies the row value for value; the copy denotes the same
    /// ordered sequence of textual values.
    pub fn duplicate(&self) -> (out: Row)
        ensures
            out.deep_view() == self.deep_view(),
    {
        let mut values: Vec<String> = Vec::new();
        let mut i: usize = 0;
        while i < self.values.len()
            invariant
                0 <= i <= self.values@.len(),
                values.deep_view() =~= self.deep_view().take(i as int),
            decreases self.values@.len() - i,
        {
            let ghost pre = values.deep_view();
            values.push(self.values[i].clone());
            proof {
                assert(values.deep_view() =~= pre.push(self.values@[i as int]@));
                assert(self.deep_view().take(i + 1) =~= self.deep_view().take(i as int).push(
                    self.deep_view()[i as int],
                ));
            }
            i = i + 1;
        }
        proof {
            assert(self.deep_view().take(self.values@.len() as int) =~= self.deep_view());
        }
        Row { values }
    }
}

/// Why a storage operation failed: a physical I/O problem (with the
/// medium's own message), or a record that does not decode.
#[derive(Debug, Clone, PartialEq, Eq)]
pub enum StorageError {
    Io(String),
    Decode,
}

/// The capability a backing store offers the executor: create a table's
/// persistent structure, append one row, and read every row back in
/// insertion order. The abstract state is a map from table name to the
/// ordered sequence of rows stored for it; an implementation overrides
/// `tables` with its own model of that state (the default says nothing
/// is stored).
///
/// Creating a table that already exists preserves its rows; a scan of a
/// table that was never created yields the empty sequence, not an error.
pub trait StorageBackend: Sized {
    open spec fn tables(&self) -> Map<Seq<char>, Seq<Seq<Seq<char>>>> {
        Map::empty()
    }

    fn create_table(&mut self, schema: &TableSchema) -> (r: Result<(), StorageError>)
        ensures
            r is Ok ==> final(self).tables() == (if old(self).tables().dom().contains(
                schema.name@,
            ) {
                old(self).tables()
            } else {
                old(self).tables().insert(schema.name@, Seq::<Seq<Seq<char>>>::empty())
            }),
            r is Err ==> final(self).tables() == old(self).tables(),
    ;

    fn insert_row(&mut self, table_name: &str, row: Row) -> (r: Result<(), StorageError>)
        ensures
            r is Ok ==> final(self).tables() == old(self).tables().insert(
                table_name@,
                stored_rows(old(self).tables(), table_name@).push(row.deep_view()),
            ),
            r is Err ==> final(self).tables() == old(self).tables(),
    ;

    fn read_all_rows(&self, table_name: &str) -> (r: Result<Vec<Row>, StorageError>)
        ensures
            r matches Ok(rows) ==> rows.deep_view() == stored_rows(self.tables(), table_name@),
    ;
}

/// The rows a backend holds for a table: what its state maps the name to,
/// or the empty sequence for a table that was never created.
pub open spec fn stored_rows(
    tables: Map<Seq<char>, Seq<Seq<Seq<char>>>>,
    name: Seq<char>,
) -> Seq<Seq<Seq<char>>> {
    if tables.dom().contains(name) {
        tables[name]
    } else {
        Seq::empty()
    }
}

} // verus!
