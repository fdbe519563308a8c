//! An in-memory backing store: the storage capability implemented over
//! plain vectors, with no medium underneath. It realises the same
//! contract the file-backed store is used under, so the executor can be
//! run and tested against it unchanged.

use vstd::prelude::*;

use crate::catalog::TableSchema;
use crate::storage::backend::Row;
use crate::storage::backend::StorageBackend;
use crate::storage::backend::StorageError;
use crate::storage::backend::stored_rows;
use crate::text::str_eq;

verus! {

struct MemTable {
    name: String,
    rows: Vec<Row>,
}

/// A sequence of named tables means the map built by replaying it in
/// order; a later table under a name shadows every earlier one.
spec fn mem_map(s: Seq<MemTable>) -> Map<Seq<char>, Seq<Seq<Seq<char>>>>
    decreases s.len(),
{
    if s.len() == 0 {
        Map::empty()
    } else {
        mem_map(s.drop_last()).insert(s.last().name@, s.last().rows.deep_view())
    }
}

proof fn lemma_mem_map_dom(s: Seq<MemTable>, k: Seq<char>)
    ensures
        mem_map(s).dom().contains(k) <==> exists|i: int| 0 <= i < s.len() && s[i].name@ == k,
    decreases s.len(),
{
    if s.len() > 0 {
        lemma_mem_map_dom(s.drop_last(), k);
        if s.last().name@ != k {
            if mem_map(s).dom().contains(k) {
                let i = choose|i: int| 0 <= i < s.drop_last().len() && s.drop_last()[i].name@ == k;
                assert(s[i].name@ == k);
            }
            if exists|i: int| 0 <= i < s.len() && s[i].name@ == k {
                let i = choose|i: int| 0 <= i < s.len() && s[i].name@ == k;
                assert(s.drop_last()[i].name@ == k);
            }
        } else {
            assert(s[s.len() - 1].name@ == k);
        }
    }
}

proof fn lemma_mem_map_at_last_occurrence(s: Seq<MemTable>, i: int)
    requires
        0 <= i < s.len(),
        forall|j: int| i < j < s.len() ==> s[j].name@ != s[i].name@,
    ensures
        mem_map(s).dom().contains(s[i].name@),
        mem_map(s)[s[i].name@] == s[i].rows.deep_view(),
    decreases s.len(),
{
    if i == s.len() - 1 {
    } else {
        assert(s.drop_last()[i] == s[i]);
        lemma_mem_map_at_last_occurrence(s.drop_last(), i);
        assert(s.last().name@ != s[i].name@);
    }
}

proof fn lemma_mem_map_update_last(s: Seq<MemTable>, i: int, t: MemTable)
    requires
        0 <= i < s.len(),
        forall|j: int| i < j < s.len() ==> s[j].name@ != s[i].name@,
        t.name@ == s[i].name@,
    ensures
        mem_map(s.update(i, t)) == mem_map(s).insert(t.name@, t.rows.deep_view()),
    decreases s.len(),
{
    if i == s.len() - 1 {
        assert(s.update(i, t).drop_last() =~= s.drop_last());
        assert(mem_map(s.drop_last()).insert(s[i].name@, s[i].rows.deep_view()).insert(
            t.name@,
            t.rows.deep_view(),
        ) =~= mem_map(s.drop_last()).insert(t.name@, t.rows.deep_view()));
    } else {
        let dl = s.drop_last();
        assert(s.update(i, t).drop_last() =~= dl.update(i, t));
        assert(dl[i] == s[i]);
        lemma_mem_map_update_last(dl, i, t);
        assert(s.last().name@ != t.name@);
        assert(mem_map(dl).insert(t.name@, t.rows.deep_view()).insert(
            s.last().name@,
            s.last().rows.deep_view(),
        ) =~= mem_map(dl).insert(s.last().name@, s.last().rows.deep_view()).insert(
            t.name@,
            t.rows.deep_view(),
        ));
    }
}

fn clone_rows(rows: &Vec<Row>) -> (out: Vec<Row>)
    ensures
        out.deep_view() == rows.deep_view(),
{
    let mut out: Vec<Row> = Vec::new();
    let mut i: usize = 0;
    while i < rows.len()
        invariant
            0 <= i <= rows@.len(),
            out.deep_view() =~= rows.deep_view().take(i as int),
        decreases rows@.len() - i,
    {
        let ghost pre = out.deep_view();
        let copy = rows[i].duplicate();
        let ghost copyv = copy.deep_view();
        out.push(copy);
        proof {
            assert(out.deep_view() =~= pre.push(copyv));
            assert(rows.deep_view().take(i + 1) =~= rows.deep_view().take(i as int).push(
                rows.deep_view()[i as int],
            ));
        }
        i = i + 1;
    }
    proof {
        assert(rows.deep_view().take(rows@.len() as int) =~= rows.deep_view());
    }
    out
}

/// The storage capability held entirely in memory: a list of named
/// tables, each carrying its rows in insertion order.
pub struct MemStorageBackend {
    tables: Vec<MemTable>,
}

impl MemStorageBackend {
    /// Creates a store holding no tables at all.
    pub fn new() -> (b: Self)
        ensures
            b.tables() == Map::<Seq<char>, Seq<Seq<Seq<char>>>>::empty(),
    {
        MemStorageBackend { tables: Vec::new() }
    }
}

impl StorageBackend for MemStorageBackend {
    closed spec fn tables(&self) -> Map<Seq<char>, Seq<Seq<Seq<char>>>> {
        mem_map(self.tables@)
    }

    fn create_table(&mut self, schema: &TableSchema) -> (r: Result<(), StorageError>)
        ensures
            r is Ok,
    {
        let mut i: usize = self.tables.len();
        while i > 0
            invariant
                i <= self.tables@.len(),
                self.tables@ == old(self).tables@,
                forall|j: int|
                    i <= j < self.tables@.len() ==> self.tables@[j].name@ != schema.name@,
            decreases i,
        {
            i = i - 1;
            if str_eq(self.tables[i].name.as_str(), schema.name.as_str()) {
                proof {
                    lemma_mem_map_dom(self.tables@, schema.name@);
                }
                return Ok(());
            }
        }
        proof {
            lemma_mem_map_dom(self.tables@, schema.name@);
        }
        let ghost pre = self.tables@;
        self.tables.push(MemTable { name: schema.name.clone(), rows: Vec::new() });
        proof {
            assert(self.tables@.drop_last() =~= pre);
            assert(self.tables@.last().rows.deep_view() =~= Seq::<Seq<Seq<char>>>::empty());
        }
        Ok(())
    }

    fn insert_row(&mut self, table_name: &str, row: Row) -> (r: Result<(), StorageError>)
        ensures
            r is Ok,
    {
        let mut i: usize = self.tables.len();
        while i > 0
            invariant
                i <= self.tables@.len(),
                self.tables@ == old(self).tables@,
                forall|j: int| i <= j < self.tables@.len() ==> self.tables@[j].name@ != table_name@,
            decreases i,
        {
            i = i - 1;
            if str_eq(self.tables[i].name.as_str(), table_name) {
                let ghost rowv = row.deep_view();
                let ghost pre = self.tables@;
                proof {
                    lemma_mem_map_at_last_occurrence(pre, i as int);
                    assert(stored_rows(mem_map(pre), table_name@) == pre[i as int].rows.deep_view());
                }
                let mut t = self.tables.remove(i);
                proof {
                    assert(t == pre[i as int]);
                }
                t.rows.push(row);
                proof {
                    assert(t.rows.deep_view() =~= pre[i as int].rows.deep_view().push(rowv));
                }
                let ghost tv = t;
                self.tables.insert(i, t);
                proof {
                    assert(tv.name@ == table_name@);
                    assert(self.tables@ =~= pre.update(i as int, tv));
                    lemma_mem_map_update_last(pre, i as int, tv);
                    assert(mem_map(self.tables@) == mem_map(pre).insert(
                        table_name@,
                        stored_rows(mem_map(pre), table_name@).push(rowv),
                    ));
                }
                return Ok(());
            }
        }
        let ghost rowv = row.deep_view();
        let ghost pre = self.tables@;
        proof {
            lemma_mem_map_dom(pre, table_name@);
            assert(stored_rows(mem_map(pre), table_name@) =~= Seq::<Seq<Seq<char>>>::empty());
        }
        let mut rows: Vec<Row> = Vec::new();
        rows.push(row);
        let ghost rowsv = rows.deep_view();
        proof {
            assert(rowsv =~= stored_rows(mem_map(pre), table_name@).push(rowv));
        }
        let name_string = table_name.to_owned();
        proof {
            assert(name_string@ == table_name@);
        }
        self.tables.push(MemTable { name: name_string, rows });
        proof {
            assert(self.tables@.drop_last() =~= pre);
            assert(self.tables@.last().name@ == table_name@);
            assert(self.tables@.last().rows.deep_view() == rowsv);
            assert(mem_map(self.tables@) == mem_map(pre).insert(
                table_name@,
                stored_rows(mem_map(pre), table_name@).push(rowv),
            ));
        }
        Ok(())
    }

    fn read_all_rows(&self, table_name: &str) -> (r: Result<Vec<Row>, StorageError>)
        ensures
            r is Ok,
    {
        let mut i: usize = self.tables.len();
        while i > 0
            invariant
                i <= self.tables@.len(),
                forall|j: int| i <= j < self.tables@.len() ==> self.tables@[j].name@ != table_name@,
            decreases i,
        {
            i = i - 1;
            if str_eq(self.tables[i].name.as_str(), table_name) {
                proof {
                    lemma_mem_map_at_last_occurrence(self.tables@, i as int);
                }
                return Ok(clone_rows(&self.tables[i].rows));
            }
        }
        proof {
            lemma_mem_map_dom(self.tables@, table_name@);
        }
        let out: Vec<Row> = Vec::new();
        proof {
            assert(out.deep_view() =~= Seq::<Seq<Seq<char>>>::empty());
        }
        Ok(out)
    }
}

} // verus!
