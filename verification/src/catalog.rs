//! The schema catalog: column and table-schema descriptions, and the
//! in-memory registry mapping each table name to its schema.

use vstd::prelude::*;

use crate::text::str_eq;

verus! {

/// A single column: its name and an uninterpreted type label (for
/// instance "INT" or "TEXT"); values are never checked against it.
#[derive(Debug, Clone)]
pub struct Column {
    pub name: String,
    pub data_type: String,
}

/// The mathematical shape of a column.
pub ghost struct ColumnModel {
    pub name: Seq<char>,
    pub data_type: Seq<char>,
}

impl View for Column {
    type V = ColumnModel;

    open spec fn view(&self) -> ColumnModel {
        ColumnModel { name: self.name@, data_type: self.data_type@ }
    }
}

impl DeepView for Column {
    type V = ColumnModel;

    open spec fn deep_view(&self) -> ColumnModel {
        self@
    }
}

/// A table's declarative description: its name and its ordered column
/// list. Column order is significant; it gives row values their
/// positional meaning.
#[derive(Debug, Clone)]
pub struct TableSchema {
    pub name: String,
    pub columns: Vec<Column>,
}

/// The mathematical shape of a table schema.
pub ghost struct SchemaModel {
    pub name: Seq<char>,
    pub columns: Seq<ColumnModel>,
}

impl View for TableSchema {
    type V = SchemaModel;

    open spec fn view(&self) -> SchemaModel {
        SchemaModel { name: self.name@, columns: self.columns.deep_view() }
    }
}

impl DeepView for TableSchema {
    type V = SchemaModel;

    open spec fn deep_view(&self) -> SchemaModel {
        self@
    }
}

/// The registry is recorded as a log of schema registrations; its meaning
/// is the map built by replaying them in order, so a later registration
/// under a name shadows every earlier one.
pub open spec fn schemas_map(s: Seq<TableSchema>) -> Map<Seq<char>, SchemaModel>
    decreases s.len(),
{
    if s.len() == 0 {
        Map::empty()
    } else {
        schemas_map(s.drop_last()).insert(s.last().name@, s.last()@)
    }
}

/// In-memory registry of table schemas, the single source of truth for
/// which tables exist and what they look like. Its abstract state is a
/// map from table name to schema; registering a schema under an existing
/// name replaces the earlier one (last write wins).
#[derive(Debug, Clone)]
pub struct Catalog {
    tables: Vec<TableSchema>,
}

impl View for Catalog {
    type V = Map<Seq<char>, SchemaModel>;

    closed spec fn view(&self) -> Map<Seq<char>, SchemaModel> {
        schemas_map(self.tables@)
    }
}

proof fn lemma_schemas_map_dom(s: Seq<TableSchema>, k: Seq<char>)
    ensures
        schemas_map(s).dom().contains(k) <==> exists|i: int|
            0 <= i < s.len() && s[i].name@ == k,
    decreases s.len(),
{
    if s.len() > 0 {
        lemma_schemas_map_dom(s.drop_last(), k);
        if s.last().name@ != k {
            if schemas_map(s).dom().contains(k) {
                let i = choose|i: int| 0 <= i < s.drop_last().len() && s.drop_last()[i].name@ == k;
                assert(s[i].name@ == k);
            }
            if exists|i: int| 0 <= i < s.len() && s[i].name@ == k {
                let i = choose|i: int| 0 <= i < s.len() && s[i].name@ == k;
                assert(s.drop_last()[i].name@ == k);
            }
        } else {
            assert(s[s.len() - 1].name@ == k);
        }
    }
}

proof fn lemma_schemas_map_at_last_occurrence(s: Seq<TableSchema>, i: int)
    requires
        0 <= i < s.len(),
        forall|j: int| i < j < s.len() ==> s[j].name@ != s[i].name@,
    ensures
        schemas_map(s).dom().contains(s[i].name@),
        schemas_map(s)[s[i].name@] == s[i]@,
    decreases s.len(),
{
    if i == s.len() - 1 {
    } else {
        assert(s.drop_last()[i] == s[i]);
        lemma_schemas_map_at_last_occurrence(s.drop_last(), i);
        assert(s.last().name@ != s[i].name@);
    }
}

impl Catalog {
    /// Creates an empty catalog: no table name is registered.
    pub fn new() -> (c: Self)
        ensures
            c@ == Map::<Seq<char>, SchemaModel>::empty(),
    {
        Catalog { tables: Vec::new() }
    }

    /// Registers a schema under its own table name, replacing whatever
    /// schema that name carried before; registration never fails.
    pub fn create_table(&mut self, schema: TableSchema)
        ensures
            final(self)@ == old(self)@.insert(schema.name@, schema@),
    {
        let ghost pre = self.tables@;
        self.tables.push(schema);
        proof {
            assert(self.tables@.drop_last() =~= pre);
        }
    }

    /// Looks a schema up by table name: the one most recently registered
    /// under that name, or nothing if the name was never registered.
    pub fn get_table(&self, name: &str) -> (r: Option<&TableSchema>)
        ensures
            match r {
                Some(schema) => self@.dom().contains(name@) && schema@ == self@[name@],
                None => !self@.dom().contains(name@),
            },
    {
        let mut i: usize = self.tables.len();
        while i > 0
            invariant
                i <= self.tables@.len(),
                forall|j: int| i <= j < self.tables@.len() ==> self.tables@[j].name@ != name@,
            decreases i,
        {
            i = i - 1;
            if str_eq(self.tables[i].name.as_str(), name) {
                proof {
                    lemma_schemas_map_at_last_occurrence(self.tables@, i as int);
                }
                return Some(&self.tables[i]);
            }
        }
        proof {
            lemma_schemas_map_dom(self.tables@, name@);
        }
        None
    }
}

/// Law: registering twice under one name leaves exactly the second
/// schema, whatever the first was — for any catalog state, registering
/// `s1` and then `s2` with the same name ends in the state reached by
/// registering `s2` alone.
pub proof fn lemma_create_table_last_write_wins(
    m: Map<Seq<char>, SchemaModel>,
    s1: SchemaModel,
    s2: SchemaModel,
)
    requires
        s1.name == s2.name,
    ensures
        m.insert(s1.name, s1).insert(s2.name, s2) == m.insert(s2.name, s2),
{
    assert(m.insert(s1.name, s1).insert(s2.name, s2) =~= m.insert(s2.name, s2));
}

} // verus!
