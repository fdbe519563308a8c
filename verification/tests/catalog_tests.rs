use ferrite_db::catalog::Catalog;
use ferrite_db::catalog::Column;
use ferrite_db::catalog::TableSchema;

fn schema(name: &str, cols: &[(&str, &str)]) -> TableSchema {
    TableSchema {
        name: name.to_string(),
        columns: cols
            .iter()
            .map(|(n, t)| Column { name: n.to_string(), data_type: t.to_string() })
            .collect(),
    }
}

#[test]
fn empty_catalog_has_no_tables() {
    let catalog = Catalog::new();
    assert!(catalog.get_table("users").is_none());
    assert!(catalog.get_table("").is_none());
}

#[test]
fn create_then_get_returns_schema() {
    let mut catalog = Catalog::new();
    catalog.create_table(schema("users", &[("id", "INT"), ("name", "TEXT")]));
    let got = catalog.get_table("users").expect("table must exist");
    assert_eq!(got.name, "users");
    assert_eq!(got.columns.len(), 2);
    assert_eq!(got.columns[0].name, "id");
    assert_eq!(got.columns[0].data_type, "INT");
    assert_eq!(got.columns[1].name, "name");
    assert_eq!(got.columns[1].data_type, "TEXT");
}

#[test]
fn create_table_overwrite_last_write_wins() {
    let mut catalog = Catalog::new();
    catalog.create_table(schema("t", &[("a", "INT")]));
    catalog.create_table(schema("t", &[("b", "TEXT"), ("c", "INT")]));
    let got = catalog.get_table("t").expect("table must exist");
    assert_eq!(got.columns.len(), 2);
    assert_eq!(got.columns[0].name, "b");
    assert_eq!(got.columns[0].data_type, "TEXT");
    assert_eq!(got.columns[1].name, "c");
    assert_eq!(got.columns[1].data_type, "INT");
}

#[test]
fn overwrite_leaves_other_tables_alone() {
    let mut catalog = Catalog::new();
    catalog.create_table(schema("a", &[("x", "INT")]));
    catalog.create_table(schema("b", &[("y", "TEXT")]));
    catalog.create_table(schema("a", &[("z", "TEXT")]));
    let a = catalog.get_table("a").expect("a must exist");
    assert_eq!(a.columns[0].name, "z");
    let b = catalog.get_table("b").expect("b must exist");
    assert_eq!(b.columns[0].name, "y");
    assert!(catalog.get_table("c").is_none());
}

#[test]
fn lookup_distinguishes_non_ascii_names() {
    let mut catalog = Catalog::new();
    catalog.create_table(schema("tätigkeit", &[("id", "INT")]));
    assert!(catalog.get_table("tätigkeit").is_some());
    assert!(catalog.get_table("tatigkeit").is_none());
}
