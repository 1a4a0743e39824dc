use kuzu_storage::sqlite::SqliteExtension;

#[test]
fn test_sqlite_extension_name() {
    let ext = SqliteExtension::new();
    assert_eq!(ext.name(), "SQLITE");
}
