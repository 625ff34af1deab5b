use leaf::db::{DBConnection, Database, DependencyRow, FileRow, PackageRow, RegistryRow};
use leaf::error::LErrorClass;
use leaf::package::{Dependencies, InstalledPackage, PackagePool, PackageVariant};
use leaf::util::fs::FSEntry;

fn installed(name: &str, hash: &str, deps: Dependencies, files: Vec<FSEntry>) -> PackageVariant {
    PackageVariant::Installed(InstalledPackage {
        name: name.to_string(),
        version: "2.0".to_string(),
        real_version: 7,
        description: "d".to_string(),
        dependencies: deps,
        hash: hash.to_string(),
        files,
    })
}

fn file(name: &str, hash: &str) -> FSEntry {
    FSEntry { name: name.to_string(), hash: Some(hash.to_string()), children: Vec::new() }
}

fn dir(name: &str, children: Vec<FSEntry>) -> FSEntry {
    FSEntry { name: name.to_string(), hash: None, children }
}

#[test]
fn inserted_package_can_be_asked_for() {
    let mut db = Database::new();
    assert_eq!(db.get_package_hash("a"), None);
    assert_eq!(db.get_package_id("a"), None);
    db.insert_package(&installed("a", "h-a", Dependencies::Resolved(vec![]), vec![])).unwrap();
    assert_eq!(db.get_package_hash("a"), Some("h-a".to_string()));
    assert_eq!(db.get_package_id("a"), Some(1));
    db.insert_package(&installed("b", "h-b", Dependencies::Resolved(vec![]), vec![])).unwrap();
    assert_eq!(db.get_package_id("b"), Some(2));
    assert_eq!(db.packages[1].version, "2.0");
    assert_eq!(db.packages[1].real_version, 7);
    assert_eq!(db.packages[1].description, "d");
}

#[test]
fn known_name_is_skipped_whatever_its_hash() {
    let mut db = Database::new();
    db.insert_package(&installed("a", "h1", Dependencies::Resolved(vec![]), vec![])).unwrap();
    db.insert_package(&installed("a", "h1", Dependencies::Resolved(vec![]), vec![])).unwrap();
    assert_eq!(db.packages.len(), 1);
    db.insert_package(&installed("a", "h2", Dependencies::Resolved(vec![]), vec![])).unwrap();
    assert_eq!(db.packages.len(), 1);
    assert_eq!(db.get_package_hash("a"), Some("h1".to_string()));
}

#[test]
fn dependencies_need_rows() {
    let mut pool = PackagePool::new();
    let lib = pool.add(installed("lib", "h-lib", Dependencies::Resolved(vec![]), vec![]));
    let app = pool.add(installed("app", "h-app", Dependencies::Resolved(vec![lib]), vec![]));
    let mut db = Database::new();
    let e = db.insert_package_dependencies(pool.get(app).unwrap(), &pool).unwrap_err();
    assert_eq!(e.class, LErrorClass::PackageNotFound);
    assert_eq!(e.messages, vec!["Insert the package first".to_string()]);
    db.insert_package(pool.get(app).unwrap()).unwrap();
    let e = db.insert_package_dependencies(pool.get(app).unwrap(), &pool).unwrap_err();
    assert_eq!(e.class, LErrorClass::PackageNotFound);
    assert_eq!(e.messages, vec!["Dependency id of [app] lib is missing".to_string()]);
    assert!(db.dependencies.is_empty());
    db.insert_package(pool.get(lib).unwrap()).unwrap();
    db.insert_package_dependencies(pool.get(app).unwrap(), &pool).unwrap();
    assert_eq!(db.dependencies, vec![DependencyRow { depender: 1, dependency: 2 }]);
    db.insert_package_dependencies(pool.get(app).unwrap(), &pool).unwrap();
    assert_eq!(db.dependencies.len(), 1);
    assert_eq!(db.get_package_dependencies("h-app"), vec!["lib".to_string()]);
    assert!(db.get_package_dependencies("h-lib").is_empty());
}

#[test]
fn unresolved_dependencies_cannot_be_recorded() {
    let mut pool = PackagePool::new();
    let app = pool.add(installed("app", "h", Dependencies::Unresolved(vec!["lib".to_string()]), vec![]));
    let mut db = Database::new();
    db.insert_package(pool.get(app).unwrap()).unwrap();
    let e = db.insert_package_dependencies(pool.get(app).unwrap(), &pool).unwrap_err();
    assert_eq!(e.class, LErrorClass::UnresolvedDependencies);
    let bad = pool.add(installed("bad", "h2", Dependencies::Resolved(vec![99]), vec![]));
    db.insert_package(pool.get(bad).unwrap()).unwrap();
    let e = db.insert_package_dependencies(pool.get(bad).unwrap(), &pool).unwrap_err();
    assert_eq!(e.class, LErrorClass::PackageNotFound);
}

#[test]
fn dependency_names_come_in_the_order_of_their_ids() {
    let mut pool = PackagePool::new();
    let a = pool.add(installed("a", "h-a", Dependencies::Resolved(vec![]), vec![]));
    let b = pool.add(installed("b", "h-b", Dependencies::Resolved(vec![]), vec![]));
    let c = pool.add(installed("c", "h-c", Dependencies::Resolved(vec![b, a]), vec![]));
    let mut db = Database::new();
    for h in [a, b, c] {
        db.insert_package(pool.get(h).unwrap()).unwrap();
    }
    db.insert_package_dependencies(pool.get(c).unwrap(), &pool).unwrap();
    assert_eq!(
        db.dependencies,
        vec![DependencyRow { depender: 3, dependency: 2 }, DependencyRow { depender: 3, dependency: 1 }]
    );
    assert_eq!(db.get_package_dependencies("h-c"), vec!["a".to_string(), "b".to_string()]);
}

#[test]
fn files_get_a_row_per_entry_with_full_paths() {
    let mut db = Database::new();
    db.insert_package(&installed("a", "h", Dependencies::Resolved(vec![]), vec![])).unwrap();
    let forest = vec![dir("usr", vec![dir("bin", vec![file("tool", "t1")]), file("link", "l1")]), file("top", "t2")];
    db.insert_files(1, None, &forest).unwrap();
    let rows: Vec<(i64, i64, &str, bool, Option<&str>)> =
        db.files.iter().map(|r| (r.id, r.package, r.path.as_str(), r.isfile, r.hash.as_deref())).collect();
    assert_eq!(
        rows,
        vec![
            (1, 1, "usr", false, None),
            (2, 1, "usr/bin", false, None),
            (3, 1, "usr/bin/tool", true, Some("t1")),
            (4, 1, "usr/link", true, Some("l1")),
            (5, 1, "top", true, Some("t2")),
        ]
    );
    db.insert_files(1, Some(2), &vec![file("more", "m")]).unwrap();
    assert_eq!(db.files[5].path, "usr/bin/more");
    assert!(db.has_path("usr/bin/more"));
    assert!(!db.has_path("usr/bin/less"));
}

#[test]
fn files_need_an_owner_a_parent_and_a_free_path() {
    let mut db = Database::new();
    let e = db.insert_files(1, None, &vec![file("x", "h")]).unwrap_err();
    assert_eq!(e.class, LErrorClass::SQL);
    assert_eq!(e.messages, vec!["The package does not exist".to_string()]);
    db.insert_package(&installed("a", "h", Dependencies::Resolved(vec![]), vec![])).unwrap();
    let e = db.insert_files(1, Some(4), &vec![file("x", "h")]).unwrap_err();
    assert_eq!(e.messages, vec!["The parent entry does not exist".to_string()]);
    db.insert_files(1, None, &vec![file("x", "h")]).unwrap();
    let e = db.insert_files(1, None, &vec![file("y", "h"), file("x", "h"), file("z", "h")]).unwrap_err();
    assert_eq!(e.class, LErrorClass::SQL);
    let paths: Vec<&str> = db.files.iter().map(|r| r.path.as_str()).collect();
    assert_eq!(paths, vec!["x", "y"]);
}

#[test]
fn package_files_are_owned_by_the_package() {
    let mut db = Database::new();
    let files = vec![dir("etc", vec![file("conf", "c")])];
    let package = installed("a", "h", Dependencies::Resolved(vec![]), files);
    let inner = match &package {
        PackageVariant::Installed(p) => p,
        _ => unreachable!(),
    };
    let e = db.insert_package_files(inner).unwrap_err();
    assert_eq!(e.class, LErrorClass::PackageNotFound);
    db.insert_package(&installed("other", "o", Dependencies::Resolved(vec![]), vec![])).unwrap();
    db.insert_package(&package).unwrap();
    db.insert_package_files(inner).unwrap();
    let rows: Vec<(i64, &str)> = db.files.iter().map(|r| (r.package, r.path.as_str())).collect();
    assert_eq!(rows, vec![(2, "etc"), (2, "etc/conf")]);
    assert_eq!(inner.get_files().len(), 1);
}

#[test]
fn registry_sets_and_replaces() {
    let mut db = Database::new();
    assert_eq!(db.reg_get("k"), None);
    assert_eq!(db.reg_set("k", "v1"), 1);
    assert_eq!(db.reg_get("k"), Some("v1".to_string()));
    assert_eq!(db.reg_set("other", "o"), 1);
    assert_eq!(db.reg_set("k", "v2"), 1);
    assert_eq!(db.reg_get("k"), Some("v2".to_string()));
    assert_eq!(db.reg_get("other"), Some("o".to_string()));
    assert_eq!(db.registry.len(), 2);
    assert_eq!(db.reg_get_number("k").unwrap_err().class, LErrorClass::SQL);
    db.reg_set("n", "12");
    assert_eq!(db.reg_get_number("n").unwrap(), Some(12));
    assert_eq!(db.reg_get_number("none").unwrap(), None);
}

#[test]
fn bootstrap_sets_the_version_once() {
    let mut db = Database::new();
    db.ensure_tables().unwrap();
    assert_eq!(db.reg_get("db_version"), Some("1".to_string()));
    let once = format!("{:?}", db);
    db.ensure_tables().unwrap();
    assert_eq!(format!("{:?}", db), once);
    db.reg_set("db_version", "3");
    db.ensure_tables().unwrap();
    assert_eq!(db.reg_get("db_version"), Some("3".to_string()));
    db.reg_set("db_version", "three");
    assert_eq!(db.ensure_tables().unwrap_err().class, LErrorClass::SQL);
}

#[test]
fn open_checks_the_tables_and_makes_them_ready() {
    let con = DBConnection::open(Database::new()).unwrap();
    assert_eq!(con.reg_get("db_version"), Some("1".to_string()));
    let again = DBConnection::open(con.db.duplicate()).unwrap();
    assert_eq!(format!("{:?}", again.db), format!("{:?}", con.db));
    let mut broken = Database::new();
    broken.packages.push(PackageRow {
        id: 5,
        name: "a".to_string(),
        version: "1".to_string(),
        real_version: 1,
        description: String::new(),
        hash: "h".to_string(),
    });
    assert!(!broken.check());
    let e = DBConnection::open(broken).unwrap_err();
    assert_eq!(e.class, LErrorClass::SQL);
    assert_eq!(e.messages, vec!["The stored tables are inconsistent".to_string()]);
}

#[test]
fn check_finds_broken_rules() {
    let row = |id: i64, name: &str| PackageRow {
        id,
        name: name.to_string(),
        version: "1".to_string(),
        real_version: 1,
        description: String::new(),
        hash: "h".to_string(),
    };
    let mut db = Database::new();
    db.packages.push(row(1, "a"));
    db.packages.push(row(2, "b"));
    assert!(db.check());
    db.packages.push(row(3, "a"));
    assert!(!db.check());
    db.packages.pop();
    db.dependencies.push(DependencyRow { depender: 1, dependency: 2 });
    assert!(db.check());
    db.dependencies.push(DependencyRow { depender: 1, dependency: 2 });
    assert!(!db.check());
    db.dependencies.pop();
    db.dependencies.push(DependencyRow { depender: 1, dependency: 3 });
    assert!(!db.check());
    db.dependencies.pop();
    db.files.push(FileRow { id: 1, package: 2, path: "p".to_string(), isfile: true, hash: None });
    assert!(db.check());
    db.files.push(FileRow { id: 2, package: 1, path: "p".to_string(), isfile: true, hash: None });
    assert!(!db.check());
    db.files.pop();
    db.files.push(FileRow { id: 2, package: 9, path: "q".to_string(), isfile: true, hash: None });
    assert!(!db.check());
    db.files.pop();
    db.registry.push(RegistryRow { key: "k".to_string(), value: "1".to_string() });
    db.registry.push(RegistryRow { key: "k".to_string(), value: "2".to_string() });
    assert!(!db.check());
}

#[test]
fn transactions_commit_or_roll_back() {
    let mut con = DBConnection::open(Database::new()).unwrap();
    let mut tx = con.new_transaction();
    tx.insert_package(&installed("a", "h", Dependencies::Resolved(vec![]), vec![])).unwrap();
    assert_eq!(tx.get_package_hash("a"), Some("h".to_string()));
    assert_eq!(con.get_package_hash("a"), None);
    tx.rollback(&mut con);
    assert_eq!(con.get_package_hash("a"), None);
    let mut tx = con.new_transaction();
    tx.insert_package(&installed("a", "h", Dependencies::Resolved(vec![]), vec![])).unwrap();
    tx.insert_files(1, None, &vec![file("f", "x")]).unwrap();
    tx.commit(&mut con);
    assert_eq!(con.get_package_hash("a"), Some("h".to_string()));
    assert_eq!(con.get_package_id("a"), Some(1));
    assert_eq!(con.db.files.len(), 1);
}

#[test]
fn connection_records_dependencies_as_a_whole() {
    let mut pool = PackagePool::new();
    let lib = pool.add(installed("lib", "h-lib", Dependencies::Resolved(vec![]), vec![]));
    let gone = pool.add(installed("gone", "h-gone", Dependencies::Resolved(vec![]), vec![]));
    let app = pool.add(installed("app", "h-app", Dependencies::Resolved(vec![lib, gone]), vec![]));
    let mut con = DBConnection::open(Database::new()).unwrap();
    con.insert_package(pool.get(lib).unwrap()).unwrap();
    con.insert_package(pool.get(app).unwrap()).unwrap();
    let e = con.insert_package_dependencies(pool.get(app).unwrap(), &pool).unwrap_err();
    assert_eq!(e.class, LErrorClass::PackageNotFound);
    assert!(con.db.dependencies.is_empty());
    con.insert_package(pool.get(gone).unwrap()).unwrap();
    con.insert_package_dependencies(pool.get(app).unwrap(), &pool).unwrap();
    assert_eq!(con.db.dependencies.len(), 2);
    assert_eq!(con.get_package_dependencies("h-app"), vec!["lib".to_string(), "gone".to_string()]);
    assert_eq!(con.reg_set("k", "v"), 1);
    assert_eq!(con.reg_get("k"), Some("v".to_string()));
}
