use leaf::db::{DBConnection, Database};
use leaf::error::LErrorClass;
use leaf::mirror::{resolve_package, Mirror};
use leaf::package::{
    CorePackage, Dependencies, InstalledPackage, PackagePool, PackageRef, PackageVariant, RemotePackage,
};
use leaf::util::dependencies::{get_root_packages, resolve_dependencies};

fn remote(name: &str, deps: &[&str]) -> RemotePackage {
    RemotePackage {
        name: name.to_string(),
        version: "1.0".to_string(),
        real_version: 1,
        description: String::new(),
        dependencies: Dependencies::Unresolved(deps.iter().map(|d| d.to_string()).collect()),
        hash: format!("hash-of-{}", name),
        url: format!("http://mirror/{}.lfpkg", name),
    }
}

fn loaded(name: &str, packages: Vec<RemotePackage>) -> Mirror {
    let mut m = Mirror::new(name, "u");
    m.load(Ok(packages)).unwrap();
    m
}

fn names(pool: &PackagePool) -> Vec<String> {
    pool.order.iter().map(|h| pool.packages[*h].name().to_string()).collect()
}

fn resolve(name: &str, mirrors: &Vec<Mirror>, pool: &mut PackagePool, db: &DBConnection) -> Result<(), leaf::error::LError> {
    let h = resolve_package(name, mirrors, pool)?;
    resolve_dependencies(h, pool, mirrors, &db.new_transaction())
}

fn resolved_names(pool: &PackagePool, h: PackageRef) -> Vec<String> {
    match pool.packages[h].dependencies() {
        Dependencies::Resolved(hs) => hs.iter().map(|d| pool.packages[*d].name().to_string()).collect(),
        Dependencies::Unresolved(_) => panic!("unresolved"),
    }
}

fn check_plan(pool: &PackagePool) {
    let order_names = names(pool);
    for (i, n) in order_names.iter().enumerate() {
        assert!(!order_names[..i].contains(n), "name twice in plan: {}", n);
    }
    for (i, h) in pool.order.iter().enumerate() {
        if let Dependencies::Resolved(hs) = pool.packages[*h].dependencies() {
            for d in hs {
                let at = pool.order.iter().position(|x| x == d);
                assert!(at.is_some(), "dependency outside of the plan");
                if !pool.cyclic {
                    assert!(at.unwrap() < i, "dependency behind its depender");
                }
            }
        }
    }
}

#[test]
fn dependency_comes_before_its_depender() {
    let mirrors = vec![loaded("m1", vec![remote("app", &["lib"])]), loaded("m2", vec![remote("lib", &[])])];
    let db = DBConnection::open(Database::new()).unwrap();
    let mut pool = PackagePool::new();
    resolve("app", &mirrors, &mut pool, &db).unwrap();
    assert_eq!(names(&pool), vec!["lib", "app"]);
    assert!(!pool.cyclic);
    assert_eq!(resolved_names(&pool, pool.order[1]), vec!["lib"]);
    assert!(resolved_names(&pool, pool.order[0]).is_empty());
    check_plan(&pool);
}

#[test]
fn diamond_is_resolved_once_per_package() {
    let mirrors = vec![loaded(
        "m",
        vec![remote("top", &["left", "right"]), remote("left", &["base"]), remote("right", &["base", "left"]), remote("base", &[])],
    )];
    let db = DBConnection::open(Database::new()).unwrap();
    let mut pool = PackagePool::new();
    resolve("top", &mirrors, &mut pool, &db).unwrap();
    assert_eq!(names(&pool), vec!["base", "left", "right", "top"]);
    assert!(!pool.cyclic);
    check_plan(&pool);
    resolve("right", &mirrors, &mut pool, &db).unwrap();
    assert_eq!(names(&pool), vec!["base", "left", "right", "top"]);
    resolve("top", &mirrors, &mut pool, &db).unwrap();
    assert_eq!(pool.order.len(), 4);
    check_plan(&pool);
}

#[test]
fn missing_dependency_is_package_not_found() {
    let mirrors = vec![loaded("m", vec![remote("app", &["missing"])])];
    let db = DBConnection::open(Database::new()).unwrap();
    let mut pool = PackagePool::new();
    let e = resolve("app", &mirrors, &mut pool, &db).unwrap_err();
    assert_eq!(e.class, LErrorClass::PackageNotFound);
    assert!(e.messages.iter().any(|m| m.contains("missing")));
    assert_eq!(format!("{:?}", db.db), format!("{:?}", DBConnection::open(Database::new()).unwrap().db));
    check_plan(&pool);
}

#[test]
fn cycle_is_visited_once_and_flagged() {
    let mirrors = vec![loaded("m", vec![remote("a", &["b"]), remote("b", &["a"])])];
    let db = DBConnection::open(Database::new()).unwrap();
    let mut pool = PackagePool::new();
    resolve("a", &mirrors, &mut pool, &db).unwrap();
    assert_eq!(names(&pool), vec!["b", "a"]);
    assert!(pool.cyclic);
    assert_eq!(resolved_names(&pool, pool.order[0]), vec!["a"]);
    assert_eq!(resolved_names(&pool, pool.order[1]), vec!["b"]);
    check_plan(&pool);
    let mut other = PackagePool::new();
    resolve("b", &mirrors, &mut other, &db).unwrap();
    assert_eq!(names(&other), vec!["a", "b"]);
    assert!(other.cyclic);
}

#[test]
fn self_dependency_is_a_cycle() {
    let mirrors = vec![loaded("m", vec![remote("a", &["a"])])];
    let db = DBConnection::open(Database::new()).unwrap();
    let mut pool = PackagePool::new();
    resolve("a", &mirrors, &mut pool, &db).unwrap();
    assert_eq!(names(&pool), vec!["a"]);
    assert!(pool.cyclic);
}

fn installed_db() -> DBConnection {
    let mut con = DBConnection::open(Database::new()).unwrap();
    let mut pool = PackagePool::new();
    let lib = pool.add(PackageVariant::Installed(InstalledPackage {
        name: "lib".to_string(),
        version: "0.9".to_string(),
        real_version: 4,
        description: "old lib".to_string(),
        dependencies: Dependencies::Resolved(vec![]),
        hash: "hash-of-lib".to_string(),
        files: vec![],
    }));
    let app = pool.add(PackageVariant::Installed(InstalledPackage {
        name: "app".to_string(),
        version: "0.9".to_string(),
        real_version: 4,
        description: "old app".to_string(),
        dependencies: Dependencies::Resolved(vec![lib]),
        hash: "hash-of-app".to_string(),
        files: vec![],
    }));
    con.insert_package(pool.get(lib).unwrap()).unwrap();
    con.insert_package(pool.get(app).unwrap()).unwrap();
    con.insert_package_dependencies(pool.get(app).unwrap(), &pool).unwrap();
    con
}

#[test]
fn installed_package_takes_the_place_of_the_remote_one() {
    let mirrors = vec![loaded("m", vec![remote("app", &["lib", "extra"]), remote("lib", &[]), remote("extra", &[])])];
    let db = installed_db();
    let mut pool = PackagePool::new();
    resolve("app", &mirrors, &mut pool, &db).unwrap();
    // The recorded dependencies count, not those of the catalog.
    assert_eq!(names(&pool), vec!["lib", "app"]);
    for h in &pool.order {
        assert!(matches!(pool.packages[*h], PackageVariant::Installed(_)));
    }
    assert_eq!(pool.packages[pool.order[1]].version(), "0.9");
    assert_eq!(resolved_names(&pool, pool.order[1]), vec!["lib"]);
    check_plan(&pool);
}

#[test]
fn installed_dependency_ends_the_walk() {
    let mirrors = vec![loaded("m", vec![remote("tool", &["lib"]), remote("lib", &["deep"]), remote("deep", &[])])];
    let db = installed_db();
    let mut pool = PackagePool::new();
    resolve("tool", &mirrors, &mut pool, &db).unwrap();
    assert_eq!(names(&pool), vec!["lib", "tool"]);
    assert!(matches!(pool.packages[pool.order[0]], PackageVariant::Installed(_)));
    assert!(matches!(pool.packages[pool.order[1]], PackageVariant::Remote(_)));
}

#[test]
fn installed_dependency_needs_no_mirror() {
    let mirrors = vec![loaded("m", vec![remote("tool", &["lib"])])];
    let db = installed_db();
    let mut pool = PackagePool::new();
    resolve("tool", &mirrors, &mut pool, &db).unwrap();
    assert_eq!(names(&pool), vec!["lib", "tool"]);
}

#[test]
fn same_hash_counts_as_visited() {
    let mut twin = remote("twin", &[]);
    twin.hash = "hash-of-lib".to_string();
    let mirrors = vec![loaded("m", vec![remote("lib", &[]), twin])];
    let db = DBConnection::open(Database::new()).unwrap();
    let mut pool = PackagePool::new();
    resolve("lib", &mirrors, &mut pool, &db).unwrap();
    resolve("twin", &mirrors, &mut pool, &db).unwrap();
    assert_eq!(names(&pool), vec!["lib"]);
}

#[test]
fn unknown_handle_is_refused() {
    let mirrors: Vec<Mirror> = Vec::new();
    let db = DBConnection::open(Database::new()).unwrap();
    let mut pool = PackagePool::new();
    let e = resolve_dependencies(3, &mut pool, &mirrors, &db.new_transaction()).unwrap_err();
    assert_eq!(e.class, LErrorClass::PackageNotFound);
    assert!(pool.order.is_empty());
}

#[test]
fn unloaded_mirror_stops_resolving() {
    let mirrors = vec![loaded("m1", vec![remote("app", &["lib"])]), Mirror::new("m2", "u")];
    let db = DBConnection::open(Database::new()).unwrap();
    let mut pool = PackagePool::new();
    let e = resolve("app", &mirrors, &mut pool, &db).unwrap_err();
    assert_eq!(e.class, LErrorClass::MirrorNotLoaded);
}

#[test]
fn root_packages_have_no_dependers() {
    let mirrors = vec![loaded(
        "m",
        vec![remote("top", &["left", "right"]), remote("left", &["base"]), remote("right", &["base"]), remote("base", &[]), remote("solo", &[])],
    )];
    let db = DBConnection::open(Database::new()).unwrap();
    let mut pool = PackagePool::new();
    resolve("top", &mirrors, &mut pool, &db).unwrap();
    resolve("solo", &mirrors, &mut pool, &db).unwrap();
    let roots: Vec<String> = get_root_packages(&pool).iter().map(|h| pool.packages[*h].name().to_string()).collect();
    assert_eq!(roots, vec!["top", "solo"]);
    assert!(get_root_packages(&PackagePool::new()).is_empty());
}

#[test]
fn pool_check_accepts_plans_and_finds_broken_ones() {
    let mirrors = vec![loaded(
        "m",
        vec![remote("top", &["left", "right"]), remote("left", &["base"]), remote("right", &["base"]), remote("base", &[])],
    )];
    let db = DBConnection::open(Database::new()).unwrap();
    let mut pool = PackagePool::new();
    assert!(pool.check());
    resolve("top", &mirrors, &mut pool, &db).unwrap();
    assert!(pool.check());
    pool.order.swap(0, 3);
    assert!(!pool.check());
    pool.cyclic = true;
    assert!(pool.check());
    pool.cyclic = false;
    pool.order.swap(0, 3);
    assert!(pool.check());
    pool.order.push(99);
    assert!(!pool.check());
    pool.order.pop();
    let first = pool.order[0];
    pool.order.push(first);
    assert!(!pool.check());
    pool.order.pop();
    assert!(pool.check());
    pool.order.remove(0);
    assert!(!pool.check());
}

#[test]
fn cyclic_plans_keep_the_other_rules() {
    let mirrors = vec![loaded("m", vec![remote("a", &["b"]), remote("b", &["c"]), remote("c", &["a"])])];
    let db = DBConnection::open(Database::new()).unwrap();
    let mut pool = PackagePool::new();
    resolve("b", &mirrors, &mut pool, &db).unwrap();
    assert_eq!(names(&pool), vec!["a", "c", "b"]);
    assert!(pool.cyclic);
    assert!(pool.check());
}

#[test]
fn recorded_dependencies_are_taken_from_the_index_first() {
    // `lib` is in no loaded mirror, and a mirror that is not loaded follows:
    // a search in the mirrors would fail, the index of installed packages answers.
    let mirrors = vec![loaded("m1", vec![remote("app", &["lib", "extra"])]), Mirror::new("m2", "u")];
    let db = installed_db();
    let mut pool = PackagePool::new();
    resolve("app", &mirrors, &mut pool, &db).unwrap();
    assert_eq!(names(&pool), vec!["lib", "app"]);
    for h in &pool.order {
        assert!(matches!(pool.packages[*h], PackageVariant::Installed(_)));
    }
    assert_eq!(resolved_names(&pool, pool.order[1]), vec!["lib"]);
}

#[test]
fn passed_handle_stays_as_it_was_when_an_installed_package_takes_its_place() {
    let mirrors = vec![loaded("m", vec![remote("app", &["lib", "extra"]), remote("lib", &[]), remote("extra", &[])])];
    let db = installed_db();
    let mut pool = PackagePool::new();
    let h = resolve_package("app", &mirrors, &mut pool).unwrap();
    resolve_dependencies(h, &mut pool, &mirrors, &db.new_transaction()).unwrap();
    assert!(!pool.order.contains(&h));
    match &pool.packages[h] {
        PackageVariant::Remote(r) => match &r.dependencies {
            Dependencies::Unresolved(ns) => assert_eq!(ns, &vec!["lib".to_string(), "extra".to_string()]),
            Dependencies::Resolved(_) => panic!("resolved"),
        },
        _ => panic!("not remote"),
    }
    assert_eq!(pool.packages[*pool.order.last().unwrap()].hash(), "hash-of-app");
    assert_eq!(pool.packages[*pool.order.last().unwrap()].description(), "old app");
}

#[test]
fn plan_holds_only_what_is_called_for() {
    let mirrors = vec![loaded(
        "m",
        vec![remote("app", &["lib"]), remote("lib", &["base"]), remote("base", &[]), remote("other", &["base"])],
    )];
    let db = DBConnection::open(Database::new()).unwrap();
    let mut pool = PackagePool::new();
    resolve("app", &mirrors, &mut pool, &db).unwrap();
    assert_eq!(names(&pool), vec!["base", "lib", "app"]);
    let last = pool.order.len() - 1;
    for (i, g) in pool.order.iter().enumerate() {
        let relied = pool.order.iter().any(|d| match pool.packages[*d].dependencies() {
            Dependencies::Resolved(hs) => hs.contains(g),
            Dependencies::Unresolved(_) => false,
        });
        assert!(i == last || relied);
    }
}

#[test]
fn resolved_lists_keep_the_order_of_the_names() {
    let mirrors = vec![loaded(
        "m",
        vec![remote("top", &["z", "a", "m"]), remote("a", &[]), remote("m", &["a"]), remote("z", &["m"])],
    )];
    let db = DBConnection::open(Database::new()).unwrap();
    let mut pool = PackagePool::new();
    resolve("top", &mirrors, &mut pool, &db).unwrap();
    assert_eq!(names(&pool), vec!["a", "m", "z", "top"]);
    assert_eq!(resolved_names(&pool, pool.order[3]), vec!["z", "a", "m"]);
    assert_eq!(resolved_names(&pool, pool.order[2]), vec!["m"]);
    for h in &pool.order {
        assert!(matches!(pool.packages[*h].dependencies(), Dependencies::Resolved(_)));
    }
}
