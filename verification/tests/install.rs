use leaf::actions::{apply_downloads, download_packages, install, load_mirrors, update, FetchJob};
use leaf::config::Config;
use leaf::db::{DBConnection, Database, DependencyRow};
use leaf::error::{LError, LErrorClass};
use leaf::mirror::Mirror;
use leaf::package::remote::FetchDecision;
use leaf::package::{
    CorePackage, Dependencies, LocalPackage, PackagePool, PackageRef, PackageVariant, RemotePackage,
};
use leaf::util::fs::{CopyStep, FSEntry, FsNode};
use leaf::util::hash::hash_bytes;
use leaf::util::transaction::{install_order, install_package};
use leaf::Leaf;

fn remote(name: &str, deps: &[&str], archive: &[u8]) -> RemotePackage {
    RemotePackage {
        name: name.to_string(),
        version: "1.0".to_string(),
        real_version: 1,
        description: format!("the {} package", name),
        dependencies: Dependencies::Unresolved(deps.iter().map(|d| d.to_string()).collect()),
        hash: hash_bytes(archive),
        url: format!("http://mirror/{}.lfpkg", name),
    }
}

fn loaded(name: &str, packages: Vec<RemotePackage>) -> Mirror {
    let mut m = Mirror::new(name, "u");
    m.load(Ok(packages)).unwrap();
    m
}

fn two_mirrors() -> Vec<Mirror> {
    vec![
        loaded("m1", vec![remote("app", &["lib"], b"app archive")]),
        loaded("m2", vec![remote("lib", &[], b"lib archive")]),
    ]
}

fn data_of(name: &str) -> Vec<FsNode> {
    vec![FsNode::Directory {
        name: "usr".to_string(),
        entries: vec![FsNode::File { name: name.to_string(), content: name.as_bytes().to_vec() }],
    }]
}

fn names(pool: &PackagePool) -> Vec<String> {
    pool.order.iter().map(|h| pool.packages[*h].name().to_string()).collect()
}

fn fetch_all(config: &Config, pool: &PackagePool, jobs: &Vec<FetchJob>) -> Vec<Result<LocalPackage, LError>> {
    jobs.iter()
        .map(|job| {
            let remote = pool.packages[job.package].as_remote().unwrap();
            let archive = format!("{} archive", job.name);
            Ok(remote.fetched(config, archive.as_bytes()))
        })
        .collect()
}

fn install_all(config: &Config, pool: &mut PackagePool, db: &mut DBConnection) -> Result<Vec<String>, LError> {
    let mut deployed = Vec::new();
    let plan: Vec<PackageRef> = pool.order.clone();
    for h in plan {
        let order = install_order(h, pool)?;
        let mut files: Vec<Vec<FSEntry>> = Vec::new();
        for d in &order {
            let local = pool.packages[*d].as_local()?;
            let deployment = local.deploy(config, &disjoint_data(local.name()));
            deployed.push(local.name().to_string());
            files.push(deployment.package.files);
        }
        install_package(h, &order, &files, pool, db)?;
    }
    Ok(deployed)
}

#[test]
fn plan_fetch_and_install_two_packages() {
    let config = Config::default();
    let mirrors = two_mirrors();
    let mut db = DBConnection::open(Database::new()).unwrap();
    let mut pool = PackagePool::new();
    let jobs = install(&config, &vec!["app".to_string()], &mirrors, &mut pool, &db).unwrap();
    assert_eq!(names(&pool), vec!["lib", "app"]);
    let job_names: Vec<&str> = jobs.iter().map(|j| j.name.as_str()).collect();
    assert_eq!(job_names, vec!["lib", "app"]);
    assert_eq!(jobs[0].url, "http://mirror/lib.lfpkg");
    assert_eq!(jobs[0].path, "/var/cache/leaf/download/lib-1.0.lfpkg");
    assert_eq!(jobs[0].hash, hash_bytes(b"lib archive"));
    assert_eq!(jobs[0].package, pool.order[0]);

    let results = fetch_all(&config, &pool, &jobs);
    apply_downloads(&mut pool, results).unwrap();
    for h in &pool.order {
        assert!(matches!(pool.packages[*h], PackageVariant::Local(_)));
    }
    assert!(download_packages(&config, &pool).is_empty());

    let deployed = install_all(&config, &mut pool, &mut db).unwrap();
    assert_eq!(deployed, vec!["lib", "app"]);
    for h in &pool.order {
        assert!(matches!(pool.packages[*h], PackageVariant::Installed(_)));
    }
    let rows: Vec<(i64, &str, &str)> = db.db.packages.iter().map(|r| (r.id, r.name.as_str(), r.hash.as_str())).collect();
    assert_eq!(rows, vec![(1, "lib", jobs[0].hash.as_str()), (2, "app", jobs[1].hash.as_str())]);
    assert_eq!(db.db.dependencies, vec![DependencyRow { depender: 2, dependency: 1 }]);
    assert_eq!(db.db.files.len(), 6);
    assert!(db.db.check());
}

#[test]
fn shared_path_of_a_second_package_is_refused() {
    // Both packages ship `usr`; the path belongs to the first one.
    let config = Config::default();
    let mirrors = two_mirrors();
    let mut db = DBConnection::open(Database::new()).unwrap();
    let mut pool = PackagePool::new();
    let jobs = install(&config, &vec!["lib".to_string(), "app".to_string()], &mirrors, &mut pool, &db).unwrap();
    let results = fetch_all(&config, &pool, &jobs);
    apply_downloads(&mut pool, results).unwrap();
    let lib = pool.order[0];
    let app = pool.order[1];
    let order = install_order(lib, &pool).unwrap();
    assert_eq!(order, vec![lib]);
    let files = vec![pool.packages[lib].as_local().unwrap().deploy(&config, &data_of("lib")).package.files];
    install_package(lib, &order, &files, &mut pool, &mut db).unwrap();
    let before = format!("{:?}", db.db);
    let order = install_order(app, &pool).unwrap();
    assert_eq!(order, vec![app]);
    let files = vec![pool.packages[app].as_local().unwrap().deploy(&config, &data_of("app")).package.files];
    let e = install_package(app, &order, &files, &mut pool, &mut db).unwrap_err();
    assert_eq!(e.class, LErrorClass::SQL);
    assert_eq!(format!("{:?}", db.db), before);
    assert!(matches!(pool.packages[app], PackageVariant::Local(_)));
}

fn disjoint_data(name: &str) -> Vec<FsNode> {
    vec![FsNode::Directory {
        name: format!("opt-{}", name),
        entries: vec![
            FsNode::File { name: "bin".to_string(), content: name.as_bytes().to_vec() },
            FsNode::Symlink { name: "current".to_string(), target: "bin".to_string() },
        ],
    }]
}

fn full_run(mirrors: &Vec<Mirror>, db: &mut DBConnection, wanted: &[&str]) -> (Vec<String>, Vec<String>, Vec<String>) {
    let config = Config::default();
    let mut leaf = Leaf::new(Vec::new());
    let wanted: Vec<String> = wanted.iter().map(|w| w.to_string()).collect();
    let jobs = install(&config, &wanted, mirrors, &mut leaf.pool, db).unwrap();
    let fetched: Vec<String> = jobs.iter().map(|j| j.name.clone()).collect();
    let results = fetch_all(&config, &leaf.pool, &jobs);
    apply_downloads(&mut leaf.pool, results).unwrap();
    let mut deployed = Vec::new();
    let plan: Vec<PackageRef> = leaf.pool.order.clone();
    for h in plan {
        let order = install_order(h, &leaf.pool).unwrap();
        let mut files = Vec::new();
        for d in &order {
            let local = leaf.pool.packages[*d].as_local().unwrap();
            deployed.push(local.name().to_string());
            files.push(local.deploy(&config, &disjoint_data(local.name())).package.files);
        }
        install_package(h, &order, &files, &mut leaf.pool, db).unwrap();
    }
    (names(&leaf.pool), fetched, deployed)
}

#[test]
fn files_table_holds_the_contents_of_each_archive() {
    let mirrors = two_mirrors();
    let mut db = DBConnection::open(Database::new()).unwrap();
    let (plan, fetched, deployed) = full_run(&mirrors, &mut db, &["app"]);
    assert_eq!(plan, vec!["lib", "app"]);
    assert_eq!(fetched, vec!["lib", "app"]);
    assert_eq!(deployed, vec!["lib", "app"]);
    let files: Vec<(i64, &str, bool, Option<String>)> =
        db.db.files.iter().map(|r| (r.package, r.path.as_str(), r.isfile, r.hash.clone())).collect();
    assert_eq!(
        files,
        vec![
            (1, "opt-lib", false, None),
            (1, "opt-lib/bin", true, Some(hash_bytes(b"lib"))),
            (1, "opt-lib/current", true, Some(hash_bytes(b"bin"))),
            (2, "opt-app", false, None),
            (2, "opt-app/bin", true, Some(hash_bytes(b"app"))),
            (2, "opt-app/current", true, Some(hash_bytes(b"bin"))),
        ]
    );
    assert_eq!(db.db.dependencies, vec![DependencyRow { depender: 2, dependency: 1 }]);
    assert!(db.db.check());
}

#[test]
fn second_installation_changes_nothing() {
    let mirrors = two_mirrors();
    let mut db = DBConnection::open(Database::new()).unwrap();
    full_run(&mirrors, &mut db, &["app"]);
    let once = format!("{:?}", db.db);
    let (plan, fetched, deployed) = full_run(&mirrors, &mut db, &["app"]);
    assert_eq!(plan, vec!["lib", "app"]);
    assert!(fetched.is_empty());
    assert!(deployed.is_empty());
    assert_eq!(format!("{:?}", db.db), once);
}

#[test]
fn cycle_is_installed_and_recorded() {
    let mirrors = vec![loaded("m", vec![remote("a", &["b"], b"a archive"), remote("b", &["a"], b"b archive")])];
    let mut db = DBConnection::open(Database::new()).unwrap();
    let (plan, _, deployed) = full_run(&mirrors, &mut db, &["a"]);
    assert_eq!(plan, vec!["b", "a"]);
    assert_eq!(deployed, vec!["a", "b"]);
    let ids: Vec<(i64, &str)> = db.db.packages.iter().map(|r| (r.id, r.name.as_str())).collect();
    assert_eq!(ids, vec![(1, "a"), (2, "b")]);
    let mut edges = db.db.dependencies.clone();
    edges.sort_by_key(|e| (e.depender, e.dependency));
    assert_eq!(edges, vec![DependencyRow { depender: 1, dependency: 2 }, DependencyRow { depender: 2, dependency: 1 }]);
}

#[test]
fn failed_download_ends_the_installation() {
    let config = Config::default();
    let mirrors = two_mirrors();
    let db = DBConnection::open(Database::new()).unwrap();
    let mut pool = PackagePool::new();
    let jobs = install(&config, &vec!["app".to_string()], &mirrors, &mut pool, &db).unwrap();
    let lib = pool.packages[jobs[0].package].as_remote().unwrap().fetched(&config, b"lib archive");
    let results = vec![Ok(lib), Err(LError::new(LErrorClass::CURLHttpNot2xx, "Expected 2xx, got 404"))];
    let e = apply_downloads(&mut pool, results).unwrap_err();
    assert_eq!(e.class, LErrorClass::CURLHttpNot2xx);
    assert!(matches!(pool.packages[pool.order[0]], PackageVariant::Local(_)));
    assert!(matches!(pool.packages[pool.order[1]], PackageVariant::Remote(_)));
    let e = install_order(pool.order[1], &pool).unwrap_err();
    assert_eq!(e.class, LErrorClass::UnexpectedPackageVariant);
    assert_eq!(e.messages, vec!["Can't install remote package app-1.0-1".to_string()]);
    assert!(db.db.packages.is_empty());
}

#[test]
fn fetched_package_outside_of_the_plan_is_refused() {
    let config = Config::default();
    let mut pool = PackagePool::new();
    let stray = remote("stray", &[], b"x").fetched(&config, b"x");
    let e = apply_downloads(&mut pool, vec![Ok(stray)]).unwrap_err();
    assert_eq!(e.class, LErrorClass::PackageNotFound);
    assert_eq!(e.messages, vec!["Could not find downloaded package in pool anymore: stray-1.0-1".to_string()]);
}

#[test]
fn fetch_reuses_an_archive_with_the_hash_of_the_catalog() {
    let config = Config::default();
    let package = remote("app", &[], b"app archive");
    match package.fetch(&config, Some(b"app archive")) {
        FetchDecision::Reuse(local) => {
            assert_eq!(local.hash, package.hash);
            assert_eq!(local.path, "/var/cache/leaf/download/app-1.0.lfpkg");
            assert_eq!(local.name, "app");
        }
        FetchDecision::Download { .. } => panic!("expected the archive to be reused"),
    }
    match package.fetch(&config, Some(b"something else")) {
        FetchDecision::Download { url, path } => {
            assert_eq!(url, "http://mirror/app.lfpkg");
            assert_eq!(path, "/var/cache/leaf/download/app-1.0.lfpkg");
        }
        FetchDecision::Reuse(_) => panic!("expected a download"),
    }
    assert!(matches!(package.fetch(&config, None), FetchDecision::Download { .. }));
}

#[test]
fn fetched_package_carries_the_hash_of_what_was_written() {
    let config = Config::default();
    let package = remote("app", &["lib"], b"app archive");
    let local = package.fetched(&config, b"");
    assert_eq!(local.hash, "d41d8cd98f00b204e9800998ecf8427e");
    let local = package.fetched(&config, b"tampered");
    assert_eq!(local.hash, hash_bytes(b"tampered"));
    assert_ne!(local.hash, package.hash);
    assert_eq!(local.version, "1.0");
    assert!(matches!(local.dependencies, Dependencies::Unresolved(_)));
}

#[test]
fn deployment_plans_the_copy_into_the_root() {
    let mut config = Config::default();
    config.root = Some("/target".to_string());
    let local = remote("app", &[], b"x").fetched(&config, b"x");
    assert_eq!(local.get_extracted_dir(&config), "/target/var/cache/leaf/package/app-1.0");
    assert_eq!(local.get_data_dir(&config), "/target/var/cache/leaf/package/app-1.0/data");
    let extraction = local.extract(&config);
    assert_eq!(extraction.stale, "/target/var/cache/leaf/package/app-1.0");
    assert_eq!(extraction.archive, "/target/var/cache/leaf/download/app-1.0.lfpkg");
    assert_eq!(extraction.destination, "/target/var/cache/leaf/package");
    let deployment = local.deploy(&config, &disjoint_data("app"));
    assert_eq!(deployment.package.files.len(), 1);
    assert_eq!(deployment.package.name, "app");
    let steps: Vec<String> = deployment
        .steps
        .iter()
        .map(|s| match s {
            CopyStep::Directory { src, dest } => format!("dir {} {}", src, dest),
            CopyStep::File { src, dest } => format!("file {} {}", src, dest),
        })
        .collect();
    assert_eq!(
        steps,
        vec![
            "dir /target/var/cache/leaf/package/app-1.0/data/opt-app /target/opt-app",
            "file /target/var/cache/leaf/package/app-1.0/data/opt-app/bin /target/opt-app/bin",
            "file /target/var/cache/leaf/package/app-1.0/data/opt-app/current /target/opt-app/current",
        ]
    );
}

#[test]
fn installing_needs_one_list_of_files_per_package() {
    let mut pool = PackagePool::new();
    let mut db = DBConnection::open(Database::new()).unwrap();
    let e = install_package(0, &vec![0], &Vec::new(), &mut pool, &mut db).unwrap_err();
    assert_eq!(e.class, LErrorClass::Unknown);
    let e = install_package(0, &Vec::new(), &Vec::new(), &mut pool, &mut db).unwrap_err();
    assert_eq!(e.class, LErrorClass::PackageNotFound);
    let e = install_order(0, &pool).unwrap_err();
    assert_eq!(e.class, LErrorClass::PackageNotFound);
}

#[test]
fn missing_package_ends_the_planning() {
    let config = Config::default();
    let mirrors = vec![loaded("m", vec![remote("app", &["missing"], b"a")])];
    let db = DBConnection::open(Database::new()).unwrap();
    let mut pool = PackagePool::new();
    let e = install(&config, &vec!["app".to_string()], &mirrors, &mut pool, &db).unwrap_err();
    assert_eq!(e.class, LErrorClass::PackageNotFound);
    assert!(e.messages.iter().any(|m| m.contains("missing")));
    let e = install(&config, &vec!["nothing".to_string()], &mirrors, &mut PackagePool::new(), &db).unwrap_err();
    assert_eq!(e.messages, vec!["Package 'nothing' has not been found".to_string()]);
}

#[test]
fn update_collects_files_and_errors() {
    let config = Config::default();
    let mirrors = vec![Mirror::new("a", "ua"), Mirror::new("b", "ub"), Mirror::new("c", "uc")];
    let responses = vec![
        Ok(b"{\"payload\": [1]}".to_vec()),
        Err(LError::new(LErrorClass::CURL, "no route")),
        Ok(b"not json".to_vec()),
    ];
    let outcome = update(&config, &mirrors, &responses);
    assert_eq!(outcome.files.len(), 1);
    assert_eq!(outcome.files[0].path, "/etc/leaf/mirrors/a.json");
    assert_eq!(outcome.files[0].content, "[1]");
    let classes: Vec<LErrorClass> = outcome.errors.iter().map(|e| e.class).collect();
    assert_eq!(classes, vec![LErrorClass::CURL, LErrorClass::JSON]);
    assert!(outcome.into_result().is_err());
    let outcome = update(&config, &mirrors, &vec![Ok(b"{}".to_vec())]);
    assert_eq!(outcome.into_result().unwrap().len(), 1);
}

#[test]
fn loading_stops_at_the_first_broken_catalog() {
    let mut mirrors = vec![Mirror::new("a", "ua"), Mirror::new("b", "ub"), Mirror::new("c", "uc")];
    let catalogs = vec![Ok(vec![remote("x", &[], b"x")]), Err("bad".to_string()), Ok(Vec::new())];
    let e = load_mirrors(&mut mirrors, catalogs).unwrap_err();
    assert_eq!(e.class, LErrorClass::JSON);
    assert_eq!(e.messages, vec!["When loading mirror b: bad".to_string()]);
    assert!(mirrors[0].packages.is_some());
    assert!(mirrors[1].packages.is_none());
    assert!(mirrors[2].packages.is_none());
    load_mirrors(&mut mirrors, vec![Ok(Vec::new()), Ok(Vec::new()), Ok(Vec::new())]).unwrap();
    assert!(mirrors.iter().all(|m| m.packages.is_some()));
}

#[test]
fn facade_plans_and_forgets() {
    let mut leaf = Leaf::new(two_mirrors());
    let db = DBConnection::open(Database::new()).unwrap();
    let jobs = leaf.install(&vec!["app".to_string()], &db).unwrap();
    assert_eq!(jobs.len(), 2);
    assert_eq!(names(&leaf.pool), vec!["lib", "app"]);
    let again = leaf.install(&vec!["lib".to_string()], &db).unwrap();
    assert_eq!(again.len(), 2);
    assert_eq!(leaf.pool.order.len(), 2);
    leaf.drop_pool();
    assert!(leaf.pool.order.is_empty());
    assert!(leaf.pool.packages.is_empty());
    let outcome = leaf.update(&vec![Ok(b"{\"payload\": []}".to_vec())]);
    assert_eq!(outcome.files[0].path, "/etc/leaf/mirrors/m1.json");
    assert_eq!(outcome.files[0].content, "[]");
}

#[test]
fn remote_package_is_never_installed() {
    let mut pool = PackagePool::new();
    let h = pool.add(PackageVariant::Remote(remote("app", &[], b"app archive")));
    let mut db = DBConnection::open(Database::new()).unwrap();
    let before = db.db.duplicate();
    let e = install_package(h, &Vec::new(), &Vec::new(), &mut pool, &mut db).unwrap_err();
    assert_eq!(e.class, LErrorClass::UnexpectedPackageVariant);
    assert_eq!(e.messages, vec!["Can't install remote package app-1.0-1".to_string()]);
    assert!(db.db.packages.len() == before.packages.len() && db.db.files.len() == before.files.len());
    assert!(db.db.packages.is_empty() && db.db.dependencies.is_empty());
    assert!(matches!(pool.packages[h], PackageVariant::Remote(_)));
    let e = install_order(h, &pool).unwrap_err();
    assert_eq!(e.class, LErrorClass::UnexpectedPackageVariant);
    assert_eq!(e.messages, vec!["Can't install remote package app-1.0-1".to_string()]);
}

#[test]
fn local_package_is_recorded_only_once_deployed() {
    let config = Config::default();
    let mut pool = PackagePool::new();
    let local = remote("app", &[], b"app archive").fetched(&config, b"app archive");
    let h = pool.add(PackageVariant::Local(local));
    let mut db = DBConnection::open(Database::new()).unwrap();
    let e = install_package(h, &Vec::new(), &Vec::new(), &mut pool, &mut db).unwrap_err();
    assert_eq!(e.class, LErrorClass::UnexpectedPackageVariant);
    assert_eq!(e.messages, vec!["Package has not been deployed: app-1.0-1".to_string()]);
    assert!(db.db.packages.is_empty());
    assert!(matches!(pool.packages[h], PackageVariant::Local(_)));
}

#[test]
fn deployment_order_puts_dependencies_first() {
    let config = Config::default();
    let mirrors = vec![loaded(
        "m",
        vec![
            remote("app", &["lib", "tool"], b"app archive"),
            remote("lib", &["base"], b"lib archive"),
            remote("tool", &["base", "lib"], b"tool archive"),
            remote("base", &[], b"base archive"),
        ],
    )];
    let db = DBConnection::open(Database::new()).unwrap();
    let mut pool = PackagePool::new();
    let jobs = install(&config, &vec!["app".to_string()], &mirrors, &mut pool, &db).unwrap();
    let fetched = fetch_all(&config, &pool, &jobs);
    apply_downloads(&mut pool, fetched).unwrap();
    let app = *pool.order.last().unwrap();
    let order = install_order(app, &pool).unwrap();
    let listed: Vec<String> = order.iter().map(|h| pool.packages[*h].name().to_string()).collect();
    assert_eq!(listed, vec!["base", "lib", "tool", "app"]);
    for (i, h) in order.iter().enumerate() {
        match pool.packages[*h].dependencies() {
            Dependencies::Resolved(deps) => {
                for d in deps {
                    assert!(order[..i].contains(d));
                }
            }
            Dependencies::Unresolved(_) => panic!("unresolved"),
        }
    }
}

#[test]
fn already_resolved_catalog_package_ends_the_planning() {
    let config = Config::default();
    let mut spoiled = remote("lib", &[], b"lib archive");
    spoiled.dependencies = Dependencies::Resolved(Vec::new());
    let mirrors = vec![loaded("m", vec![remote("app", &["lib"], b"app archive"), spoiled])];
    let db = DBConnection::open(Database::new()).unwrap();
    let mut pool = PackagePool::new();
    let e = install(&config, &vec!["app".to_string()], &mirrors, &mut pool, &db).unwrap_err();
    assert_eq!(e.class, LErrorClass::UnexpectedPackageVariant);
}

#[test]
fn installed_package_is_planned_without_a_download() {
    let config = Config::default();
    let mirrors = two_mirrors();
    let mut db = DBConnection::open(Database::new()).unwrap();
    let (_, _, _) = full_run(&mirrors, &mut db, &["app"]);
    let rows = format!("{:?}", db.db);
    let mut pool = PackagePool::new();
    let jobs = install(&config, &vec!["app".to_string()], &mirrors, &mut pool, &db).unwrap();
    assert!(jobs.is_empty());
    assert_eq!(names(&pool), vec!["lib", "app"]);
    for h in &pool.order {
        assert!(matches!(pool.packages[*h], PackageVariant::Installed(_)));
    }
    let deployed = install_all(&config, &mut pool, &mut db).unwrap();
    assert!(deployed.is_empty());
    assert_eq!(format!("{:?}", db.db), rows);
}
