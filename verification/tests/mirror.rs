use leaf::config::Config;
use leaf::error::LErrorClass;
use leaf::mirror::{resolve_package, Mirror};
use leaf::package::{Dependencies, PackagePool, PackageVariant, RemotePackage};

fn remote(name: &str, deps: &[&str], hash: &str) -> RemotePackage {
    RemotePackage {
        name: name.to_string(),
        version: "1.0".to_string(),
        real_version: 1,
        description: format!("the {} package", name),
        dependencies: Dependencies::Unresolved(deps.iter().map(|d| d.to_string()).collect()),
        hash: hash.to_string(),
        url: format!("http://mirror/{}.lfpkg", name),
    }
}

fn loaded(name: &str, packages: Vec<RemotePackage>) -> Mirror {
    let mut m = Mirror::new(name, "http://mirror/list.json");
    m.load(Ok(packages)).unwrap();
    m
}

#[test]
fn new_mirror_is_not_loaded() {
    let m = Mirror::new("main", "http://x/list");
    assert_eq!(m.name, "main");
    assert_eq!(m.url, "http://x/list");
    assert!(m.packages.is_none());
    let e = m.get_packages().unwrap_err();
    assert_eq!(e.class, LErrorClass::MirrorNotLoaded);
    assert_eq!(e.messages, vec!["Mirror main (http://x/list)".to_string()]);
    let e = m.find_package("a").unwrap_err();
    assert_eq!(e.class, LErrorClass::MirrorNotLoaded);
}

#[test]
fn mirror_file_lies_in_the_mirrors_directory() {
    let m = Mirror::new("main", "u");
    assert_eq!(m.get_path(&Config::default()), "/etc/leaf/mirrors/main.json");
    let mut c = Config::default();
    c.mirrors_dir = Some("/m".to_string());
    assert_eq!(m.get_path(&c), "/m/main.json");
}

#[test]
fn load_takes_the_catalog_or_reports_the_reason() {
    let mut m = Mirror::new("main", "u");
    m.load(Ok(vec![remote("a", &[], "h1")])).unwrap();
    assert_eq!(m.get_packages().unwrap().len(), 1);
    let e = m.load(Err("expected value at line 1".to_string())).unwrap_err();
    assert_eq!(e.class, LErrorClass::JSON);
    assert_eq!(e.messages, vec!["When loading mirror main: expected value at line 1".to_string()]);
    assert_eq!(m.get_packages().unwrap().len(), 1);
}

#[test]
fn find_package_returns_the_first_of_the_name() {
    let m = loaded("main", vec![remote("a", &[], "h1"), remote("b", &[], "h2"), remote("a", &[], "h3")]);
    assert_eq!(m.find_package("a").unwrap().hash, "h1");
    assert_eq!(m.find_package("b").unwrap().hash, "h2");
    let e = m.find_package("c").unwrap_err();
    assert_eq!(e.class, LErrorClass::PackageNotFound);
    assert_eq!(e.messages, vec!["Package c not found in mirror main".to_string()]);
}

#[test]
fn empty_catalog_loads_to_an_empty_list() {
    let m = Mirror::new("main", "u");
    let file = m.update(&Config::default(), b"{\"payload\": []}").unwrap();
    assert_eq!(file.content, "[]");
    let m = loaded("main", Vec::new());
    assert!(m.get_packages().unwrap().is_empty());
    assert_eq!(m.find_package("a").unwrap_err().class, LErrorClass::PackageNotFound);
}

#[test]
fn update_stores_the_payload_not_the_envelope() {
    let m = Mirror::new("main", "u");
    let body = b"{\"status\": \"ok\", \"payload\": [ {\"name\": \"a\", \"real_version\": 3} ], \"count\": 1}";
    let file = m.update(&Config::default(), body).unwrap();
    assert_eq!(file.path, "/etc/leaf/mirrors/main.json");
    assert_eq!(file.content, "[{\"name\":\"a\",\"real_version\":3}]");
    let file = m.update(&Config::default(), b"{\"other\": 1}").unwrap();
    assert_eq!(file.content, "null");
}

#[test]
fn update_refuses_what_is_no_json() {
    let m = Mirror::new("main", "u");
    let e = m.update(&Config::default(), b"<html>").unwrap_err();
    assert_eq!(e.class, LErrorClass::JSON);
    assert_eq!(e.messages.len(), 1);
    assert!(!e.messages[0].is_empty());
    let e = m.update(&Config::default(), b"").unwrap_err();
    assert_eq!(e.class, LErrorClass::JSON);
}

#[test]
fn resolve_package_takes_the_first_mirror_that_has_it() {
    let mirrors = vec![
        loaded("m1", vec![remote("app", &["lib"], "h-app")]),
        loaded("m2", vec![remote("lib", &[], "h-lib"), remote("app", &[], "other")]),
    ];
    let mut pool = PackagePool::new();
    let h = resolve_package("lib", &mirrors, &mut pool).unwrap();
    assert_eq!(h, 0);
    let g = resolve_package("app", &mirrors, &mut pool).unwrap();
    assert_eq!(g, 1);
    assert!(pool.order.is_empty());
    match pool.get(g).unwrap() {
        PackageVariant::Remote(p) => assert_eq!(p.hash, "h-app"),
        _ => panic!("expected a remote package"),
    }
    assert!(pool.get(2).is_none());
}

#[test]
fn resolve_package_reports_missing_names_and_unloaded_mirrors() {
    let mirrors = vec![loaded("m1", vec![remote("app", &[], "h")]), Mirror::new("m2", "u2")];
    let mut pool = PackagePool::new();
    let e = resolve_package("lib", &mirrors, &mut pool).unwrap_err();
    assert_eq!(e.class, LErrorClass::MirrorNotLoaded);
    assert_eq!(e.messages, vec!["Mirror m2 (u2)".to_string()]);
    assert!(resolve_package("app", &mirrors, &mut pool).is_ok());
    let mirrors = vec![loaded("m1", vec![remote("app", &[], "h")])];
    let e = resolve_package("missing", &mirrors, &mut pool).unwrap_err();
    assert_eq!(e.class, LErrorClass::PackageNotFound);
    assert_eq!(e.messages, vec!["Package 'missing' has not been found".to_string()]);
    assert_eq!(pool.packages.len(), 1);
}
