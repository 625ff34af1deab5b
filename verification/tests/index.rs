use leaf::config::Config;
use leaf::error::{LError, LErrorClass};
use leaf::index::PackageIndex;
use leaf::mirror::Mirror;
use leaf::package::{Dependencies, RemotePackage};

fn remote(name: &str, deps: &[&str], hash: &str) -> RemotePackage {
    RemotePackage {
        name: name.to_string(),
        version: "1.0".to_string(),
        real_version: 1,
        description: String::new(),
        dependencies: Dependencies::Unresolved(deps.iter().map(|d| d.to_string()).collect()),
        hash: hash.to_string(),
        url: String::new(),
    }
}

fn index() -> PackageIndex {
    let mut index = PackageIndex::new(vec![Mirror::new("m0", "u0"), Mirror::new("m1", "u1"), Mirror::new("m2", "u2")]);
    index
        .load_mirrors(vec![
            Ok(vec![remote("app", &["lib", "tool"], "app-0")]),
            Ok(vec![remote("lib", &["base"], "lib-1"), remote("app", &[], "app-1"), remote("base", &[], "base-1")]),
        ])
        .unwrap();
    index
}

#[test]
fn index_skips_mirrors_that_are_not_loaded() {
    let index = index();
    assert!(index.mirrors[2].packages.is_none());
    assert_eq!(index.find_package("app").unwrap().hash, "app-0");
    assert_eq!(index.find_package("base").unwrap().hash, "base-1");
    assert!(index.find_package("tool").is_none());
    let empty = PackageIndex::new(vec![Mirror::new("m", "u")]);
    assert!(empty.find_package("app").is_none());
}

#[test]
fn index_resolves_names_with_their_dependencies() {
    let index = index();
    let plan = index.resolve_packages(&vec!["lib".to_string()]).unwrap();
    let names: Vec<&str> = plan.iter().map(|p| p.name.as_str()).collect();
    assert_eq!(names, vec!["base", "lib"]);
    let plan = index.resolve_packages(&vec!["base".to_string(), "lib".to_string(), "base".to_string()]).unwrap();
    let names: Vec<&str> = plan.iter().map(|p| p.name.as_str()).collect();
    assert_eq!(names, vec!["base", "lib"]);
    assert!(index.resolve_packages(&Vec::new()).unwrap().is_empty());
}

#[test]
fn index_reports_the_way_to_a_missing_package() {
    let index = index();
    let e = index.resolve_packages(&vec!["app".to_string()]).unwrap_err();
    assert_eq!(e.class, LErrorClass::PackageNotFound);
    assert_eq!(
        e.messages,
        vec![
            "When resolving package app".to_string(),
            "When resolving dependencies for package 'app-1.0':".to_string(),
            "Package 'tool' has not been found".to_string(),
        ]
    );
    let e = index.resolve_packages(&vec!["nothing".to_string()]).unwrap_err();
    assert_eq!(
        e.messages,
        vec!["When resolving package nothing".to_string(), "Package 'nothing' has not been found".to_string()]
    );
}

#[test]
fn index_ends_cycles() {
    let mut index = PackageIndex::new(vec![Mirror::new("m", "u")]);
    index
        .load_mirrors(vec![Ok(vec![remote("a", &["b"], "a"), remote("b", &["c"], "b"), remote("c", &["a"], "c")])])
        .unwrap();
    let plan = index.resolve_packages(&vec!["a".to_string()]).unwrap();
    let names: Vec<&str> = plan.iter().map(|p| p.name.as_str()).collect();
    assert_eq!(names, vec!["c", "b", "a"]);
}

#[test]
fn index_names_the_mirror_that_failed() {
    let mut index = PackageIndex::new(vec![Mirror::new("good", "u"), Mirror::new("bad", "u")]);
    let e = index.load_mirrors(vec![Ok(Vec::new()), Err("broken".to_string())]).unwrap_err();
    assert_eq!(e.class, LErrorClass::JSON);
    assert_eq!(e.messages, vec!["When loading mirror bad:".to_string(), "When loading mirror bad: broken".to_string()]);
    assert!(index.mirrors[0].packages.is_some());
    let responses = vec![Ok(b"{\"payload\": []}".to_vec()), Err(LError::new(LErrorClass::CURL, "down"))];
    let e = index.update_mirrors(&Config::default(), &responses).unwrap_err();
    assert_eq!(e.class, LErrorClass::CURL);
    assert_eq!(e.messages, vec!["When updating mirror bad:".to_string(), "down".to_string()]);
    let files = index.update_mirrors(&Config::default(), &vec![Ok(b"{\"payload\": [2]}".to_vec())]).unwrap();
    assert_eq!(files.len(), 1);
    assert_eq!(files[0].path, "/etc/leaf/mirrors/good.json");
    assert_eq!(files[0].content, "[2]");
}

#[test]
fn index_keeps_the_mirrors_loaded_before_a_failure() {
    let mut index = PackageIndex::new(vec![Mirror::new("m0", "u"), Mirror::new("m1", "u"), Mirror::new("m2", "u")]);
    let e = index
        .load_mirrors(vec![
            Ok(vec![remote("app", &[], "app-0")]),
            Err("broken".to_string()),
            Ok(vec![remote("lib", &[], "lib-2")]),
        ])
        .unwrap_err();
    assert_eq!(e.messages[0], "When loading mirror m1:");
    assert_eq!(index.mirrors[0].packages.as_ref().unwrap().len(), 1);
    assert_eq!(index.mirrors[0].packages.as_ref().unwrap()[0].hash, "app-0");
    assert!(index.mirrors[1].packages.is_none());
    assert!(index.mirrors[2].packages.is_none());
    assert_eq!(index.mirrors[1].name, "m1");
}

#[test]
fn index_puts_dependencies_first_and_adds_nothing_else() {
    let mut index = PackageIndex::new(vec![Mirror::new("m", "u")]);
    index
        .load_mirrors(vec![Ok(vec![
            remote("app", &["lib", "tool"], "app"),
            remote("tool", &["base", "lib"], "tool"),
            remote("lib", &["base"], "lib"),
            remote("base", &[], "base"),
            remote("other", &["base"], "other"),
        ])])
        .unwrap();
    let plan = index.resolve_packages(&vec!["tool".to_string(), "app".to_string()]).unwrap();
    let names: Vec<&str> = plan.iter().map(|p| p.name.as_str()).collect();
    assert_eq!(names, vec!["base", "lib", "tool", "app"]);
    for (i, p) in plan.iter().enumerate() {
        match &p.dependencies {
            Dependencies::Unresolved(deps) => {
                for d in deps {
                    assert!(names[..i].contains(&d.as_str()));
                }
            }
            Dependencies::Resolved(_) => panic!("resolved"),
        }
    }
}
