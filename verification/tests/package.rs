use leaf::error::LErrorClass;
use leaf::package::{
    fq_name_string, CorePackage, Dependencies, InstalledPackage, LocalPackage, PackagePool, PackageRefTrait,
    PackageVariant, RemotePackage,
};
use leaf::util::fs::FSEntry;

fn remote() -> RemotePackage {
    RemotePackage {
        name: "glibc".to_string(),
        version: "2.3".to_string(),
        real_version: 9,
        description: "the C library".to_string(),
        dependencies: Dependencies::Unresolved(vec!["linux-headers".to_string()]),
        hash: "abc".to_string(),
        url: "http://x/glibc.lfpkg".to_string(),
    }
}

#[test]
fn names_of_a_package() {
    let p = remote();
    assert_eq!(p.full_name(), "glibc-2.3");
    assert_eq!(p.extract_name(), "glibc-2.3");
    assert_eq!(p.get_full_name(), "glibc-2.3");
    assert_eq!(p.get_fq_name(), "glibc-2.3-9");
    assert_eq!(fq_name_string("a", "b", 0), "a-b-0");
    let v = PackageVariant::Remote(remote());
    assert_eq!(v.get_fq_name(), "glibc-2.3-9");
    assert_eq!(v.full_name(), "glibc-2.3");
}

#[test]
fn getters_read_every_variant() {
    let r = remote();
    let l = LocalPackage::from_remote(&r, "def", "/cache/glibc-2.3.lfpkg");
    let i = InstalledPackage::from_local(&l, vec![FSEntry { name: "lib".to_string(), hash: None, children: vec![] }]);
    assert_eq!(l.hash, "def");
    assert_eq!(l.path, "/cache/glibc-2.3.lfpkg");
    assert_eq!(i.hash, "def");
    assert_eq!(i.files.len(), 1);
    for v in [PackageVariant::Remote(r), PackageVariant::Local(l), PackageVariant::Installed(i)] {
        assert_eq!(v.name(), "glibc");
        assert_eq!(v.version(), "2.3");
        assert_eq!(v.real_version(), 9);
        assert_eq!(v.description(), "the C library");
        assert_eq!(v.get_name(), "glibc");
        assert_eq!(v.get_version(), "2.3");
        assert_eq!(v.get_real_version(), 9);
        assert_eq!(v.get_description(), "the C library");
        assert!(matches!(v.dependencies(), Dependencies::Unresolved(names) if names.len() == 1));
        assert!(matches!(v.get_dependencies(), Dependencies::Unresolved(_)));
    }
    assert_eq!(remote().hash(), "abc");
    assert_eq!(remote().get_hash(), "abc");
}

#[test]
fn setters_change_one_thing() {
    let mut v = PackageVariant::Remote(remote());
    v.set_name("musl");
    v.set_version("1.2");
    v.set_real_version(3);
    v.set_description("another C library");
    v.set_hash("fff");
    PackageRefTrait::set_dependencies(&mut v, Dependencies::Resolved(vec![4, 2]));
    assert_eq!(v.get_fq_name(), "musl-1.2-3");
    assert_eq!(v.description(), "another C library");
    assert_eq!(v.hash(), "fff");
    assert!(matches!(v.dependencies(), Dependencies::Resolved(hs) if hs == &vec![4, 2]));
    match v {
        PackageVariant::Remote(p) => assert_eq!(p.url, "http://x/glibc.lfpkg"),
        _ => panic!("the variant changed"),
    }
    let mut p = remote();
    p.set_name("x");
    assert_eq!(p.name, "x");
    assert_eq!(p.version, "2.3");
}

#[test]
fn variant_switches() {
    let r = PackageVariant::Remote(remote());
    assert_eq!(r.as_remote().unwrap().url, "http://x/glibc.lfpkg");
    let e = r.as_local().unwrap_err();
    assert_eq!(e.class, LErrorClass::UnexpectedPackageVariant);
    assert_eq!(e.messages, vec!["Expected a local package: glibc-2.3-9".to_string()]);
    let e = r.as_installed().unwrap_err();
    assert_eq!(e.messages, vec!["Expected a installed package: glibc-2.3-9".to_string()]);
    let l = PackageVariant::Local(LocalPackage::from_remote(&remote(), "h", "p"));
    assert!(l.as_local().is_ok());
    let e = l.as_remote().unwrap_err();
    assert_eq!(e.messages, vec!["Expected a remote package: glibc-2.3-9".to_string()]);
}

#[test]
fn dependencies_are_asked_for_in_their_form() {
    let u = Dependencies::Unresolved(vec!["a".to_string()]);
    assert_eq!(u.get_unresolved().unwrap(), &vec!["a".to_string()]);
    let e = u.get_resolved().unwrap_err();
    assert_eq!(e.class, LErrorClass::UnresolvedDependencies);
    let r = Dependencies::Resolved(vec![1, 2]);
    assert_eq!(r.get_resolved().unwrap(), &vec![1, 2]);
    let e = r.get_unresolved().unwrap_err();
    assert_eq!(e.class, LErrorClass::UnexpectedPackageVariant);
    assert!(matches!(r.duplicate(), Dependencies::Resolved(hs) if hs == vec![1, 2]));
    assert!(matches!(u.duplicate(), Dependencies::Unresolved(ns) if ns == vec!["a".to_string()]));
}

#[test]
fn clone_to_resolved_drops_the_dependencies() {
    let c = remote().clone_to_resolved();
    assert!(matches!(c.dependencies, Dependencies::Resolved(ref hs) if hs.is_empty()));
    assert_eq!(c.name, "glibc");
    assert_eq!(c.url, "http://x/glibc.lfpkg");
    let v = PackageVariant::Remote(remote()).clone_to_resolved();
    assert!(matches!(v.dependencies(), Dependencies::Resolved(hs) if hs.is_empty()));
    assert!(matches!(v, PackageVariant::Remote(_)));
}

#[test]
fn dependency_of_by_name_or_by_handle() {
    let mut pool = PackagePool::new();
    let headers = pool.add(PackageVariant::Remote({
        let mut p = remote();
        p.name = "linux-headers".to_string();
        p.dependencies = Dependencies::Unresolved(vec![]);
        p
    }));
    let libc = pool.add(PackageVariant::Remote(remote()));
    assert!(pool.packages[headers].is_dependency_of(&pool.packages[libc], &pool));
    assert!(!pool.packages[libc].is_dependency_of(&pool.packages[headers], &pool));
    pool.set_dependencies(libc, Dependencies::Resolved(vec![headers, 77]));
    assert!(pool.packages[headers].is_dependency_of(&pool.packages[libc], &pool));
    assert!(!pool.packages[libc].is_dependency_of(&pool.packages[libc], &pool));
    assert!(pool.is_finished(libc));
    assert!(!pool.is_finished(headers));
}

#[test]
fn pool_finds_by_name_and_hash_in_the_plan() {
    let mut pool = PackagePool::new();
    let a = pool.add(PackageVariant::Remote(remote()));
    assert_eq!(pool.find_name("glibc"), None);
    pool.order.push(a);
    assert_eq!(pool.find_name("glibc"), Some(0));
    assert_eq!(pool.find_hash("abc"), Some(0));
    assert_eq!(pool.find_hash("abd"), None);
    assert_eq!(pool.dependency_names(&Dependencies::Resolved(vec![a, a])).unwrap(), vec!["glibc".to_string(), "glibc".to_string()]);
    assert_eq!(pool.dependency_names(&Dependencies::Resolved(vec![5])).unwrap_err().class, LErrorClass::PackageNotFound);
    pool.replace(a, PackageVariant::Local(LocalPackage::from_remote(&remote(), "zzz", "p")));
    assert_eq!(pool.find_hash("zzz"), Some(0));
}
