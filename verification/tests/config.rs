use leaf::config::config_file::{
    get_config_file_path, load_config_file_from_root, parse_config_file, ConfigSource, DEFAULT_CONFIG,
};
use leaf::config::ensure_config::{ensure_config_file, ensure_dirs, ConfigAction};
use leaf::config::{default_render_bar, Callbacks, Config};
use leaf::error::{IoErrorKind, LError, LErrorClass};
use leaf::mirror::Mirror;

#[test]
fn default_paths() {
    let c = Config::default();
    assert_eq!(c.get_root(), "/");
    assert_eq!(c.get_config_dir(), "/etc/leaf");
    assert_eq!(c.get_lib_dir(), "/lib/leaf");
    assert_eq!(c.get_mirrors_dir(), "/etc/leaf/mirrors");
    assert_eq!(c.get_cache_dir(), "/var/cache/leaf");
    assert_eq!(c.get_download_dir(), "/var/cache/leaf/download");
    assert_eq!(c.get_packages_dir(), "/var/cache/leaf/package");
    assert_eq!(c.get_config_file(), "/etc/leaf/leaf.conf");
    assert_eq!(c.get_config_file_lib(), "/lib/leaf/leaf.conf");
}

#[test]
fn default_settings() {
    let c = Config::default();
    assert!(c.render_bar);
    assert!(default_render_bar());
    assert_eq!(c.download_workers, 5);
    assert_eq!(c.force, None);
    assert!(c.mirrors.is_empty());
    assert!(!c.callbacks.cb_file_exists);
}

#[test]
fn paths_follow_the_root() {
    let mut c = Config::default();
    c.root = Some("/tmp/root".to_string());
    assert_eq!(c.get_root(), "/tmp/root");
    assert_eq!(c.get_config_dir(), "/tmp/root/etc/leaf");
    assert_eq!(c.get_mirrors_dir(), "/tmp/root/etc/leaf/mirrors");
    assert_eq!(c.get_download_dir(), "/tmp/root/var/cache/leaf/download");
    assert_eq!(c.get_packages_dir(), "/tmp/root/var/cache/leaf/package");
    assert_eq!(c.get_config_file_lib(), "/tmp/root/lib/leaf/leaf.conf");
}

#[test]
fn overrides_win_over_defaults() {
    let mut c = Config::default();
    c.root = Some("/r".to_string());
    c.config_dir = Some("/conf".to_string());
    c.cache_dir = Some("/cache".to_string());
    assert_eq!(c.get_config_dir(), "/conf");
    assert_eq!(c.get_mirrors_dir(), "/conf/mirrors");
    assert_eq!(c.get_config_file(), "/conf/leaf.conf");
    assert_eq!(c.get_download_dir(), "/cache/download");
    assert_eq!(c.get_packages_dir(), "/cache/package");
    c.mirrors_dir = Some("/m".to_string());
    c.download_dir = Some("/d".to_string());
    c.packages_dir = Some("/p".to_string());
    c.config_file = Some("/f.conf".to_string());
    assert_eq!(c.get_mirrors_dir(), "/m");
    assert_eq!(c.get_download_dir(), "/d");
    assert_eq!(c.get_packages_dir(), "/p");
    assert_eq!(c.get_config_file(), "/f.conf");
}

#[test]
fn add_mirror_skips_what_is_present() {
    let mut c = Config::default();
    c.add_mirror(Mirror::new("main", "http://a"));
    c.add_mirror(Mirror::new("main", "http://a"));
    c.add_mirror(Mirror::new("main", "http://b"));
    assert_eq!(c.mirrors.len(), 2);
    assert_eq!(c.mirrors[1].url, "http://b");
    c.add_mirrors(vec![Mirror::new("x", "u"), Mirror::new("main", "http://a"), Mirror::new("y", "v"), Mirror::new("x", "u")]);
    let names: Vec<&str> = c.mirrors.iter().map(|m| m.name.as_str()).collect();
    assert_eq!(names, vec!["main", "main", "x", "y"]);
}

#[test]
fn file_exists_asks_the_callback_or_the_force_setting() {
    let mut c = Config::default();
    let none = Callbacks { cb_file_exists: false };
    let some = Callbacks { cb_file_exists: true };
    assert!(!none.file_exists(&c, true));
    assert!(some.file_exists(&c, true));
    assert!(!some.file_exists(&c, false));
    c.force = Some(true);
    assert!(none.file_exists(&c, false));
    assert!(!some.file_exists(&c, false));
    c.force = Some(false);
    assert!(!none.file_exists(&c, true));
}

#[test]
fn config_file_is_searched_in_etc_then_lib() {
    assert_eq!(get_config_file_path("/r", true, true), Some("/r/etc/leaf/leaf.conf".to_string()));
    assert_eq!(get_config_file_path("/r", true, false), Some("/r/etc/leaf/leaf.conf".to_string()));
    assert_eq!(get_config_file_path("/r", false, true), Some("/r/lib/leaf/leaf.conf".to_string()));
    assert_eq!(get_config_file_path("/r", false, false), None);
}

#[test]
fn settings_come_from_a_file_or_the_defaults() {
    match load_config_file_from_root("/", false, true) {
        ConfigSource::File(p) => assert_eq!(p, "/lib/leaf/leaf.conf"),
        ConfigSource::Default(_) => panic!("expected a file"),
    }
    match load_config_file_from_root("/", false, false) {
        ConfigSource::Default(t) => assert_eq!(t, DEFAULT_CONFIG),
        ConfigSource::File(_) => panic!("expected the defaults"),
    }
}

#[test]
fn read_errors_name_the_config_file() {
    assert_eq!(parse_config_file("/etc/leaf/leaf.conf", Ok("a = 1".to_string())).unwrap(), "a = 1");
    let e = parse_config_file("/etc/leaf/leaf.conf", Err(LError::from_io(IoErrorKind::NotFound, "gone"))).unwrap_err();
    assert_eq!(e.class, LErrorClass::IO(IoErrorKind::NotFound));
    assert_eq!(e.messages, vec!["When loading config file from /etc/leaf/leaf.conf".to_string(), "gone".to_string()]);
}

#[test]
fn missing_config_file_is_copied_or_written() {
    let c = Config::default();
    assert!(matches!(ensure_config_file(&c, true, false), ConfigAction::Keep));
    match ensure_config_file(&c, false, true) {
        ConfigAction::Copy { from, to } => {
            assert_eq!(from, "/lib/leaf/leaf.conf");
            assert_eq!(to, "/etc/leaf/leaf.conf");
        }
        _ => panic!("expected a copy"),
    }
    match ensure_config_file(&c, false, false) {
        ConfigAction::Write { to, content } => {
            assert_eq!(to, "/etc/leaf/leaf.conf");
            assert_eq!(content, DEFAULT_CONFIG);
        }
        _ => panic!("expected a write"),
    }
}

#[test]
fn working_directories() {
    let c = Config::default();
    assert_eq!(
        ensure_dirs(&c),
        vec!["/etc/leaf", "/etc/leaf/mirrors", "/var/cache/leaf", "/var/cache/leaf/download", "/var/cache/leaf/package"]
    );
}
