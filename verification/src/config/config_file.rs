//! Where the settings are read from.
use vstd::prelude::*;
use vstd::string::StringExecFns;
use crate::config::Config;
use crate::error::{LError, LErrorView};
use crate::util::text::join_path;

verus! {

/// The settings that are used where no config file can be found.
pub const DEFAULT_CONFIG: &'static str = "loglevel = \"info\"\ndownload_workers = 5\nrender_bar = true\n";

/// The config file below `root`: `<root>/etc/leaf/leaf.conf`.
pub open spec fn etc_config_path(root: Seq<char>) -> Seq<char> {
    join_path(join_path(join_path(root, "etc"@), "leaf"@), "leaf.conf"@)
}

/// The fallback config file below `root`: `<root>/lib/leaf/leaf.conf`.
pub open spec fn lib_config_path(root: Seq<char>) -> Seq<char> {
    join_path(join_path(join_path(root, "lib"@), "leaf"@), "leaf.conf"@)
}

/// Uses the supplied root to determine the best location for retrieving the
/// config file, given which of the two candidates exist: first
/// `<root>/etc/leaf/leaf.conf`, then `<root>/lib/leaf/leaf.conf`, and `None`
/// where neither exists.
pub fn get_config_file_path(root: &str, etc_exists: bool, lib_exists: bool) -> (r: Option<String>)
    ensures
        etc_exists ==> r is Some && r->Some_0@ == etc_config_path(root@),
        !etc_exists && lib_exists ==> r is Some && r->Some_0@ == lib_config_path(root@),
        !etc_exists && !lib_exists ==> r is None,
{
    let mut config = Config::default();
    config.root = Some(String::from_str(root));
    if etc_exists {
        Some(config.get_config_file())
    } else if lib_exists {
        Some(config.get_config_file_lib())
    } else {
        None
    }
}

/// Where the settings come from.
#[derive(Debug)]
pub enum ConfigSource {
    /// The config file at this path.
    File(String),
    /// The built-in default settings, given as text.
    Default(String),
}

/// Says where to load the settings from for the supplied root directory:
/// the config file that `get_config_file_path` finds, or the built-in defaults.
pub fn load_config_file_from_root(root: &str, etc_exists: bool, lib_exists: bool) -> (r:
    ConfigSource)
    ensures
        etc_exists ==> (r matches ConfigSource::File(p) && p@ == etc_config_path(root@)),
        !etc_exists && lib_exists ==> (r matches ConfigSource::File(p) && p@ == lib_config_path(
            root@,
        )),
        !etc_exists && !lib_exists ==> (r matches ConfigSource::Default(t) && t@
            == DEFAULT_CONFIG@),
{
    match get_config_file_path(root, etc_exists, lib_exists) {
        Some(path) => ConfigSource::File(path),
        None => ConfigSource::Default(String::from_str(DEFAULT_CONFIG)),
    }
}

/// Takes what reading the config file at `source` gave: the text of the
/// file, or the error of the read with the file named above its messages.
pub fn parse_config_file(source: &str, read: Result<String, LError>) -> (r: Result<String, LError>)
    ensures
        match read {
            Ok(text) => r is Ok && r->Ok_0@ == text@,
            Err(e) => r is Err && r->Err_0@ == (LErrorView {
                class: e@.class,
                messages: seq!["When loading config file from "@ + source@] + e@.messages,
            }),
        },
{
    match read {
        Ok(text) => Ok(text),
        Err(e) => {
            let mut error = e;
            let mut text = String::from_str("When loading config file from ");
            text.append(source);
            error.prepend(text.as_str());
            Err(error)
        },
    }
}

} // verus!
