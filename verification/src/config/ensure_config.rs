//! Making sure that a config file and the working directories are there.
use vstd::prelude::*;
use vstd::string::StringExecFns;
use crate::config::config_file::DEFAULT_CONFIG;
use crate::config::dirs::{
    cache_dir_path, config_dir_path, download_dir_path, mirrors_dir_path, packages_dir_path,
};
use crate::config::files::{config_file_lib_path, config_file_path};
use crate::config::Config;

verus! {

/// What has to be done so that the config file exists.
#[derive(Debug)]
pub enum ConfigAction {
    /// The config file is there.
    Keep,
    /// The fallback file has to be copied to the place of the config file.
    Copy { from: String, to: String },
    /// The default settings have to be written to the place of the config file.
    Write { to: String, content: String },
}

/// The directories that have to exist before anything is read or written:
/// the config, mirrors, cache, download and packages directories, in this order.
pub fn ensure_dirs(config: &Config) -> (r: Vec<String>)
    ensures
        r.deep_view() == seq![
            config_dir_path(*config),
            mirrors_dir_path(*config),
            cache_dir_path(*config),
            download_dir_path(*config),
            packages_dir_path(*config),
        ],
{
    let mut dirs: Vec<String> = Vec::new();
    dirs.push(config.get_config_dir());
    dirs.push(config.get_mirrors_dir());
    dirs.push(config.get_cache_dir());
    dirs.push(config.get_download_dir());
    dirs.push(config.get_packages_dir());
    assert(dirs.deep_view() =~= seq![
        config_dir_path(*config),
        mirrors_dir_path(*config),
        cache_dir_path(*config),
        download_dir_path(*config),
        packages_dir_path(*config),
    ]);
    dirs
}

/// Checks if the config file is present, given which of the config file and
/// its fallback exist. If not, says how a sensible default config gets to the
/// default path: from the fallback file where that exists, else from the
/// built-in defaults.
pub fn ensure_config_file(config: &Config, etc_exists: bool, lib_exists: bool) -> (r: ConfigAction)
    ensures
        etc_exists ==> r is Keep,
        !etc_exists && lib_exists ==> (r matches ConfigAction::Copy { from, to } && from@
            == config_file_lib_path(*config) && to@ == config_file_path(*config)),
        !etc_exists && !lib_exists ==> (r matches ConfigAction::Write { to, content } && to@
            == config_file_path(*config) && content@ == DEFAULT_CONFIG@),
{
    if etc_exists {
        ConfigAction::Keep
    } else if lib_exists {
        ConfigAction::Copy { from: config.get_config_file_lib(), to: config.get_config_file() }
    } else {
        ConfigAction::Write {
            to: config.get_config_file(),
            content: String::from_str(DEFAULT_CONFIG),
        }
    }
}

} // verus!
