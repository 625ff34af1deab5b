//! The files that the package manager reads its settings from.
use vstd::prelude::*;
use crate::config::dirs::{config_dir_path, lib_dir_path};
use crate::config::Config;
use crate::util::text::{join_path, path_join};

verus! {

/// The config file: what is configured, else `<config_dir>/leaf.conf`.
pub open spec fn config_file_path(c: Config) -> Seq<char> {
    match c.config_file {
        Some(p) => p@,
        None => join_path(config_dir_path(c), "leaf.conf"@),
    }
}

/// The fallback config file: `<lib_dir>/leaf.conf`.
pub open spec fn config_file_lib_path(c: Config) -> Seq<char> {
    join_path(lib_dir_path(c), "leaf.conf"@)
}

impl Config {
    /// Returns the path to expect the config file at. Default: `<config_dir>/leaf.conf`.
    pub fn get_config_file(&self) -> (r: String)
        ensures
            r@ == config_file_path(*self),
    {
        match &self.config_file {
            Some(p) => p.clone(),
            None => {
                let base = self.get_config_dir();
                path_join(base.as_str(), "leaf.conf")
            },
        }
    }

    /// Returns the config file's location in the lib directory. It is
    /// consulted if the main config file is missing. Default: `/lib/leaf/leaf.conf`.
    pub fn get_config_file_lib(&self) -> (r: String)
        ensures
            r@ == config_file_lib_path(*self),
    {
        let base = self.get_lib_dir();
        path_join(base.as_str(), "leaf.conf")
    }
}

} // verus!
