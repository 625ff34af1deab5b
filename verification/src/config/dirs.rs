//! The directories that the package manager works in.
use vstd::prelude::*;
use crate::config::Config;
use crate::util::text::{join_path, path_join};

verus! {

/// The root directory: what is configured, else `/`.
pub open spec fn root_path(c: Config) -> Seq<char> {
    match c.root {
        Some(p) => p@,
        None => "/"@,
    }
}

/// The config directory: what is configured, else `<root>/etc/leaf`.
pub open spec fn config_dir_path(c: Config) -> Seq<char> {
    match c.config_dir {
        Some(p) => p@,
        None => join_path(join_path(root_path(c), "etc"@), "leaf"@),
    }
}

/// The directory of fallback files: `<root>/lib/leaf`.
pub open spec fn lib_dir_path(c: Config) -> Seq<char> {
    join_path(join_path(root_path(c), "lib"@), "leaf"@)
}

/// The mirrors directory: what is configured, else `<config_dir>/mirrors`.
pub open spec fn mirrors_dir_path(c: Config) -> Seq<char> {
    match c.mirrors_dir {
        Some(p) => p@,
        None => join_path(config_dir_path(c), "mirrors"@),
    }
}

/// The cache directory: what is configured, else `<root>/var/cache/leaf`.
pub open spec fn cache_dir_path(c: Config) -> Seq<char> {
    match c.cache_dir {
        Some(p) => p@,
        None => join_path(join_path(join_path(root_path(c), "var"@), "cache"@), "leaf"@),
    }
}

/// The download directory: what is configured, else `<cache_dir>/download`.
pub open spec fn download_dir_path(c: Config) -> Seq<char> {
    match c.download_dir {
        Some(p) => p@,
        None => join_path(cache_dir_path(c), "download"@),
    }
}

/// The packages directory: what is configured, else `<cache_dir>/package`.
pub open spec fn packages_dir_path(c: Config) -> Seq<char> {
    match c.packages_dir {
        Some(p) => p@,
        None => join_path(cache_dir_path(c), "package"@),
    }
}

impl Config {
    /// Return the root directory to work in. Default: `/`.
    pub fn get_root(&self) -> (r: String)
        ensures
            r@ == root_path(*self),
    {
        match &self.root {
            Some(p) => p.clone(),
            None => "/".to_owned(),
        }
    }

    /// Returns the directory for configs. Default: `<root>/etc/leaf`.
    pub fn get_config_dir(&self) -> (r: String)
        ensures
            r@ == config_dir_path(*self),
    {
        match &self.config_dir {
            Some(p) => p.clone(),
            None => {
                let root = self.get_root();
                let etc = path_join(root.as_str(), "etc");
                path_join(etc.as_str(), "leaf")
            },
        }
    }

    /// Returns the directory for fallback files: `<root>/lib/leaf`.
    pub fn get_lib_dir(&self) -> (r: String)
        ensures
            r@ == lib_dir_path(*self),
    {
        let root = self.get_root();
        let lib = path_join(root.as_str(), "lib");
        path_join(lib.as_str(), "leaf")
    }

    /// Returns the directory for the mirror files. Default: `<config_dir>/mirrors`.
    pub fn get_mirrors_dir(&self) -> (r: String)
        ensures
            r@ == mirrors_dir_path(*self),
    {
        match &self.mirrors_dir {
            Some(p) => p.clone(),
            None => {
                let base = self.get_config_dir();
                path_join(base.as_str(), "mirrors")
            },
        }
    }

    /// Returns the directory for caches. Default: `<root>/var/cache/leaf`.
    pub fn get_cache_dir(&self) -> (r: String)
        ensures
            r@ == cache_dir_path(*self),
    {
        match &self.cache_dir {
            Some(p) => p.clone(),
            None => {
                let root = self.get_root();
                let var = path_join(root.as_str(), "var");
                let cache = path_join(var.as_str(), "cache");
                path_join(cache.as_str(), "leaf")
            },
        }
    }

    /// Returns the directory for downloads. Default: `<cache_dir>/download`.
    pub fn get_download_dir(&self) -> (r: String)
        ensures
            r@ == download_dir_path(*self),
    {
        match &self.download_dir {
            Some(p) => p.clone(),
            None => {
                let base = self.get_cache_dir();
                path_join(base.as_str(), "download")
            },
        }
    }

    /// Returns the directory for extracted packages. Default: `<cache_dir>/package`.
    pub fn get_packages_dir(&self) -> (r: String)
        ensures
            r@ == packages_dir_path(*self),
    {
        match &self.packages_dir {
            Some(p) => p.clone(),
            None => {
                let base = self.get_cache_dir();
                path_join(base.as_str(), "package")
            },
        }
    }
}

} // verus!
