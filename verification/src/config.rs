//! The configuration: where the package manager keeps its files and how it
//! behaves.
pub mod alter;
pub mod callbacks;
pub mod config_file;
pub mod dirs;
pub mod ensure_config;
pub mod files;
pub use callbacks::Callbacks;
use vstd::prelude::*;
use crate::mirror::Mirror;

verus! {

/// The settings of one package manager instance. A path that is not set
/// falls back to its default below the directory it belongs to.
#[derive(Debug)]
pub struct Config {
    /// The root to operate on, default: `/`.
    pub root: Option<String>,
    /// The directory for configs (default: `<root>/etc/leaf`).
    pub config_dir: Option<String>,
    /// The config file (default: `<config_dir>/leaf.conf`).
    pub config_file: Option<String>,
    /// The directory for the mirror files (default: `<config_dir>/mirrors`).
    pub mirrors_dir: Option<String>,
    /// The directory for caches (default: `<root>/var/cache/leaf`).
    pub cache_dir: Option<String>,
    /// The directory for downloads (default: `<cache_dir>/download`).
    pub download_dir: Option<String>,
    /// The directory for extracted packages (default: `<cache_dir>/package`).
    pub packages_dir: Option<String>,
    /// Whether to work aggressively (overwrite files, etc...).
    pub force: Option<bool>,
    /// Whether a progress bar should be rendered.
    pub render_bar: bool,
    /// How many downloads may run at the same time.
    pub download_workers: usize,
    /// How the caller is asked for input.
    pub callbacks: Callbacks,
    /// The mirrors to search for packages.
    pub mirrors: Vec<Mirror>,
}

/// Provides the default for the `render_bar` field.
pub fn default_render_bar() -> (r: bool)
    ensures
        r,
{
    true
}

/// The number of parallel downloads where none is configured.
pub const DEFAULT_DOWNLOAD_WORKERS: usize = 5;

impl Default for Config {
    fn default() -> (r: Config)
        ensures
            r.root is None,
            r.config_dir is None,
            r.config_file is None,
            r.mirrors_dir is None,
            r.cache_dir is None,
            r.download_dir is None,
            r.packages_dir is None,
            r.force is None,
            r.render_bar,
            r.download_workers == DEFAULT_DOWNLOAD_WORKERS,
            !r.callbacks.cb_file_exists,
            r.mirrors@.len() == 0,
    {
        Config {
            root: None,
            config_dir: None,
            config_file: None,
            mirrors_dir: None,
            cache_dir: None,
            download_dir: None,
            packages_dir: None,
            force: None,
            render_bar: default_render_bar(),
            download_workers: DEFAULT_DOWNLOAD_WORKERS,
            callbacks: Callbacks { cb_file_exists: false },
            mirrors: Vec::new(),
        }
    }
}

} // verus!
