//! A source-agnostic package manager core: mirror catalogs, dependency
//! resolution, the package life cycle and the installed-package index.
pub mod actions;
pub mod config;
pub mod db;
pub mod download;
pub mod error;
pub mod index;
pub mod leaf;
pub mod mirror;
pub mod package;
pub mod pbar;
pub mod util;
pub use leaf::Leaf;
