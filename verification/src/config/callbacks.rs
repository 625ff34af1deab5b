//! Questions that the package manager puts to its caller.
use vstd::prelude::*;
use crate::config::Config;

verus! {

/// Which callbacks the caller has registered. The callbacks themselves live
/// with the caller, who runs them and hands the answers in.
#[derive(Debug, Clone, Copy)]
pub struct Callbacks {
    /// Whether the caller wants to be asked when a file to be written already
    /// exists without belonging to an installed package.
    pub cb_file_exists: bool,
}

impl Callbacks {
    /// Whether an existing file may be overwritten: what the caller's callback
    /// answered where one is registered, else the `force` setting, which counts
    /// as off where it is not set.
    pub fn file_exists(&self, config: &Config, answer: bool) -> (r: bool)
        ensures
            r == if self.cb_file_exists {
                answer
            } else {
                config.force == Some(true)
            },
    {
        if self.cb_file_exists {
            answer
        } else {
            match config.force {
                Some(force) => force,
                None => false,
            }
        }
    }
}

} // verus!
