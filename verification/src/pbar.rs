//! How progress bars look.
use vstd::prelude::*;

verus! {

/// The kinds of progress bar.
#[derive(Debug, Clone, Copy, PartialEq, Eq, Structural)]
pub enum Template {
    Download,
}

/// The layout of a progress bar of the given kind.
pub open spec fn pattern_text(template: Template) -> Seq<char> {
    match template {
        Template::Download => "{prefix:<60} [{elapsed_precise}] [{msg:>23.yellow}] [{percent:>3.green}%] [{wide_bar}] "@,
    }
}

impl Template {
    /// The layout of the bar: prefix, elapsed time, message, percentage and
    /// the bar itself.
    pub fn pattern(&self) -> (r: &'static str)
        ensures
            r@ == pattern_text(*self),
    {
        match self {
            Template::Download => "{prefix:<60} [{elapsed_precise}] [{msg:>23.yellow}] [{percent:>3.green}%] [{wide_bar}] ",
        }
    }

    /// The characters that draw the bar: done, current and to do.
    pub fn progress_chars(&self) -> (r: &'static str)
        ensures
            r@ == "##-"@,
    {
        "##-"
    }
}

} // verus!
