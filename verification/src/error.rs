//! The error type that every fallible operation of the crate returns.
use vstd::prelude::*;
use vstd::string::StringExecFns;
use crate::util::text::{repeat, repeat_text};

verus! {

/// The kind of an I/O failure, as the operating system reported it.
#[derive(Debug, Clone, Copy, PartialEq, Eq, Structural)]
pub enum IoErrorKind {
    NotFound,
    PermissionDenied,
    ConnectionRefused,
    ConnectionReset,
    ConnectionAborted,
    NotConnected,
    AddrInUse,
    AddrNotAvailable,
    BrokenPipe,
    AlreadyExists,
    WouldBlock,
    InvalidInput,
    InvalidData,
    TimedOut,
    WriteZero,
    Interrupted,
    Unsupported,
    UnexpectedEof,
    OutOfMemory,
    Other,
}

/// The different types of errors that can occur.
#[derive(Debug, Clone, Copy, PartialEq, Eq, Structural)]
pub enum LErrorClass {
    NoError,
    Unknown,
    Abort,
    CURL,
    CURLHttpNot2xx,
    JSON,
    TOML,
    SQL,
    MirrorNotLoaded,
    PackageNotFound,
    UnresolvedDependencies,
    UnexpectedPackageVariant,
    IO(IoErrorKind),
}

/// An error has a class and an ordered list of messages, the newest last.
#[derive(Debug)]
pub struct LError {
    pub class: LErrorClass,
    pub messages: Vec<String>,
}

/// What an error is, apart from how its texts are stored.
pub struct LErrorView {
    pub class: LErrorClass,
    pub messages: Seq<Seq<char>>,
}

impl View for LError {
    type V = LErrorView;

    open spec fn view(&self) -> LErrorView {
        LErrorView { class: self.class, messages: self.messages.deep_view() }
    }
}

/// The human-readable text of an error class.
pub open spec fn class_text(class: LErrorClass) -> Seq<char> {
    match class {
        LErrorClass::NoError => "None"@,
        LErrorClass::Unknown => "Unknown"@,
        LErrorClass::Abort => "Action was aborted"@,
        LErrorClass::CURL => "Error in CURL occured"@,
        LErrorClass::CURLHttpNot2xx => "HTTP response code was not 2xx"@,
        LErrorClass::JSON => "Failed to parse json"@,
        LErrorClass::TOML => "Failed to parse toml"@,
        LErrorClass::SQL => "An SQL error occured"@,
        LErrorClass::MirrorNotLoaded => "Mirror not loaded"@,
        LErrorClass::PackageNotFound => "Package not found"@,
        LErrorClass::UnresolvedDependencies => "Dependencies are not resolved"@,
        LErrorClass::UnexpectedPackageVariant => "Unexpected package variant"@,
        LErrorClass::IO(_) => "An IO error occured"@,
    }
}

/// The lines of the trace for the first `n` messages: message `i` stands on a
/// line of its own, indented by `i` steps of two spaces and introduced by `- `.
pub open spec fn trace_text(messages: Seq<Seq<char>>, n: nat) -> Seq<char>
    decreases n,
{
    if n == 0 {
        Seq::empty()
    } else {
        trace_text(messages, (n - 1) as nat) + repeat_text("  "@, (n - 1) as nat) + "- "@
            + messages[n - 1] + "\n"@
    }
}

/// The whole rendering of an error: the class text, a colon, and the trace.
pub open spec fn render_text(e: LErrorView) -> Seq<char> {
    class_text(e.class) + ": \n"@ + trace_text(e.messages, e.messages.len())
}

impl LErrorClass {
    /// The class of an I/O failure of the given kind.
    pub fn from_io_err(e: IoErrorKind) -> (r: LErrorClass)
        ensures
            r == LErrorClass::IO(e),
    {
        LErrorClass::IO(e)
    }
}

impl LError {
    /// Creates an error with only the class set.
    pub fn new_class(class: LErrorClass) -> (r: LError)
        ensures
            r@.class == class,
            r@.messages == Seq::<Seq<char>>::empty(),
    {
        let r = LError { class, messages: Vec::new() };
        assert(r@.messages =~= Seq::<Seq<char>>::empty());
        r
    }

    /// Creates an error with one attached message.
    pub fn new(class: LErrorClass, message: &str) -> (r: LError)
        ensures
            r@.class == class,
            r@.messages == seq![message@],
    {
        let mut messages: Vec<String> = Vec::new();
        messages.push(String::from_str(message));
        let r = LError { class, messages };
        assert(r@.messages =~= seq![message@]);
        r
    }

    /// Creates the error that represents no error.
    pub fn none() -> (r: LError)
        ensures
            r@.class == LErrorClass::NoError,
            r@.messages == Seq::<Seq<char>>::empty(),
    {
        LError::new_class(LErrorClass::NoError)
    }

    /// Adds `message` below the messages that are there.
    pub fn append(&mut self, message: &str)
        ensures
            final(self)@.class == old(self)@.class,
            final(self)@.messages == old(self)@.messages.push(message@),
    {
        self.messages.push(String::from_str(message));
        assert(self@.messages =~= old(self)@.messages.push(message@));
    }

    /// Puts `message` above the messages that are there.
    pub fn prepend(&mut self, message: &str)
        ensures
            final(self)@.class == old(self)@.class,
            final(self)@.messages == seq![message@] + old(self)@.messages,
    {
        self.messages.insert(0, String::from_str(message));
        assert(self@.messages =~= seq![message@] + old(self)@.messages);
    }

    /// Converts the error class to a human-readable string.
    pub fn ec_str(&self) -> (r: String)
        ensures
            r@ == class_text(self@.class),
    {
        let text = match self.class {
            LErrorClass::NoError => "None",
            LErrorClass::Unknown => "Unknown",
            LErrorClass::Abort => "Action was aborted",
            LErrorClass::CURL => "Error in CURL occured",
            LErrorClass::CURLHttpNot2xx => "HTTP response code was not 2xx",
            LErrorClass::JSON => "Failed to parse json",
            LErrorClass::TOML => "Failed to parse toml",
            LErrorClass::SQL => "An SQL error occured",
            LErrorClass::MirrorNotLoaded => "Mirror not loaded",
            LErrorClass::PackageNotFound => "Package not found",
            LErrorClass::UnresolvedDependencies => "Dependencies are not resolved",
            LErrorClass::UnexpectedPackageVariant => "Unexpected package variant",
            LErrorClass::IO(_) => "An IO error occured",
        };
        String::from_str(text)
    }

    /// Renders the error as a nested, indented trace.
    pub fn to_string(&self) -> (r: String)
        ensures
            r@ == render_text(self@),
    {
        let mut out = self.ec_str();
        out.append(": \n");
        let mut i: usize = 0;
        while i < self.messages.len()
            invariant
                i <= self.messages.len(),
                out@ == class_text(self@.class) + ": \n"@ + trace_text(self@.messages, i as nat),
            decreases self.messages.len() - i,
        {
            let indent = repeat("  ", i);
            out.append(indent.as_str());
            out.append("- ");
            out.append(self.messages[i].as_str());
            out.append("\n");
            assert(self@.messages[i as int] == self.messages[i as int]@);
            assert(out@ =~= class_text(self@.class) + ": \n"@ + trace_text(
                self@.messages,
                (i + 1) as nat,
            ));
            i = i + 1;
        }
        out
    }

    /// A copy of the error: same class, same messages.
    pub fn duplicate(&self) -> (r: LError)
        ensures
            r@ == self@,
    {
        let r = LError { class: self.class, messages: self.messages.clone() };
        assert(r@.messages =~= self@.messages);
        r
    }
}

/// Common functions of every `Result` whose error is an `LError`.
pub trait LErrorExt<T>: Sized {
    /// The value of a success, if `self` is one.
    spec fn ok_value(self) -> Option<T>;

    /// The error of a failure, if `self` is one.
    spec fn err_value(self) -> Option<LErrorView>;

    /// If `self` is an error, puts `message` below its messages.
    fn err_append(self, message: &str) -> (r: Result<T, LError>)
        ensures
            self.ok_value() matches Some(v) ==> r == Ok::<T, LError>(v),
            self.err_value() matches Some(e) ==> r is Err && r->Err_0@.class == e.class
                && r->Err_0@.messages == e.messages.push(message@),
    ;

    /// If `self` is an error, puts `message` above its messages.
    fn err_prepend(self, message: &str) -> (r: Result<T, LError>)
        ensures
            self.ok_value() matches Some(v) ==> r == Ok::<T, LError>(v),
            self.err_value() matches Some(e) ==> r is Err && r->Err_0@.class == e.class
                && r->Err_0@.messages == seq![message@] + e.messages,
    ;
}

impl<T> LErrorExt<T> for Result<T, LError> {
    open spec fn ok_value(self) -> Option<T> {
        match self {
            Ok(v) => Some(v),
            Err(_) => None,
        }
    }

    open spec fn err_value(self) -> Option<LErrorView> {
        match self {
            Ok(_) => None,
            Err(e) => Some(e@),
        }
    }

    fn err_append(self, message: &str) -> (r: Result<T, LError>) {
        match self {
            Ok(v) => Ok(v),
            Err(e) => {
                let mut e = e;
                e.append(message);
                Err(e)
            },
        }
    }

    fn err_prepend(self, message: &str) -> (r: Result<T, LError>) {
        match self {
            Ok(v) => Ok(v),
            Err(e) => {
                let mut e = e;
                e.prepend(message);
                Err(e)
            },
        }
    }
}

} // verus!
