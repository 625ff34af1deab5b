//! The rules of a download: what a transfer answers for each chunk, how its
//! outcome is judged, and what its progress line shows.
use vstd::prelude::*;
use vstd::string::StringExecFns;
use crate::error::{IoErrorKind, LError, LErrorClass, LErrorView};
use crate::util::text::{decimal_string, decimal_text};

verus! {

/// The bytes per second below which a transfer counts as stalled.
pub const LOW_SPEED_LIMIT: u32 = 1000;

/// The seconds for which a transfer may stay stalled before it is given up.
pub const LOW_SPEED_TIME: u64 = 30;

/// How a transfer ended, as the transport reported it.
#[derive(Debug)]
pub enum TransferOutcome {
    /// The transfer ran to its end; the server answered with this status code.
    Completed { code: u32 },
    /// The transfer was stopped because a chunk was not taken in full.
    WriteError,
    /// The transport failed, with its description and what it added to it.
    Failed { description: String, extra: Option<String> },
}

/// The number to answer for a chunk of `len` bytes that is not taken: any
/// number but `len` stops the transfer.
pub open spec fn refusal(len: usize) -> usize {
    if len > 0 {
        (len - 1) as usize
    } else {
        1
    }
}

/// The state of one transfer: why it would have been stopped, should the
/// transport report a write error.
#[derive(Debug, Clone, Copy)]
pub struct Transfer {
    pub reason: LErrorClass,
}

/// The error for a status code outside of 200 to 299.
pub open spec fn status_error(code: u32) -> LErrorView {
    LErrorView {
        class: LErrorClass::CURLHttpNot2xx,
        messages: seq!["Expected 2xx, got "@ + decimal_text(code as nat)],
    }
}

/// The error for a failure of the transport.
pub open spec fn transport_error(description: Seq<char>, extra: Option<Seq<char>>) -> LErrorView {
    LErrorView {
        class: LErrorClass::CURL,
        messages: seq![
            description + " ("@ + match extra {
                Some(e) => e,
                None => Seq::empty(),
            } + ")"@,
        ],
    }
}

/// The error for an I/O failure of the given kind with the system's text.
pub open spec fn io_error(kind: IoErrorKind, text: Seq<char>) -> LErrorView {
    LErrorView { class: LErrorClass::IO(kind), messages: seq![text] }
}

impl LError {
    /// The error for an I/O failure: the class carries the kind, the message
    /// is the system's text.
    pub fn from_io(kind: IoErrorKind, text: &str) -> (r: LError)
        ensures
            r@ == io_error(kind, text@),
    {
        LError::new(LErrorClass::IO(kind), text)
    }

    /// The error for a failure of the transport: `<description> (<extra>)`.
    pub fn from_curl(description: &str, extra: Option<&str>) -> (r: LError)
        ensures
            r@ == transport_error(
                description@,
                match extra {
                    Some(e) => Some(e@),
                    None => None,
                },
            ),
    {
        let mut text = String::from_str(description);
        text.append(" (");
        match extra {
            Some(e) => {
                text.append(e);
            },
            None => {
                proof {
                    assert(text@ + Seq::<char>::empty() =~= text@);
                }
            },
        }
        text.append(")");
        LError::new(LErrorClass::CURL, text.as_str())
    }
}

/// What the outcome of a transfer comes to: the status code where it is one
/// of 200 to 299, `CURLHttpNot2xx` for another code, the reason that was
/// noted for a write error, and `CURL` for a failure of the transport.
pub open spec fn download_spec(reason: LErrorClass, outcome: TransferOutcome) -> Result<u32, LErrorView> {
    match outcome {
        TransferOutcome::Completed { code } => if 200 <= code < 300 {
            Ok(code)
        } else {
            Err(status_error(code))
        },
        TransferOutcome::WriteError => Err(LErrorView { class: reason, messages: Seq::empty() }),
        TransferOutcome::Failed { description, extra } => Err(
            transport_error(
                description@,
                match extra {
                    Some(e) => Some(e@),
                    None => None,
                },
            ),
        ),
    }
}

impl Transfer {
    /// A transfer that has not been stopped: a write error without a noted
    /// reason is of class `Unknown`.
    pub fn new() -> (r: Transfer)
        ensures
            r.reason == LErrorClass::Unknown,
    {
        Transfer { reason: LErrorClass::Unknown }
    }

    /// Looks at the process-wide running flag before a chunk of `len` bytes
    /// is handed on. Where the process has been asked to stop, the reason
    /// becomes `Abort` and the chunk is answered with a refusal; else the chunk
    /// goes to the consumer.
    pub fn before_chunk(&mut self, running: bool, len: usize) -> (r: Option<usize>)
        ensures
            running ==> r is None && *final(self) == *old(self),
            !running ==> r == Some(refusal(len)) && final(self).reason == LErrorClass::Abort,
    {
        if running {
            None
        } else {
            self.reason = LErrorClass::Abort;
            Some(Transfer::refuse(len))
        }
    }

    /// The answer for a chunk of `len` bytes that is not taken.
    pub fn refuse(len: usize) -> (r: usize)
        ensures
            r == refusal(len),
            r != len,
    {
        if len > 0 {
            len - 1
        } else {
            1
        }
    }

    /// The answer for a chunk of `len` bytes that went to the consumer: the
    /// whole length where the consumer wants to go on, a refusal where not.
    pub fn after_chunk(len: usize, go_on: bool) -> (r: usize)
        ensures
            r == if go_on {
                len
            } else {
                refusal(len)
            },
            go_on <==> r == len,
    {
        if go_on {
            len
        } else {
            Transfer::refuse(len)
        }
    }
}

/// Judges the outcome of a transfer. Returns the response code in the `Ok`
/// variant exactly for a code of 200 to 299.
pub fn download(transfer: &Transfer, outcome: &TransferOutcome) -> (r: Result<u32, LError>)
    ensures
        match download_spec(transfer.reason, *outcome) {
            Ok(code) => r == Ok::<u32, LError>(code),
            Err(e) => r is Err && r->Err_0@ == e,
        },
{
    match outcome {
        TransferOutcome::Completed { code } => {
            if *code < 200 || *code >= 300 {
                let mut text = String::from_str("Expected 2xx, got ");
                let number = decimal_string(*code as u64);
                text.append(number.as_str());
                Err(LError::new(LErrorClass::CURLHttpNot2xx, text.as_str()))
            } else {
                Ok(*code)
            }
        },
        TransferOutcome::WriteError => Err(LError::new_class(transfer.reason)),
        TransferOutcome::Failed { description, extra } => {
            let e = match extra {
                Some(e) => LError::from_curl(description.as_str(), Some(e.as_str())),
                None => LError::from_curl(description.as_str(), None),
            };
            Err(e)
        },
    }
}

/// How a number of bytes is written for a reader: scaled to a binary unit.
pub uninterp spec fn human_bytes(n: u64) -> Seq<char>;

/// Formats a byte count with `indicatif::HumanBytes`. The contract names the
/// text; it depends on the number alone.
#[verifier::external_body]
fn human_bytes_text(n: u64) -> (r: String)
    ensures
        r@ == human_bytes(n),
{
    format!("{}", indicatif::HumanBytes(n))
}

/// The text of a progress line: `<received> / <total>`.
pub fn progress_message(received: u64, total: u64) -> (r: String)
    ensures
        r@ == human_bytes(received) + " / "@ + human_bytes(total),
{
    let mut text = human_bytes_text(received);
    text.append(" / ");
    let all = human_bytes_text(total);
    text.append(all.as_str());
    text
}

} // verus!
