//! What can go wrong with a tracker or with a peer.

use vstd::prelude::*;
use vstd::string::StringExecFns;
use vstd::utf8::encode_utf8;

use crate::utils::{dec_text, push_decimal};

verus! {

/// Why an announce gave no peers.
#[derive(Debug)]
pub enum Error {
    /// A tracker answered, but not with a list of peers; where it gave a
    /// reason of its own, that reason.
    InvalidTrackerResp(Option<String>),
    /// No tracker of any group gave a usable answer.
    NoTrackerAvailable,
}

/// Why a peer's bytes are no message.
#[derive(Debug, PartialEq, Eq, Clone, Copy)]
pub enum DecodeError {
    /// The message's id and the length that its frame declares do not go
    /// together, or the id is not known.
    MessageId(u8, u32),
}

/// What an `Error` says, a tracker's reason as its UTF-8 bytes.
pub enum ErrorView {
    InvalidTrackerResp(Option<Seq<u8>>),
    NoTrackerAvailable,
}

impl View for Error {
    type V = ErrorView;

    open spec fn view(&self) -> ErrorView {
        match self {
            Error::InvalidTrackerResp(Some(reason)) => ErrorView::InvalidTrackerResp(
                Some(encode_utf8(reason@)),
            ),
            Error::InvalidTrackerResp(None) => ErrorView::InvalidTrackerResp(None),
            Error::NoTrackerAvailable => ErrorView::NoTrackerAvailable,
        }
    }
}

impl Error {
    /// What went wrong, in words.
    pub fn message(&self) -> (r: String)
        ensures
            r@ == (match self {
                Error::InvalidTrackerResp(_) => "tracker sent an invalid response"@,
                Error::NoTrackerAvailable => "exhausted all available trackers"@,
            }),
    {
        match self {
            Error::InvalidTrackerResp(_) => String::from_str("tracker sent an invalid response"),
            Error::NoTrackerAvailable => String::from_str("exhausted all available trackers"),
        }
    }
}

impl DecodeError {
    /// What went wrong, in words.
    pub fn message(&self) -> (r: String)
        ensures
            r@ == (match self {
                DecodeError::MessageId(id, len) => "unknown message id "@ + dec_text(*id as nat)
                    + " (len: "@ + dec_text(*len as nat) + ")"@,
            }),
    {
        match self {
            DecodeError::MessageId(id, len) => {
                let mut out = String::from_str("unknown message id ");
                push_decimal(&mut out, *id as u64);
                out.append(" (len: ");
                push_decimal(&mut out, *len as u64);
                out.append(")");
                out
            },
        }
    }
}

} // verus!
