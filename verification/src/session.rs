//! The per-connection session rules: what one inbound frame obliges the
//! session to do. The surrounding program reads frames, performs sends,
//! and ends the connection when told to close; which of those happens is
//! decided here.
use vstd::prelude::*;

use crate::codec::{dec_req, decode_req};
use crate::model::{Command, Req};

verus! {

/// One inbound frame as the transport hands it over: only binary frames
/// carry protocol data.
pub enum FrameIn {
    Binary(Vec<u8>),
    Other,
}

/// What the session must do with one inbound frame.
pub enum Dispatch {
    /// A well-formed `Add`: persist this payload as a fresh record; no
    /// response frame.
    PersistNew(Vec<u8>),
    /// A well-formed `Take`: deliver every unpublished record.
    Deliver,
    /// A non-binary frame: ignore it; the session stays open.
    Skip,
    /// A malformed or unrecognized frame: a protocol error; the session
    /// closes and nothing is stored or sent.
    Close,
}

/// Decodes one frame into the session's obligation.
pub fn dispatch_frame(frame: FrameIn) -> (d: Dispatch)
    ensures
        match frame {
            FrameIn::Other => d is Skip,
            FrameIn::Binary(b) => match dec_req(b@) {
                None => d is Close,
                Some(req) => {
                    if req.command == Command::Add {
                        d matches Dispatch::PersistNew(p) && p@ == req.data
                    } else {
                        d is Deliver
                    }
                },
            },
        },
{
    match frame {
        FrameIn::Other => Dispatch::Skip,
        FrameIn::Binary(b) => match decode_req(&b) {
            None => Dispatch::Close,
            Some(req) => {
                let Req { command, data } = req;
                match command {
                    Command::Add => Dispatch::PersistNew(data),
                    Command::Take => Dispatch::Deliver,
                }
            },
        },
    }
}

} // verus!
