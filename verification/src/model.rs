//! The domain model: commands, inbound requests, persisted records, and
//! the resolved configuration set.
use vstd::prelude::*;

verus! {

/// The closed set of wire commands. Decoding any other tag is a protocol
/// error that closes the session.
#[derive(Debug, PartialEq, Eq, Structural, Clone, Copy)]
pub enum Command {
    Add,
    Take,
}

/// An inbound request: a command and an opaque payload. Never persisted
/// directly.
#[derive(Debug, Clone)]
pub struct Req {
    pub command: Command,
    pub data: Vec<u8>,
}

/// Mathematical image of a `Req`.
pub struct ReqModel {
    pub command: Command,
    pub data: Seq<u8>,
}

impl View for Req {
    type V = ReqModel;

    open spec fn view(&self) -> ReqModel {
        ReqModel { command: self.command, data: self.data@ }
    }
}

/// A persisted record awaiting (or having completed) delivery. The
/// identifier is the 128-bit value of the record's UUID.
#[derive(Debug, Clone)]
pub struct SavedReq {
    pub command: Command,
    pub id: u128,
    pub created_at: i64,
    pub published: bool,
    pub published_at: i64,
    pub data: Vec<u8>,
}

/// Mathematical image of a `SavedReq`.
pub struct SavedReqModel {
    pub command: Command,
    pub id: u128,
    pub created_at: i64,
    pub published: bool,
    pub published_at: i64,
    pub data: Seq<u8>,
}

impl View for SavedReq {
    type V = SavedReqModel;

    open spec fn view(&self) -> SavedReqModel {
        SavedReqModel {
            command: self.command,
            id: self.id,
            created_at: self.created_at,
            published: self.published,
            published_at: self.published_at,
            data: self.data@,
        }
    }
}

/// A record can be framed on the wire (and hence stored) only when its
/// payload length fits the binary framing's four-byte length field.
pub open spec fn encodable(r: SavedReqModel) -> bool {
    r.data.len() < 0x1_0000_0000
}

/// The record-state invariant: an undelivered record carries no publish
/// time, a delivered one carries the (positive) time of its delivery.
pub open spec fn record_inv(r: SavedReqModel) -> bool {
    &&& r.published ==> r.published_at > 0
    &&& !r.published ==> r.published_at == 0
}

/// The resolved configuration set: listen port, storage path and
/// credential paths. Produced by the surrounding program, consumed here.
#[derive(Debug, Clone)]
pub struct EnvVarConfig {
    pub port: usize,
    pub db: String,
    pub chain_cert: String,
    pub private_key: String,
}

} // verus!
