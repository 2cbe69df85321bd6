//! Error kinds surfaced by the engine core.

use vstd::prelude::*;

verus! {

/// Every failure the core can report.
///
/// `Io` is produced only by the unverified shell around the library; the
/// verified code itself reports the remaining kinds.
#[derive(Debug, Clone)]
pub enum Error {
    /// Underlying file or syscall failure, with a context note.
    Io { context: String },
    /// CRC mismatch, unexpected end of input inside a framed record, or an
    /// impossible offset.
    Corruption { context: String },
    /// The approximate-membership filter refused an insertion.
    Filter { context: String },
    /// A record payload could not be decoded.
    Serialization { context: String },
    /// Operation attempted on an already committed transaction.
    TxnClosed,
    /// Read-write anti-dependency detected at commit.
    SerializabilityConflict,
}

impl Error {
    pub fn io_error(context: &str) -> (r: Error)
        ensures
            r is Io,
    {
        Error::Io { context: context.to_owned() }
    }

    pub fn filter_error(context: &str) -> (r: Error)
        ensures
            r is Filter,
    {
        Error::Filter { context: context.to_owned() }
    }

    pub fn serder_error(context: &str) -> (r: Error)
        ensures
            r is Serialization,
    {
        Error::Serialization { context: context.to_owned() }
    }

    pub fn block_meta_error(context: &str) -> (r: Error)
        ensures
            r is Corruption,
    {
        Error::Corruption { context: context.to_owned() }
    }

    pub fn corruption(context: &str) -> (r: Error)
        ensures
            r is Corruption,
    {
        Error::Corruption { context: context.to_owned() }
    }
}

} // verus!
