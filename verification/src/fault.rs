//! The error taxonomy of the pipeline.

use vstd::prelude::*;

verus! {

/// A terminal fault of a pipeline run.
///
/// Every run either completes in full or surfaces exactly one of these; no
/// partial-success status exists at the stream level.
#[derive(Clone, Copy, Debug, PartialEq, Eq, Structural)]
pub enum Fault {
    /// Open, read, write or flush failed at an endpoint.
    Endpoint,
    /// The codec rejected a block: malformed compressed input, or an
    /// internal codec failure while compressing.
    Codec,
    /// A rank below the reassembly cursor was submitted again; a defensive
    /// signal of a broken concurrency contract.
    OrderingViolation,
    /// A rank already buffered was submitted a second time; a defensive
    /// signal of a broken concurrency contract.
    DuplicateRank,
    /// An invalid configuration combination, rejected before any I/O.
    Config,
}

impl Fault {
    /// A short human-readable description, fixed per variant.
    pub fn describe(&self) -> (r: String)
        ensures
            *self == Fault::Endpoint ==> r@ == "endpoint I/O failure"@,
            *self == Fault::Codec ==> r@ == "codec failure on a block"@,
            *self == Fault::OrderingViolation ==> r@ == "rank submitted below the reassembly cursor"@,
            *self == Fault::DuplicateRank ==> r@ == "rank submitted twice"@,
            *self == Fault::Config ==> r@ == "invalid configuration"@,
    {
        let s = match self {
            Fault::Endpoint => "endpoint I/O failure",
            Fault::Codec => "codec failure on a block",
            Fault::OrderingViolation => "rank submitted below the reassembly cursor",
            Fault::DuplicateRank => "rank submitted twice",
            Fault::Config => "invalid configuration",
        };
        s.to_string()
    }
}

} // verus!
