use vstd::prelude::*;

verus! {

/// Failures of the wire codec.  Every codec operation reports a failure as
/// a value; none of them panics.
#[derive(Clone, Copy, Debug, PartialEq, Eq, Structural)]
pub enum DnsError {
    /// A read, write or seek would touch a position at or past the
    /// buffer's capacity.
    EndOfBuffer,
    /// A name label of more than 63 bytes was handed to the name encoder.
    LabelTooLong,
    /// A name's compression-pointer chain was longer than the fixed jump
    /// budget allows.  The guard bounds pointer chasing so that a
    /// self-referential chain in a malformed message fails instead of
    /// looping forever.
    TooManyJumps,
}

} // verus!
