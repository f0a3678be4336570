//! Failures that the codec and the framing layer report.

use vstd::prelude::*;

verus! {

/// The ways in which encoding, decoding or chunk reassembly can fail.
#[derive(Clone, Copy, Debug, PartialEq, Eq, Structural)]
pub enum CodecError {
    /// A structure has more than fifteen fields, or a string or byte run is
    /// longer than the widest length header can express.
    EncodeOverflow,
    /// An unrecognised marker byte, text that is not UTF-8, or structures
    /// nested deeper than the decoder allows.
    DecodeMalformed,
    /// Fewer bytes were available than the data announced.
    EndOfData,
}

} // verus!
