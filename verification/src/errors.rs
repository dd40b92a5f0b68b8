//! The ways in which an operation of this library fails.

use vstd::prelude::*;

verus! {

/// Why an operation was refused. Every failure is final: nothing is retried
/// and no partial result is handed out.
#[derive(Clone, Copy, Debug, PartialEq, Eq, Structural)]
pub enum ErrorKind {
    /// Malformed input: a pattern line that does not parse, a pattern
    /// shorter than two cells, a coordinate outside the matrix.
    InputParse,
    /// A file that asks for something this library does not implement.
    Unsupported,
    /// Two inputs that must agree do not.
    Consistency,
    /// A combination of options that the rules exclude.
    Policy,
    /// The data ended before the structure was complete.
    Io,
}

} // verus!
