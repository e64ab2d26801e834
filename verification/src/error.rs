use vstd::prelude::*;

verus! {

/// The ways an engine operation can fail.
///
/// `KeyTooLarge` and `ValueTooLarge` carry the offending length and are
/// raised by `add` before any state changes. `UnexpectedEnd` reports a
/// record that stops short of its declared length, which recovery treats
/// as corruption.
#[derive(Debug, Clone, Copy, PartialEq, Eq, Structural)]
pub enum Error {
    /// The key is longer than the framing format can record.
    KeyTooLarge(usize),
    /// The value is longer than the framing format can record.
    ValueTooLarge(usize),
    /// The byte stream ended in the middle of a record.
    UnexpectedEnd,
}

} // verus!
