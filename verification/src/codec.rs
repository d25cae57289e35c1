//! The wire format a page's value is written in.

use vstd::prelude::*;

use crate::error::ValueError;
use crate::value::Value;

verus! {

/// Turns a [`Value`] into bytes and back: the wire format the pager writes
/// to a page. Implement it to add a format; the one obligation is the
/// round-trip law, that decoding what was encoded gives the value back.
///
/// The trait is object-safe, so a format can be chosen at run time and
/// held as a `Box<dyn Codec>`.
///
/// The pager is verified against these contracts for every implementation
/// at once: nothing here reasons about a particular format. They are what
/// an implementation promises, and are believed, not checked, of one
/// written outside Verus.
pub trait Codec: Send + Sync {
    /// What this format reads from a byte string: `decode` is a function
    /// of its bytes alone.
    ///
    /// An implementation verified with Verus defines it as its decoder. One
    /// written outside Verus keeps this default, a function of the bytes that
    /// nothing here pins down. It is one and the same function for every
    /// implementation that keeps it, so two such formats are not told apart
    /// here: the pager's proofs hold for any choice of it and never compare
    /// two formats, and what is claimed of such a format is its contracts
    /// below, believed rather than checked.
    open spec fn spec_decode(&self, bytes: Seq<u8>) -> Result<Value, ValueError> {
        unspecified_decoder()(bytes)
    }

    /// The name `name` returns. An implementation verified with Verus
    /// defines it; one written outside Verus keeps this default, a name that
    /// nothing here pins down and that is the same for every implementation
    /// that keeps it, so nothing here compares two such formats' names.
    open spec fn spec_name(&self) -> &'static str {
        arbitrary()
    }

    /// The format's short, stable name, such as `"bincode"` or `"json"`;
    /// decode errors report it in [`ValueError::Decode`]'s `codec` field.
    fn name(&self) -> (r: &'static str)
        ensures
            r == self.spec_name(),
    ;

    /// Encodes `value` into this format's bytes. Decoding them gives back
    /// a value equal to `value`, every NaN being equal to every other: the
    /// round-trip law every codec keeps, for values nested however deeply
    /// (a parser with a nesting limit breaks it).
    fn encode(&self, value: &Value) -> (r: Vec<u8>)
        ensures
            self.spec_decode(r@) is Ok,
            self.spec_decode(r@)->Ok_0@ == value@,
    ;

    /// Decodes bytes back into a value; a [`ValueError::Decode`] naming this
    /// format if they are not its output.
    fn decode(&self, bytes: &[u8]) -> (r: Result<Value, ValueError>)
        ensures
            r == self.spec_decode(bytes@),
            r matches Err(e) ==> e is Decode && e->codec == self.spec_name(),
    ;
}

/// A decoder that nothing pins down: some function from bytes to a decoded
/// value or an error.
pub open spec fn unspecified_decoder() -> spec_fn(Seq<u8>) -> Result<Value, ValueError> {
    arbitrary()
}

} // verus!
