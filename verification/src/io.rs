//! The program input as a byte stream with a read position.

use vstd::prelude::*;
use vstd::slice::slice_to_vec;
use vstd::string::StringSliceAdditionalSpecFns;

verus! {

/// Bytes still to be read by a running program.
pub struct ByteInput {
    bytes: Vec<u8>,
    pos: usize,
}

impl View for ByteInput {
    type V = Seq<u8>;

    /// The bytes not read yet.
    closed spec fn view(&self) -> Seq<u8> {
        self.bytes@.subrange(self.pos as int, self.bytes@.len() as int)
    }
}

impl ByteInput {
    #[verifier::type_invariant]
    spec fn position_in_range(self) -> bool {
        self.pos <= self.bytes.len()
    }

    /// An input that will yield `bytes` in order.
    pub fn new(bytes: Vec<u8>) -> (r: ByteInput)
        ensures
            r@ == bytes@,
    {
        let r = ByteInput { bytes, pos: 0 };
        assert(r@ =~= r.bytes@);
        r
    }

    /// An input that will yield the UTF-8 bytes of `s`.
    pub fn from_text(s: &str) -> (r: ByteInput)
        ensures
            r@ == s.spec_bytes(),
    {
        ByteInput::new(slice_to_vec(s.as_bytes()))
    }

    /// The next byte, without consuming it.
    pub fn peek(&self) -> (r: Option<u8>)
        ensures
            r == (if self@.len() > 0 { Some(self@[0]) } else { None::<u8> }),
            self@.len() <= usize::MAX,
    {
        proof {
            use_type_invariant(self);
        }
        if self.pos < self.bytes.len() {
            Some(self.bytes[self.pos])
        } else {
            None
        }
    }

    /// The next byte, consumed.
    pub fn next(&mut self) -> (r: Option<u8>)
        ensures
            r == (if old(self)@.len() > 0 { Some(old(self)@[0]) } else { None::<u8> }),
            final(self)@ == (if old(self)@.len() > 0 { old(self)@.drop_first() } else { old(self)@ }),
    {
        proof {
            use_type_invariant(&*self);
        }
        if self.pos < self.bytes.len() {
            let b = self.bytes[self.pos];
            self.pos = self.pos + 1;
            assert(self@ =~= old(self)@.drop_first());
            Some(b)
        } else {
            None
        }
    }
}

} // verus!
