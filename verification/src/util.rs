//! Running a program on a text input and collecting what it writes.

use crate::io::ByteInput;
use crate::text::chars_to_string;
use vstd::prelude::*;
use vstd::string::StringSliceAdditionalSpecFns;

verus! {

/// Runs `f` on an input yielding the UTF-8 bytes of `input` and returns the
/// characters it wrote, as a `String`.
pub fn test_io_string<F: FnOnce(ByteInput) -> Vec<char>>(input: &str, f: F) -> (r: String)
    requires
        forall|i: ByteInput| i@ == input.spec_bytes() ==> #[trigger] f.requires((i,)),
    ensures
        exists|i: ByteInput, o: Vec<char>|
            i@ == input.spec_bytes() && #[trigger] f.ensures((i,), o) && r@ == o@,
{
    let inp = ByteInput::from_text(input);
    let ghost gi = inp;
    let out = f(inp);
    let r = chars_to_string(&out);
    assert(gi@ == input.spec_bytes() && f.ensures((gi,), out) && r@ == out@);
    r
}

} // verus!
