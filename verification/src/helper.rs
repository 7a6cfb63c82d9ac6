//! Small helpers over byte regions: a byte report carrier and the UTF-8
//! decoding used to surface byte ranges as text.

use vstd::prelude::*;
use vstd::utf8::{decode_utf8, valid_utf8};

verus! {

/// A byte region together with its length, gathered for reporting.
#[derive(Debug)]
pub struct ByteReport<'data> {
    /// Number of bytes covered by the report.
    pub len: u32,
    /// The reported bytes themselves.
    pub bytes: &'data [u8],
}

impl<'a> ByteReport<'a> {
    /// Gather a report over the given bytes.
    pub fn new(input: &'a [u8]) -> (r: Self)
        requires
            input@.len() <= u32::MAX,
        ensures
            r.len == input@.len(),
            r.bytes@ == input@,
    {
        ByteReport { len: input.len() as u32, bytes: input }
    }

    /// View a valid UTF-8 byte range as text.
    ///
    /// Relies on `std::str::from_utf8`: it returns `Ok` exactly on valid
    /// UTF-8 input, borrowing the bytes as the decoded text; the `requires`
    /// rules out the `Err` case.
    #[verifier::external_body]
    pub fn _u8_as_str(input: &'a [u8]) -> (r: &'a str)
        requires
            valid_utf8(input@),
        ensures
            r@ == decode_utf8(input@),
    {
        std::str::from_utf8(input).expect("invalid UTF-8")
    }
}

/// Decode bytes to owned text, replacing invalid sequences.
///
/// Relies on `String::from_utf8_lossy`: on valid UTF-8 input it returns the
/// decoded characters unchanged.
#[verifier::external_body]
pub fn bytes_to_string_lossy(b: &[u8]) -> (r: String)
    ensures
        valid_utf8(b@) ==> r@ == decode_utf8(b@),
{
    String::from_utf8_lossy(b).into_owned()
}

} // verus!
