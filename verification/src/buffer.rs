//! The bounded buffer in which the text of a number is gathered.

use vstd::prelude::*;
use vstd::utf8::encode_utf8;
use arrayvec::ArrayString;

verus! {

/// How many bytes the buffer holds.
pub const BUFFER_CAPACITY: usize = 32;

/// A fixed-capacity string on the stack: an `arrayvec::ArrayString` of
/// `BUFFER_CAPACITY` bytes.
///
/// Verus does not look inside; what the buffer holds is `buffer_text`.
#[verifier::external_body]
pub struct NumberBuffer {
    text: ArrayString<[u8; 32]>,
}

/// The text that a buffer holds.
pub uninterp spec fn buffer_text(buffer: NumberBuffer) -> Seq<char>;

impl NumberBuffer {
    /// `ArrayString::new`: a buffer that holds the empty text.
    #[verifier::external_body]
    pub(crate) fn new() -> (buffer: NumberBuffer)
        ensures
            buffer_text(buffer) == Seq::<char>::empty(),
    {
        NumberBuffer { text: ArrayString::new() }
    }

    /// `ArrayString::try_push`: appends `c` if its UTF-8 encoding still
    /// fits behind the text, and says whether it did.  A character that
    /// does not fit leaves the text as it was.
    #[verifier::external_body]
    pub(crate) fn try_push(&mut self, c: char) -> (pushed: bool)
        ensures
            pushed == (encode_utf8(buffer_text(*old(self)).push(c)).len() <= BUFFER_CAPACITY),
            buffer_text(*final(self)) == if pushed {
                buffer_text(*old(self)).push(c)
            } else {
                buffer_text(*old(self))
            },
    {
        self.text.try_push(c).is_ok()
    }

    /// `ArrayString::as_str`: the text of the buffer as a string slice.
    #[verifier::external_body]
    pub(crate) fn as_str(&self) -> (text: &str)
        ensures
            text@ == buffer_text(*self),
    {
        self.text.as_str()
    }
}

} // verus!
