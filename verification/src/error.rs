use vstd::prelude::*;

verus! {

/// The text that `{:?}` gives for a string: the string between double quotes,
/// with double quotes and backslashes escaped by a backslash, `\t`, `\r` and
/// `\n` written so, and other non-printable or grapheme-extending characters
/// written as `\u{..}` (single quotes are left as they are).
pub uninterp spec fn debug_text(s: Seq<char>) -> Seq<char>;

/// An error of the library, holding a human readable message.
#[derive(Debug, Clone)]
pub struct Error(pub String);

impl View for Error {
    type V = Seq<char>;

    open spec fn view(&self) -> Seq<char> {
        self.0@
    }
}

impl Error {
    /// Builds an error whose message is the `Debug` rendering of `e`.
    ///
    /// Trusted: calls `std::format!` with `{:?}` on `e`; the contract claims only
    /// that the message is `debug_text` of `e`, a function of `e` alone.
    #[verifier::external_body]
    fn new(e: &str) -> (r: Error)
        ensures
            r@ == debug_text(e@),
    {
        Self(format!("{:?}", e))
    }

    /// Always fails, with the error built from `e`.
    pub fn err<O>(e: &str) -> (r: Result<O, Error>)
        ensures
            r matches Err(x) && x@ == debug_text(e@),
    {
        Result::Err(Self::new(e))
    }
}

} // verus!
