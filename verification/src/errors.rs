use vstd::prelude::*;

verus! {

/// The library's error type: a single human-readable message.
///
/// Error kinds are distinguished only through their messages; callers
/// either print the message or test for failure.
#[derive(Debug)]
pub struct Error {
    message: String,
}

impl View for Error {
    type V = Seq<char>;

    closed spec fn view(&self) -> Seq<char> {
        self.message@
    }
}

impl Error {
    /// Wrap a message in an `Error`.
    pub fn new(message: String) -> (r: Error)
        ensures
            r@ == message@,
    {
        Error { message }
    }

    /// The error's message.
    pub fn message(&self) -> (r: &String)
        ensures
            r@ == self@,
    {
        &self.message
    }
}

} // verus!
