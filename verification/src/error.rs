//! The one error of the crate.

use vstd::prelude::*;
use vstd::string::*;

verus! {

/// A failure of the phonemization backend, with a message for the user.
#[derive(Debug, Clone)]
pub struct ESpeakError(pub String);

pub type ESpeakResult<T> = Result<T, ESpeakError>;

/// What every rendered error starts with.
pub open spec fn error_prefix() -> Seq<char> {
    "eSpeak-ng Error :"@
}

impl ESpeakError {
    /// The message as it is shown to the user: the prefix, then the message.
    pub fn to_string(&self) -> (text: String)
        ensures
            text@ == error_prefix() + self.0@,
    {
        let mut text = String::from_str("eSpeak-ng Error :");
        text.append(self.0.as_str());
        text
    }
}

} // verus!
