use vstd::prelude::*;
use vstd::string::StringExecFns;

verus! {

/// A command line that could not be understood: what went wrong, and the text
/// of the underlying error where there is one.
#[derive(Debug)]
pub struct ArgumentError {
    description: String,
    cause: Option<String>,
}

pub open spec fn text_of(s: Option<String>) -> Option<Seq<char>> {
    match s {
        Some(t) => Some(t@),
        None => None,
    }
}

impl ArgumentError {
    pub closed spec fn text(&self) -> Seq<char> {
        self.description@
    }

    pub closed spec fn cause_text(&self) -> Option<Seq<char>> {
        text_of(self.cause)
    }

    pub fn new(description: String, cause: Option<String>) -> (r: Self)
        ensures
            r.text() == description@,
            r.cause_text() == text_of(cause),
    {
        ArgumentError { description, cause }
    }

    pub fn description(&self) -> (r: &str)
        ensures
            r@ == self.text(),
    {
        self.description.as_str()
    }

    pub fn cause(&self) -> (r: Option<&String>)
        ensures
            match r {
                Some(c) => self.cause_text() == Some(c@),
                None => self.cause_text() is None,
            },
    {
        match &self.cause {
            Some(c) => Some(c),
            None => None,
        }
    }

    /// The short name under which the error shows itself.
    pub fn to_string(&self) -> (r: String)
        ensures
            r@ == "ArgumentError"@,
    {
        String::from_str("ArgumentError")
    }
}

} // verus!
