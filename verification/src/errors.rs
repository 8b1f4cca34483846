use vstd::prelude::*;

verus! {

/// An error raised when recipe text violates the grammar. Carries a
/// human-readable message and, when raised while loading a file, the
/// offending file's path.
#[derive(Debug)]
pub struct ParseError {
    pub message: String,
    pub path: Option<String>,
}

pub type ParseResult<T> = Result<T, ParseError>;

impl ParseError {
    /// An error for a required field that turned out empty.
    pub fn empty(name: &str) -> (r: Self)
        ensures
            r.path is None,
    {
        let mut message = String::new();
        message.append(name);
        message.append(" must contain non-whitespace characters");
        ParseError { message, path: None }
    }

    /// A plain message without a path.
    pub fn msg(text: &str) -> (r: Self)
        ensures
            r.path is None,
    {
        ParseError { message: text.to_owned(), path: None }
    }

    /// Tags the error with the path of the file it came from.
    pub fn set_path(&mut self, path: &str)
        ensures
            final(self).path matches Some(p) && p@ == path@,
            final(self).message == old(self).message,
    {
        self.path = Some(path.to_owned());
    }
}

} // verus!
