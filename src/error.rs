use vstd::prelude::*;

verus! {

/// The kinds of failure that evaluation can report.
#[derive(Debug, Clone, Copy, PartialEq, Eq, Structural)]
pub enum ErrorKind {
    /// A value is not of the variant that was expected.
    Type,
    /// A form got a number of arguments, or a list of a length, it cannot use.
    Arity,
    /// An index or a slice lies outside its list.
    Bounds,
    /// Integer arithmetic overflowed or divided by zero.
    Arithmetic,
    /// Reading, writing or serving failed.
    Io,
    /// The source text is not well formed.
    Parse,
    /// Evaluation nested deeper, or ran longer, than the interpreter allows.
    Limit,
}

/// A failure, with a message and the textual forms of the calls that it
/// passed through, innermost first.
#[derive(Debug)]
pub struct EvalError {
    pub kind: ErrorKind,
    pub message: String,
    pub notes: Vec<String>,
}

impl EvalError {
    pub fn new(kind: ErrorKind, message: &str) -> (r: EvalError)
        ensures
            r.kind == kind,
            r.message@ == message@,
            r.notes@.len() == 0,
    {
        EvalError { kind, message: message.to_string(), notes: Vec::new() }
    }

    /// Adds the textual form of a call that the failure passed through.
    pub fn note(self, text: String) -> (r: EvalError)
        ensures
            r.kind == self.kind,
            r.message@ == self.message@,
            r.notes@ == self.notes@.push(text),
    {
        let mut e = self;
        e.notes.push(text);
        e
    }
}

} // verus!
