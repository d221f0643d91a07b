use vstd::prelude::*;

verus! {

/// A scanning error: the line on which it arose and a short fixed message.
#[derive(Debug, Clone)]
pub struct LoxError {
    pub line: usize,
    pub message: String,
}

impl LoxError {
    pub fn new(line: usize, message: String) -> (r: Self)
        ensures
            r.line == line,
            r.message@ == message@,
    {
        Self { line, message }
    }
}

} // verus!
