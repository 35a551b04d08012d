use vstd::prelude::*;

verus! {

/// Why an encode or decode call produced nothing.
#[derive(Clone, Copy, Debug, PartialEq, Eq, Structural)]
pub enum CodecError {
    /// A buffer handed in by the caller is shorter than the declared number
    /// of values needs.
    BufferTooSmall,
}

impl CodecError {
    /// A short description of the error.
    pub fn message(&self) -> (text: String)
        ensures
            text@ == "buffer too small"@,
    {
        match self {
            CodecError::BufferTooSmall => "buffer too small".to_string(),
        }
    }
}

} // verus!
