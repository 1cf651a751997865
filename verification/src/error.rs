use vstd::prelude::*;

verus! {

/// Why decoding a byte buffer stopped.
#[derive(Debug, Clone, Copy, PartialEq, Eq, Structural)]
pub enum DecodeError {
    /// A fixed-size field ran past the end of the buffer.
    UnexpectedEof,
    /// A length field points past the end of the buffer that holds it.
    LengthOutOfRange,
    /// A prefix length needs more address bytes than the address family has.
    PrefixTooLong,
}

impl DecodeError {
    /// The two malformations that no well-formed MRT producer emits and that
    /// abort the whole analysis (as opposed to a truncated field, which only
    /// drops the record).
    pub open spec fn spec_is_fatal(&self) -> bool {
        self !is UnexpectedEof
    }

    /// Whether this error aborts the analysis rather than dropping the record.
    #[verifier::when_used_as_spec(spec_is_fatal)]
    pub fn is_fatal(&self) -> (r: bool)
        ensures
            r == self.spec_is_fatal(),
    {
        match self {
            DecodeError::UnexpectedEof => false,
            _ => true,
        }
    }
}

} // verus!
