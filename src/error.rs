use vstd::prelude::*;

verus! {

/// The ways in which a pool operation can fail. None of them changes the pool.
#[derive(Debug, Clone, Copy, PartialEq, Eq, Structural)]
pub enum RBError {
    /// The budget cannot hold the request, even after evicting every free buffer.
    NoBufferAvailable,
    /// The request exceeds the configured ceiling for one buffer.
    SizeTooBig,
    /// The handle does not name a buffer that is currently lent out.
    InvalidPointer,
}

impl RBError {
    /// The status code reported across the call boundary (success is 0).
    pub fn code(&self) -> (r: u8)
        ensures
            r == match *self {
                RBError::NoBufferAvailable => 1u8,
                RBError::SizeTooBig => 2u8,
                RBError::InvalidPointer => 3u8,
            },
    {
        match self {
            RBError::NoBufferAvailable => 1,
            RBError::SizeTooBig => 2,
            RBError::InvalidPointer => 3,
        }
    }

    /// A short human-readable description.
    pub fn as_str(&self) -> (r: &'static str)
        ensures
            r@ == match *self {
                RBError::NoBufferAvailable => "No Buffer Available"@,
                RBError::SizeTooBig => "Size Too Big"@,
                RBError::InvalidPointer => "Invalid Pointer"@,
            },
    {
        match self {
            RBError::NoBufferAvailable => "No Buffer Available",
            RBError::SizeTooBig => "Size Too Big",
            RBError::InvalidPointer => "Invalid Pointer",
        }
    }
}

} // verus!
