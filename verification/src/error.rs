//! The one recoverable failure of this library: a byte region that is not
//! an encoded column.

use vstd::prelude::*;

verus! {

/// Why a byte region was refused when a reader was opened on it.
#[derive(Clone, Copy, Debug, PartialEq, Eq, Structural)]
pub enum DataCorruption {
    /// The framing is malformed or truncated: the region ends before the
    /// data that its header announces, or a header field holds a value
    /// that no encoder writes.
    MalformedFraming,
    /// The tag names no codec.
    UnknownCodec,
    /// A GCD record wraps another GCD record.
    NestedGcd,
}

impl DataCorruption {
    /// The diagnostic that `comment` returns.
    pub open spec fn spec_comment(self) -> Seq<char> {
        match self {
            DataCorruption::MalformedFraming => "Fast field framing is malformed or truncated"@,
            DataCorruption::UnknownCodec => "Unknown fast field codec"@,
            DataCorruption::NestedGcd => "Gcd wrapped in Gcd is not allowed"@,
        }
    }

    /// A human-readable diagnostic.
    pub fn comment(&self) -> (s: String)
        ensures
            s@ == self.spec_comment(),
    {
        match self {
            DataCorruption::MalformedFraming => "Fast field framing is malformed or truncated".to_string(),
            DataCorruption::UnknownCodec => "Unknown fast field codec".to_string(),
            DataCorruption::NestedGcd => "Gcd wrapped in Gcd is not allowed".to_string(),
        }
    }
}

} // verus!
