//! The protobuf wire format: varints, tags and the four value kinds in use.
pub mod reader;
pub mod wire;

pub use reader::{Field, Reader, Value, WireType};

use vstd::prelude::*;

verus! {

#[derive(Debug, Clone, PartialEq, Eq, Structural)]
pub enum Error {
    /// The buffer ended in the middle of a field.
    Truncated,
    /// A varint ran past ten bytes.
    VarintOverflow,
    /// A wire type that is not in use (groups, or a reserved number).
    UnsupportedWireType(u8),
}

impl Error {
    /// The message shown for an error; the wire type's number follows the last one.
    pub open spec fn prefix(self) -> Seq<char> {
        match self {
            Error::Truncated => "protobuf buffer truncated"@,
            Error::VarintOverflow => "protobuf varint exceeds 64 bits"@,
            Error::UnsupportedWireType(_) => "unsupported protobuf wire type "@,
        }
    }

    /// What an error says.
    pub fn message(&self) -> (s: String)
        ensures
            s@ == self.prefix() + match *self {
                Error::UnsupportedWireType(w) => crate::text::decimal(w as nat),
                _ => Seq::empty(),
            },
    {
        match self {
            Error::Truncated => {
                let s = "protobuf buffer truncated".to_owned();
                assert(s@ + Seq::<char>::empty() =~= s@);
                s
            },
            Error::VarintOverflow => {
                let s = "protobuf varint exceeds 64 bits".to_owned();
                assert(s@ + Seq::<char>::empty() =~= s@);
                s
            },
            Error::UnsupportedWireType(w) => {
                let mut s = "unsupported protobuf wire type ".to_owned();
                crate::text::push_decimal(&mut s, *w as u64);
                s
            },
        }
    }
}

pub type Result<T> = std::result::Result<T, Error>;

} // verus!
