//! The error type of the crate.

use vstd::prelude::*;
use vstd::std_specs::convert::IntoSpec;
use vstd::string::{StringExecFns, StringSliceAdditionalSpecFns};

verus! {

/// What can go wrong, with a payload that says more.
#[derive(Debug)]
pub enum IdxError<T> {
    /// The data has no items where some are needed, or two sequences that
    /// must agree in length do not.
    Size(T),
    /// Any other failure.
    Other(T),
}

/// The bytes of the kind name `size`.
pub open spec fn size_kind() -> Seq<u8> {
    seq![115u8, 105u8, 122u8, 101u8]
}

/// The bytes of the kind name `other`.
pub open spec fn other_kind() -> Seq<u8> {
    seq![111u8, 116u8, 104u8, 101u8, 114u8]
}

/// The message for a kind name that is not known.
pub open spec fn wrong_kind_message() -> Seq<char> {
    "Wrong error kind given to idx_error"@
}

/// What introduces the payload of a `Size` error in its message.
pub open spec fn size_prefix() -> Seq<char> {
    "Size of data must be positive: "@
}

/// What introduces the payload of an `Other` error in its message.
pub open spec fn other_prefix() -> Seq<char> {
    "Converted from: "@
}

impl<T> IdxError<T> {
    /// The payload of the error.
    pub fn payload(&self) -> (p: &T)
        ensures
            *p == match *self {
                IdxError::Size(x) => x,
                IdxError::Other(x) => x,
            },
    {
        match self {
            IdxError::Size(x) => x,
            IdxError::Other(x) => x,
        }
    }
}

impl IdxError<String> {
    /// The error as a line of text.
    pub fn message(&self) -> (m: String)
        ensures
            m@ == match *self {
                IdxError::Size(s) => size_prefix() + s@,
                IdxError::Other(s) => other_prefix() + s@,
            },
    {
        match self {
            IdxError::Size(s) => String::from_str("Size of data must be positive: ").concat(
                s.as_str(),
            ),
            IdxError::Other(s) => String::from_str("Converted from: ").concat(s.as_str()),
        }
    }
}

/// Whether the bytes of `kind` are those of `name`.
fn is_named(kind: &[u8], name: &[u8]) -> (r: bool)
    ensures
        r == (kind@ == name@),
{
    if kind.len() != name.len() {
        return false;
    }
    let n = kind.len();
    let mut i: usize = 0;
    while i < n
        invariant
            i <= n,
            n == kind@.len(),
            n == name@.len(),
            forall|k: int| 0 <= k < i ==> kind@[k] == name@[k],
        decreases n - i,
    {
        if kind[i] != name[i] {
            return false;
        }
        i += 1;
    }
    assert(kind@ =~= name@);
    true
}

/// Builds the error of the kind named `kind`, which is `size` or `other`,
/// around the message. A name that is neither gives an `Other` error that
/// says so.
pub fn idx_error<T, M: Into<String>>(kind: &str, msg: M) -> (r: Result<T, IdxError<String>>)
    ensures
        match r {
            Ok(_) => false,
            Err(IdxError::Size(m)) => kind.spec_bytes() == size_kind() && (M::obeys_into_spec()
                ==> m == msg.into_spec()),
            Err(IdxError::Other(m)) => kind.spec_bytes() != size_kind() && if kind.spec_bytes()
                == other_kind() {
                M::obeys_into_spec() ==> m == msg.into_spec()
            } else {
                m@ == wrong_kind_message()
            },
        },
{
    let size: [u8; 4] = [115, 105, 122, 101];
    let other: [u8; 5] = [111, 116, 104, 101, 114];
    assert(size@ =~= size_kind());
    assert(other@ =~= other_kind());
    let bytes = kind.as_bytes();
    if is_named(bytes, size.as_slice()) {
        Err(IdxError::Size(msg.into()))
    } else if is_named(bytes, other.as_slice()) {
        Err(IdxError::Other(msg.into()))
    } else {
        Err(IdxError::Other(String::from_str("Wrong error kind given to idx_error")))
    }
}

} // verus!
