use vstd::prelude::*;

pub mod codec;
pub mod handlers;
pub mod item;
pub mod ordered;
pub mod principal;
pub mod store;

verus! {

/// The error kinds a handler can return.
///
/// `DuplicateKey`: `create` on a key already present.
/// `NotOwner`: `update` or `delete` by a caller that is not the recorded
/// owner, or on an absent key (the two are deliberately conflated).
/// `InvalidArgument`: a page number below one.
/// `Codec`: a record that does not fit the fixed maximum encoded size, or
/// bytes that are not a well-formed record.
#[derive(Clone, Copy, Debug, PartialEq, Eq, Structural)]
pub enum TodoError {
    DuplicateKey,
    NotOwner,
    InvalidArgument,
    Codec,
}

} // verus!
