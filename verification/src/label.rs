//! Turning strings and byte iterators into node labels.
use vstd::prelude::*;

verus! {

/// A value that can be turned into the label of a node.
pub trait IntoLabel<T> where T: Ord {
    /// The label that this value stands for.
    fn into_label(&self) -> Box<[T]>;
}

/// Calls `Vec::into_boxed_slice`, which hands back the same elements in the
/// same order as a boxed slice.
#[verifier::external_body]
fn boxed_label(bytes: Vec<u8>) -> (label: Box<[u8]>)
    ensures
        label@ == bytes@,
{
    bytes.into_boxed_slice()
}

/// The bytes that a `std::str::Bytes` iterator has not yielded yet, in order.
pub uninterp spec fn bytes_left(bytes: std::str::Bytes<'_>) -> Seq<u8>;

/// Calls `Clone::clone` on a `std::str::Bytes` iterator; the copy has the same
/// bytes left to yield as the original.
#[verifier::external_body]
fn copy_bytes<'a>(bytes: &std::str::Bytes<'a>) -> (copy: std::str::Bytes<'a>)
    ensures
        bytes_left(copy) == bytes_left(*bytes),
{
    bytes.clone()
}

/// Calls `Iterator::collect` on a `std::str::Bytes` iterator, which gathers the
/// bytes that it has not yielded yet, in order.
#[verifier::external_body]
fn collect_bytes(bytes: std::str::Bytes<'_>) -> (collected: Vec<u8>)
    ensures
        collected@ == bytes_left(bytes),
{
    bytes.collect()
}

#[verifier::external_type_specification]
#[verifier::external_body]
pub struct ExBytes<'a>(std::str::Bytes<'a>);

impl IntoLabel<u8> for &str {
    /// The UTF-8 bytes of the string.
    fn into_label(&self) -> (label: Box<[u8]>)
        ensures
            label@ == vstd::utf8::encode_utf8(self@),
    {
        boxed_label(vstd::slice::slice_to_vec(self.as_bytes()))
    }
}

impl IntoLabel<u8> for String {
    /// The UTF-8 bytes of the string.
    fn into_label(&self) -> (label: Box<[u8]>)
        ensures
            label@ == vstd::utf8::encode_utf8(self@),
    {
        boxed_label(vstd::slice::slice_to_vec(self.as_str().as_bytes()))
    }
}

impl IntoLabel<u8> for std::str::Bytes<'_> {
    /// The bytes that the iterator has not yielded yet.
    fn into_label(&self) -> (label: Box<[u8]>)
        ensures
            label@ == bytes_left(*self),
    {
        boxed_label(collect_bytes(copy_bytes(self)))
    }
}

} // verus!
