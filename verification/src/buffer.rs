//! The byte buffer of the `bytes` crate, as the line codec uses it.
//!
//! A `BytesMut` is opaque to the verifier; its contents are named by
//! `buffer_contents`, and each buffer operation the codec calls is a small
//! wrapper whose contract states, over that name, what the `bytes` source does.

use vstd::prelude::*;
use bytes::BytesMut;

verus! {

#[verifier::external_type_specification]
#[verifier::external_body]
pub struct ExBytesMut(BytesMut);

/// The bytes a `BytesMut` holds, first to last.
pub uninterp spec fn buffer_contents(buf: BytesMut) -> Seq<u8>;

/// `<BytesMut as AsRef<[u8]>>::as_ref`: the slice it hands out holds exactly
/// the bytes of the buffer, in order.
#[verifier::external_body]
pub(crate) fn buffer_as_slice(buf: &BytesMut) -> (bytes: &[u8])
    ensures
        bytes@ == buffer_contents(*buf),
{
    AsRef::<[u8]>::as_ref(buf)
}

/// `BytesMut::split_to`: the returned buffer holds the first `at` bytes and
/// the buffer keeps the rest; the method panics when `at` exceeds the length,
/// which `requires` rules out.
#[verifier::external_body]
pub(crate) fn buffer_split_to(buf: &mut BytesMut, at: usize) -> (head: BytesMut)
    requires
        at <= buffer_contents(*old(buf)).len(),
    ensures
        buffer_contents(head) == buffer_contents(*old(buf)).take(at as int),
        buffer_contents(*final(buf)) == buffer_contents(*old(buf)).skip(at as int),
{
    buf.split_to(at)
}

/// `BytesMut::extend_from_slice`: appends the slice; it first reserves room
/// for the new length, which panics past `isize::MAX` bytes, so `requires`
/// keeps the new length below that.
#[verifier::external_body]
pub(crate) fn buffer_extend_from_slice(buf: &mut BytesMut, tail: &[u8])
    requires
        buffer_contents(*old(buf)).len() + tail@.len() <= isize::MAX,
    ensures
        buffer_contents(*final(buf)) == buffer_contents(*old(buf)) + tail@,
{
    buf.extend_from_slice(tail)
}

/// `<BytesMut as Extend<&u8>>::extend` over a slice: reserves room for the
/// slice's length (the same limit as above) and appends its bytes in order.
#[verifier::external_body]
pub(crate) fn buffer_extend(buf: &mut BytesMut, tail: &[u8])
    requires
        buffer_contents(*old(buf)).len() + tail@.len() <= isize::MAX,
    ensures
        buffer_contents(*final(buf)) == buffer_contents(*old(buf)) + tail@,
{
    buf.extend(tail)
}

} // verus!
