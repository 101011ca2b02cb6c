//! The byte buffer of the `bytes` crate, `BytesMut`, as the encoder uses it.
//! Each function here makes one call into `bytes`; its contract is what that
//! crate's source and documentation show of the call, and is not proved.

use bytes::BytesMut;
use vstd::prelude::*;

verus! {

#[verifier::external_type_specification]
#[verifier::external_body]
pub struct ExBytesMut(BytesMut);

/// The bytes that a `BytesMut` holds, in order.
pub uninterp spec fn bytes_mut_contents(b: BytesMut) -> Seq<u8>;

/// Calls `BytesMut::with_capacity`, which gives a buffer that holds no bytes
/// (the capacity is room reserved, not contents). Asking for room beyond
/// `isize::MAX` bytes panics.
#[verifier::external_body]
pub(crate) fn bytes_mut_with_capacity(capacity: usize) -> (r: BytesMut)
    requires
        capacity <= isize::MAX,
    ensures
        bytes_mut_contents(r) == Seq::<u8>::empty(),
{
    BytesMut::with_capacity(capacity)
}

/// Calls `BytesMut::len`: the number of bytes held.
#[verifier::external_body]
pub(crate) fn bytes_mut_len(b: &BytesMut) -> (r: usize)
    ensures
        r == bytes_mut_contents(*b).len(),
{
    b.len()
}

/// Calls `BytesMut::reserve`, which makes room and leaves the bytes held as
/// they were. It panics when the capacity that it needs overflows, so the
/// bytes held and the room asked for stay within `isize::MAX`.
#[verifier::external_body]
pub(crate) fn bytes_mut_reserve(b: &mut BytesMut, additional: usize)
    requires
        bytes_mut_contents(*old(b)).len() + additional <= isize::MAX,
    ensures
        bytes_mut_contents(*final(b)) == bytes_mut_contents(*old(b)),
{
    b.reserve(additional)
}

/// Calls `BytesMut::extend_from_slice`, which appends the bytes of `extend`.
#[verifier::external_body]
pub(crate) fn bytes_mut_extend_from_slice(b: &mut BytesMut, extend: &[u8])
    requires
        bytes_mut_contents(*old(b)).len() + extend@.len() <= isize::MAX,
    ensures
        bytes_mut_contents(*final(b)) == bytes_mut_contents(*old(b)) + extend@,
{
    b.extend_from_slice(extend)
}

/// Calls `BytesMut::resize`: a longer buffer is filled up with `value`, a
/// shorter one is cut to `new_len` bytes.
#[verifier::external_body]
pub(crate) fn bytes_mut_resize(b: &mut BytesMut, new_len: usize, value: u8)
    requires
        new_len <= isize::MAX,
    ensures
        new_len >= bytes_mut_contents(*old(b)).len() ==> bytes_mut_contents(*final(b))
            == bytes_mut_contents(*old(b)) + Seq::new(
            (new_len - bytes_mut_contents(*old(b)).len()) as nat,
            |i: int| value,
        ),
        new_len < bytes_mut_contents(*old(b)).len() ==> bytes_mut_contents(*final(b))
            == bytes_mut_contents(*old(b)).subrange(0, new_len as int),
{
    b.resize(new_len, value)
}

/// Calls `<BytesMut as Extend<u8>>::extend` with the bytes of another
/// `BytesMut`, which appends them.
#[verifier::external_body]
pub(crate) fn bytes_mut_extend(b: &mut BytesMut, other: BytesMut)
    requires
        bytes_mut_contents(*old(b)).len() + bytes_mut_contents(other).len() <= isize::MAX,
    ensures
        bytes_mut_contents(*final(b)) == bytes_mut_contents(*old(b)) + bytes_mut_contents(other),
{
    b.extend(other)
}

} // verus!
