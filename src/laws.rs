//! Laws that hold of every type with a wire encoding.

use vstd::prelude::*;
use crate::wire::{wrote_to, DecodeError, Encode, EncodeError};

verus! {

/// Round trip: after `encode` has written `x` at the start of a buffer,
/// decoding that buffer reads back a value whose model is the model of `x`,
/// from exactly the bytes written; whatever followed them is ignored.
pub proof fn lemma_encode_then_decode<'a, T: Encode<'a>>(
    x: T,
    before: Seq<u8>,
    after: Seq<u8>,
    n: usize,
)
    requires
        wrote_to(before, after, 0, T::spec_enc(x.deep_view()), Ok::<usize, EncodeError>(n)),
    ensures
        T::spec_parse(after) == Ok::<(<T as DeepView>::V, nat), DecodeError>(
            (x.deep_view(), n as nat),
        ),
{
    let e = T::spec_enc(x.deep_view());
    let rest = before.skip(n as int);
    assert(after =~= e + rest);
    T::lemma_round_trip(x, rest);
}

/// Size exactness: the number of bytes that `encode` reports having
/// written is the length of the encoding, which is what `size` returns.
pub proof fn lemma_encode_size<'a, T: Encode<'a>>(
    x: T,
    before: Seq<u8>,
    after: Seq<u8>,
    r: Result<usize, EncodeError>,
)
    requires
        wrote_to(before, after, 0, T::spec_enc(x.deep_view()), r),
    ensures
        r matches Ok(n) ==> n == T::spec_enc(x.deep_view()).len(),
{
}

/// Buffer too small: `encode` fails with `BufferTooSmall` exactly when the
/// buffer is shorter than the encoding; a buffer one byte shorter than
/// `size` always fails.
pub proof fn lemma_encode_short_buffer<'a, T: Encode<'a>>(
    x: T,
    before: Seq<u8>,
    after: Seq<u8>,
    r: Result<usize, EncodeError>,
)
    requires
        wrote_to(before, after, 0, T::spec_enc(x.deep_view()), r),
    ensures
        r == Err::<usize, EncodeError>(EncodeError::BufferTooSmall) <==> before.len() < T::spec_enc(
            x.deep_view(),
        ).len(),
        before.len() + 1 == T::spec_enc(x.deep_view()).len() ==> r == Err::<usize, EncodeError>(
            EncodeError::BufferTooSmall,
        ),
{
}

/// Truncation: a buffer holding only a strict prefix of the encoding of `x`
/// does not decode; it fails with `Truncated`.
pub proof fn lemma_prefix_does_not_decode<'a, T: Encode<'a>>(x: T, buf: Seq<u8>)
    requires
        T::spec_enc(x.deep_view()).len() <= usize::MAX,
        buf.len() < T::spec_enc(x.deep_view()).len(),
        buf == T::spec_enc(x.deep_view()).take(buf.len() as int),
    ensures
        T::spec_parse(buf) == Err::<(<T as DeepView>::V, nat), DecodeError>(
            DecodeError::Truncated,
        ),
{
    T::lemma_prefix_truncated(x, buf.len() as int);
}

} // verus!
