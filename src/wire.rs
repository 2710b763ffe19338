//! The wire format: the encoding of each primitive, as postcard writes and
//! reads it, and the `Encode` contract that every serializable type meets.
//!
//! Integers are LEB128 varints (signed ones zig-zag mapped first), `u8` and
//! `bool` are one raw byte, strings and byte slices are a varint length
//! followed by their bytes, sequences are a varint count followed by their
//! items, fixed arrays and structs are their items back to back, and tagged
//! unions are a varint variant index followed by the variant's fields.

use vstd::prelude::*;
use vstd::string::StringSliceAdditionalSpecFns;
use vstd::utf8::{decode_utf8, encode_utf8, valid_utf8};

verus! {

/// Encoding failed.
#[derive(Clone, Copy, Debug, PartialEq, Eq, Structural)]
pub enum EncodeError {
    /// The buffer is shorter than the encoding.
    BufferTooSmall,
}

/// Decoding failed.
#[derive(Clone, Copy, Debug, PartialEq, Eq, Structural)]
pub enum DecodeError {
    /// The buffer ended before a field was fully read.
    Truncated,
    /// A tagged union's discriminant names no variant.
    InvalidVariant,
    /// A field's bytes are not a valid encoding: an over-long varint, a
    /// boolean or option tag other than 0 or 1, or text that is not UTF-8.
    Malformed,
}

/// The LEB128 encoding of `n`: seven bits per byte, least significant
/// first, the high bit set on every byte but the last.
pub open spec fn leb(n: nat) -> Seq<u8>
    decreases n,
{
    if n < 128 {
        seq![n as u8]
    } else {
        seq![(n % 128 + 128) as u8] + leb(n / 128)
    }
}

/// One more than the largest value that a varint of at most `max` bytes,
/// whose last byte is at most `last`, can hold.
pub open spec fn leb_cap(max: nat, last: nat) -> nat
    decreases max,
{
    if max <= 1 {
        last + 1
    } else {
        128 * leb_cap((max - 1) as nat, last)
    }
}

/// What reading a varint of at most `max` bytes, whose last possible byte
/// is at most `last`, makes of the front of `s`: the value and the number
/// of bytes read.
pub open spec fn leb_take(s: Seq<u8>, max: nat, last: nat) -> Result<(nat, nat), DecodeError>
    decreases max,
{
    if max == 0 {
        Err(DecodeError::Malformed)
    } else if s.len() == 0 {
        Err(DecodeError::Truncated)
    } else if s[0] < 128 {
        if max == 1 && s[0] > last {
            Err(DecodeError::Malformed)
        } else {
            Ok((s[0] as nat, 1))
        }
    } else {
        match leb_take(s.drop_first(), (max - 1) as nat, last) {
            Ok((v, k)) => Ok(((s[0] - 128) as nat + 128 * v, k + 1)),
            Err(e) => Err(e),
        }
    }
}

pub proof fn lemma_leb_round_trip(n: nat, max: nat, last: nat, rest: Seq<u8>)
    requires
        max >= 1,
        last < 128,
        n < leb_cap(max, last),
    ensures
        leb_take(leb(n) + rest, max, last) == Ok::<(nat, nat), DecodeError>((n, leb(n).len())),
        1 <= leb(n).len() <= max,
    decreases n,
{
    let s = leb(n) + rest;
    if n < 128 {
        assert(s[0] == n as u8);
    } else {
        if max == 1 {
            assert(false);
        }
        let c = leb_cap((max - 1) as nat, last);
        assert(n / 128 < c) by (nonlinear_arith)
            requires
                n < 128 * c,
        ;
        lemma_leb_round_trip(n / 128, (max - 1) as nat, last, rest);
        assert(s.drop_first() =~= leb(n / 128) + rest);
        assert(s[0] == (n % 128 + 128) as u8);
    }
}

pub proof fn lemma_leb_caps()
    ensures
        leb_cap(3, 3) == 0x1_0000,
        leb_cap(5, 15) == 0x1_0000_0000,
        leb_cap(10, 1) == 0x1_0000_0000_0000_0000,
{
    reveal_with_fuel(leb_cap, 11);
}

proof fn lemma_leb_cap_pos(max: nat, last: nat)
    ensures
        leb_cap(max, last) >= 1,
        max >= 2 ==> leb_cap(max, last) >= 128,
    decreases max,
{
    if max >= 2 {
        lemma_leb_cap_pos((max - 1) as nat, last);
    }
}

/// A varint that reads successfully is below the cap and takes between one
/// and `max` of the available bytes.
pub proof fn lemma_leb_take_bounds(s: Seq<u8>, max: nat, last: nat)
    requires
        last < 128,
    ensures
        leb_take(s, max, last) matches Ok((v, k)) ==> v < leb_cap(max, last) && 1 <= k <= max
            && k <= s.len(),
    decreases max,
{
    lemma_leb_cap_pos(max, last);
    if max > 0 && s.len() > 0 && s[0] >= 128 {
        lemma_leb_take_bounds(s.drop_first(), (max - 1) as nat, last);
        if let Ok((v, k)) = leb_take(s.drop_first(), (max - 1) as nat, last) {
            let c = leb_cap((max - 1) as nat, last);
            let b = (s[0] - 128) as nat;
            assert(b + 128 * v < 128 * c) by (nonlinear_arith)
                requires
                    b < 128,
                    v < c,
            ;
        }
    }
}

/// Reading a strict prefix of a varint runs out of bytes.
pub proof fn lemma_leb_prefix(n: nat, max: nat, last: nat, k: int)
    requires
        max >= 1,
        last < 128,
        n < leb_cap(max, last),
        0 <= k < leb(n).len(),
    ensures
        leb_take(leb(n).take(k), max, last) == Err::<(nat, nat), DecodeError>(DecodeError::Truncated),
    decreases n,
{
    let s = leb(n).take(k);
    if k == 0 {
        assert(s.len() == 0);
    } else {
        if n < 128 {
            assert(false);
        }
        if max == 1 {
            assert(false);
        }
        let c = leb_cap((max - 1) as nat, last);
        assert(n / 128 < c) by (nonlinear_arith)
            requires
                n < 128 * c,
        ;
        lemma_leb_prefix(n / 128, (max - 1) as nat, last, k - 1);
        assert(s.drop_first() =~= leb(n / 128).take(k - 1));
        assert(s[0] == (n % 128 + 128) as u8);
    }
}

/// A prefix of two encodings back to back.
pub proof fn lemma_take_split(e: Seq<u8>, x: Seq<u8>, k: int)
    requires
        0 <= k <= e.len() + x.len(),
    ensures
        k < e.len() ==> (e + x).take(k) == e.take(k),
        k >= e.len() ==> (e + x).take(k) == e + x.take(k - e.len()),
        k >= e.len() ==> (e + x.take(k - e.len())).skip(e.len() as int) == x.take(k - e.len()),
{
    if k < e.len() {
        assert((e + x).take(k) =~= e.take(k));
    } else {
        assert((e + x).take(k) =~= e + x.take(k - e.len()));
        assert((e + x.take(k - e.len())).skip(e.len() as int) =~= x.take(k - e.len()));
    }
}

/// The number of bytes in the varint encoding of `n`.
pub fn leb_len(n: u64) -> (r: usize)
    ensures
        r == leb(n as nat).len(),
        1 <= r <= 10,
{
    proof {
        lemma_leb_caps();
        lemma_leb_round_trip(n as nat, 10, 1, Seq::empty());
    }
    let mut m: u64 = n;
    let mut count: usize = 1;
    while m >= 128
        invariant
            leb(n as nat).len() == (count - 1) + leb(m as nat).len(),
            1 <= count <= leb(n as nat).len(),
            leb(n as nat).len() <= 10,
        decreases m,
    {
        assert(leb((m / 128) as nat).len() >= 1);
        m = m / 128;
        count = count + 1;
    }
    count
}

/// `new` is `old` with `bytes` written at `pos`, and `r` reports the count
/// written; or `r` reports that `bytes` did not fit.
pub open spec fn wrote(
    old: Seq<u8>,
    new: Seq<u8>,
    pos: int,
    bytes: Seq<u8>,
    r: Result<usize, EncodeError>,
) -> bool {
    &&& new.len() == old.len()
    &&& match r {
        Ok(n) => n == bytes.len() && pos + n <= old.len() && new == old.take(pos) + bytes + old.skip(
            pos + n,
        ),
        Err(e) => e == EncodeError::BufferTooSmall && pos + bytes.len() > old.len(),
    }
}

/// `new` is `old` with `bytes` written at `pos`, and `r` is the position
/// just past them; or `r` reports that `bytes` did not fit.
pub open spec fn wrote_to(
    old: Seq<u8>,
    new: Seq<u8>,
    pos: int,
    bytes: Seq<u8>,
    r: Result<usize, EncodeError>,
) -> bool {
    &&& new.len() == old.len()
    &&& match r {
        Ok(end) => end == pos + bytes.len() && end <= old.len() && new == old.take(pos) + bytes
            + old.skip(end as int),
        Err(e) => e == EncodeError::BufferTooSmall && pos + bytes.len() > old.len(),
    }
}

/// Reading past the first of two encodings leaves the second, then the rest.
pub proof fn lemma_split_step(e: Seq<u8>, x: Seq<u8>, rest: Seq<u8>)
    ensures
        (e + x) + rest == e + (x + rest),
        (e + (x + rest)).skip(e.len() as int) == x + rest,
{
    assert((e + x) + rest =~= e + (x + rest));
    assert((e + (x + rest)).skip(e.len() as int) =~= x + rest);
}

/// Skipping `a` bytes, then up to `b`, is skipping `b`.
pub proof fn lemma_skip_skip(s: Seq<u8>, a: int, b: int)
    requires
        0 <= a <= b <= s.len(),
    ensures
        s.skip(a).skip(b - a) == s.skip(b),
{
    assert(s.skip(a).skip(b - a) =~= s.skip(b));
}

/// Two writes in a row make one write of both encodings.
pub proof fn lemma_wrote_then(
    b0: Seq<u8>,
    b1: Seq<u8>,
    b2: Seq<u8>,
    p0: int,
    e1: Seq<u8>,
    e2: Seq<u8>,
    p1: usize,
    p2: usize,
)
    requires
        wrote_to(b0, b1, p0, e1, Ok::<usize, EncodeError>(p1)),
        wrote_to(b1, b2, p1 as int, e2, Ok::<usize, EncodeError>(p2)),
    ensures
        wrote_to(b0, b2, p0, e1 + e2, Ok::<usize, EncodeError>(p2)),
{
    assert(b1.take(p1 as int) =~= b0.take(p0) + e1);
    assert(b1.skip(p2 as int) =~= b0.skip(p2 as int));
    assert(b2 =~= b0.take(p0) + (e1 + e2) + b0.skip(p2 as int));
}

/// `r` reports what `p` says of the front of `s`, counting the bytes that
/// were left over rather than those that were read.
pub open spec fn took<T>(
    s: Seq<u8>,
    r: Result<(T, usize), DecodeError>,
    p: Result<(T, nat), DecodeError>,
) -> bool {
    match r {
        Ok((v, rest)) => rest <= s.len() && p == Ok::<(T, nat), DecodeError>(
            (v, (s.len() - rest) as nat),
        ),
        Err(e) => p == Err::<(T, nat), DecodeError>(e),
    }
}

/// A type with a wire encoding.
///
/// A value's encoding is `spec_enc` of its model (its deep view);
/// `spec_parse` says what decoding makes of the front of a byte sequence.
/// Decoding the encoding of a value gives that value back.
pub trait Encode<'a>: Sized + DeepView {
    spec fn spec_enc(v: <Self as DeepView>::V) -> Seq<u8>;

    spec fn spec_parse(s: Seq<u8>) -> Result<(<Self as DeepView>::V, nat), DecodeError>;

    /// Decoding the encoding of `x`, followed by anything, gives `x` back
    /// and reads exactly the encoding.
    proof fn lemma_round_trip(x: Self, rest: Seq<u8>)
        requires
            Self::spec_enc(x.deep_view()).len() <= usize::MAX,
        ensures
            Self::spec_parse(Self::spec_enc(x.deep_view()) + rest) == Ok::<
                (<Self as DeepView>::V, nat),
                DecodeError,
            >((x.deep_view(), Self::spec_enc(x.deep_view()).len())),
            Self::spec_enc(x.deep_view()).len() >= 1,
    ;

    /// Decoding a strict prefix of the encoding of `x` fails: the bytes end
    /// before a field is fully read.
    proof fn lemma_prefix_truncated(x: Self, k: int)
        requires
            Self::spec_enc(x.deep_view()).len() <= usize::MAX,
            0 <= k < Self::spec_enc(x.deep_view()).len(),
        ensures
            Self::spec_parse(Self::spec_enc(x.deep_view()).take(k)) == Err::<
                (<Self as DeepView>::V, nat),
                DecodeError,
            >(DecodeError::Truncated),
    ;

    /// The exact number of bytes that the encoding of `self` takes.
    fn size(&self) -> (r: usize)
        requires
            Self::spec_enc(self.deep_view()).len() <= usize::MAX,
        ensures
            r == Self::spec_enc(self.deep_view()).len(),
    ;

    /// Writes the encoding of `self` into `buf` at `pos`, and returns the
    /// position just past it.
    fn encode_at(&self, buf: &mut [u8], pos: usize) -> (r: Result<usize, EncodeError>)
        requires
            pos <= old(buf)@.len(),
        ensures
            wrote_to(old(buf)@, final(buf)@, pos as int, Self::spec_enc(self.deep_view()), r),
    ;

    /// Reads a value from `buf` at `pos`, and returns it with the position
    /// just past its encoding.
    fn decode_at(buf: &'a [u8], pos: usize) -> (r: Result<(Self, usize), DecodeError>)
        requires
            pos <= buf@.len(),
        ensures
            match r {
                Ok((v, end)) => pos <= end <= buf@.len() && Self::spec_parse(buf@.skip(pos as int))
                    == Ok::<(<Self as DeepView>::V, nat), DecodeError>((v.deep_view(), (end - pos) as nat)),
                Err(e) => Self::spec_parse(buf@.skip(pos as int)) == Err::<
                    (<Self as DeepView>::V, nat),
                    DecodeError,
                >(e),
            },
    ;
    /// Writes the encoding of `self` at the start of `buf`, and returns the
    /// number of bytes written; fails when `buf` is shorter than `size`.
    fn encode(&self, buf: &mut [u8]) -> (r: Result<usize, EncodeError>)
        ensures
            wrote_to(old(buf)@, final(buf)@, 0, Self::spec_enc(self.deep_view()), r),
    {
        self.encode_at(buf, 0)
    }

    /// Reads a value from the start of `buf`; bytes after it are ignored.
    fn decode(buf: &'a [u8]) -> (r: Result<Self, DecodeError>)
        ensures
            match r {
                Ok(v) => Self::spec_parse(buf@) matches Ok((m, _)) && m == v.deep_view(),
                Err(e) => Self::spec_parse(buf@) == Err::<(<Self as DeepView>::V, nat), DecodeError>(
                    e,
                ),
            },
    {
        proof {
            assert(buf@.skip(0) =~= buf@);
        }
        match Self::decode_at(buf, 0) {
            Ok((v, _)) => Ok(v),
            Err(e) => Err(e),
        }
    }
}

pub proof fn lemma_usize_width()
    ensures
        usize::MAX == 0xffff_ffff || usize::MAX == 0xffff_ffff_ffff_ffff,
{
}

/// The zig-zag map from signed to unsigned: 0, -1, 1, -2, ... to 0, 1, 2, 3, ...
pub open spec fn zigzag(v: int) -> nat {
    if v >= 0 {
        (2 * v) as nat
    } else {
        (-2 * v - 1) as nat
    }
}

/// The inverse of `zigzag`.
pub open spec fn unzigzag(u: nat) -> int {
    if u % 2 == 0 {
        (u / 2) as int
    } else {
        -((u + 1) / 2)
    }
}

fn zigzag_exec(v: i32) -> (r: u64)
    ensures
        r == zigzag(v as int),
{
    if v >= 0 {
        (v as u64) * 2
    } else {
        ((-(v as i64)) as u64) * 2 - 1
    }
}

/// What decoding a `u8` makes of the front of `s`.
pub open spec fn parse_u8(s: Seq<u8>) -> Result<(u8, nat), DecodeError> {
    if s.len() == 0 {
        Err(DecodeError::Truncated)
    } else {
        Ok((s[0], 1))
    }
}

/// What decoding a `bool` makes of the front of `s`.
pub open spec fn parse_bool(s: Seq<u8>) -> Result<(bool, nat), DecodeError> {
    if s.len() == 0 {
        Err(DecodeError::Truncated)
    } else if s[0] == 0 {
        Ok((false, 1))
    } else if s[0] == 1 {
        Ok((true, 1))
    } else {
        Err(DecodeError::Malformed)
    }
}

/// What decoding a `u16` makes of the front of `s`.
pub open spec fn parse_u16(s: Seq<u8>) -> Result<(u16, nat), DecodeError> {
    match leb_take(s, 3, 3) {
        Ok((v, k)) => Ok((v as u16, k)),
        Err(e) => Err(e),
    }
}

/// What decoding a `u32` makes of the front of `s`.
pub open spec fn parse_u32(s: Seq<u8>) -> Result<(u32, nat), DecodeError> {
    match leb_take(s, 5, 15) {
        Ok((v, k)) => Ok((v as u32, k)),
        Err(e) => Err(e),
    }
}

/// What decoding an `i16` makes of the front of `s`.
pub open spec fn parse_i16(s: Seq<u8>) -> Result<(i16, nat), DecodeError> {
    match leb_take(s, 3, 3) {
        Ok((v, k)) => Ok((unzigzag(v) as i16, k)),
        Err(e) => Err(e),
    }
}

/// What decoding an `i32` makes of the front of `s`.
pub open spec fn parse_i32(s: Seq<u8>) -> Result<(i32, nat), DecodeError> {
    match leb_take(s, 5, 15) {
        Ok((v, k)) => Ok((unzigzag(v) as i32, k)),
        Err(e) => Err(e),
    }
}

/// What decoding a `usize` makes of the front of `s`: a 64-bit varint
/// that must fit the platform's `usize`.
pub open spec fn parse_usize(s: Seq<u8>) -> Result<(usize, nat), DecodeError> {
    match leb_take(s, 10, 1) {
        Ok((v, k)) => if v > usize::MAX {
            Err(DecodeError::Malformed)
        } else {
            Ok((v as usize, k))
        },
        Err(e) => Err(e),
    }
}

/// What reading the length prefix of a string or byte slice makes of the
/// front of `s`: a varint as wide as the platform's `usize`.
pub open spec fn len_take(s: Seq<u8>) -> Result<(nat, nat), DecodeError> {
    if usize::MAX == 0xffff_ffff {
        leb_take(s, 5, 15)
    } else {
        leb_take(s, 10, 1)
    }
}

/// The encoding of a byte slice: its length, then its bytes.
pub open spec fn enc_bytes(b: Seq<u8>) -> Seq<u8> {
    leb(b.len()) + b
}

/// The encoding of text: the length of its UTF-8 bytes, then those bytes.
pub open spec fn enc_text(c: Seq<char>) -> Seq<u8> {
    enc_bytes(encode_utf8(c))
}

/// What decoding a byte slice makes of the front of `s`.
pub open spec fn parse_bytes(s: Seq<u8>) -> Result<(Seq<u8>, nat), DecodeError> {
    match len_take(s) {
        Ok((n, k)) => if k + n > s.len() {
            Err(DecodeError::Truncated)
        } else {
            Ok((s.subrange(k as int, (k + n) as int), k + n))
        },
        Err(e) => Err(e),
    }
}

/// What decoding text makes of the front of `s`.
pub open spec fn parse_text(s: Seq<u8>) -> Result<(Seq<char>, nat), DecodeError> {
    match parse_bytes(s) {
        Ok((b, k)) => if valid_utf8(b) {
            Ok((decode_utf8(b), k))
        } else {
            Err(DecodeError::Malformed)
        },
        Err(e) => Err(e),
    }
}

proof fn lemma_bytes_round_trip(b: Seq<u8>, rest: Seq<u8>)
    requires
        enc_bytes(b).len() <= usize::MAX,
    ensures
        parse_bytes(enc_bytes(b) + rest) == Ok::<(Seq<u8>, nat), DecodeError>(
            (b, enc_bytes(b).len()),
        ),
{
    lemma_usize_width();
    lemma_leb_caps();
    let s = enc_bytes(b) + rest;
    assert(s =~= leb(b.len()) + (b + rest));
    if usize::MAX == 0xffff_ffff {
        lemma_leb_round_trip(b.len(), 5, 15, b + rest);
    } else {
        lemma_leb_round_trip(b.len(), 10, 1, b + rest);
    }
    let k = leb(b.len()).len();
    assert(s.subrange(k as int, (k + b.len()) as int) =~= b);
}

proof fn lemma_text_round_trip(c: Seq<char>, rest: Seq<u8>)
    requires
        enc_text(c).len() <= usize::MAX,
    ensures
        parse_text(enc_text(c) + rest) == Ok::<(Seq<char>, nat), DecodeError>(
            (c, enc_text(c).len()),
        ),
{
    lemma_bytes_round_trip(encode_utf8(c), rest);
    vstd::utf8::encode_utf8_valid_utf8(c);
    vstd::utf8::encode_utf8_decode_utf8(c);
}

proof fn lemma_bytes_prefix(b: Seq<u8>, k: int)
    requires
        enc_bytes(b).len() <= usize::MAX,
        0 <= k < enc_bytes(b).len(),
    ensures
        parse_bytes(enc_bytes(b).take(k)) == Err::<(Seq<u8>, nat), DecodeError>(
            DecodeError::Truncated,
        ),
{
    lemma_usize_width();
    lemma_leb_caps();
    let l = leb(b.len());
    lemma_take_split(l, b, k);
    if k < l.len() {
        if usize::MAX == 0xffff_ffff {
            lemma_leb_prefix(b.len(), 5, 15, k);
        } else {
            lemma_leb_prefix(b.len(), 10, 1, k);
        }
    } else {
        let r = b.take(k - l.len());
        if usize::MAX == 0xffff_ffff {
            lemma_leb_round_trip(b.len(), 5, 15, r);
        } else {
            lemma_leb_round_trip(b.len(), 10, 1, r);
        }
    }
}

proof fn lemma_text_prefix(c: Seq<char>, k: int)
    requires
        enc_text(c).len() <= usize::MAX,
        0 <= k < enc_text(c).len(),
    ensures
        parse_text(enc_text(c).take(k)) == Err::<(Seq<char>, nat), DecodeError>(
            DecodeError::Truncated,
        ),
{
    lemma_bytes_prefix(encode_utf8(c), k);
}

/// Relies on postcard::to_slice on a `u8`: it writes the byte itself.
#[verifier::external_body]
fn put_u8(v: u8, buf: &mut [u8], pos: usize) -> (r: Result<usize, EncodeError>)
    requires
        pos <= old(buf)@.len(),
    ensures
        wrote(old(buf)@, final(buf)@, pos as int, seq![v], r),
{
    match postcard::to_slice(&v, &mut buf[pos..]) {
        Ok(w) => Ok(w.len()),
        Err(_) => Err(EncodeError::BufferTooSmall),
    }
}

/// Relies on postcard::take_from_bytes for a `u8`: it reads one byte.
#[verifier::external_body]
fn take_u8(buf: &[u8], pos: usize) -> (r: Result<(u8, usize), DecodeError>)
    requires
        pos <= buf@.len(),
    ensures
        took(buf@.skip(pos as int), r, parse_u8(buf@.skip(pos as int))),
{
    match postcard::take_from_bytes::<u8>(&buf[pos..]) {
        Ok((v, rest)) => Ok((v, rest.len())),
        Err(postcard::Error::DeserializeUnexpectedEnd) => Err(DecodeError::Truncated),
        Err(_) => Err(DecodeError::Malformed),
    }
}

/// Relies on postcard::to_slice on a `bool`: it writes one byte, 1 or 0.
#[verifier::external_body]
fn put_bool(v: bool, buf: &mut [u8], pos: usize) -> (r: Result<usize, EncodeError>)
    requires
        pos <= old(buf)@.len(),
    ensures
        wrote(old(buf)@, final(buf)@, pos as int, seq![if v { 1u8 } else { 0u8 }], r),
{
    match postcard::to_slice(&v, &mut buf[pos..]) {
        Ok(w) => Ok(w.len()),
        Err(_) => Err(EncodeError::BufferTooSmall),
    }
}

/// Relies on postcard::take_from_bytes for a `bool`: it reads one byte,
/// which must be 0 or 1.
#[verifier::external_body]
fn take_bool(buf: &[u8], pos: usize) -> (r: Result<(bool, usize), DecodeError>)
    requires
        pos <= buf@.len(),
    ensures
        took(buf@.skip(pos as int), r, parse_bool(buf@.skip(pos as int))),
{
    match postcard::take_from_bytes::<bool>(&buf[pos..]) {
        Ok((v, rest)) => Ok((v, rest.len())),
        Err(postcard::Error::DeserializeUnexpectedEnd) => Err(DecodeError::Truncated),
        Err(_) => Err(DecodeError::Malformed),
    }
}

/// Relies on postcard::to_slice on a `u16`: it writes the value's varint at
/// the front of the slice, or fails when the slice is too short for it.
#[verifier::external_body]
fn put_u16(v: u16, buf: &mut [u8], pos: usize) -> (r: Result<usize, EncodeError>)
    requires
        pos <= old(buf)@.len(),
    ensures
        wrote(old(buf)@, final(buf)@, pos as int, leb(v as nat), r),
{
    match postcard::to_slice(&v, &mut buf[pos..]) {
        Ok(w) => Ok(w.len()),
        Err(_) => Err(EncodeError::BufferTooSmall),
    }
}

/// Relies on postcard::take_from_bytes for a `u16`: it reads a varint of at
/// most three bytes, the third at most 3, and returns the unread rest.
#[verifier::external_body]
fn take_u16(buf: &[u8], pos: usize) -> (r: Result<(u16, usize), DecodeError>)
    requires
        pos <= buf@.len(),
    ensures
        took(buf@.skip(pos as int), r, parse_u16(buf@.skip(pos as int))),
{
    match postcard::take_from_bytes::<u16>(&buf[pos..]) {
        Ok((v, rest)) => Ok((v, rest.len())),
        Err(postcard::Error::DeserializeUnexpectedEnd) => Err(DecodeError::Truncated),
        Err(_) => Err(DecodeError::Malformed),
    }
}

/// Relies on postcard::to_slice on a `u32`: it writes the value's varint.
#[verifier::external_body]
fn put_u32(v: u32, buf: &mut [u8], pos: usize) -> (r: Result<usize, EncodeError>)
    requires
        pos <= old(buf)@.len(),
    ensures
        wrote(old(buf)@, final(buf)@, pos as int, leb(v as nat), r),
{
    match postcard::to_slice(&v, &mut buf[pos..]) {
        Ok(w) => Ok(w.len()),
        Err(_) => Err(EncodeError::BufferTooSmall),
    }
}

/// Relies on postcard::take_from_bytes for a `u32`: it reads a varint of at
/// most five bytes, the fifth at most 15.
#[verifier::external_body]
fn take_u32(buf: &[u8], pos: usize) -> (r: Result<(u32, usize), DecodeError>)
    requires
        pos <= buf@.len(),
    ensures
        took(buf@.skip(pos as int), r, parse_u32(buf@.skip(pos as int))),
{
    match postcard::take_from_bytes::<u32>(&buf[pos..]) {
        Ok((v, rest)) => Ok((v, rest.len())),
        Err(postcard::Error::DeserializeUnexpectedEnd) => Err(DecodeError::Truncated),
        Err(_) => Err(DecodeError::Malformed),
    }
}

/// Relies on postcard::to_slice on an `i16`: it writes the varint of the
/// value's zig-zag map.
#[verifier::external_body]
fn put_i16(v: i16, buf: &mut [u8], pos: usize) -> (r: Result<usize, EncodeError>)
    requires
        pos <= old(buf)@.len(),
    ensures
        wrote(old(buf)@, final(buf)@, pos as int, leb(zigzag(v as int)), r),
{
    match postcard::to_slice(&v, &mut buf[pos..]) {
        Ok(w) => Ok(w.len()),
        Err(_) => Err(EncodeError::BufferTooSmall),
    }
}

/// Relies on postcard::take_from_bytes for an `i16`: it reads a `u16`
/// varint and undoes the zig-zag map.
#[verifier::external_body]
fn take_i16(buf: &[u8], pos: usize) -> (r: Result<(i16, usize), DecodeError>)
    requires
        pos <= buf@.len(),
    ensures
        took(buf@.skip(pos as int), r, parse_i16(buf@.skip(pos as int))),
{
    match postcard::take_from_bytes::<i16>(&buf[pos..]) {
        Ok((v, rest)) => Ok((v, rest.len())),
        Err(postcard::Error::DeserializeUnexpectedEnd) => Err(DecodeError::Truncated),
        Err(_) => Err(DecodeError::Malformed),
    }
}

/// Relies on postcard::to_slice on an `i32`: it writes the varint of the
/// value's zig-zag map.
#[verifier::external_body]
fn put_i32(v: i32, buf: &mut [u8], pos: usize) -> (r: Result<usize, EncodeError>)
    requires
        pos <= old(buf)@.len(),
    ensures
        wrote(old(buf)@, final(buf)@, pos as int, leb(zigzag(v as int)), r),
{
    match postcard::to_slice(&v, &mut buf[pos..]) {
        Ok(w) => Ok(w.len()),
        Err(_) => Err(EncodeError::BufferTooSmall),
    }
}

/// Relies on postcard::take_from_bytes for an `i32`: it reads a `u32`
/// varint and undoes the zig-zag map.
#[verifier::external_body]
fn take_i32(buf: &[u8], pos: usize) -> (r: Result<(i32, usize), DecodeError>)
    requires
        pos <= buf@.len(),
    ensures
        took(buf@.skip(pos as int), r, parse_i32(buf@.skip(pos as int))),
{
    match postcard::take_from_bytes::<i32>(&buf[pos..]) {
        Ok((v, rest)) => Ok((v, rest.len())),
        Err(postcard::Error::DeserializeUnexpectedEnd) => Err(DecodeError::Truncated),
        Err(_) => Err(DecodeError::Malformed),
    }
}

/// Relies on postcard::to_slice on a `usize`: serde hands it over as a
/// `u64`, whose varint postcard writes.
#[verifier::external_body]
fn put_usize(v: usize, buf: &mut [u8], pos: usize) -> (r: Result<usize, EncodeError>)
    requires
        pos <= old(buf)@.len(),
    ensures
        wrote(old(buf)@, final(buf)@, pos as int, leb(v as nat), r),
{
    match postcard::to_slice(&v, &mut buf[pos..]) {
        Ok(w) => Ok(w.len()),
        Err(_) => Err(EncodeError::BufferTooSmall),
    }
}

/// Relies on postcard::take_from_bytes for a `usize`: serde asks for a
/// `u64` varint and refuses a value that does not fit.
#[verifier::external_body]
fn take_usize(buf: &[u8], pos: usize) -> (r: Result<(usize, usize), DecodeError>)
    requires
        pos <= buf@.len(),
    ensures
        took(buf@.skip(pos as int), r, parse_usize(buf@.skip(pos as int))),
{
    match postcard::take_from_bytes::<usize>(&buf[pos..]) {
        Ok((v, rest)) => Ok((v, rest.len())),
        Err(postcard::Error::DeserializeUnexpectedEnd) => Err(DecodeError::Truncated),
        Err(_) => Err(DecodeError::Malformed),
    }
}

/// Relies on postcard::to_slice on a `str`: it writes the length of its
/// UTF-8 bytes as a varint, then the bytes.
#[verifier::external_body]
fn put_str(v: &str, buf: &mut [u8], pos: usize) -> (r: Result<usize, EncodeError>)
    requires
        pos <= old(buf)@.len(),
    ensures
        wrote(old(buf)@, final(buf)@, pos as int, enc_text(v@), r),
{
    match postcard::to_slice(v, &mut buf[pos..]) {
        Ok(w) => Ok(w.len()),
        Err(_) => Err(EncodeError::BufferTooSmall),
    }
}

/// Relies on postcard::take_from_bytes for a borrowed `str`: it reads a
/// length varint as wide as `usize`, takes that many bytes, and checks that
/// they are UTF-8.
#[verifier::external_body]
fn take_str<'a>(buf: &'a [u8], pos: usize) -> (r: Result<(&'a str, usize), DecodeError>)
    requires
        pos <= buf@.len(),
    ensures
        match r {
            Ok((v, rest)) => rest <= buf@.len() - pos && parse_text(buf@.skip(pos as int)) == Ok::<
                (Seq<char>, nat),
                DecodeError,
            >((v@, (buf@.len() - pos - rest) as nat)),
            Err(e) => parse_text(buf@.skip(pos as int)) == Err::<(Seq<char>, nat), DecodeError>(e),
        },
{
    match postcard::take_from_bytes::<&'a str>(&buf[pos..]) {
        Ok((v, rest)) => Ok((v, rest.len())),
        Err(postcard::Error::DeserializeUnexpectedEnd) => Err(DecodeError::Truncated),
        Err(_) => Err(DecodeError::Malformed),
    }
}

/// Relies on postcard::to_slice on a `[u8]`: it writes the length as a
/// varint, then the bytes.
#[verifier::external_body]
fn put_bytes(v: &[u8], buf: &mut [u8], pos: usize) -> (r: Result<usize, EncodeError>)
    requires
        pos <= old(buf)@.len(),
    ensures
        wrote(old(buf)@, final(buf)@, pos as int, enc_bytes(v@), r),
{
    match postcard::to_slice(v, &mut buf[pos..]) {
        Ok(w) => Ok(w.len()),
        Err(_) => Err(EncodeError::BufferTooSmall),
    }
}

/// Relies on postcard::take_from_bytes for a borrowed `[u8]`: it reads a
/// length varint as wide as `usize`, then takes that many bytes.
#[verifier::external_body]
fn take_bytes<'a>(buf: &'a [u8], pos: usize) -> (r: Result<(&'a [u8], usize), DecodeError>)
    requires
        pos <= buf@.len(),
    ensures
        match r {
            Ok((v, rest)) => rest <= buf@.len() - pos && parse_bytes(buf@.skip(pos as int)) == Ok::<
                (Seq<u8>, nat),
                DecodeError,
            >((v@, (buf@.len() - pos - rest) as nat)),
            Err(e) => parse_bytes(buf@.skip(pos as int)) == Err::<(Seq<u8>, nat), DecodeError>(e),
        },
{
    match postcard::take_from_bytes::<&'a [u8]>(&buf[pos..]) {
        Ok((v, rest)) => Ok((v, rest.len())),
        Err(postcard::Error::DeserializeUnexpectedEnd) => Err(DecodeError::Truncated),
        Err(_) => Err(DecodeError::Malformed),
    }
}

proof fn lemma_zigzag(v: int)
    ensures
        unzigzag(zigzag(v)) == v,
        -0x8000 <= v < 0x8000 ==> zigzag(v) < 0x1_0000,
        -0x8000_0000 <= v < 0x8000_0000 ==> zigzag(v) < 0x1_0000_0000,
{
}

/// The encoding of a `u8` is the byte itself; decoding one reads
/// what `parse_u8` says.
pub proof fn lemma_u8_wire<'a>(v: u8, s: Seq<u8>)
    ensures
        <u8 as Encode<'a>>::spec_enc(v) == seq![v],
        <u8 as Encode<'a>>::spec_parse(s) == parse_u8(s),
{
}

/// The encoding of a `bool` is one byte, 1 or 0; decoding one reads
/// what `parse_bool` says.
pub proof fn lemma_bool_wire<'a>(v: bool, s: Seq<u8>)
    ensures
        <bool as Encode<'a>>::spec_enc(v) == seq![if v { 1u8 } else { 0u8 }],
        <bool as Encode<'a>>::spec_parse(s) == parse_bool(s),
{
}

/// The encoding of a `u16` is its varint; decoding one reads
/// what `parse_u16` says.
pub proof fn lemma_u16_wire<'a>(v: u16, s: Seq<u8>)
    ensures
        <u16 as Encode<'a>>::spec_enc(v) == leb(v as nat),
        <u16 as Encode<'a>>::spec_parse(s) == parse_u16(s),
{
}

/// The encoding of a `u32` is its varint; decoding one reads
/// what `parse_u32` says.
pub proof fn lemma_u32_wire<'a>(v: u32, s: Seq<u8>)
    ensures
        <u32 as Encode<'a>>::spec_enc(v) == leb(v as nat),
        <u32 as Encode<'a>>::spec_parse(s) == parse_u32(s),
{
}

/// The encoding of an `i16` is the varint of its zig-zag map; decoding one reads
/// what `parse_i16` says.
pub proof fn lemma_i16_wire<'a>(v: i16, s: Seq<u8>)
    ensures
        <i16 as Encode<'a>>::spec_enc(v) == leb(zigzag(v as int)),
        <i16 as Encode<'a>>::spec_parse(s) == parse_i16(s),
{
}

/// The encoding of an `i32` is the varint of its zig-zag map; decoding one reads
/// what `parse_i32` says.
pub proof fn lemma_i32_wire<'a>(v: i32, s: Seq<u8>)
    ensures
        <i32 as Encode<'a>>::spec_enc(v) == leb(zigzag(v as int)),
        <i32 as Encode<'a>>::spec_parse(s) == parse_i32(s),
{
}

/// The encoding of a borrowed `str` is the length of its UTF-8 bytes, then the bytes; decoding one reads
/// what `parse_text` says.
pub proof fn lemma_str_wire<'a>(v: Seq<char>, s: Seq<u8>)
    ensures
        <&'a str as Encode<'a>>::spec_enc(v) == enc_text(v),
        <&'a str as Encode<'a>>::spec_parse(s) == parse_text(s),
{
}

/// The encoding of a `String` is the length of its UTF-8 bytes, then the bytes; decoding one reads
/// what `parse_text` says.
pub proof fn lemma_string_wire<'a>(v: Seq<char>, s: Seq<u8>)
    ensures
        <String as Encode<'a>>::spec_enc(v) == enc_text(v),
        <String as Encode<'a>>::spec_parse(s) == parse_text(s),
{
}

/// The encoding of a borrowed `[u8]` is its length, then its bytes; decoding one reads
/// what `parse_bytes` says.
pub proof fn lemma_bytes_wire<'a>(v: Seq<u8>, s: Seq<u8>)
    ensures
        <&'a [u8] as Encode<'a>>::spec_enc(v) == enc_bytes(v),
        <&'a [u8] as Encode<'a>>::spec_parse(s) == parse_bytes(s),
{
}

impl<'a> Encode<'a> for u8 {
    closed spec fn spec_enc(v: u8) -> Seq<u8> {
        seq![v]
    }

    closed spec fn spec_parse(s: Seq<u8>) -> Result<(u8, nat), DecodeError> {
        parse_u8(s)
    }

    proof fn lemma_round_trip(v: u8, rest: Seq<u8>) {
        assert((seq![v] + rest)[0] == v);
    }

    proof fn lemma_prefix_truncated(x: u8, k: int) {
        assert(Self::spec_enc(x).take(k).len() == 0);
    }

    fn size(&self) -> (r: usize) {
        1
    }

    fn encode_at(&self, buf: &mut [u8], pos: usize) -> (r: Result<usize, EncodeError>) {
        let n = put_u8(*self, buf, pos)?;
        // The buffer's length is a usize, so the end position cannot overflow.
        let _len = buf.len();
        Ok(pos + n)
    }

    fn decode_at(buf: &'a [u8], pos: usize) -> (r: Result<(u8, usize), DecodeError>) {
        let (v, rest) = take_u8(buf, pos)?;
        Ok((v, buf.len() - rest))
    }
}

impl<'a> Encode<'a> for bool {
    closed spec fn spec_enc(v: bool) -> Seq<u8> {
        seq![if v { 1u8 } else { 0u8 }]
    }

    closed spec fn spec_parse(s: Seq<u8>) -> Result<(bool, nat), DecodeError> {
        parse_bool(s)
    }

    proof fn lemma_round_trip(v: bool, rest: Seq<u8>) {
        assert((Self::spec_enc(v) + rest)[0] == if v { 1u8 } else { 0u8 });
    }

    proof fn lemma_prefix_truncated(x: bool, k: int) {
        assert(Self::spec_enc(x).take(k).len() == 0);
    }

    fn size(&self) -> (r: usize) {
        1
    }

    fn encode_at(&self, buf: &mut [u8], pos: usize) -> (r: Result<usize, EncodeError>) {
        let n = put_bool(*self, buf, pos)?;
        // The buffer's length is a usize, so the end position cannot overflow.
        let _len = buf.len();
        Ok(pos + n)
    }

    fn decode_at(buf: &'a [u8], pos: usize) -> (r: Result<(bool, usize), DecodeError>) {
        let (v, rest) = take_bool(buf, pos)?;
        Ok((v, buf.len() - rest))
    }
}

impl<'a> Encode<'a> for u16 {
    closed spec fn spec_enc(v: u16) -> Seq<u8> {
        leb(v as nat)
    }

    closed spec fn spec_parse(s: Seq<u8>) -> Result<(u16, nat), DecodeError> {
        parse_u16(s)
    }

    proof fn lemma_round_trip(v: u16, rest: Seq<u8>) {
        lemma_leb_caps();
        lemma_leb_round_trip(v as nat, 3, 3, rest);
    }

    proof fn lemma_prefix_truncated(x: u16, k: int) {
        lemma_leb_caps();
        lemma_leb_prefix(x as nat, 3, 3, k);
    }

    fn size(&self) -> (r: usize) {
        leb_len(*self as u64)
    }

    fn encode_at(&self, buf: &mut [u8], pos: usize) -> (r: Result<usize, EncodeError>) {
        let n = put_u16(*self, buf, pos)?;
        // The buffer's length is a usize, so the end position cannot overflow.
        let _len = buf.len();
        Ok(pos + n)
    }

    fn decode_at(buf: &'a [u8], pos: usize) -> (r: Result<(u16, usize), DecodeError>) {
        let (v, rest) = take_u16(buf, pos)?;
        Ok((v, buf.len() - rest))
    }
}

impl<'a> Encode<'a> for u32 {
    closed spec fn spec_enc(v: u32) -> Seq<u8> {
        leb(v as nat)
    }

    closed spec fn spec_parse(s: Seq<u8>) -> Result<(u32, nat), DecodeError> {
        parse_u32(s)
    }

    proof fn lemma_round_trip(v: u32, rest: Seq<u8>) {
        lemma_leb_caps();
        lemma_leb_round_trip(v as nat, 5, 15, rest);
    }

    proof fn lemma_prefix_truncated(x: u32, k: int) {
        lemma_leb_caps();
        lemma_leb_prefix(x as nat, 5, 15, k);
    }

    fn size(&self) -> (r: usize) {
        leb_len(*self as u64)
    }

    fn encode_at(&self, buf: &mut [u8], pos: usize) -> (r: Result<usize, EncodeError>) {
        let n = put_u32(*self, buf, pos)?;
        // The buffer's length is a usize, so the end position cannot overflow.
        let _len = buf.len();
        Ok(pos + n)
    }

    fn decode_at(buf: &'a [u8], pos: usize) -> (r: Result<(u32, usize), DecodeError>) {
        let (v, rest) = take_u32(buf, pos)?;
        Ok((v, buf.len() - rest))
    }
}

impl<'a> Encode<'a> for i16 {
    closed spec fn spec_enc(v: i16) -> Seq<u8> {
        leb(zigzag(v as int))
    }

    closed spec fn spec_parse(s: Seq<u8>) -> Result<(i16, nat), DecodeError> {
        parse_i16(s)
    }

    proof fn lemma_round_trip(v: i16, rest: Seq<u8>) {
        lemma_leb_caps();
        lemma_zigzag(v as int);
        lemma_leb_round_trip(zigzag(v as int), 3, 3, rest);
    }

    proof fn lemma_prefix_truncated(x: i16, k: int) {
        lemma_leb_caps();
        lemma_zigzag(x as int);
        lemma_leb_prefix(zigzag(x as int), 3, 3, k);
    }

    fn size(&self) -> (r: usize) {
        leb_len(zigzag_exec(*self as i32))
    }

    fn encode_at(&self, buf: &mut [u8], pos: usize) -> (r: Result<usize, EncodeError>) {
        let n = put_i16(*self, buf, pos)?;
        // The buffer's length is a usize, so the end position cannot overflow.
        let _len = buf.len();
        Ok(pos + n)
    }

    fn decode_at(buf: &'a [u8], pos: usize) -> (r: Result<(i16, usize), DecodeError>) {
        let (v, rest) = take_i16(buf, pos)?;
        Ok((v, buf.len() - rest))
    }
}

impl<'a> Encode<'a> for i32 {
    closed spec fn spec_enc(v: i32) -> Seq<u8> {
        leb(zigzag(v as int))
    }

    closed spec fn spec_parse(s: Seq<u8>) -> Result<(i32, nat), DecodeError> {
        parse_i32(s)
    }

    proof fn lemma_round_trip(v: i32, rest: Seq<u8>) {
        lemma_leb_caps();
        lemma_zigzag(v as int);
        lemma_leb_round_trip(zigzag(v as int), 5, 15, rest);
    }

    proof fn lemma_prefix_truncated(x: i32, k: int) {
        lemma_leb_caps();
        lemma_zigzag(x as int);
        lemma_leb_prefix(zigzag(x as int), 5, 15, k);
    }

    fn size(&self) -> (r: usize) {
        leb_len(zigzag_exec(*self))
    }

    fn encode_at(&self, buf: &mut [u8], pos: usize) -> (r: Result<usize, EncodeError>) {
        let n = put_i32(*self, buf, pos)?;
        // The buffer's length is a usize, so the end position cannot overflow.
        let _len = buf.len();
        Ok(pos + n)
    }

    fn decode_at(buf: &'a [u8], pos: usize) -> (r: Result<(i32, usize), DecodeError>) {
        let (v, rest) = take_i32(buf, pos)?;
        Ok((v, buf.len() - rest))
    }
}

impl<'a> Encode<'a> for &'a str {
    closed spec fn spec_enc(v: Seq<char>) -> Seq<u8> {
        enc_text(v)
    }

    closed spec fn spec_parse(s: Seq<u8>) -> Result<(Seq<char>, nat), DecodeError> {
        parse_text(s)
    }

    proof fn lemma_round_trip(v: &'a str, rest: Seq<u8>) {
        lemma_text_round_trip(v@, rest);
    }

    proof fn lemma_prefix_truncated(x: &'a str, k: int) {
        lemma_text_prefix(x@, k);
    }

    fn size(&self) -> (r: usize) {
        let n = self.as_bytes().len();
        leb_len(n as u64) + n
    }

    fn encode_at(&self, buf: &mut [u8], pos: usize) -> (r: Result<usize, EncodeError>) {
        let n = put_str(*self, buf, pos)?;
        // The buffer's length is a usize, so the end position cannot overflow.
        let _len = buf.len();
        Ok(pos + n)
    }

    fn decode_at(buf: &'a [u8], pos: usize) -> (r: Result<(&'a str, usize), DecodeError>) {
        let (v, rest) = take_str(buf, pos)?;
        Ok((v, buf.len() - rest))
    }
}

impl<'a> Encode<'a> for String {
    closed spec fn spec_enc(v: Seq<char>) -> Seq<u8> {
        enc_text(v)
    }

    closed spec fn spec_parse(s: Seq<u8>) -> Result<(Seq<char>, nat), DecodeError> {
        parse_text(s)
    }

    proof fn lemma_round_trip(v: String, rest: Seq<u8>) {
        lemma_text_round_trip(v@, rest);
    }

    proof fn lemma_prefix_truncated(x: String, k: int) {
        lemma_text_prefix(x@, k);
    }

    fn size(&self) -> (r: usize) {
        let n = self.as_str().as_bytes().len();
        leb_len(n as u64) + n
    }

    fn encode_at(&self, buf: &mut [u8], pos: usize) -> (r: Result<usize, EncodeError>) {
        let n = put_str(self.as_str(), buf, pos)?;
        // The buffer's length is a usize, so the end position cannot overflow.
        let _len = buf.len();
        Ok(pos + n)
    }

    fn decode_at(buf: &'a [u8], pos: usize) -> (r: Result<(String, usize), DecodeError>) {
        let (v, rest) = take_str(buf, pos)?;
        Ok((v.to_owned(), buf.len() - rest))
    }
}

impl<'a> Encode<'a> for &'a [u8] {
    closed spec fn spec_enc(v: Seq<u8>) -> Seq<u8> {
        enc_bytes(v)
    }

    closed spec fn spec_parse(s: Seq<u8>) -> Result<(Seq<u8>, nat), DecodeError> {
        parse_bytes(s)
    }

    proof fn lemma_round_trip(v: &'a [u8], rest: Seq<u8>) {
        assert(v.deep_view() =~= v@);
        lemma_bytes_round_trip(v@, rest);
    }

    proof fn lemma_prefix_truncated(x: &'a [u8], k: int) {
        assert(x.deep_view() =~= x@);
        lemma_bytes_prefix(x@, k);
    }

    fn size(&self) -> (r: usize) {
        let n = self.len();
        proof {
            assert(self.deep_view() =~= self@);
        }
        leb_len(n as u64) + n
    }

    fn encode_at(&self, buf: &mut [u8], pos: usize) -> (r: Result<usize, EncodeError>) {
        proof {
            assert(self.deep_view() =~= self@);
        }
        let n = put_bytes(*self, buf, pos)?;
        // The buffer's length is a usize, so the end position cannot overflow.
        let _len = buf.len();
        Ok(pos + n)
    }

    fn decode_at(buf: &'a [u8], pos: usize) -> (r: Result<(&'a [u8], usize), DecodeError>) {
        let (v, rest) = take_bytes(buf, pos)?;
        proof {
            assert(v.deep_view() =~= v@);
        }
        Ok((v, buf.len() - rest))
    }
}

/// Writes the varint of `v` into `buf` at `pos`, and returns the position
/// just past it.
pub fn put_usize_at(v: usize, buf: &mut [u8], pos: usize) -> (r: Result<usize, EncodeError>)
    requires
        pos <= old(buf)@.len(),
    ensures
        wrote_to(old(buf)@, final(buf)@, pos as int, leb(v as nat), r),
{
    let n = put_usize(v, buf, pos)?;
    // The buffer's length is a usize, so the end position cannot overflow.
    let _len = buf.len();
    Ok(pos + n)
}

/// Reads a count (of items, bytes or characters) from `buf` at `pos`: a
/// varint as wide as the platform's `usize`. Returns it with the position
/// just past it.
pub fn take_len_at(buf: &[u8], pos: usize) -> (r: Result<(usize, usize), DecodeError>)
    requires
        pos <= buf@.len(),
    ensures
        match r {
            Ok((n, end)) => pos <= end <= buf@.len() && len_take(buf@.skip(pos as int)) == Ok::<
                (nat, nat),
                DecodeError,
            >((n as nat, (end - pos) as nat)),
            Err(e) => len_take(buf@.skip(pos as int)) == Err::<(nat, nat), DecodeError>(e),
        },
{
    proof {
        lemma_usize_width();
        lemma_leb_caps();
        lemma_leb_take_bounds(buf@.skip(pos as int), 5, 15);
        lemma_leb_take_bounds(buf@.skip(pos as int), 10, 1);
    }
    if usize::MAX as u64 == 0xffff_ffff {
        let (v, rest) = take_u32(buf, pos)?;
        Ok((v as usize, buf.len() - rest))
    } else {
        let (v, rest) = take_usize(buf, pos)?;
        Ok((v, buf.len() - rest))
    }
}

impl<'a, T: Encode<'a>> Encode<'a> for Option<T> {
    /// A tag byte, 0 for `None` and 1 for `Some`, then the value if any.
    open spec fn spec_enc(v: Option<<T as DeepView>::V>) -> Seq<u8> {
        match v {
            None => seq![0u8],
            Some(x) => seq![1u8] + T::spec_enc(x),
        }
    }

    open spec fn spec_parse(s: Seq<u8>) -> Result<(Option<<T as DeepView>::V>, nat), DecodeError> {
        match parse_u8(s) {
            Err(e) => Err(e),
            Ok((tag, k)) => if tag == 0 {
                Ok((None, k))
            } else if tag == 1 {
                match T::spec_parse(s.skip(k as int)) {
                    Ok((x, m)) => Ok((Some(x), k + m)),
                    Err(e) => Err(e),
                }
            } else {
                Err(DecodeError::Malformed)
            },
        }
    }

    proof fn lemma_round_trip(x: Option<T>, rest: Seq<u8>) {
        let s = Self::spec_enc(x.deep_view()) + rest;
        match x {
            None => {
                assert(s[0] == 0u8);
            },
            Some(y) => {
                T::lemma_round_trip(y, rest);
                assert(s[0] == 1u8);
                assert(s.skip(1) =~= T::spec_enc(y.deep_view()) + rest);
            },
        }
    }

    proof fn lemma_prefix_truncated(x: Option<T>, k: int) {
        let e = Self::spec_enc(x.deep_view());
        if k == 0 {
            assert(e.take(k).len() == 0);
        } else {
            let y = x.unwrap();
            let t = T::spec_enc(y.deep_view());
            lemma_take_split(seq![1u8], t, k);
            T::lemma_prefix_truncated(y, k - 1);
        }
    }

    fn size(&self) -> (r: usize) {
        match self {
            None => 1,
            Some(y) => 1 + y.size(),
        }
    }

    fn encode_at(&self, buf: &mut [u8], pos: usize) -> (r: Result<usize, EncodeError>) {
        let ghost b0 = buf@;
        match self {
            None => {
                let n = put_u8(0, buf, pos)?;
                // The buffer's length is a usize, so the end position cannot overflow.
                let _len = buf.len();
                Ok(pos + n)
            },
            Some(y) => {
                let n = put_u8(1, buf, pos)?;
                // The buffer's length is a usize, so the end position cannot overflow.
                let _len = buf.len();
                let end = y.encode_at(buf, pos + n)?;
                assert(buf@ =~= b0.take(pos as int) + (seq![1u8] + T::spec_enc(y.deep_view()))
                    + b0.skip(end as int));
                Ok(end)
            },
        }
    }

    fn decode_at(buf: &'a [u8], pos: usize) -> (r: Result<(Option<T>, usize), DecodeError>) {
        let (tag, rest) = take_u8(buf, pos)?;
        let p = buf.len() - rest;
        if tag == 0 {
            Ok((None, p))
        } else if tag == 1 {
            assert(buf@.skip(pos as int).skip(1) =~= buf@.skip(p as int));
            let (y, end) = T::decode_at(buf, p)?;
            Ok((Some(y), end))
        } else {
            Err(DecodeError::Malformed)
        }
    }
}

} // verus!
