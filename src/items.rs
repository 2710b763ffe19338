//! Runs of values back to back: the payload of sequences (after their
//! count) and of fixed-size arrays.

use vstd::prelude::*;
use crate::wire::{
    leb, leb_len, lemma_leb_caps, lemma_leb_prefix, lemma_leb_round_trip, lemma_skip_skip,
    lemma_split_step, lemma_take_split,
    lemma_wrote_then, len_take, put_usize_at, take_len_at,
    wrote_to, DecodeError, Encode, EncodeError,
};

verus! {

/// The models of a run of values.
pub open spec fn models<'a, T: Encode<'a>>(xs: Seq<T>) -> Seq<<T as DeepView>::V> {
    xs.map_values(|x: T| x.deep_view())
}

/// The encodings of the values `v`, back to back.
pub open spec fn enc_items<'a, T: Encode<'a>>(v: Seq<<T as DeepView>::V>) -> Seq<u8>
    decreases v.len(),
{
    if v.len() == 0 {
        Seq::empty()
    } else {
        T::spec_enc(v[0]) + enc_items::<T>(v.drop_first())
    }
}

/// What decoding `n` values back to back makes of the front of `s`.
pub open spec fn parse_items<'a, T: Encode<'a>>(s: Seq<u8>, n: nat) -> Result<
    (Seq<<T as DeepView>::V>, nat),
    DecodeError,
>
    decreases n,
{
    if n == 0 {
        Ok((Seq::empty(), 0))
    } else {
        match T::spec_parse(s) {
            Ok((x, k)) => match parse_items::<T>(s.skip(k as int), (n - 1) as nat) {
                Ok((xs, m)) => Ok((seq![x] + xs, k + m)),
                Err(e) => Err(e),
            },
            Err(e) => Err(e),
        }
    }
}

/// `r`, with `xs` put in front of its values and `c` added to its count.
pub open spec fn glue<V>(xs: Seq<V>, c: nat, r: Result<(Seq<V>, nat), DecodeError>) -> Result<
    (Seq<V>, nat),
    DecodeError,
> {
    match r {
        Ok((ys, m)) => Ok((xs + ys, c + m)),
        Err(e) => Err(e),
    }
}

pub proof fn lemma_enc_items_split<'a, T: Encode<'a>>(
    a: Seq<<T as DeepView>::V>,
    b: Seq<<T as DeepView>::V>,
)
    ensures
        enc_items::<T>(a + b) == enc_items::<T>(a) + enc_items::<T>(b),
    decreases a.len(),
{
    if a.len() == 0 {
        assert(a + b =~= b);
        assert(enc_items::<T>(a) + enc_items::<T>(b) =~= enc_items::<T>(b));
    } else {
        assert((a + b).drop_first() =~= a.drop_first() + b);
        lemma_enc_items_split::<T>(a.drop_first(), b);
        assert(enc_items::<T>(a + b) =~= enc_items::<T>(a) + enc_items::<T>(b));
    }
}

proof fn lemma_enc_items_one<'a, T: Encode<'a>>(x: <T as DeepView>::V)
    ensures
        enc_items::<T>(seq![x]) == T::spec_enc(x),
{
    let empty = Seq::<<T as DeepView>::V>::empty();
    assert(seq![x].drop_first() =~= empty);
    assert(seq![x][0] == x);
    assert(enc_items::<T>(empty) =~= Seq::<u8>::empty());
    assert(enc_items::<T>(seq![x]) =~= T::spec_enc(x) + Seq::<u8>::empty());
    assert(T::spec_enc(x) + Seq::<u8>::empty() =~= T::spec_enc(x));
}

/// `enc_items` of a prefix one longer.
proof fn lemma_enc_items_take<'a, T: Encode<'a>>(v: Seq<<T as DeepView>::V>, i: int)
    requires
        0 <= i < v.len(),
    ensures
        enc_items::<T>(v.take(i + 1)) == enc_items::<T>(v.take(i)) + T::spec_enc(v[i]),
        enc_items::<T>(v) == enc_items::<T>(v.take(i + 1)) + enc_items::<T>(v.skip(i + 1)),
{
    assert(v.take(i + 1) =~= v.take(i) + seq![v[i]]);
    lemma_enc_items_split::<T>(v.take(i), seq![v[i]]);
    lemma_enc_items_one::<T>(v[i]);
    assert(v =~= v.take(i + 1) + v.skip(i + 1));
    lemma_enc_items_split::<T>(v.take(i + 1), v.skip(i + 1));
}

/// Decoding the encodings of `xs` back to back gives them back, and each
/// takes at least one byte.
pub proof fn lemma_items_round_trip<'a, T: Encode<'a>>(xs: Seq<T>, rest: Seq<u8>)
    requires
        enc_items::<T>(models(xs)).len() <= usize::MAX,
    ensures
        parse_items::<T>(enc_items::<T>(models(xs)) + rest, xs.len()) == Ok::<
            (Seq<<T as DeepView>::V>, nat),
            DecodeError,
        >((models(xs), enc_items::<T>(models(xs)).len())),
        xs.len() <= enc_items::<T>(models(xs)).len(),
    decreases xs.len(),
{
    let v = models(xs);
    if xs.len() > 0 {
        let tail = xs.drop_first();
        assert(models(tail) =~= v.drop_first());
        let e0 = T::spec_enc(v[0]);
        let et = enc_items::<T>(v.drop_first());
        T::lemma_round_trip(xs[0], et + rest);
        lemma_items_round_trip::<T>(tail, rest);
        let s = enc_items::<T>(v) + rest;
        assert(s =~= e0 + (et + rest));
        assert(s.skip(e0.len() as int) =~= et + rest);
        assert(seq![v[0]] + v.drop_first() =~= v);
    } else {
        assert(v =~= Seq::<<T as DeepView>::V>::empty());
    }
}

/// Decoding a strict prefix of the encodings of `xs` back to back fails:
/// the bytes end before a value is fully read.
pub proof fn lemma_items_prefix<'a, T: Encode<'a>>(xs: Seq<T>, k: int)
    requires
        enc_items::<T>(models(xs)).len() <= usize::MAX,
        0 <= k < enc_items::<T>(models(xs)).len(),
    ensures
        parse_items::<T>(enc_items::<T>(models(xs)).take(k), xs.len()) == Err::<
            (Seq<<T as DeepView>::V>, nat),
            DecodeError,
        >(DecodeError::Truncated),
    decreases xs.len(),
{
    let v = models(xs);
    if xs.len() == 0 {
        assert(v =~= Seq::<<T as DeepView>::V>::empty());
    } else {
        let tail = xs.drop_first();
        assert(models(tail) =~= v.drop_first());
        let e0 = T::spec_enc(v[0]);
        let et = enc_items::<T>(v.drop_first());
        lemma_take_split(e0, et, k);
        if k < e0.len() {
            T::lemma_prefix_truncated(xs[0], k);
        } else {
            T::lemma_round_trip(xs[0], et.take(k - e0.len()));
            lemma_items_prefix::<T>(tail, k - e0.len());
        }
    }
}

/// The total size of the encodings of `items`.
pub fn items_size<'a, T: Encode<'a>>(items: &[T]) -> (r: usize)
    requires
        enc_items::<T>(models(items@)).len() <= usize::MAX,
    ensures
        r == enc_items::<T>(models(items@)).len(),
{
    let ghost v = models(items@);
    let mut total: usize = 0;
    let mut i: usize = 0;
    while i < items.len()
        invariant
            i <= items@.len(),
            v == models(items@),
            enc_items::<T>(v).len() <= usize::MAX,
            total == enc_items::<T>(v.take(i as int)).len(),
        decreases items@.len() - i,
    {
        proof {
            lemma_enc_items_take::<T>(v, i as int);
        }
        let n = items[i].size();
        total = total + n;
        i = i + 1;
    }
    proof {
        assert(v.take(i as int) =~= v);
    }
    total
}

/// Writes the encodings of `items` back to back into `buf` at `pos`.
pub fn encode_items<'a, T: Encode<'a>>(items: &[T], buf: &mut [u8], pos: usize) -> (r: Result<
    usize,
    EncodeError,
>)
    requires
        pos <= old(buf)@.len(),
    ensures
        wrote_to(old(buf)@, final(buf)@, pos as int, enc_items::<T>(models(items@)), r),
{
    let ghost v = models(items@);
    let ghost b0 = buf@;
    let mut cur: usize = pos;
    let mut i: usize = 0;
    while i < items.len()
        invariant
            i <= items@.len(),
            v == models(items@),
            b0 == old(buf)@,
            b0.len() == buf@.len(),
            pos <= cur <= buf@.len(),
            cur == pos + enc_items::<T>(v.take(i as int)).len(),
            buf@ == b0.take(pos as int) + enc_items::<T>(v.take(i as int)) + b0.skip(cur as int),
        decreases items@.len() - i,
    {
        proof {
            lemma_enc_items_take::<T>(v, i as int);
        }
        let ghost before = buf@;
        match items[i].encode_at(buf, cur) {
            Ok(end) => {
                proof {
                    let e = T::spec_enc(v[i as int]);
                    assert(before.take(cur as int) =~= b0.take(pos as int) + enc_items::<T>(
                        v.take(i as int),
                    ));
                    assert(before.skip(end as int) =~= b0.skip(end as int));
                    assert(buf@ =~= b0.take(pos as int) + enc_items::<T>(v.take(i + 1)) + b0.skip(
                        end as int,
                    ));
                }
                cur = end;
            },
            Err(e) => {
                proof {
                    assert(items@[i as int].deep_view() == v[i as int]);
                    assert(enc_items::<T>(v).len() >= enc_items::<T>(v.take(i + 1)).len());
                }
                return Err(e);
            },
        }
        i = i + 1;
    }
    proof {
        assert(v.take(i as int) =~= v);
    }
    Ok(cur)
}

/// Reads `n` values back to back from `buf` at `pos`.
pub fn decode_items<'a, T: Encode<'a>>(buf: &'a [u8], pos: usize, n: usize) -> (r: Result<
    (Vec<T>, usize),
    DecodeError,
>)
    requires
        pos <= buf@.len(),
    ensures
        match r {
            Ok((xs, end)) => pos <= end <= buf@.len() && xs@.len() == n && parse_items::<T>(
                buf@.skip(pos as int),
                n as nat,
            ) == Ok::<(Seq<<T as DeepView>::V>, nat), DecodeError>(
                (models(xs@), (end - pos) as nat),
            ),
            Err(e) => parse_items::<T>(buf@.skip(pos as int), n as nat) == Err::<
                (Seq<<T as DeepView>::V>, nat),
                DecodeError,
            >(e),
        },
{
    let mut out: Vec<T> = Vec::new();
    let mut cur: usize = pos;
    let mut i: usize = 0;
    while i < n
        invariant
            i <= n,
            out@.len() == i,
            pos <= cur <= buf@.len(),
            parse_items::<T>(buf@.skip(pos as int), n as nat) == glue(
                models(out@),
                (cur - pos) as nat,
                parse_items::<T>(buf@.skip(cur as int), (n - i) as nat),
            ),
        decreases n - i,
    {
        let ghost rest_n = (n - i - 1) as nat;
        let ghost tail = parse_items::<T>(buf@.skip(cur as int), (n - i) as nat);
        match T::decode_at(buf, cur) {
            Ok((x, end)) => {
                proof {
                    let k = (end - cur) as nat;
                    assert(buf@.skip(cur as int).skip(k as int) =~= buf@.skip(end as int));
                    let later = parse_items::<T>(buf@.skip(end as int), rest_n);
                    assert(tail == glue(seq![x.deep_view()], k, later));
                    assert(models(out@.push(x)) =~= models(out@) + seq![x.deep_view()]);
                    match later {
                        Ok((ys, m)) => {
                            assert(models(out@) + (seq![x.deep_view()] + ys) =~= (models(out@)
                                + seq![x.deep_view()]) + ys);
                        },
                        Err(_) => {},
                    }
                }
                out.push(x);
                cur = end;
            },
            Err(e) => {
                return Err(e);
            },
        }
        i = i + 1;
    }
    proof {
        assert(models(out@) + Seq::<<T as DeepView>::V>::empty() =~= models(out@));
    }
    Ok((out, cur))
}

/// An array holding `xs` in order.
pub fn fill_array<T: Copy, const N: usize>(xs: &Vec<T>) -> (r: [T; N])
    requires
        xs@.len() == N,
        N > 0,
    ensures
        r@ == xs@,
{
    let mut a: [T; N] = [xs[0]; N];
    let mut i: usize = 1;
    while i < N
        invariant
            1 <= i <= N,
            xs@.len() == N,
            forall|j: int| 0 <= j < i ==> a@[j] == xs@[j],
        decreases N - i,
    {
        a[i] = xs[i];
        i = i + 1;
    }
    assert(a@ =~= xs@);
    a
}

impl<'a, T: Encode<'a>> Encode<'a> for Vec<T> {
    open spec fn spec_enc(v: Seq<<T as DeepView>::V>) -> Seq<u8> {
        leb(v.len()) + enc_items::<T>(v)
    }

    open spec fn spec_parse(s: Seq<u8>) -> Result<(Seq<<T as DeepView>::V>, nat), DecodeError> {
        match len_take(s) {
            Ok((n, k)) => match parse_items::<T>(s.skip(k as int), n) {
                Ok((xs, m)) => Ok((xs, k + m)),
                Err(e) => Err(e),
            },
            Err(e) => Err(e),
        }
    }

    proof fn lemma_round_trip(x: Vec<T>, rest: Seq<u8>) {
        let v = x.deep_view();
        assert(v =~= models(x@));
        lemma_items_round_trip::<T>(x@, rest);
        crate::wire::lemma_usize_width();
        lemma_leb_caps();
        if usize::MAX == 0xffff_ffff {
            lemma_leb_round_trip(v.len(), 5, 15, enc_items::<T>(v) + rest);
        } else {
            lemma_leb_round_trip(v.len(), 10, 1, enc_items::<T>(v) + rest);
        }
        let s = Self::spec_enc(v) + rest;
        assert(s =~= leb(v.len()) + (enc_items::<T>(v) + rest));
        assert(s.skip(leb(v.len()).len() as int) =~= enc_items::<T>(v) + rest);
    }

    proof fn lemma_prefix_truncated(x: Vec<T>, k: int) {
        let v = x.deep_view();
        assert(v =~= models(x@));
        lemma_items_round_trip::<T>(x@, Seq::empty());
        crate::wire::lemma_usize_width();
        lemma_leb_caps();
        let l = leb(v.len());
        let items = enc_items::<T>(v);
        lemma_take_split(l, items, k);
        if k < l.len() {
            if usize::MAX == 0xffff_ffff {
                lemma_leb_prefix(v.len(), 5, 15, k);
            } else {
                lemma_leb_prefix(v.len(), 10, 1, k);
            }
        } else {
            let r = items.take(k - l.len());
            if usize::MAX == 0xffff_ffff {
                lemma_leb_round_trip(v.len(), 5, 15, r);
            } else {
                lemma_leb_round_trip(v.len(), 10, 1, r);
            }
            lemma_items_prefix::<T>(x@, k - l.len());
        }
    }

    fn size(&self) -> (r: usize) {
        proof {
            assert(self.deep_view() =~= models(self@));
        }
        let n = self.len();
        let items = items_size(self.as_slice());
        leb_len(n as u64) + items
    }

    fn encode_at(&self, buf: &mut [u8], pos: usize) -> (r: Result<usize, EncodeError>) {
        proof {
            assert(self.deep_view() =~= models(self@));
        }
        let ghost b0 = buf@;
        let p = put_usize_at(self.len(), buf, pos)?;
        let ghost b1 = buf@;
        let end = encode_items(self.as_slice(), buf, p)?;
        proof {
            let e = Self::spec_enc(self.deep_view());
            assert(b1.take(p as int) =~= b0.take(pos as int) + leb(self@.len()));
            assert(b1.skip(end as int) =~= b0.skip(end as int));
            assert(buf@ =~= b0.take(pos as int) + e + b0.skip(end as int));
        }
        Ok(end)
    }

    fn decode_at(buf: &'a [u8], pos: usize) -> (r: Result<(Vec<T>, usize), DecodeError>) {
        let (n, p) = take_len_at(buf, pos)?;
        proof {
            assert(buf@.skip(pos as int).skip(p - pos) =~= buf@.skip(p as int));
        }
        let (xs, end) = decode_items::<T>(buf, p, n)?;
        proof {
            assert(xs.deep_view() =~= models(xs@));
        }
        Ok((xs, end))
    }
}

/// The encoding of a pair is the encodings of its two items, back to back; decoding
/// one reads the items in turn.
pub proof fn lemma_pair_wire<'a, A: Encode<'a>, B: Encode<'a>>(v: (<A as DeepView>::V, <B as DeepView>::V), s: Seq<u8>)
    ensures
        <(A, B) as Encode<'a>>::spec_enc(v) == <A as Encode<'a>>::spec_enc(v.0) + <B as Encode<'a>>::spec_enc(v.1),
        <(A, B) as Encode<'a>>::spec_parse(s) == ({
            match <A as Encode<'a>>::spec_parse(s) {
                Err(e) => Err(e),
                Ok((a0, n0)) => {
                    let s1 = s.skip(n0 as int);
                    match <B as Encode<'a>>::spec_parse(s1) {
                        Err(e) => Err(e),
                        Ok((a1, n1)) => {
                            Ok(((a0, a1), n0 + n1))
                        },
                    }
                },
            }
        }),
{
}

/// The encoding of a triple is the encodings of its three items, back to back; decoding
/// one reads the items in turn.
pub proof fn lemma_triple_wire<'a, A: Encode<'a>, B: Encode<'a>, C: Encode<'a>>(v: (<A as DeepView>::V, <B as DeepView>::V, <C as DeepView>::V), s: Seq<u8>)
    ensures
        <(A, B, C) as Encode<'a>>::spec_enc(v) == <A as Encode<'a>>::spec_enc(v.0) + (<B as Encode<'a>>::spec_enc(v.1) + <C as Encode<'a>>::spec_enc(v.2)),
        <(A, B, C) as Encode<'a>>::spec_parse(s) == ({
            match <A as Encode<'a>>::spec_parse(s) {
                Err(e) => Err(e),
                Ok((a0, n0)) => {
                    let s1 = s.skip(n0 as int);
                    match <B as Encode<'a>>::spec_parse(s1) {
                        Err(e) => Err(e),
                        Ok((a1, n1)) => {
                            let s2 = s1.skip(n1 as int);
                            match <C as Encode<'a>>::spec_parse(s2) {
                                Err(e) => Err(e),
                                Ok((a2, n2)) => {
                                    Ok(((a0, a1, a2), n0 + n1 + n2))
                                },
                            }
                        },
                    }
                },
            }
        }),
{
}

impl<'a, A: Encode<'a>, B: Encode<'a>> Encode<'a> for (A, B) {
    closed spec fn spec_enc(v: (<A as DeepView>::V, <B as DeepView>::V)) -> Seq<u8> {
        <A as Encode<'a>>::spec_enc(v.0)
            + <B as Encode<'a>>::spec_enc(v.1)
    }

    closed spec fn spec_parse(s: Seq<u8>) -> Result<((<A as DeepView>::V, <B as DeepView>::V), nat), DecodeError> {
        match <A as Encode<'a>>::spec_parse(s) {
            Err(e) => Err(e),
            Ok((a0, n0)) => {
                let s1 = s.skip(n0 as int);
                match <B as Encode<'a>>::spec_parse(s1) {
                    Err(e) => Err(e),
                    Ok((a1, n1)) => {
                        Ok(((a0, a1), n0 + n1))
                    },
                }
            },
        }
    }

    proof fn lemma_round_trip(x: (A, B), rest: Seq<u8>) {
        let v = x.deep_view();
        let e0 = <A as Encode<'a>>::spec_enc(v.0);
        let e1 = <B as Encode<'a>>::spec_enc(v.1);
        let x1 = e1;
        lemma_split_step(e0, x1, rest);
        <A as Encode<'a>>::lemma_round_trip(x.0, x1 + rest);
        <B as Encode<'a>>::lemma_round_trip(x.1, rest);
    }

    proof fn lemma_prefix_truncated(x: (A, B), k: int) {
        let v = x.deep_view();
        let e0 = <A as Encode<'a>>::spec_enc(v.0);
        let e1 = <B as Encode<'a>>::spec_enc(v.1);
        let x1 = e1;
        let x0 = e0 + x1;
        lemma_take_split(e0, x1, k);
        if k < e0.len() {
            <A as Encode<'a>>::lemma_prefix_truncated(x.0, k);
        } else {
            let k1 = k - e0.len();
            <A as Encode<'a>>::lemma_round_trip(x.0, x1.take(k1));
            <B as Encode<'a>>::lemma_prefix_truncated(x.1, k1);
        }
    }

    fn size(&self) -> (r: usize) {
        let n0 = self.0.size();
        let n1 = self.1.size();
        n0 + n1
    }

    fn encode_at(&self, buf: &mut [u8], pos: usize) -> (r: Result<usize, EncodeError>) {
        let ghost v = self.deep_view();
        let ghost b0 = buf@;
        let p1 = self.0.encode_at(buf, pos)?;
        let ghost b1 = buf@;
        let p2 = self.1.encode_at(buf, p1)?;
        let ghost b2 = buf@;
        proof {
            let e0 = <A as Encode<'a>>::spec_enc(v.0);
            let e1 = <B as Encode<'a>>::spec_enc(v.1);
            let x1 = e1;
            lemma_wrote_then(b0, b1, b2, pos as int, e0, x1, p1, p2);
        }
        Ok(p2)
    }

    fn decode_at(buf: &'a [u8], pos: usize) -> (r: Result<(Self, usize), DecodeError>) {
        let (a0, p1) = <A as Encode<'a>>::decode_at(buf, pos)?;
        proof {
            lemma_skip_skip(buf@, pos as int, p1 as int);
        }
        let (a1, p2) = <B as Encode<'a>>::decode_at(buf, p1)?;
        proof {
            lemma_skip_skip(buf@, p1 as int, p2 as int);
        }
        Ok(((a0, a1), p2))
    }
}

impl<'a, A: Encode<'a>, B: Encode<'a>, C: Encode<'a>> Encode<'a> for (A, B, C) {
    closed spec fn spec_enc(v: (<A as DeepView>::V, <B as DeepView>::V, <C as DeepView>::V)) -> Seq<u8> {
        <A as Encode<'a>>::spec_enc(v.0)
            + (<B as Encode<'a>>::spec_enc(v.1)
            + <C as Encode<'a>>::spec_enc(v.2))
    }

    closed spec fn spec_parse(s: Seq<u8>) -> Result<((<A as DeepView>::V, <B as DeepView>::V, <C as DeepView>::V), nat), DecodeError> {
        match <A as Encode<'a>>::spec_parse(s) {
            Err(e) => Err(e),
            Ok((a0, n0)) => {
                let s1 = s.skip(n0 as int);
                match <B as Encode<'a>>::spec_parse(s1) {
                    Err(e) => Err(e),
                    Ok((a1, n1)) => {
                        let s2 = s1.skip(n1 as int);
                        match <C as Encode<'a>>::spec_parse(s2) {
                            Err(e) => Err(e),
                            Ok((a2, n2)) => {
                                Ok(((a0, a1, a2), n0 + n1 + n2))
                            },
                        }
                    },
                }
            },
        }
    }

    proof fn lemma_round_trip(x: (A, B, C), rest: Seq<u8>) {
        let v = x.deep_view();
        let e0 = <A as Encode<'a>>::spec_enc(v.0);
        let e1 = <B as Encode<'a>>::spec_enc(v.1);
        let e2 = <C as Encode<'a>>::spec_enc(v.2);
        let x2 = e2;
        let x1 = e1 + x2;
        lemma_split_step(e0, x1, rest);
        <A as Encode<'a>>::lemma_round_trip(x.0, x1 + rest);
        lemma_split_step(e1, x2, rest);
        <B as Encode<'a>>::lemma_round_trip(x.1, x2 + rest);
        <C as Encode<'a>>::lemma_round_trip(x.2, rest);
    }

    proof fn lemma_prefix_truncated(x: (A, B, C), k: int) {
        let v = x.deep_view();
        let e0 = <A as Encode<'a>>::spec_enc(v.0);
        let e1 = <B as Encode<'a>>::spec_enc(v.1);
        let e2 = <C as Encode<'a>>::spec_enc(v.2);
        let x2 = e2;
        let x1 = e1 + x2;
        let x0 = e0 + x1;
        lemma_take_split(e0, x1, k);
        if k < e0.len() {
            <A as Encode<'a>>::lemma_prefix_truncated(x.0, k);
        } else {
            let k1 = k - e0.len();
            <A as Encode<'a>>::lemma_round_trip(x.0, x1.take(k1));
            lemma_take_split(e1, x2, k1);
            if k1 < e1.len() {
                <B as Encode<'a>>::lemma_prefix_truncated(x.1, k1);
            } else {
                let k2 = k1 - e1.len();
                <B as Encode<'a>>::lemma_round_trip(x.1, x2.take(k2));
                <C as Encode<'a>>::lemma_prefix_truncated(x.2, k2);
            }
        }
    }

    fn size(&self) -> (r: usize) {
        let n0 = self.0.size();
        let n1 = self.1.size();
        let n2 = self.2.size();
        n0 + n1 + n2
    }

    fn encode_at(&self, buf: &mut [u8], pos: usize) -> (r: Result<usize, EncodeError>) {
        let ghost v = self.deep_view();
        let ghost b0 = buf@;
        let p1 = self.0.encode_at(buf, pos)?;
        let ghost b1 = buf@;
        let p2 = self.1.encode_at(buf, p1)?;
        let ghost b2 = buf@;
        let p3 = self.2.encode_at(buf, p2)?;
        let ghost b3 = buf@;
        proof {
            let e0 = <A as Encode<'a>>::spec_enc(v.0);
            let e1 = <B as Encode<'a>>::spec_enc(v.1);
            let e2 = <C as Encode<'a>>::spec_enc(v.2);
            let x2 = e2;
            let x1 = e1 + x2;
            lemma_wrote_then(b1, b2, b3, p1 as int, e1, x2, p2, p3);
            lemma_wrote_then(b0, b1, b3, pos as int, e0, x1, p1, p3);
        }
        Ok(p3)
    }

    fn decode_at(buf: &'a [u8], pos: usize) -> (r: Result<(Self, usize), DecodeError>) {
        let (a0, p1) = <A as Encode<'a>>::decode_at(buf, pos)?;
        proof {
            lemma_skip_skip(buf@, pos as int, p1 as int);
        }
        let (a1, p2) = <B as Encode<'a>>::decode_at(buf, p1)?;
        proof {
            lemma_skip_skip(buf@, p1 as int, p2 as int);
        }
        let (a2, p3) = <C as Encode<'a>>::decode_at(buf, p2)?;
        proof {
            lemma_skip_skip(buf@, p2 as int, p3 as int);
        }
        Ok(((a0, a1, a2), p3))
    }
}

impl<'a> Encode<'a> for [u8; 2] {
    open spec fn spec_enc(v: Seq<u8>) -> Seq<u8> {
        enc_items::<u8>(v)
    }

    open spec fn spec_parse(s: Seq<u8>) -> Result<(Seq<u8>, nat), DecodeError> {
        parse_items::<u8>(s, 2)
    }

    proof fn lemma_round_trip(x: [u8; 2], rest: Seq<u8>) {
        assert(x.deep_view() =~= models(x@));
        lemma_items_round_trip::<u8>(x@, rest);
    }

    proof fn lemma_prefix_truncated(x: [u8; 2], k: int) {
        assert(x.deep_view() =~= models(x@));
        lemma_items_prefix::<u8>(x@, k);
    }

    fn size(&self) -> (r: usize) {
        assert(self.deep_view() =~= models(self@));
        items_size(self.as_slice())
    }

    fn encode_at(&self, buf: &mut [u8], pos: usize) -> (r: Result<usize, EncodeError>) {
        assert(self.deep_view() =~= models(self@));
        encode_items(self.as_slice(), buf, pos)
    }

    fn decode_at(buf: &'a [u8], pos: usize) -> (r: Result<(Self, usize), DecodeError>) {
        let (xs, end) = decode_items::<u8>(buf, pos, 2)?;
        let a: [u8; 2] = fill_array(&xs);
        assert(a.deep_view() =~= models(xs@));
        Ok((a, end))
    }
}

impl<'a> Encode<'a> for [u8; 4] {
    open spec fn spec_enc(v: Seq<u8>) -> Seq<u8> {
        enc_items::<u8>(v)
    }

    open spec fn spec_parse(s: Seq<u8>) -> Result<(Seq<u8>, nat), DecodeError> {
        parse_items::<u8>(s, 4)
    }

    proof fn lemma_round_trip(x: [u8; 4], rest: Seq<u8>) {
        assert(x.deep_view() =~= models(x@));
        lemma_items_round_trip::<u8>(x@, rest);
    }

    proof fn lemma_prefix_truncated(x: [u8; 4], k: int) {
        assert(x.deep_view() =~= models(x@));
        lemma_items_prefix::<u8>(x@, k);
    }

    fn size(&self) -> (r: usize) {
        assert(self.deep_view() =~= models(self@));
        items_size(self.as_slice())
    }

    fn encode_at(&self, buf: &mut [u8], pos: usize) -> (r: Result<usize, EncodeError>) {
        assert(self.deep_view() =~= models(self@));
        encode_items(self.as_slice(), buf, pos)
    }

    fn decode_at(buf: &'a [u8], pos: usize) -> (r: Result<(Self, usize), DecodeError>) {
        let (xs, end) = decode_items::<u8>(buf, pos, 4)?;
        let a: [u8; 4] = fill_array(&xs);
        assert(a.deep_view() =~= models(xs@));
        Ok((a, end))
    }
}

impl<'a> Encode<'a> for [u8; 6] {
    open spec fn spec_enc(v: Seq<u8>) -> Seq<u8> {
        enc_items::<u8>(v)
    }

    open spec fn spec_parse(s: Seq<u8>) -> Result<(Seq<u8>, nat), DecodeError> {
        parse_items::<u8>(s, 6)
    }

    proof fn lemma_round_trip(x: [u8; 6], rest: Seq<u8>) {
        assert(x.deep_view() =~= models(x@));
        lemma_items_round_trip::<u8>(x@, rest);
    }

    proof fn lemma_prefix_truncated(x: [u8; 6], k: int) {
        assert(x.deep_view() =~= models(x@));
        lemma_items_prefix::<u8>(x@, k);
    }

    fn size(&self) -> (r: usize) {
        assert(self.deep_view() =~= models(self@));
        items_size(self.as_slice())
    }

    fn encode_at(&self, buf: &mut [u8], pos: usize) -> (r: Result<usize, EncodeError>) {
        assert(self.deep_view() =~= models(self@));
        encode_items(self.as_slice(), buf, pos)
    }

    fn decode_at(buf: &'a [u8], pos: usize) -> (r: Result<(Self, usize), DecodeError>) {
        let (xs, end) = decode_items::<u8>(buf, pos, 6)?;
        let a: [u8; 6] = fill_array(&xs);
        assert(a.deep_view() =~= models(xs@));
        Ok((a, end))
    }
}

impl<'a> Encode<'a> for [u32; 4] {
    open spec fn spec_enc(v: Seq<u32>) -> Seq<u8> {
        enc_items::<u32>(v)
    }

    open spec fn spec_parse(s: Seq<u8>) -> Result<(Seq<u32>, nat), DecodeError> {
        parse_items::<u32>(s, 4)
    }

    proof fn lemma_round_trip(x: [u32; 4], rest: Seq<u8>) {
        assert(x.deep_view() =~= models(x@));
        lemma_items_round_trip::<u32>(x@, rest);
    }

    proof fn lemma_prefix_truncated(x: [u32; 4], k: int) {
        assert(x.deep_view() =~= models(x@));
        lemma_items_prefix::<u32>(x@, k);
    }

    fn size(&self) -> (r: usize) {
        assert(self.deep_view() =~= models(self@));
        items_size(self.as_slice())
    }

    fn encode_at(&self, buf: &mut [u8], pos: usize) -> (r: Result<usize, EncodeError>) {
        assert(self.deep_view() =~= models(self@));
        encode_items(self.as_slice(), buf, pos)
    }

    fn decode_at(buf: &'a [u8], pos: usize) -> (r: Result<(Self, usize), DecodeError>) {
        let (xs, end) = decode_items::<u32>(buf, pos, 4)?;
        let a: [u32; 4] = fill_array(&xs);
        assert(a.deep_view() =~= models(xs@));
        Ok((a, end))
    }
}

impl<'a> Encode<'a> for [i16; 8] {
    open spec fn spec_enc(v: Seq<i16>) -> Seq<u8> {
        enc_items::<i16>(v)
    }

    open spec fn spec_parse(s: Seq<u8>) -> Result<(Seq<i16>, nat), DecodeError> {
        parse_items::<i16>(s, 8)
    }

    proof fn lemma_round_trip(x: [i16; 8], rest: Seq<u8>) {
        assert(x.deep_view() =~= models(x@));
        lemma_items_round_trip::<i16>(x@, rest);
    }

    proof fn lemma_prefix_truncated(x: [i16; 8], k: int) {
        assert(x.deep_view() =~= models(x@));
        lemma_items_prefix::<i16>(x@, k);
    }

    fn size(&self) -> (r: usize) {
        assert(self.deep_view() =~= models(self@));
        items_size(self.as_slice())
    }

    fn encode_at(&self, buf: &mut [u8], pos: usize) -> (r: Result<usize, EncodeError>) {
        assert(self.deep_view() =~= models(self@));
        encode_items(self.as_slice(), buf, pos)
    }

    fn decode_at(buf: &'a [u8], pos: usize) -> (r: Result<(Self, usize), DecodeError>) {
        let (xs, end) = decode_items::<i16>(buf, pos, 8)?;
        let a: [i16; 8] = fill_array(&xs);
        assert(a.deep_view() =~= models(xs@));
        Ok((a, end))
    }
}

} // verus!
