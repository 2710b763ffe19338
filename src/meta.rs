//! Identity metadata of an app.

use vstd::prelude::*;
use crate::wire::{
    lemma_skip_skip, lemma_split_step, lemma_take_split, lemma_wrote_then, wrote_to, DecodeError,
    Encode, EncodeError,
};

verus! {

/// Who an app is and who made it, as written in the app's metadata file.
#[derive(Clone, Debug, PartialEq, Eq)]
pub struct Meta<'a> {
    pub app_id: &'a str,
    pub app_name: &'a str,
    pub author_id: &'a str,
    pub author_name: &'a str,
    /// If the app is a launcher: it may list and start other apps.
    pub launcher: bool,
    /// If the app is privileged: it may access the files of other apps.
    pub sudo: bool,
    /// The build version, which grows with each release.
    pub version: u32,
}

/// The IDs of an app and of its author, where the full metadata is not
/// needed.
#[derive(Clone, Debug, PartialEq, Eq)]
pub struct ShortMeta<'a> {
    pub app_id: &'a str,
    pub author_id: &'a str,
}

impl<'a> Meta<'a> {
    /// Decode the metadata from the start of `s`.
    pub fn decode(s: &'a [u8]) -> (r: Result<Self, DecodeError>)
        ensures
            match r {
                Ok(v) => Self::spec_parse(s@) matches Ok((m, _)) && m == v.deep_view(),
                Err(e) => Self::spec_parse(s@) == Err::<(MetaModel, nat), DecodeError>(e),
            },
    {
        <Self as Encode<'a>>::decode(s)
    }

    /// Encode the metadata into the start of `buf`, and return the number of
    /// bytes written.
    ///
    /// The caller supplies the buffer so that nothing is allocated here: use
    /// [`Meta::size`] to learn how long it must be.
    pub fn encode(&self, buf: &mut [u8]) -> (r: Result<usize, EncodeError>)
        ensures
            wrote_to(old(buf)@, final(buf)@, 0, Self::spec_enc(self.deep_view()), r),
    {
        <Self as Encode<'a>>::encode(self, buf)
    }

    /// The buffer size required to encode the metadata.
    pub fn size(&self) -> (r: usize)
        requires
            Self::spec_enc(self.deep_view()).len() <= usize::MAX,
        ensures
            r == Self::spec_enc(self.deep_view()).len(),
    {
        <Self as Encode<'a>>::size(self)
    }
}

/// The model of a [`Meta`].
pub ghost struct MetaModel {
    pub app_id: Seq<char>,
    pub app_name: Seq<char>,
    pub author_id: Seq<char>,
    pub author_name: Seq<char>,
    pub launcher: bool,
    pub sudo: bool,
    pub version: u32,
}

impl<'a> DeepView for Meta<'a> {
    type V = MetaModel;

    open spec fn deep_view(&self) -> MetaModel {
        MetaModel {
            app_id: self.app_id.deep_view(),
            app_name: self.app_name.deep_view(),
            author_id: self.author_id.deep_view(),
            author_name: self.author_name.deep_view(),
            launcher: self.launcher,
            sudo: self.sudo,
            version: self.version,
        }
    }
}

impl<'a> Encode<'a> for Meta<'a> {
    open spec fn spec_enc(v: MetaModel) -> Seq<u8> {
        <&'a str as Encode<'a>>::spec_enc(v.app_id)
            + (<&'a str as Encode<'a>>::spec_enc(v.app_name)
            + (<&'a str as Encode<'a>>::spec_enc(v.author_id)
            + (<&'a str as Encode<'a>>::spec_enc(v.author_name)
            + (<bool as Encode<'a>>::spec_enc(v.launcher)
            + (<bool as Encode<'a>>::spec_enc(v.sudo)
            + <u32 as Encode<'a>>::spec_enc(v.version))))))
    }

    open spec fn spec_parse(s: Seq<u8>) -> Result<(MetaModel, nat), DecodeError> {
        match <&'a str as Encode<'a>>::spec_parse(s) {
            Err(e) => Err(e),
            Ok((app_id, n0)) => {
                let s1 = s.skip(n0 as int);
                match <&'a str as Encode<'a>>::spec_parse(s1) {
                    Err(e) => Err(e),
                    Ok((app_name, n1)) => {
                        let s2 = s1.skip(n1 as int);
                        match <&'a str as Encode<'a>>::spec_parse(s2) {
                            Err(e) => Err(e),
                            Ok((author_id, n2)) => {
                                let s3 = s2.skip(n2 as int);
                                match <&'a str as Encode<'a>>::spec_parse(s3) {
                                    Err(e) => Err(e),
                                    Ok((author_name, n3)) => {
                                        let s4 = s3.skip(n3 as int);
                                        match <bool as Encode<'a>>::spec_parse(s4) {
                                            Err(e) => Err(e),
                                            Ok((launcher, n4)) => {
                                                let s5 = s4.skip(n4 as int);
                                                match <bool as Encode<'a>>::spec_parse(s5) {
                                                    Err(e) => Err(e),
                                                    Ok((sudo, n5)) => {
                                                        let s6 = s5.skip(n5 as int);
                                                        match <u32 as Encode<'a>>::spec_parse(s6) {
                                                            Err(e) => Err(e),
                                                            Ok((version, n6)) => {
                                                                Ok((MetaModel { app_id, app_name, author_id, author_name, launcher, sudo, version }, n0 + n1 + n2 + n3 + n4 + n5 + n6))
                                                            },
                                                        }
                                                    },
                                                }
                                            },
                                        }
                                    },
                                }
                            },
                        }
                    },
                }
            },
        }
    }

    proof fn lemma_round_trip(x: Meta<'a>, rest: Seq<u8>) {
        let v = x.deep_view();
        let e0 = <&'a str as Encode<'a>>::spec_enc(v.app_id);
        let e1 = <&'a str as Encode<'a>>::spec_enc(v.app_name);
        let e2 = <&'a str as Encode<'a>>::spec_enc(v.author_id);
        let e3 = <&'a str as Encode<'a>>::spec_enc(v.author_name);
        let e4 = <bool as Encode<'a>>::spec_enc(v.launcher);
        let e5 = <bool as Encode<'a>>::spec_enc(v.sudo);
        let e6 = <u32 as Encode<'a>>::spec_enc(v.version);
        let x6 = e6;
        let x5 = e5 + x6;
        let x4 = e4 + x5;
        let x3 = e3 + x4;
        let x2 = e2 + x3;
        let x1 = e1 + x2;
        lemma_split_step(e0, x1, rest);
        <&'a str as Encode<'a>>::lemma_round_trip(x.app_id, x1 + rest);
        lemma_split_step(e1, x2, rest);
        <&'a str as Encode<'a>>::lemma_round_trip(x.app_name, x2 + rest);
        lemma_split_step(e2, x3, rest);
        <&'a str as Encode<'a>>::lemma_round_trip(x.author_id, x3 + rest);
        lemma_split_step(e3, x4, rest);
        <&'a str as Encode<'a>>::lemma_round_trip(x.author_name, x4 + rest);
        lemma_split_step(e4, x5, rest);
        <bool as Encode<'a>>::lemma_round_trip(x.launcher, x5 + rest);
        lemma_split_step(e5, x6, rest);
        <bool as Encode<'a>>::lemma_round_trip(x.sudo, x6 + rest);
        <u32 as Encode<'a>>::lemma_round_trip(x.version, rest);
    }

    proof fn lemma_prefix_truncated(x: Meta<'a>, k: int) {
        let v = x.deep_view();
        let e0 = <&'a str as Encode<'a>>::spec_enc(v.app_id);
        let e1 = <&'a str as Encode<'a>>::spec_enc(v.app_name);
        let e2 = <&'a str as Encode<'a>>::spec_enc(v.author_id);
        let e3 = <&'a str as Encode<'a>>::spec_enc(v.author_name);
        let e4 = <bool as Encode<'a>>::spec_enc(v.launcher);
        let e5 = <bool as Encode<'a>>::spec_enc(v.sudo);
        let e6 = <u32 as Encode<'a>>::spec_enc(v.version);
        let x6 = e6;
        let x5 = e5 + x6;
        let x4 = e4 + x5;
        let x3 = e3 + x4;
        let x2 = e2 + x3;
        let x1 = e1 + x2;
        let x0 = e0 + x1;
        lemma_take_split(e0, x1, k);
        if k < e0.len() {
            <&'a str as Encode<'a>>::lemma_prefix_truncated(x.app_id, k);
        } else {
            let k1 = k - e0.len();
            <&'a str as Encode<'a>>::lemma_round_trip(x.app_id, x1.take(k1));
            lemma_take_split(e1, x2, k1);
            if k1 < e1.len() {
                <&'a str as Encode<'a>>::lemma_prefix_truncated(x.app_name, k1);
            } else {
                let k2 = k1 - e1.len();
                <&'a str as Encode<'a>>::lemma_round_trip(x.app_name, x2.take(k2));
                lemma_take_split(e2, x3, k2);
                if k2 < e2.len() {
                    <&'a str as Encode<'a>>::lemma_prefix_truncated(x.author_id, k2);
                } else {
                    let k3 = k2 - e2.len();
                    <&'a str as Encode<'a>>::lemma_round_trip(x.author_id, x3.take(k3));
                    lemma_take_split(e3, x4, k3);
                    if k3 < e3.len() {
                        <&'a str as Encode<'a>>::lemma_prefix_truncated(x.author_name, k3);
                    } else {
                        let k4 = k3 - e3.len();
                        <&'a str as Encode<'a>>::lemma_round_trip(x.author_name, x4.take(k4));
                        lemma_take_split(e4, x5, k4);
                        if k4 < e4.len() {
                            <bool as Encode<'a>>::lemma_prefix_truncated(x.launcher, k4);
                        } else {
                            let k5 = k4 - e4.len();
                            <bool as Encode<'a>>::lemma_round_trip(x.launcher, x5.take(k5));
                            lemma_take_split(e5, x6, k5);
                            if k5 < e5.len() {
                                <bool as Encode<'a>>::lemma_prefix_truncated(x.sudo, k5);
                            } else {
                                let k6 = k5 - e5.len();
                                <bool as Encode<'a>>::lemma_round_trip(x.sudo, x6.take(k6));
                                <u32 as Encode<'a>>::lemma_prefix_truncated(x.version, k6);
                            }
                        }
                    }
                }
            }
        }
    }

    fn size(&self) -> (r: usize) {
        let n0 = self.app_id.size();
        let n1 = self.app_name.size();
        let n2 = self.author_id.size();
        let n3 = self.author_name.size();
        let n4 = self.launcher.size();
        let n5 = self.sudo.size();
        let n6 = self.version.size();
        n0 + n1 + n2 + n3 + n4 + n5 + n6
    }

    fn encode_at(&self, buf: &mut [u8], pos: usize) -> (r: Result<usize, EncodeError>) {
        let ghost v = self.deep_view();
        let ghost b0 = buf@;
        let p1 = self.app_id.encode_at(buf, pos)?;
        let ghost b1 = buf@;
        let p2 = self.app_name.encode_at(buf, p1)?;
        let ghost b2 = buf@;
        let p3 = self.author_id.encode_at(buf, p2)?;
        let ghost b3 = buf@;
        let p4 = self.author_name.encode_at(buf, p3)?;
        let ghost b4 = buf@;
        let p5 = self.launcher.encode_at(buf, p4)?;
        let ghost b5 = buf@;
        let p6 = self.sudo.encode_at(buf, p5)?;
        let ghost b6 = buf@;
        let p7 = self.version.encode_at(buf, p6)?;
        let ghost b7 = buf@;
        proof {
            let e0 = <&'a str as Encode<'a>>::spec_enc(v.app_id);
            let e1 = <&'a str as Encode<'a>>::spec_enc(v.app_name);
            let e2 = <&'a str as Encode<'a>>::spec_enc(v.author_id);
            let e3 = <&'a str as Encode<'a>>::spec_enc(v.author_name);
            let e4 = <bool as Encode<'a>>::spec_enc(v.launcher);
            let e5 = <bool as Encode<'a>>::spec_enc(v.sudo);
            let e6 = <u32 as Encode<'a>>::spec_enc(v.version);
            let x6 = e6;
            let x5 = e5 + x6;
            lemma_wrote_then(b5, b6, b7, p5 as int, e5, x6, p6, p7);
            let x4 = e4 + x5;
            lemma_wrote_then(b4, b5, b7, p4 as int, e4, x5, p5, p7);
            let x3 = e3 + x4;
            lemma_wrote_then(b3, b4, b7, p3 as int, e3, x4, p4, p7);
            let x2 = e2 + x3;
            lemma_wrote_then(b2, b3, b7, p2 as int, e2, x3, p3, p7);
            let x1 = e1 + x2;
            lemma_wrote_then(b1, b2, b7, p1 as int, e1, x2, p2, p7);
            lemma_wrote_then(b0, b1, b7, pos as int, e0, x1, p1, p7);
        }
        Ok(p7)
    }

    fn decode_at(buf: &'a [u8], pos: usize) -> (r: Result<(Self, usize), DecodeError>) {
        let (app_id, p1) = <&'a str as Encode<'a>>::decode_at(buf, pos)?;
        proof {
            lemma_skip_skip(buf@, pos as int, p1 as int);
        }
        let (app_name, p2) = <&'a str as Encode<'a>>::decode_at(buf, p1)?;
        proof {
            lemma_skip_skip(buf@, p1 as int, p2 as int);
        }
        let (author_id, p3) = <&'a str as Encode<'a>>::decode_at(buf, p2)?;
        proof {
            lemma_skip_skip(buf@, p2 as int, p3 as int);
        }
        let (author_name, p4) = <&'a str as Encode<'a>>::decode_at(buf, p3)?;
        proof {
            lemma_skip_skip(buf@, p3 as int, p4 as int);
        }
        let (launcher, p5) = <bool as Encode<'a>>::decode_at(buf, p4)?;
        proof {
            lemma_skip_skip(buf@, p4 as int, p5 as int);
        }
        let (sudo, p6) = <bool as Encode<'a>>::decode_at(buf, p5)?;
        proof {
            lemma_skip_skip(buf@, p5 as int, p6 as int);
        }
        let (version, p7) = <u32 as Encode<'a>>::decode_at(buf, p6)?;
        proof {
            lemma_skip_skip(buf@, p6 as int, p7 as int);
        }
        Ok((Meta { app_id, app_name, author_id, author_name, launcher, sudo, version }, p7))
    }
}

/// The model of a [`ShortMeta`].
pub ghost struct ShortMetaModel {
    pub app_id: Seq<char>,
    pub author_id: Seq<char>,
}

impl<'a> DeepView for ShortMeta<'a> {
    type V = ShortMetaModel;

    open spec fn deep_view(&self) -> ShortMetaModel {
        ShortMetaModel {
            app_id: self.app_id.deep_view(),
            author_id: self.author_id.deep_view(),
        }
    }
}

impl<'a> Encode<'a> for ShortMeta<'a> {
    open spec fn spec_enc(v: ShortMetaModel) -> Seq<u8> {
        <&'a str as Encode<'a>>::spec_enc(v.app_id)
            + <&'a str as Encode<'a>>::spec_enc(v.author_id)
    }

    open spec fn spec_parse(s: Seq<u8>) -> Result<(ShortMetaModel, nat), DecodeError> {
        match <&'a str as Encode<'a>>::spec_parse(s) {
            Err(e) => Err(e),
            Ok((app_id, n0)) => {
                let s1 = s.skip(n0 as int);
                match <&'a str as Encode<'a>>::spec_parse(s1) {
                    Err(e) => Err(e),
                    Ok((author_id, n1)) => {
                        Ok((ShortMetaModel { app_id, author_id }, n0 + n1))
                    },
                }
            },
        }
    }

    proof fn lemma_round_trip(x: ShortMeta<'a>, rest: Seq<u8>) {
        let v = x.deep_view();
        let e0 = <&'a str as Encode<'a>>::spec_enc(v.app_id);
        let e1 = <&'a str as Encode<'a>>::spec_enc(v.author_id);
        let x1 = e1;
        lemma_split_step(e0, x1, rest);
        <&'a str as Encode<'a>>::lemma_round_trip(x.app_id, x1 + rest);
        <&'a str as Encode<'a>>::lemma_round_trip(x.author_id, rest);
    }

    proof fn lemma_prefix_truncated(x: ShortMeta<'a>, k: int) {
        let v = x.deep_view();
        let e0 = <&'a str as Encode<'a>>::spec_enc(v.app_id);
        let e1 = <&'a str as Encode<'a>>::spec_enc(v.author_id);
        let x1 = e1;
        let x0 = e0 + x1;
        lemma_take_split(e0, x1, k);
        if k < e0.len() {
            <&'a str as Encode<'a>>::lemma_prefix_truncated(x.app_id, k);
        } else {
            let k1 = k - e0.len();
            <&'a str as Encode<'a>>::lemma_round_trip(x.app_id, x1.take(k1));
            <&'a str as Encode<'a>>::lemma_prefix_truncated(x.author_id, k1);
        }
    }

    fn size(&self) -> (r: usize) {
        let n0 = self.app_id.size();
        let n1 = self.author_id.size();
        n0 + n1
    }

    fn encode_at(&self, buf: &mut [u8], pos: usize) -> (r: Result<usize, EncodeError>) {
        let ghost v = self.deep_view();
        let ghost b0 = buf@;
        let p1 = self.app_id.encode_at(buf, pos)?;
        let ghost b1 = buf@;
        let p2 = self.author_id.encode_at(buf, p1)?;
        let ghost b2 = buf@;
        proof {
            let e0 = <&'a str as Encode<'a>>::spec_enc(v.app_id);
            let e1 = <&'a str as Encode<'a>>::spec_enc(v.author_id);
            let x1 = e1;
            lemma_wrote_then(b0, b1, b2, pos as int, e0, x1, p1, p2);
        }
        Ok(p2)
    }

    fn decode_at(buf: &'a [u8], pos: usize) -> (r: Result<(Self, usize), DecodeError>) {
        let (app_id, p1) = <&'a str as Encode<'a>>::decode_at(buf, pos)?;
        proof {
            lemma_skip_skip(buf@, pos as int, p1 as int);
        }
        let (author_id, p2) = <&'a str as Encode<'a>>::decode_at(buf, p1)?;
        proof {
            lemma_skip_skip(buf@, p1 as int, p2 as int);
        }
        Ok((ShortMeta { app_id, author_id }, p2))
    }
}

} // verus!
