//! Achievements ("badges") that an app declares.

use vstd::prelude::*;
use vstd::string::StringSliceAdditionalSpecFns;
use crate::wire::{
    lemma_skip_skip, lemma_split_step, lemma_take_split, lemma_wrote_then, DecodeError, Encode,
    EncodeError,
};

verus! {

/// Why a badge was rejected.
#[derive(Clone, Copy, Debug, PartialEq, Eq, Structural)]
pub enum BadgeValidationError {
    EmptyName,
    NameTooLong,
    DescrTooLong,
    TooMuchXp,
}

impl BadgeValidationError {
    /// A human-readable description of the error.
    #[must_use]
    pub fn as_str(&self) -> (r: &'static str)
        ensures
            r@ == match self {
                BadgeValidationError::EmptyName => "name must not be empty"@,
                BadgeValidationError::NameTooLong => "name is too long"@,
                BadgeValidationError::DescrTooLong => "descr is too long"@,
                BadgeValidationError::TooMuchXp => "one badge cannot reward more than 200 XP"@,
            },
    {
        match self {
            BadgeValidationError::EmptyName => "name must not be empty",
            BadgeValidationError::NameTooLong => "name is too long",
            BadgeValidationError::DescrTooLong => "descr is too long",
            BadgeValidationError::TooMuchXp => "one badge cannot reward more than 200 XP",
        }
    }
}

/// The badges of an app, in the order in which unearned badges are shown.
#[derive(Clone, Debug, PartialEq, Eq)]
pub struct Badges<'a> {
    /// Detailed information about achievements.
    pub badges: Vec<Badge<'a>>,
}

impl<'a> Badges<'a> {
    #[must_use]
    pub fn new(badges: Vec<Badge<'a>>) -> (r: Self)
        ensures
            r.badges == badges,
    {
        Self { badges }
    }
}

#[derive(Clone, Debug, PartialEq, Eq)]
pub struct Badge<'a> {
    /// The order in which badges should be displayed, ascending.
    ///
    /// Earned badges bubble up.
    pub position: u16,
    /// How much XP earning the badge brings to the player.
    pub xp: u8,
    /// The number of steps required for the badge to be shown.
    ///
    /// If zero, the badge is always shown. If equal to the number of steps
    /// required to earn the badge, the badge is shown only when earned.
    pub hidden: u16,
    /// Human-readable badge name.
    pub name: &'a str,
    /// Human-readable badge description. Typically, a hint on how to earn it.
    pub descr: &'a str,
}

/// The most bytes a badge or board name may have.
pub const MAX_NAME_LEN: usize = 64;

/// The most bytes a badge description may have.
pub const MAX_DESCR_LEN: usize = 256;

/// The most XP that one badge may reward.
pub const MAX_BADGE_XP: u8 = 200;

/// The outcome of badge validation, rules in order.
pub open spec fn badge_verdict(name: Seq<u8>, descr: Seq<u8>, xp: u8) -> Result<
    (),
    BadgeValidationError,
> {
    if name.len() == 0 {
        Err(BadgeValidationError::EmptyName)
    } else if name.len() > MAX_NAME_LEN {
        Err(BadgeValidationError::NameTooLong)
    } else if descr.len() > MAX_DESCR_LEN {
        Err(BadgeValidationError::DescrTooLong)
    } else if xp > MAX_BADGE_XP {
        Err(BadgeValidationError::TooMuchXp)
    } else {
        Ok(())
    }
}

impl<'a> Badge<'a> {
    /// Validate badge attributes: a name of 1 to 64 bytes, a description of
    /// at most 256 bytes, and at most 200 XP.
    pub fn validate(&self) -> (r: Result<(), BadgeValidationError>)
        ensures
            r == badge_verdict(self.name.spec_bytes(), self.descr.spec_bytes(), self.xp),
    {
        let name_len = self.name.as_bytes().len();
        if name_len == 0 {
            return Err(BadgeValidationError::EmptyName);
        }
        if name_len > MAX_NAME_LEN {
            return Err(BadgeValidationError::NameTooLong);
        }
        if self.descr.as_bytes().len() > MAX_DESCR_LEN {
            return Err(BadgeValidationError::DescrTooLong);
        }
        if self.xp > MAX_BADGE_XP {
            return Err(BadgeValidationError::TooMuchXp);
        }
        Ok(())
    }
}

/// The model of a [`Badges`].
pub ghost struct BadgesModel {
    pub badges: Seq<BadgeModel>,
}

impl<'a> DeepView for Badges<'a> {
    type V = BadgesModel;

    open spec fn deep_view(&self) -> BadgesModel {
        BadgesModel {
            badges: self.badges.deep_view(),
        }
    }
}

impl<'a> Encode<'a> for Badges<'a> {
    open spec fn spec_enc(v: BadgesModel) -> Seq<u8> {
        <Vec<Badge<'a>> as Encode<'a>>::spec_enc(v.badges)
    }

    open spec fn spec_parse(s: Seq<u8>) -> Result<(BadgesModel, nat), DecodeError> {
        match <Vec<Badge<'a>> as Encode<'a>>::spec_parse(s) {
            Err(e) => Err(e),
            Ok((badges, n0)) => {
                Ok((BadgesModel { badges }, n0))
            },
        }
    }

    proof fn lemma_round_trip(x: Badges<'a>, rest: Seq<u8>) {
        let v = x.deep_view();
        <Vec<Badge<'a>> as Encode<'a>>::lemma_round_trip(x.badges, rest);
    }

    proof fn lemma_prefix_truncated(x: Badges<'a>, k: int) {
        <Vec<Badge<'a>> as Encode<'a>>::lemma_prefix_truncated(x.badges, k);
    }

    fn size(&self) -> (r: usize) {
        self.badges.size()
    }

    fn encode_at(&self, buf: &mut [u8], pos: usize) -> (r: Result<usize, EncodeError>) {
        self.badges.encode_at(buf, pos)
    }

    fn decode_at(buf: &'a [u8], pos: usize) -> (r: Result<(Self, usize), DecodeError>) {
        let (badges, p1) = <Vec<Badge<'a>> as Encode<'a>>::decode_at(buf, pos)?;
        proof {
            lemma_skip_skip(buf@, pos as int, p1 as int);
        }
        Ok((Badges { badges }, p1))
    }
}

/// The model of a [`Badge`].
pub ghost struct BadgeModel {
    pub position: u16,
    pub xp: u8,
    pub hidden: u16,
    pub name: Seq<char>,
    pub descr: Seq<char>,
}

impl<'a> DeepView for Badge<'a> {
    type V = BadgeModel;

    open spec fn deep_view(&self) -> BadgeModel {
        BadgeModel {
            position: self.position,
            xp: self.xp,
            hidden: self.hidden,
            name: self.name.deep_view(),
            descr: self.descr.deep_view(),
        }
    }
}

impl<'a> Encode<'a> for Badge<'a> {
    open spec fn spec_enc(v: BadgeModel) -> Seq<u8> {
        <u16 as Encode<'a>>::spec_enc(v.position)
            + (<u8 as Encode<'a>>::spec_enc(v.xp)
            + (<u16 as Encode<'a>>::spec_enc(v.hidden)
            + (<&'a str as Encode<'a>>::spec_enc(v.name)
            + <&'a str as Encode<'a>>::spec_enc(v.descr))))
    }

    open spec fn spec_parse(s: Seq<u8>) -> Result<(BadgeModel, nat), DecodeError> {
        match <u16 as Encode<'a>>::spec_parse(s) {
            Err(e) => Err(e),
            Ok((position, n0)) => {
                let s1 = s.skip(n0 as int);
                match <u8 as Encode<'a>>::spec_parse(s1) {
                    Err(e) => Err(e),
                    Ok((xp, n1)) => {
                        let s2 = s1.skip(n1 as int);
                        match <u16 as Encode<'a>>::spec_parse(s2) {
                            Err(e) => Err(e),
                            Ok((hidden, n2)) => {
                                let s3 = s2.skip(n2 as int);
                                match <&'a str as Encode<'a>>::spec_parse(s3) {
                                    Err(e) => Err(e),
                                    Ok((name, n3)) => {
                                        let s4 = s3.skip(n3 as int);
                                        match <&'a str as Encode<'a>>::spec_parse(s4) {
                                            Err(e) => Err(e),
                                            Ok((descr, n4)) => {
                                                Ok((BadgeModel { position, xp, hidden, name, descr }, n0 + n1 + n2 + n3 + n4))
                                            },
                                        }
                                    },
                                }
                            },
                        }
                    },
                }
            },
        }
    }

    proof fn lemma_round_trip(x: Badge<'a>, rest: Seq<u8>) {
        let v = x.deep_view();
        let e0 = <u16 as Encode<'a>>::spec_enc(v.position);
        let e1 = <u8 as Encode<'a>>::spec_enc(v.xp);
        let e2 = <u16 as Encode<'a>>::spec_enc(v.hidden);
        let e3 = <&'a str as Encode<'a>>::spec_enc(v.name);
        let e4 = <&'a str as Encode<'a>>::spec_enc(v.descr);
        let x4 = e4;
        let x3 = e3 + x4;
        let x2 = e2 + x3;
        let x1 = e1 + x2;
        lemma_split_step(e0, x1, rest);
        <u16 as Encode<'a>>::lemma_round_trip(x.position, x1 + rest);
        lemma_split_step(e1, x2, rest);
        <u8 as Encode<'a>>::lemma_round_trip(x.xp, x2 + rest);
        lemma_split_step(e2, x3, rest);
        <u16 as Encode<'a>>::lemma_round_trip(x.hidden, x3 + rest);
        lemma_split_step(e3, x4, rest);
        <&'a str as Encode<'a>>::lemma_round_trip(x.name, x4 + rest);
        <&'a str as Encode<'a>>::lemma_round_trip(x.descr, rest);
    }

    proof fn lemma_prefix_truncated(x: Badge<'a>, k: int) {
        let v = x.deep_view();
        let e0 = <u16 as Encode<'a>>::spec_enc(v.position);
        let e1 = <u8 as Encode<'a>>::spec_enc(v.xp);
        let e2 = <u16 as Encode<'a>>::spec_enc(v.hidden);
        let e3 = <&'a str as Encode<'a>>::spec_enc(v.name);
        let e4 = <&'a str as Encode<'a>>::spec_enc(v.descr);
        let x4 = e4;
        let x3 = e3 + x4;
        let x2 = e2 + x3;
        let x1 = e1 + x2;
        let x0 = e0 + x1;
        lemma_take_split(e0, x1, k);
        if k < e0.len() {
            <u16 as Encode<'a>>::lemma_prefix_truncated(x.position, k);
        } else {
            let k1 = k - e0.len();
            <u16 as Encode<'a>>::lemma_round_trip(x.position, x1.take(k1));
            lemma_take_split(e1, x2, k1);
            if k1 < e1.len() {
                <u8 as Encode<'a>>::lemma_prefix_truncated(x.xp, k1);
            } else {
                let k2 = k1 - e1.len();
                <u8 as Encode<'a>>::lemma_round_trip(x.xp, x2.take(k2));
                lemma_take_split(e2, x3, k2);
                if k2 < e2.len() {
                    <u16 as Encode<'a>>::lemma_prefix_truncated(x.hidden, k2);
                } else {
                    let k3 = k2 - e2.len();
                    <u16 as Encode<'a>>::lemma_round_trip(x.hidden, x3.take(k3));
                    lemma_take_split(e3, x4, k3);
                    if k3 < e3.len() {
                        <&'a str as Encode<'a>>::lemma_prefix_truncated(x.name, k3);
                    } else {
                        let k4 = k3 - e3.len();
                        <&'a str as Encode<'a>>::lemma_round_trip(x.name, x4.take(k4));
                        <&'a str as Encode<'a>>::lemma_prefix_truncated(x.descr, k4);
                    }
                }
            }
        }
    }

    fn size(&self) -> (r: usize) {
        let n0 = self.position.size();
        let n1 = self.xp.size();
        let n2 = self.hidden.size();
        let n3 = self.name.size();
        let n4 = self.descr.size();
        n0 + n1 + n2 + n3 + n4
    }

    fn encode_at(&self, buf: &mut [u8], pos: usize) -> (r: Result<usize, EncodeError>) {
        let ghost v = self.deep_view();
        let ghost b0 = buf@;
        let p1 = self.position.encode_at(buf, pos)?;
        let ghost b1 = buf@;
        let p2 = self.xp.encode_at(buf, p1)?;
        let ghost b2 = buf@;
        let p3 = self.hidden.encode_at(buf, p2)?;
        let ghost b3 = buf@;
        let p4 = self.name.encode_at(buf, p3)?;
        let ghost b4 = buf@;
        let p5 = self.descr.encode_at(buf, p4)?;
        let ghost b5 = buf@;
        proof {
            let e0 = <u16 as Encode<'a>>::spec_enc(v.position);
            let e1 = <u8 as Encode<'a>>::spec_enc(v.xp);
            let e2 = <u16 as Encode<'a>>::spec_enc(v.hidden);
            let e3 = <&'a str as Encode<'a>>::spec_enc(v.name);
            let e4 = <&'a str as Encode<'a>>::spec_enc(v.descr);
            let x4 = e4;
            let x3 = e3 + x4;
            lemma_wrote_then(b3, b4, b5, p3 as int, e3, x4, p4, p5);
            let x2 = e2 + x3;
            lemma_wrote_then(b2, b3, b5, p2 as int, e2, x3, p3, p5);
            let x1 = e1 + x2;
            lemma_wrote_then(b1, b2, b5, p1 as int, e1, x2, p2, p5);
            lemma_wrote_then(b0, b1, b5, pos as int, e0, x1, p1, p5);
        }
        Ok(p5)
    }

    fn decode_at(buf: &'a [u8], pos: usize) -> (r: Result<(Self, usize), DecodeError>) {
        let (position, p1) = <u16 as Encode<'a>>::decode_at(buf, pos)?;
        proof {
            lemma_skip_skip(buf@, pos as int, p1 as int);
        }
        let (xp, p2) = <u8 as Encode<'a>>::decode_at(buf, p1)?;
        proof {
            lemma_skip_skip(buf@, p1 as int, p2 as int);
        }
        let (hidden, p3) = <u16 as Encode<'a>>::decode_at(buf, p2)?;
        proof {
            lemma_skip_skip(buf@, p2 as int, p3 as int);
        }
        let (name, p4) = <&'a str as Encode<'a>>::decode_at(buf, p3)?;
        proof {
            lemma_skip_skip(buf@, p3 as int, p4 as int);
        }
        let (descr, p5) = <&'a str as Encode<'a>>::decode_at(buf, p4)?;
        proof {
            lemma_skip_skip(buf@, p4 as int, p5 as int);
        }
        Ok((Badge { position, xp, hidden, name, descr }, p5))
    }
}

} // verus!
