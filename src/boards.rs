//! Leaderboards that an app declares.

use vstd::prelude::*;
use vstd::string::StringSliceAdditionalSpecFns;
use crate::badges::MAX_NAME_LEN;
use crate::wire::{
    lemma_skip_skip, lemma_split_step, lemma_take_split, lemma_wrote_then, DecodeError, Encode,
    EncodeError,
};

verus! {

/// Why a board was rejected.
#[derive(Clone, Copy, Debug, PartialEq, Eq, Structural)]
pub enum BoardValidationError {
    EmptyName,
    NameTooLong,
    MinGtMax,
}

impl BoardValidationError {
    /// A human-readable description of the error.
    #[must_use]
    pub fn as_str(&self) -> (r: &'static str)
        ensures
            r@ == match self {
                BoardValidationError::EmptyName => "name must not be empty"@,
                BoardValidationError::NameTooLong => "name is too long"@,
                BoardValidationError::MinGtMax => "min must be less than or equal to max"@,
            },
    {
        match self {
            BoardValidationError::EmptyName => "name must not be empty",
            BoardValidationError::NameTooLong => "name is too long",
            BoardValidationError::MinGtMax => "min must be less than or equal to max",
        }
    }
}

/// The boards of an app.
#[derive(Clone, Debug, PartialEq, Eq)]
pub struct Boards<'a> {
    pub boards: Vec<Board<'a>>,
}

impl<'a> Boards<'a> {
    #[must_use]
    pub fn new(boards: Vec<Board<'a>>) -> (r: Self)
        ensures
            r.boards == boards,
    {
        Self { boards }
    }
}

#[derive(Clone, Debug, PartialEq, Eq)]
pub struct Board<'a> {
    /// The order in which the board should be displayed, ascending.
    pub position: u16,
    /// The minimum value for a score to be added to the board.
    ///
    /// Scores may be negative when lower is better: such a board orders its
    /// scores ascending, so the usual minimum is `i16::MIN` rather than 0.
    pub min: i16,
    /// The maximum value for a score to be added to the board.
    ///
    /// Useful for filtering out obvious cheating.
    pub max: i16,
    /// If the score should be formatted as time.
    pub time: bool,
    /// Digits after decimal point.
    pub decimals: u8,
    /// Human-readable board name.
    pub name: &'a str,
}

/// The outcome of board validation, rules in order.
pub open spec fn board_verdict(name: Seq<u8>, min: i16, max: i16) -> Result<
    (),
    BoardValidationError,
> {
    if name.len() == 0 {
        Err(BoardValidationError::EmptyName)
    } else if name.len() > MAX_NAME_LEN {
        Err(BoardValidationError::NameTooLong)
    } else if min > max {
        Err(BoardValidationError::MinGtMax)
    } else {
        Ok(())
    }
}

impl<'a> Board<'a> {
    /// Validate board attributes: a name of 1 to 64 bytes, and a minimum
    /// no greater than the maximum.
    pub fn validate(&self) -> (r: Result<(), BoardValidationError>)
        ensures
            r == board_verdict(self.name.spec_bytes(), self.min, self.max),
    {
        let name_len = self.name.as_bytes().len();
        if name_len == 0 {
            return Err(BoardValidationError::EmptyName);
        }
        if name_len > MAX_NAME_LEN {
            return Err(BoardValidationError::NameTooLong);
        }
        if self.min > self.max {
            return Err(BoardValidationError::MinGtMax);
        }
        Ok(())
    }
}

/// The model of a [`Boards`].
pub ghost struct BoardsModel {
    pub boards: Seq<BoardModel>,
}

impl<'a> DeepView for Boards<'a> {
    type V = BoardsModel;

    open spec fn deep_view(&self) -> BoardsModel {
        BoardsModel {
            boards: self.boards.deep_view(),
        }
    }
}

impl<'a> Encode<'a> for Boards<'a> {
    open spec fn spec_enc(v: BoardsModel) -> Seq<u8> {
        <Vec<Board<'a>> as Encode<'a>>::spec_enc(v.boards)
    }

    open spec fn spec_parse(s: Seq<u8>) -> Result<(BoardsModel, nat), DecodeError> {
        match <Vec<Board<'a>> as Encode<'a>>::spec_parse(s) {
            Err(e) => Err(e),
            Ok((boards, n0)) => {
                Ok((BoardsModel { boards }, n0))
            },
        }
    }

    proof fn lemma_round_trip(x: Boards<'a>, rest: Seq<u8>) {
        let v = x.deep_view();
        <Vec<Board<'a>> as Encode<'a>>::lemma_round_trip(x.boards, rest);
    }

    proof fn lemma_prefix_truncated(x: Boards<'a>, k: int) {
        <Vec<Board<'a>> as Encode<'a>>::lemma_prefix_truncated(x.boards, k);
    }

    fn size(&self) -> (r: usize) {
        self.boards.size()
    }

    fn encode_at(&self, buf: &mut [u8], pos: usize) -> (r: Result<usize, EncodeError>) {
        self.boards.encode_at(buf, pos)
    }

    fn decode_at(buf: &'a [u8], pos: usize) -> (r: Result<(Self, usize), DecodeError>) {
        let (boards, p1) = <Vec<Board<'a>> as Encode<'a>>::decode_at(buf, pos)?;
        proof {
            lemma_skip_skip(buf@, pos as int, p1 as int);
        }
        Ok((Boards { boards }, p1))
    }
}

/// The model of a [`Board`].
pub ghost struct BoardModel {
    pub position: u16,
    pub min: i16,
    pub max: i16,
    pub time: bool,
    pub decimals: u8,
    pub name: Seq<char>,
}

impl<'a> DeepView for Board<'a> {
    type V = BoardModel;

    open spec fn deep_view(&self) -> BoardModel {
        BoardModel {
            position: self.position,
            min: self.min,
            max: self.max,
            time: self.time,
            decimals: self.decimals,
            name: self.name.deep_view(),
        }
    }
}

impl<'a> Encode<'a> for Board<'a> {
    open spec fn spec_enc(v: BoardModel) -> Seq<u8> {
        <u16 as Encode<'a>>::spec_enc(v.position)
            + (<i16 as Encode<'a>>::spec_enc(v.min)
            + (<i16 as Encode<'a>>::spec_enc(v.max)
            + (<bool as Encode<'a>>::spec_enc(v.time)
            + (<u8 as Encode<'a>>::spec_enc(v.decimals)
            + <&'a str as Encode<'a>>::spec_enc(v.name)))))
    }

    open spec fn spec_parse(s: Seq<u8>) -> Result<(BoardModel, nat), DecodeError> {
        match <u16 as Encode<'a>>::spec_parse(s) {
            Err(e) => Err(e),
            Ok((position, n0)) => {
                let s1 = s.skip(n0 as int);
                match <i16 as Encode<'a>>::spec_parse(s1) {
                    Err(e) => Err(e),
                    Ok((min, n1)) => {
                        let s2 = s1.skip(n1 as int);
                        match <i16 as Encode<'a>>::spec_parse(s2) {
                            Err(e) => Err(e),
                            Ok((max, n2)) => {
                                let s3 = s2.skip(n2 as int);
                                match <bool as Encode<'a>>::spec_parse(s3) {
                                    Err(e) => Err(e),
                                    Ok((time, n3)) => {
                                        let s4 = s3.skip(n3 as int);
                                        match <u8 as Encode<'a>>::spec_parse(s4) {
                                            Err(e) => Err(e),
                                            Ok((decimals, n4)) => {
                                                let s5 = s4.skip(n4 as int);
                                                match <&'a str as Encode<'a>>::spec_parse(s5) {
                                                    Err(e) => Err(e),
                                                    Ok((name, n5)) => {
                                                        Ok((BoardModel { position, min, max, time, decimals, name }, n0 + n1 + n2 + n3 + n4 + n5))
                                                    },
                                                }
                                            },
                                        }
                                    },
                                }
                            },
                        }
                    },
                }
            },
        }
    }

    proof fn lemma_round_trip(x: Board<'a>, rest: Seq<u8>) {
        let v = x.deep_view();
        let e0 = <u16 as Encode<'a>>::spec_enc(v.position);
        let e1 = <i16 as Encode<'a>>::spec_enc(v.min);
        let e2 = <i16 as Encode<'a>>::spec_enc(v.max);
        let e3 = <bool as Encode<'a>>::spec_enc(v.time);
        let e4 = <u8 as Encode<'a>>::spec_enc(v.decimals);
        let e5 = <&'a str as Encode<'a>>::spec_enc(v.name);
        let x5 = e5;
        let x4 = e4 + x5;
        let x3 = e3 + x4;
        let x2 = e2 + x3;
        let x1 = e1 + x2;
        lemma_split_step(e0, x1, rest);
        <u16 as Encode<'a>>::lemma_round_trip(x.position, x1 + rest);
        lemma_split_step(e1, x2, rest);
        <i16 as Encode<'a>>::lemma_round_trip(x.min, x2 + rest);
        lemma_split_step(e2, x3, rest);
        <i16 as Encode<'a>>::lemma_round_trip(x.max, x3 + rest);
        lemma_split_step(e3, x4, rest);
        <bool as Encode<'a>>::lemma_round_trip(x.time, x4 + rest);
        lemma_split_step(e4, x5, rest);
        <u8 as Encode<'a>>::lemma_round_trip(x.decimals, x5 + rest);
        <&'a str as Encode<'a>>::lemma_round_trip(x.name, rest);
    }

    proof fn lemma_prefix_truncated(x: Board<'a>, k: int) {
        let v = x.deep_view();
        let e0 = <u16 as Encode<'a>>::spec_enc(v.position);
        let e1 = <i16 as Encode<'a>>::spec_enc(v.min);
        let e2 = <i16 as Encode<'a>>::spec_enc(v.max);
        let e3 = <bool as Encode<'a>>::spec_enc(v.time);
        let e4 = <u8 as Encode<'a>>::spec_enc(v.decimals);
        let e5 = <&'a str as Encode<'a>>::spec_enc(v.name);
        let x5 = e5;
        let x4 = e4 + x5;
        let x3 = e3 + x4;
        let x2 = e2 + x3;
        let x1 = e1 + x2;
        let x0 = e0 + x1;
        lemma_take_split(e0, x1, k);
        if k < e0.len() {
            <u16 as Encode<'a>>::lemma_prefix_truncated(x.position, k);
        } else {
            let k1 = k - e0.len();
            <u16 as Encode<'a>>::lemma_round_trip(x.position, x1.take(k1));
            lemma_take_split(e1, x2, k1);
            if k1 < e1.len() {
                <i16 as Encode<'a>>::lemma_prefix_truncated(x.min, k1);
            } else {
                let k2 = k1 - e1.len();
                <i16 as Encode<'a>>::lemma_round_trip(x.min, x2.take(k2));
                lemma_take_split(e2, x3, k2);
                if k2 < e2.len() {
                    <i16 as Encode<'a>>::lemma_prefix_truncated(x.max, k2);
                } else {
                    let k3 = k2 - e2.len();
                    <i16 as Encode<'a>>::lemma_round_trip(x.max, x3.take(k3));
                    lemma_take_split(e3, x4, k3);
                    if k3 < e3.len() {
                        <bool as Encode<'a>>::lemma_prefix_truncated(x.time, k3);
                    } else {
                        let k4 = k3 - e3.len();
                        <bool as Encode<'a>>::lemma_round_trip(x.time, x4.take(k4));
                        lemma_take_split(e4, x5, k4);
                        if k4 < e4.len() {
                            <u8 as Encode<'a>>::lemma_prefix_truncated(x.decimals, k4);
                        } else {
                            let k5 = k4 - e4.len();
                            <u8 as Encode<'a>>::lemma_round_trip(x.decimals, x5.take(k5));
                            <&'a str as Encode<'a>>::lemma_prefix_truncated(x.name, k5);
                        }
                    }
                }
            }
        }
    }

    fn size(&self) -> (r: usize) {
        let n0 = self.position.size();
        let n1 = self.min.size();
        let n2 = self.max.size();
        let n3 = self.time.size();
        let n4 = self.decimals.size();
        let n5 = self.name.size();
        n0 + n1 + n2 + n3 + n4 + n5
    }

    fn encode_at(&self, buf: &mut [u8], pos: usize) -> (r: Result<usize, EncodeError>) {
        let ghost v = self.deep_view();
        let ghost b0 = buf@;
        let p1 = self.position.encode_at(buf, pos)?;
        let ghost b1 = buf@;
        let p2 = self.min.encode_at(buf, p1)?;
        let ghost b2 = buf@;
        let p3 = self.max.encode_at(buf, p2)?;
        let ghost b3 = buf@;
        let p4 = self.time.encode_at(buf, p3)?;
        let ghost b4 = buf@;
        let p5 = self.decimals.encode_at(buf, p4)?;
        let ghost b5 = buf@;
        let p6 = self.name.encode_at(buf, p5)?;
        let ghost b6 = buf@;
        proof {
            let e0 = <u16 as Encode<'a>>::spec_enc(v.position);
            let e1 = <i16 as Encode<'a>>::spec_enc(v.min);
            let e2 = <i16 as Encode<'a>>::spec_enc(v.max);
            let e3 = <bool as Encode<'a>>::spec_enc(v.time);
            let e4 = <u8 as Encode<'a>>::spec_enc(v.decimals);
            let e5 = <&'a str as Encode<'a>>::spec_enc(v.name);
            let x5 = e5;
            let x4 = e4 + x5;
            lemma_wrote_then(b4, b5, b6, p4 as int, e4, x5, p5, p6);
            let x3 = e3 + x4;
            lemma_wrote_then(b3, b4, b6, p3 as int, e3, x4, p4, p6);
            let x2 = e2 + x3;
            lemma_wrote_then(b2, b3, b6, p2 as int, e2, x3, p3, p6);
            let x1 = e1 + x2;
            lemma_wrote_then(b1, b2, b6, p1 as int, e1, x2, p2, p6);
            lemma_wrote_then(b0, b1, b6, pos as int, e0, x1, p1, p6);
        }
        Ok(p6)
    }

    fn decode_at(buf: &'a [u8], pos: usize) -> (r: Result<(Self, usize), DecodeError>) {
        let (position, p1) = <u16 as Encode<'a>>::decode_at(buf, pos)?;
        proof {
            lemma_skip_skip(buf@, pos as int, p1 as int);
        }
        let (min, p2) = <i16 as Encode<'a>>::decode_at(buf, p1)?;
        proof {
            lemma_skip_skip(buf@, p1 as int, p2 as int);
        }
        let (max, p3) = <i16 as Encode<'a>>::decode_at(buf, p2)?;
        proof {
            lemma_skip_skip(buf@, p2 as int, p3 as int);
        }
        let (time, p4) = <bool as Encode<'a>>::decode_at(buf, p3)?;
        proof {
            lemma_skip_skip(buf@, p3 as int, p4 as int);
        }
        let (decimals, p5) = <u8 as Encode<'a>>::decode_at(buf, p4)?;
        proof {
            lemma_skip_skip(buf@, p4 as int, p5 as int);
        }
        let (name, p6) = <&'a str as Encode<'a>>::decode_at(buf, p5)?;
        proof {
            lemma_skip_skip(buf@, p5 as int, p6 as int);
        }
        Ok((Board { position, min, max, time, decimals, name }, p6))
    }
}

} // verus!
