//! Messages between the main chip and the IO chip, which handles the radio
//! and the input devices.

use vstd::prelude::*;
use crate::wire::{
    lemma_skip_skip, lemma_split_step, lemma_take_split, lemma_wrote_then, DecodeError, Encode, EncodeError,
};

verus! {

/// Requests that the main chip sends to the IO chip.
#[derive(Clone, Debug, PartialEq, Eq)]
pub enum Request<'a> {
    /// Start listening for messages.
    NetStart,
    /// Stop accepting new messages and connections.
    NetStop,
    /// Get the MAC address of this device's IO chip.
    NetLocalAddr,
    /// Broadcast an advertisement message.
    NetAdvertise,
    /// Read an incoming message (if any) from the IO chip.
    NetRecv,
    /// Send a message to the peer with the given address.
    NetSend([u8; 6], &'a [u8]),
    /// Get the send status of the previous message for the peer.
    NetSendStatus([u8; 6]),
    /// Get the latest touchpad and buttons inputs.
    ReadInput,
}

/// Responses that the IO chip sends back to the main chip.
#[derive(Clone, Debug, PartialEq, Eq)]
pub enum Response<'a> {
    Error(&'a str),
    NetStarted,
    NetStopped,
    NetLocalAddr([u8; 6]),
    NetAdvertised,
    NetIncoming([u8; 6], &'a [u8]),
    NetNoIncoming,
    NetSent,
    NetSendStatus(SendStatus),
    /// The touchpad position, if touched, and the pressed buttons.
    Input(Option<(u16, u16)>, u8),
}

/// How sending the last message to a peer went.
#[derive(Clone, Copy, Debug, PartialEq, Eq, Structural)]
pub enum SendStatus {
    /// Trying to send the message. The value is the number of attempts so far.
    Sending(u8),
    /// Message is delivered. The value is the number of attempts that it took.
    Delivered(u8),
    /// Message delivery failed.
    Failed,
    /// No messages were sent to the peer.
    Empty,
}

/// The model of a [`Request`].
pub ghost enum RequestModel {
    NetStart,
    NetStop,
    NetLocalAddr,
    NetAdvertise,
    NetRecv,
    NetSend(Seq<u8>, Seq<u8>),
    NetSendStatus(Seq<u8>),
    ReadInput,
}

impl<'a> DeepView for Request<'a> {
    type V = RequestModel;

    open spec fn deep_view(&self) -> RequestModel {
        match self {
            Request::NetStart => RequestModel::NetStart,
            Request::NetStop => RequestModel::NetStop,
            Request::NetLocalAddr => RequestModel::NetLocalAddr,
            Request::NetAdvertise => RequestModel::NetAdvertise,
            Request::NetRecv => RequestModel::NetRecv,
            Request::NetSend(a0, a1) => RequestModel::NetSend(a0.deep_view(), a1.deep_view()),
            Request::NetSendStatus(a0) => RequestModel::NetSendStatus(a0.deep_view()),
            Request::ReadInput => RequestModel::ReadInput,
        }
    }
}

impl<'a> Encode<'a> for Request<'a> {
    open spec fn spec_enc(v: RequestModel) -> Seq<u8> {
        match v {
            RequestModel::NetStart => <u32 as Encode<'a>>::spec_enc(0u32),
            RequestModel::NetStop => <u32 as Encode<'a>>::spec_enc(1u32),
            RequestModel::NetLocalAddr => <u32 as Encode<'a>>::spec_enc(2u32),
            RequestModel::NetAdvertise => <u32 as Encode<'a>>::spec_enc(3u32),
            RequestModel::NetRecv => <u32 as Encode<'a>>::spec_enc(4u32),
            RequestModel::NetSend(a0, a1) => {
                <u32 as Encode<'a>>::spec_enc(5u32)
                    + (<[u8; 6] as Encode<'a>>::spec_enc(a0)
                    + <&'a [u8] as Encode<'a>>::spec_enc(a1))
            },
            RequestModel::NetSendStatus(a0) => {
                <u32 as Encode<'a>>::spec_enc(6u32)
                    + <[u8; 6] as Encode<'a>>::spec_enc(a0)
            },
            RequestModel::ReadInput => <u32 as Encode<'a>>::spec_enc(7u32),
        }
    }

    open spec fn spec_parse(s: Seq<u8>) -> Result<(RequestModel, nat), DecodeError> {
        match <u32 as Encode<'a>>::spec_parse(s) {
            Err(e) => Err(e),
            Ok((d, k)) => {
                let s0 = s.skip(k as int);
                if d == 0 {
                    Ok((RequestModel::NetStart, k))
                } else if d == 1 {
                    Ok((RequestModel::NetStop, k))
                } else if d == 2 {
                    Ok((RequestModel::NetLocalAddr, k))
                } else if d == 3 {
                    Ok((RequestModel::NetAdvertise, k))
                } else if d == 4 {
                    Ok((RequestModel::NetRecv, k))
                } else if d == 5 {
                    match <[u8; 6] as Encode<'a>>::spec_parse(s0) {
                        Err(e) => Err(e),
                        Ok((a0, n0)) => {
                            let s1 = s0.skip(n0 as int);
                            match <&'a [u8] as Encode<'a>>::spec_parse(s1) {
                                Err(e) => Err(e),
                                Ok((a1, n1)) => {
                                    Ok((RequestModel::NetSend(a0, a1), k + n0 + n1))
                                },
                            }
                        },
                    }
                } else if d == 6 {
                    match <[u8; 6] as Encode<'a>>::spec_parse(s0) {
                        Err(e) => Err(e),
                        Ok((a0, n0)) => {
                            Ok((RequestModel::NetSendStatus(a0), k + n0))
                        },
                    }
                } else if d == 7 {
                    Ok((RequestModel::ReadInput, k))
                } else {
                    Err(DecodeError::InvalidVariant)
                }
            },
        }
    }

    proof fn lemma_round_trip(x: Request<'a>, rest: Seq<u8>) {
        match x {
            Request::NetStart => {
                <u32 as Encode<'a>>::lemma_round_trip(0u32, rest);
            },
            Request::NetStop => {
                <u32 as Encode<'a>>::lemma_round_trip(1u32, rest);
            },
            Request::NetLocalAddr => {
                <u32 as Encode<'a>>::lemma_round_trip(2u32, rest);
            },
            Request::NetAdvertise => {
                <u32 as Encode<'a>>::lemma_round_trip(3u32, rest);
            },
            Request::NetRecv => {
                <u32 as Encode<'a>>::lemma_round_trip(4u32, rest);
            },
            Request::NetSend(a0, a1) => {
                let e0 = <u32 as Encode<'a>>::spec_enc(5u32);
                let e1 = <[u8; 6] as Encode<'a>>::spec_enc(a0.deep_view());
                let e2 = <&'a [u8] as Encode<'a>>::spec_enc(a1.deep_view());
                let x2 = e2;
                let x1 = e1 + x2;
                lemma_split_step(e0, x1, rest);
                <u32 as Encode<'a>>::lemma_round_trip(5u32, x1 + rest);
                lemma_split_step(e1, x2, rest);
                <[u8; 6] as Encode<'a>>::lemma_round_trip(a0, x2 + rest);
                <&'a [u8] as Encode<'a>>::lemma_round_trip(a1, rest);
            },
            Request::NetSendStatus(a0) => {
                let e0 = <u32 as Encode<'a>>::spec_enc(6u32);
                let e1 = <[u8; 6] as Encode<'a>>::spec_enc(a0.deep_view());
                let x1 = e1;
                lemma_split_step(e0, x1, rest);
                <u32 as Encode<'a>>::lemma_round_trip(6u32, x1 + rest);
                <[u8; 6] as Encode<'a>>::lemma_round_trip(a0, rest);
            },
            Request::ReadInput => {
                <u32 as Encode<'a>>::lemma_round_trip(7u32, rest);
            },
        }
    }

    proof fn lemma_prefix_truncated(x: Request<'a>, k: int) {
        match x {
            Request::NetStart => {
                <u32 as Encode<'a>>::lemma_prefix_truncated(0u32, k);
            },
            Request::NetStop => {
                <u32 as Encode<'a>>::lemma_prefix_truncated(1u32, k);
            },
            Request::NetLocalAddr => {
                <u32 as Encode<'a>>::lemma_prefix_truncated(2u32, k);
            },
            Request::NetAdvertise => {
                <u32 as Encode<'a>>::lemma_prefix_truncated(3u32, k);
            },
            Request::NetRecv => {
                <u32 as Encode<'a>>::lemma_prefix_truncated(4u32, k);
            },
            Request::NetSend(a0, a1) => {
                let e0 = <u32 as Encode<'a>>::spec_enc(5u32);
                let e1 = <[u8; 6] as Encode<'a>>::spec_enc(a0.deep_view());
                let e2 = <&'a [u8] as Encode<'a>>::spec_enc(a1.deep_view());
                let x2 = e2;
                let x1 = e1 + x2;
                let x0 = e0 + x1;
                lemma_take_split(e0, x1, k);
                if k < e0.len() {
                    <u32 as Encode<'a>>::lemma_prefix_truncated(5u32, k);
                } else {
                    let k1 = k - e0.len();
                    <u32 as Encode<'a>>::lemma_round_trip(5u32, x1.take(k1));
                    lemma_take_split(e1, x2, k1);
                    if k1 < e1.len() {
                        <[u8; 6] as Encode<'a>>::lemma_prefix_truncated(a0, k1);
                    } else {
                        let k2 = k1 - e1.len();
                        <[u8; 6] as Encode<'a>>::lemma_round_trip(a0, x2.take(k2));
                        <&'a [u8] as Encode<'a>>::lemma_prefix_truncated(a1, k2);
                    }
                }
            },
            Request::NetSendStatus(a0) => {
                let e0 = <u32 as Encode<'a>>::spec_enc(6u32);
                let e1 = <[u8; 6] as Encode<'a>>::spec_enc(a0.deep_view());
                let x1 = e1;
                let x0 = e0 + x1;
                lemma_take_split(e0, x1, k);
                if k < e0.len() {
                    <u32 as Encode<'a>>::lemma_prefix_truncated(6u32, k);
                } else {
                    let k1 = k - e0.len();
                    <u32 as Encode<'a>>::lemma_round_trip(6u32, x1.take(k1));
                    <[u8; 6] as Encode<'a>>::lemma_prefix_truncated(a0, k1);
                }
            },
            Request::ReadInput => {
                <u32 as Encode<'a>>::lemma_prefix_truncated(7u32, k);
            },
        }
    }

    fn size(&self) -> (r: usize) {
        match self {
            Request::NetStart => {
                let d: u32 = 0;
                d.size()
            },
            Request::NetStop => {
                let d: u32 = 1;
                d.size()
            },
            Request::NetLocalAddr => {
                let d: u32 = 2;
                d.size()
            },
            Request::NetAdvertise => {
                let d: u32 = 3;
                d.size()
            },
            Request::NetRecv => {
                let d: u32 = 4;
                d.size()
            },
            Request::NetSend(a0, a1) => {
                let d: u32 = 5;
                d.size() + a0.size() + a1.size()
            },
            Request::NetSendStatus(a0) => {
                let d: u32 = 6;
                d.size() + a0.size()
            },
            Request::ReadInput => {
                let d: u32 = 7;
                d.size()
            },
        }
    }

    fn encode_at(&self, buf: &mut [u8], pos: usize) -> (r: Result<usize, EncodeError>) {
        match self {
            Request::NetStart => {
                let d: u32 = 0;
                d.encode_at(buf, pos)
            },
            Request::NetStop => {
                let d: u32 = 1;
                d.encode_at(buf, pos)
            },
            Request::NetLocalAddr => {
                let d: u32 = 2;
                d.encode_at(buf, pos)
            },
            Request::NetAdvertise => {
                let d: u32 = 3;
                d.encode_at(buf, pos)
            },
            Request::NetRecv => {
                let d: u32 = 4;
                d.encode_at(buf, pos)
            },
            Request::NetSend(a0, a1) => {
                let d: u32 = 5;
                let ghost b0 = buf@;
                let p1 = d.encode_at(buf, pos)?;
                let ghost b1 = buf@;
                let p2 = a0.encode_at(buf, p1)?;
                let ghost b2 = buf@;
                let p3 = a1.encode_at(buf, p2)?;
                let ghost b3 = buf@;
                proof {
                    let e0 = <u32 as Encode<'a>>::spec_enc(5u32);
                    let e1 = <[u8; 6] as Encode<'a>>::spec_enc(a0.deep_view());
                    let e2 = <&'a [u8] as Encode<'a>>::spec_enc(a1.deep_view());
                    let x2 = e2;
                    let x1 = e1 + x2;
                    lemma_wrote_then(b1, b2, b3, p1 as int, e1, x2, p2, p3);
                    lemma_wrote_then(b0, b1, b3, pos as int, e0, x1, p1, p3);
                }
                Ok(p3)
            },
            Request::NetSendStatus(a0) => {
                let d: u32 = 6;
                let ghost b0 = buf@;
                let p1 = d.encode_at(buf, pos)?;
                let ghost b1 = buf@;
                let p2 = a0.encode_at(buf, p1)?;
                let ghost b2 = buf@;
                proof {
                    let e0 = <u32 as Encode<'a>>::spec_enc(6u32);
                    let e1 = <[u8; 6] as Encode<'a>>::spec_enc(a0.deep_view());
                    let x1 = e1;
                    lemma_wrote_then(b0, b1, b2, pos as int, e0, x1, p1, p2);
                }
                Ok(p2)
            },
            Request::ReadInput => {
                let d: u32 = 7;
                d.encode_at(buf, pos)
            },
        }
    }

    fn decode_at(buf: &'a [u8], pos: usize) -> (r: Result<(Self, usize), DecodeError>) {
        let (d, p0) = <u32 as Encode<'a>>::decode_at(buf, pos)?;
        proof {
            lemma_skip_skip(buf@, pos as int, p0 as int);
        }
        if d == 0 {
            Ok((Request::NetStart, p0))
        } else if d == 1 {
            Ok((Request::NetStop, p0))
        } else if d == 2 {
            Ok((Request::NetLocalAddr, p0))
        } else if d == 3 {
            Ok((Request::NetAdvertise, p0))
        } else if d == 4 {
            Ok((Request::NetRecv, p0))
        } else if d == 5 {
            let (a0, p1) = <[u8; 6] as Encode<'a>>::decode_at(buf, p0)?;
            proof {
                lemma_skip_skip(buf@, p0 as int, p1 as int);
            }
            let (a1, p2) = <&'a [u8] as Encode<'a>>::decode_at(buf, p1)?;
            proof {
                lemma_skip_skip(buf@, p1 as int, p2 as int);
            }
            Ok((Request::NetSend(a0, a1), p2))
        } else if d == 6 {
            let (a0, p1) = <[u8; 6] as Encode<'a>>::decode_at(buf, p0)?;
            proof {
                lemma_skip_skip(buf@, p0 as int, p1 as int);
            }
            Ok((Request::NetSendStatus(a0), p1))
        } else if d == 7 {
            Ok((Request::ReadInput, p0))
        } else {
            Err(DecodeError::InvalidVariant)
        }
    }
}

/// The model of a [`Response`].
pub ghost enum ResponseModel {
    Error(Seq<char>),
    NetStarted,
    NetStopped,
    NetLocalAddr(Seq<u8>),
    NetAdvertised,
    NetIncoming(Seq<u8>, Seq<u8>),
    NetNoIncoming,
    NetSent,
    NetSendStatus(SendStatusModel),
    Input(Option<(u16, u16)>, u8),
}

impl<'a> DeepView for Response<'a> {
    type V = ResponseModel;

    open spec fn deep_view(&self) -> ResponseModel {
        match self {
            Response::Error(a0) => ResponseModel::Error(a0.deep_view()),
            Response::NetStarted => ResponseModel::NetStarted,
            Response::NetStopped => ResponseModel::NetStopped,
            Response::NetLocalAddr(a0) => ResponseModel::NetLocalAddr(a0.deep_view()),
            Response::NetAdvertised => ResponseModel::NetAdvertised,
            Response::NetIncoming(a0, a1) => ResponseModel::NetIncoming(a0.deep_view(), a1.deep_view()),
            Response::NetNoIncoming => ResponseModel::NetNoIncoming,
            Response::NetSent => ResponseModel::NetSent,
            Response::NetSendStatus(a0) => ResponseModel::NetSendStatus(a0.deep_view()),
            Response::Input(a0, a1) => ResponseModel::Input(*a0, *a1),
        }
    }
}

impl<'a> Encode<'a> for Response<'a> {
    open spec fn spec_enc(v: ResponseModel) -> Seq<u8> {
        match v {
            ResponseModel::Error(a0) => {
                <u32 as Encode<'a>>::spec_enc(0u32)
                    + <&'a str as Encode<'a>>::spec_enc(a0)
            },
            ResponseModel::NetStarted => <u32 as Encode<'a>>::spec_enc(1u32),
            ResponseModel::NetStopped => <u32 as Encode<'a>>::spec_enc(2u32),
            ResponseModel::NetLocalAddr(a0) => {
                <u32 as Encode<'a>>::spec_enc(3u32)
                    + <[u8; 6] as Encode<'a>>::spec_enc(a0)
            },
            ResponseModel::NetAdvertised => <u32 as Encode<'a>>::spec_enc(4u32),
            ResponseModel::NetIncoming(a0, a1) => {
                <u32 as Encode<'a>>::spec_enc(5u32)
                    + (<[u8; 6] as Encode<'a>>::spec_enc(a0)
                    + <&'a [u8] as Encode<'a>>::spec_enc(a1))
            },
            ResponseModel::NetNoIncoming => <u32 as Encode<'a>>::spec_enc(6u32),
            ResponseModel::NetSent => <u32 as Encode<'a>>::spec_enc(7u32),
            ResponseModel::NetSendStatus(a0) => {
                <u32 as Encode<'a>>::spec_enc(8u32)
                    + <SendStatus as Encode<'a>>::spec_enc(a0)
            },
            ResponseModel::Input(a0, a1) => {
                <u32 as Encode<'a>>::spec_enc(9u32)
                    + (<Option<(u16, u16)> as Encode<'a>>::spec_enc(a0)
                    + <u8 as Encode<'a>>::spec_enc(a1))
            },
        }
    }

    open spec fn spec_parse(s: Seq<u8>) -> Result<(ResponseModel, nat), DecodeError> {
        match <u32 as Encode<'a>>::spec_parse(s) {
            Err(e) => Err(e),
            Ok((d, k)) => {
                let s0 = s.skip(k as int);
                if d == 0 {
                    match <&'a str as Encode<'a>>::spec_parse(s0) {
                        Err(e) => Err(e),
                        Ok((a0, n0)) => {
                            Ok((ResponseModel::Error(a0), k + n0))
                        },
                    }
                } else if d == 1 {
                    Ok((ResponseModel::NetStarted, k))
                } else if d == 2 {
                    Ok((ResponseModel::NetStopped, k))
                } else if d == 3 {
                    match <[u8; 6] as Encode<'a>>::spec_parse(s0) {
                        Err(e) => Err(e),
                        Ok((a0, n0)) => {
                            Ok((ResponseModel::NetLocalAddr(a0), k + n0))
                        },
                    }
                } else if d == 4 {
                    Ok((ResponseModel::NetAdvertised, k))
                } else if d == 5 {
                    match <[u8; 6] as Encode<'a>>::spec_parse(s0) {
                        Err(e) => Err(e),
                        Ok((a0, n0)) => {
                            let s1 = s0.skip(n0 as int);
                            match <&'a [u8] as Encode<'a>>::spec_parse(s1) {
                                Err(e) => Err(e),
                                Ok((a1, n1)) => {
                                    Ok((ResponseModel::NetIncoming(a0, a1), k + n0 + n1))
                                },
                            }
                        },
                    }
                } else if d == 6 {
                    Ok((ResponseModel::NetNoIncoming, k))
                } else if d == 7 {
                    Ok((ResponseModel::NetSent, k))
                } else if d == 8 {
                    match <SendStatus as Encode<'a>>::spec_parse(s0) {
                        Err(e) => Err(e),
                        Ok((a0, n0)) => {
                            Ok((ResponseModel::NetSendStatus(a0), k + n0))
                        },
                    }
                } else if d == 9 {
                    match <Option<(u16, u16)> as Encode<'a>>::spec_parse(s0) {
                        Err(e) => Err(e),
                        Ok((a0, n0)) => {
                            let s1 = s0.skip(n0 as int);
                            match <u8 as Encode<'a>>::spec_parse(s1) {
                                Err(e) => Err(e),
                                Ok((a1, n1)) => {
                                    Ok((ResponseModel::Input(a0, a1), k + n0 + n1))
                                },
                            }
                        },
                    }
                } else {
                    Err(DecodeError::InvalidVariant)
                }
            },
        }
    }

    proof fn lemma_round_trip(x: Response<'a>, rest: Seq<u8>) {
        match x {
            Response::Error(a0) => {
                let e0 = <u32 as Encode<'a>>::spec_enc(0u32);
                let e1 = <&'a str as Encode<'a>>::spec_enc(a0.deep_view());
                let x1 = e1;
                lemma_split_step(e0, x1, rest);
                <u32 as Encode<'a>>::lemma_round_trip(0u32, x1 + rest);
                <&'a str as Encode<'a>>::lemma_round_trip(a0, rest);
            },
            Response::NetStarted => {
                <u32 as Encode<'a>>::lemma_round_trip(1u32, rest);
            },
            Response::NetStopped => {
                <u32 as Encode<'a>>::lemma_round_trip(2u32, rest);
            },
            Response::NetLocalAddr(a0) => {
                let e0 = <u32 as Encode<'a>>::spec_enc(3u32);
                let e1 = <[u8; 6] as Encode<'a>>::spec_enc(a0.deep_view());
                let x1 = e1;
                lemma_split_step(e0, x1, rest);
                <u32 as Encode<'a>>::lemma_round_trip(3u32, x1 + rest);
                <[u8; 6] as Encode<'a>>::lemma_round_trip(a0, rest);
            },
            Response::NetAdvertised => {
                <u32 as Encode<'a>>::lemma_round_trip(4u32, rest);
            },
            Response::NetIncoming(a0, a1) => {
                let e0 = <u32 as Encode<'a>>::spec_enc(5u32);
                let e1 = <[u8; 6] as Encode<'a>>::spec_enc(a0.deep_view());
                let e2 = <&'a [u8] as Encode<'a>>::spec_enc(a1.deep_view());
                let x2 = e2;
                let x1 = e1 + x2;
                lemma_split_step(e0, x1, rest);
                <u32 as Encode<'a>>::lemma_round_trip(5u32, x1 + rest);
                lemma_split_step(e1, x2, rest);
                <[u8; 6] as Encode<'a>>::lemma_round_trip(a0, x2 + rest);
                <&'a [u8] as Encode<'a>>::lemma_round_trip(a1, rest);
            },
            Response::NetNoIncoming => {
                <u32 as Encode<'a>>::lemma_round_trip(6u32, rest);
            },
            Response::NetSent => {
                <u32 as Encode<'a>>::lemma_round_trip(7u32, rest);
            },
            Response::NetSendStatus(a0) => {
                let e0 = <u32 as Encode<'a>>::spec_enc(8u32);
                let e1 = <SendStatus as Encode<'a>>::spec_enc(a0.deep_view());
                let x1 = e1;
                lemma_split_step(e0, x1, rest);
                <u32 as Encode<'a>>::lemma_round_trip(8u32, x1 + rest);
                <SendStatus as Encode<'a>>::lemma_round_trip(a0, rest);
            },
            Response::Input(a0, a1) => {
                let e0 = <u32 as Encode<'a>>::spec_enc(9u32);
                let e1 = <Option<(u16, u16)> as Encode<'a>>::spec_enc(a0.deep_view());
                let e2 = <u8 as Encode<'a>>::spec_enc(a1.deep_view());
                let x2 = e2;
                let x1 = e1 + x2;
                lemma_split_step(e0, x1, rest);
                <u32 as Encode<'a>>::lemma_round_trip(9u32, x1 + rest);
                lemma_split_step(e1, x2, rest);
                <Option<(u16, u16)> as Encode<'a>>::lemma_round_trip(a0, x2 + rest);
                <u8 as Encode<'a>>::lemma_round_trip(a1, rest);
            },
        }
    }

    proof fn lemma_prefix_truncated(x: Response<'a>, k: int) {
        match x {
            Response::Error(a0) => {
                let e0 = <u32 as Encode<'a>>::spec_enc(0u32);
                let e1 = <&'a str as Encode<'a>>::spec_enc(a0.deep_view());
                let x1 = e1;
                let x0 = e0 + x1;
                lemma_take_split(e0, x1, k);
                if k < e0.len() {
                    <u32 as Encode<'a>>::lemma_prefix_truncated(0u32, k);
                } else {
                    let k1 = k - e0.len();
                    <u32 as Encode<'a>>::lemma_round_trip(0u32, x1.take(k1));
                    <&'a str as Encode<'a>>::lemma_prefix_truncated(a0, k1);
                }
            },
            Response::NetStarted => {
                <u32 as Encode<'a>>::lemma_prefix_truncated(1u32, k);
            },
            Response::NetStopped => {
                <u32 as Encode<'a>>::lemma_prefix_truncated(2u32, k);
            },
            Response::NetLocalAddr(a0) => {
                let e0 = <u32 as Encode<'a>>::spec_enc(3u32);
                let e1 = <[u8; 6] as Encode<'a>>::spec_enc(a0.deep_view());
                let x1 = e1;
                let x0 = e0 + x1;
                lemma_take_split(e0, x1, k);
                if k < e0.len() {
                    <u32 as Encode<'a>>::lemma_prefix_truncated(3u32, k);
                } else {
                    let k1 = k - e0.len();
                    <u32 as Encode<'a>>::lemma_round_trip(3u32, x1.take(k1));
                    <[u8; 6] as Encode<'a>>::lemma_prefix_truncated(a0, k1);
                }
            },
            Response::NetAdvertised => {
                <u32 as Encode<'a>>::lemma_prefix_truncated(4u32, k);
            },
            Response::NetIncoming(a0, a1) => {
                let e0 = <u32 as Encode<'a>>::spec_enc(5u32);
                let e1 = <[u8; 6] as Encode<'a>>::spec_enc(a0.deep_view());
                let e2 = <&'a [u8] as Encode<'a>>::spec_enc(a1.deep_view());
                let x2 = e2;
                let x1 = e1 + x2;
                let x0 = e0 + x1;
                lemma_take_split(e0, x1, k);
                if k < e0.len() {
                    <u32 as Encode<'a>>::lemma_prefix_truncated(5u32, k);
                } else {
                    let k1 = k - e0.len();
                    <u32 as Encode<'a>>::lemma_round_trip(5u32, x1.take(k1));
                    lemma_take_split(e1, x2, k1);
                    if k1 < e1.len() {
                        <[u8; 6] as Encode<'a>>::lemma_prefix_truncated(a0, k1);
                    } else {
                        let k2 = k1 - e1.len();
                        <[u8; 6] as Encode<'a>>::lemma_round_trip(a0, x2.take(k2));
                        <&'a [u8] as Encode<'a>>::lemma_prefix_truncated(a1, k2);
                    }
                }
            },
            Response::NetNoIncoming => {
                <u32 as Encode<'a>>::lemma_prefix_truncated(6u32, k);
            },
            Response::NetSent => {
                <u32 as Encode<'a>>::lemma_prefix_truncated(7u32, k);
            },
            Response::NetSendStatus(a0) => {
                let e0 = <u32 as Encode<'a>>::spec_enc(8u32);
                let e1 = <SendStatus as Encode<'a>>::spec_enc(a0.deep_view());
                let x1 = e1;
                let x0 = e0 + x1;
                lemma_take_split(e0, x1, k);
                if k < e0.len() {
                    <u32 as Encode<'a>>::lemma_prefix_truncated(8u32, k);
                } else {
                    let k1 = k - e0.len();
                    <u32 as Encode<'a>>::lemma_round_trip(8u32, x1.take(k1));
                    <SendStatus as Encode<'a>>::lemma_prefix_truncated(a0, k1);
                }
            },
            Response::Input(a0, a1) => {
                let e0 = <u32 as Encode<'a>>::spec_enc(9u32);
                let e1 = <Option<(u16, u16)> as Encode<'a>>::spec_enc(a0.deep_view());
                let e2 = <u8 as Encode<'a>>::spec_enc(a1.deep_view());
                let x2 = e2;
                let x1 = e1 + x2;
                let x0 = e0 + x1;
                lemma_take_split(e0, x1, k);
                if k < e0.len() {
                    <u32 as Encode<'a>>::lemma_prefix_truncated(9u32, k);
                } else {
                    let k1 = k - e0.len();
                    <u32 as Encode<'a>>::lemma_round_trip(9u32, x1.take(k1));
                    lemma_take_split(e1, x2, k1);
                    if k1 < e1.len() {
                        <Option<(u16, u16)> as Encode<'a>>::lemma_prefix_truncated(a0, k1);
                    } else {
                        let k2 = k1 - e1.len();
                        <Option<(u16, u16)> as Encode<'a>>::lemma_round_trip(a0, x2.take(k2));
                        <u8 as Encode<'a>>::lemma_prefix_truncated(a1, k2);
                    }
                }
            },
        }
    }

    fn size(&self) -> (r: usize) {
        match self {
            Response::Error(a0) => {
                let d: u32 = 0;
                d.size() + a0.size()
            },
            Response::NetStarted => {
                let d: u32 = 1;
                d.size()
            },
            Response::NetStopped => {
                let d: u32 = 2;
                d.size()
            },
            Response::NetLocalAddr(a0) => {
                let d: u32 = 3;
                d.size() + a0.size()
            },
            Response::NetAdvertised => {
                let d: u32 = 4;
                d.size()
            },
            Response::NetIncoming(a0, a1) => {
                let d: u32 = 5;
                d.size() + a0.size() + a1.size()
            },
            Response::NetNoIncoming => {
                let d: u32 = 6;
                d.size()
            },
            Response::NetSent => {
                let d: u32 = 7;
                d.size()
            },
            Response::NetSendStatus(a0) => {
                let d: u32 = 8;
                d.size() + a0.size()
            },
            Response::Input(a0, a1) => {
                let d: u32 = 9;
                d.size() + a0.size() + a1.size()
            },
        }
    }

    fn encode_at(&self, buf: &mut [u8], pos: usize) -> (r: Result<usize, EncodeError>) {
        match self {
            Response::Error(a0) => {
                let d: u32 = 0;
                let ghost b0 = buf@;
                let p1 = d.encode_at(buf, pos)?;
                let ghost b1 = buf@;
                let p2 = a0.encode_at(buf, p1)?;
                let ghost b2 = buf@;
                proof {
                    let e0 = <u32 as Encode<'a>>::spec_enc(0u32);
                    let e1 = <&'a str as Encode<'a>>::spec_enc(a0.deep_view());
                    let x1 = e1;
                    lemma_wrote_then(b0, b1, b2, pos as int, e0, x1, p1, p2);
                }
                Ok(p2)
            },
            Response::NetStarted => {
                let d: u32 = 1;
                d.encode_at(buf, pos)
            },
            Response::NetStopped => {
                let d: u32 = 2;
                d.encode_at(buf, pos)
            },
            Response::NetLocalAddr(a0) => {
                let d: u32 = 3;
                let ghost b0 = buf@;
                let p1 = d.encode_at(buf, pos)?;
                let ghost b1 = buf@;
                let p2 = a0.encode_at(buf, p1)?;
                let ghost b2 = buf@;
                proof {
                    let e0 = <u32 as Encode<'a>>::spec_enc(3u32);
                    let e1 = <[u8; 6] as Encode<'a>>::spec_enc(a0.deep_view());
                    let x1 = e1;
                    lemma_wrote_then(b0, b1, b2, pos as int, e0, x1, p1, p2);
                }
                Ok(p2)
            },
            Response::NetAdvertised => {
                let d: u32 = 4;
                d.encode_at(buf, pos)
            },
            Response::NetIncoming(a0, a1) => {
                let d: u32 = 5;
                let ghost b0 = buf@;
                let p1 = d.encode_at(buf, pos)?;
                let ghost b1 = buf@;
                let p2 = a0.encode_at(buf, p1)?;
                let ghost b2 = buf@;
                let p3 = a1.encode_at(buf, p2)?;
                let ghost b3 = buf@;
                proof {
                    let e0 = <u32 as Encode<'a>>::spec_enc(5u32);
                    let e1 = <[u8; 6] as Encode<'a>>::spec_enc(a0.deep_view());
                    let e2 = <&'a [u8] as Encode<'a>>::spec_enc(a1.deep_view());
                    let x2 = e2;
                    let x1 = e1 + x2;
                    lemma_wrote_then(b1, b2, b3, p1 as int, e1, x2, p2, p3);
                    lemma_wrote_then(b0, b1, b3, pos as int, e0, x1, p1, p3);
                }
                Ok(p3)
            },
            Response::NetNoIncoming => {
                let d: u32 = 6;
                d.encode_at(buf, pos)
            },
            Response::NetSent => {
                let d: u32 = 7;
                d.encode_at(buf, pos)
            },
            Response::NetSendStatus(a0) => {
                let d: u32 = 8;
                let ghost b0 = buf@;
                let p1 = d.encode_at(buf, pos)?;
                let ghost b1 = buf@;
                let p2 = a0.encode_at(buf, p1)?;
                let ghost b2 = buf@;
                proof {
                    let e0 = <u32 as Encode<'a>>::spec_enc(8u32);
                    let e1 = <SendStatus as Encode<'a>>::spec_enc(a0.deep_view());
                    let x1 = e1;
                    lemma_wrote_then(b0, b1, b2, pos as int, e0, x1, p1, p2);
                }
                Ok(p2)
            },
            Response::Input(a0, a1) => {
                let d: u32 = 9;
                let ghost b0 = buf@;
                let p1 = d.encode_at(buf, pos)?;
                let ghost b1 = buf@;
                let p2 = a0.encode_at(buf, p1)?;
                let ghost b2 = buf@;
                let p3 = a1.encode_at(buf, p2)?;
                let ghost b3 = buf@;
                proof {
                    let e0 = <u32 as Encode<'a>>::spec_enc(9u32);
                    let e1 = <Option<(u16, u16)> as Encode<'a>>::spec_enc(a0.deep_view());
                    let e2 = <u8 as Encode<'a>>::spec_enc(a1.deep_view());
                    let x2 = e2;
                    let x1 = e1 + x2;
                    lemma_wrote_then(b1, b2, b3, p1 as int, e1, x2, p2, p3);
                    lemma_wrote_then(b0, b1, b3, pos as int, e0, x1, p1, p3);
                }
                Ok(p3)
            },
        }
    }

    fn decode_at(buf: &'a [u8], pos: usize) -> (r: Result<(Self, usize), DecodeError>) {
        let (d, p0) = <u32 as Encode<'a>>::decode_at(buf, pos)?;
        proof {
            lemma_skip_skip(buf@, pos as int, p0 as int);
        }
        if d == 0 {
            let (a0, p1) = <&'a str as Encode<'a>>::decode_at(buf, p0)?;
            proof {
                lemma_skip_skip(buf@, p0 as int, p1 as int);
            }
            Ok((Response::Error(a0), p1))
        } else if d == 1 {
            Ok((Response::NetStarted, p0))
        } else if d == 2 {
            Ok((Response::NetStopped, p0))
        } else if d == 3 {
            let (a0, p1) = <[u8; 6] as Encode<'a>>::decode_at(buf, p0)?;
            proof {
                lemma_skip_skip(buf@, p0 as int, p1 as int);
            }
            Ok((Response::NetLocalAddr(a0), p1))
        } else if d == 4 {
            Ok((Response::NetAdvertised, p0))
        } else if d == 5 {
            let (a0, p1) = <[u8; 6] as Encode<'a>>::decode_at(buf, p0)?;
            proof {
                lemma_skip_skip(buf@, p0 as int, p1 as int);
            }
            let (a1, p2) = <&'a [u8] as Encode<'a>>::decode_at(buf, p1)?;
            proof {
                lemma_skip_skip(buf@, p1 as int, p2 as int);
            }
            Ok((Response::NetIncoming(a0, a1), p2))
        } else if d == 6 {
            Ok((Response::NetNoIncoming, p0))
        } else if d == 7 {
            Ok((Response::NetSent, p0))
        } else if d == 8 {
            let (a0, p1) = <SendStatus as Encode<'a>>::decode_at(buf, p0)?;
            proof {
                lemma_skip_skip(buf@, p0 as int, p1 as int);
            }
            Ok((Response::NetSendStatus(a0), p1))
        } else if d == 9 {
            let (a0, p1) = <Option<(u16, u16)> as Encode<'a>>::decode_at(buf, p0)?;
            proof {
                lemma_skip_skip(buf@, p0 as int, p1 as int);
            }
            let (a1, p2) = <u8 as Encode<'a>>::decode_at(buf, p1)?;
            proof {
                lemma_skip_skip(buf@, p1 as int, p2 as int);
            }
            Ok((Response::Input(a0, a1), p2))
        } else {
            Err(DecodeError::InvalidVariant)
        }
    }
}

/// The model of a [`SendStatus`].
pub ghost enum SendStatusModel {
    Sending(u8),
    Delivered(u8),
    Failed,
    Empty,
}

impl DeepView for SendStatus {
    type V = SendStatusModel;

    open spec fn deep_view(&self) -> SendStatusModel {
        match self {
            SendStatus::Sending(a0) => SendStatusModel::Sending(*a0),
            SendStatus::Delivered(a0) => SendStatusModel::Delivered(*a0),
            SendStatus::Failed => SendStatusModel::Failed,
            SendStatus::Empty => SendStatusModel::Empty,
        }
    }
}

impl<'a> Encode<'a> for SendStatus {
    open spec fn spec_enc(v: SendStatusModel) -> Seq<u8> {
        match v {
            SendStatusModel::Sending(a0) => {
                <u32 as Encode<'a>>::spec_enc(0u32)
                    + <u8 as Encode<'a>>::spec_enc(a0)
            },
            SendStatusModel::Delivered(a0) => {
                <u32 as Encode<'a>>::spec_enc(1u32)
                    + <u8 as Encode<'a>>::spec_enc(a0)
            },
            SendStatusModel::Failed => <u32 as Encode<'a>>::spec_enc(2u32),
            SendStatusModel::Empty => <u32 as Encode<'a>>::spec_enc(3u32),
        }
    }

    open spec fn spec_parse(s: Seq<u8>) -> Result<(SendStatusModel, nat), DecodeError> {
        match <u32 as Encode<'a>>::spec_parse(s) {
            Err(e) => Err(e),
            Ok((d, k)) => {
                let s0 = s.skip(k as int);
                if d == 0 {
                    match <u8 as Encode<'a>>::spec_parse(s0) {
                        Err(e) => Err(e),
                        Ok((a0, n0)) => {
                            Ok((SendStatusModel::Sending(a0), k + n0))
                        },
                    }
                } else if d == 1 {
                    match <u8 as Encode<'a>>::spec_parse(s0) {
                        Err(e) => Err(e),
                        Ok((a0, n0)) => {
                            Ok((SendStatusModel::Delivered(a0), k + n0))
                        },
                    }
                } else if d == 2 {
                    Ok((SendStatusModel::Failed, k))
                } else if d == 3 {
                    Ok((SendStatusModel::Empty, k))
                } else {
                    Err(DecodeError::InvalidVariant)
                }
            },
        }
    }

    proof fn lemma_round_trip(x: SendStatus, rest: Seq<u8>) {
        match x {
            SendStatus::Sending(a0) => {
                let e0 = <u32 as Encode<'a>>::spec_enc(0u32);
                let e1 = <u8 as Encode<'a>>::spec_enc(a0.deep_view());
                let x1 = e1;
                lemma_split_step(e0, x1, rest);
                <u32 as Encode<'a>>::lemma_round_trip(0u32, x1 + rest);
                <u8 as Encode<'a>>::lemma_round_trip(a0, rest);
            },
            SendStatus::Delivered(a0) => {
                let e0 = <u32 as Encode<'a>>::spec_enc(1u32);
                let e1 = <u8 as Encode<'a>>::spec_enc(a0.deep_view());
                let x1 = e1;
                lemma_split_step(e0, x1, rest);
                <u32 as Encode<'a>>::lemma_round_trip(1u32, x1 + rest);
                <u8 as Encode<'a>>::lemma_round_trip(a0, rest);
            },
            SendStatus::Failed => {
                <u32 as Encode<'a>>::lemma_round_trip(2u32, rest);
            },
            SendStatus::Empty => {
                <u32 as Encode<'a>>::lemma_round_trip(3u32, rest);
            },
        }
    }

    proof fn lemma_prefix_truncated(x: SendStatus, k: int) {
        match x {
            SendStatus::Sending(a0) => {
                let e0 = <u32 as Encode<'a>>::spec_enc(0u32);
                let e1 = <u8 as Encode<'a>>::spec_enc(a0.deep_view());
                let x1 = e1;
                let x0 = e0 + x1;
                lemma_take_split(e0, x1, k);
                if k < e0.len() {
                    <u32 as Encode<'a>>::lemma_prefix_truncated(0u32, k);
                } else {
                    let k1 = k - e0.len();
                    <u32 as Encode<'a>>::lemma_round_trip(0u32, x1.take(k1));
                    <u8 as Encode<'a>>::lemma_prefix_truncated(a0, k1);
                }
            },
            SendStatus::Delivered(a0) => {
                let e0 = <u32 as Encode<'a>>::spec_enc(1u32);
                let e1 = <u8 as Encode<'a>>::spec_enc(a0.deep_view());
                let x1 = e1;
                let x0 = e0 + x1;
                lemma_take_split(e0, x1, k);
                if k < e0.len() {
                    <u32 as Encode<'a>>::lemma_prefix_truncated(1u32, k);
                } else {
                    let k1 = k - e0.len();
                    <u32 as Encode<'a>>::lemma_round_trip(1u32, x1.take(k1));
                    <u8 as Encode<'a>>::lemma_prefix_truncated(a0, k1);
                }
            },
            SendStatus::Failed => {
                <u32 as Encode<'a>>::lemma_prefix_truncated(2u32, k);
            },
            SendStatus::Empty => {
                <u32 as Encode<'a>>::lemma_prefix_truncated(3u32, k);
            },
        }
    }

    fn size(&self) -> (r: usize) {
        match self {
            SendStatus::Sending(a0) => {
                let d: u32 = 0;
                d.size() + a0.size()
            },
            SendStatus::Delivered(a0) => {
                let d: u32 = 1;
                d.size() + a0.size()
            },
            SendStatus::Failed => {
                let d: u32 = 2;
                d.size()
            },
            SendStatus::Empty => {
                let d: u32 = 3;
                d.size()
            },
        }
    }

    fn encode_at(&self, buf: &mut [u8], pos: usize) -> (r: Result<usize, EncodeError>) {
        match self {
            SendStatus::Sending(a0) => {
                let d: u32 = 0;
                let ghost b0 = buf@;
                let p1 = d.encode_at(buf, pos)?;
                let ghost b1 = buf@;
                let p2 = a0.encode_at(buf, p1)?;
                let ghost b2 = buf@;
                proof {
                    let e0 = <u32 as Encode<'a>>::spec_enc(0u32);
                    let e1 = <u8 as Encode<'a>>::spec_enc(a0.deep_view());
                    let x1 = e1;
                    lemma_wrote_then(b0, b1, b2, pos as int, e0, x1, p1, p2);
                }
                Ok(p2)
            },
            SendStatus::Delivered(a0) => {
                let d: u32 = 1;
                let ghost b0 = buf@;
                let p1 = d.encode_at(buf, pos)?;
                let ghost b1 = buf@;
                let p2 = a0.encode_at(buf, p1)?;
                let ghost b2 = buf@;
                proof {
                    let e0 = <u32 as Encode<'a>>::spec_enc(1u32);
                    let e1 = <u8 as Encode<'a>>::spec_enc(a0.deep_view());
                    let x1 = e1;
                    lemma_wrote_then(b0, b1, b2, pos as int, e0, x1, p1, p2);
                }
                Ok(p2)
            },
            SendStatus::Failed => {
                let d: u32 = 2;
                d.encode_at(buf, pos)
            },
            SendStatus::Empty => {
                let d: u32 = 3;
                d.encode_at(buf, pos)
            },
        }
    }

    fn decode_at(buf: &'a [u8], pos: usize) -> (r: Result<(Self, usize), DecodeError>) {
        let (d, p0) = <u32 as Encode<'a>>::decode_at(buf, pos)?;
        proof {
            lemma_skip_skip(buf@, pos as int, p0 as int);
        }
        if d == 0 {
            let (a0, p1) = <u8 as Encode<'a>>::decode_at(buf, p0)?;
            proof {
                lemma_skip_skip(buf@, p0 as int, p1 as int);
            }
            Ok((SendStatus::Sending(a0), p1))
        } else if d == 1 {
            let (a0, p1) = <u8 as Encode<'a>>::decode_at(buf, p0)?;
            proof {
                lemma_skip_skip(buf@, p0 as int, p1 as int);
            }
            Ok((SendStatus::Delivered(a0), p1))
        } else if d == 2 {
            Ok((SendStatus::Failed, p0))
        } else if d == 3 {
            Ok((SendStatus::Empty, p0))
        } else {
            Err(DecodeError::InvalidVariant)
        }
    }
}

} // verus!
