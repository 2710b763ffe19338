//! Messages sent over USB ("serial port") between a running device and the
//! tools connected to it.
//!
//! Clients (desktop app, CLI) send [`Request`]s; the runtime (device or
//! emulator) sends back [`Response`]s.

use vstd::prelude::*;
use crate::items::{lemma_items_prefix, lemma_items_round_trip, models};
use crate::wire::{
    lemma_skip_skip, lemma_split_step, lemma_take_split, lemma_wrote_then, DecodeError, Encode, EncodeError,
};

verus! {

/// Messages that clients send into the runtime.
#[derive(Clone, Copy, Debug, PartialEq, Eq, Structural)]
pub enum Request {
    /// Call the `cheat` callback with the given two arguments.
    ///
    /// It's up to the app how to handle them; commonly the first is the
    /// command (42 for "noclip") and the second its argument (0 for
    /// "disable", 1 for "enable").
    Cheat(i32, i32),
    /// Turn on/off collection and sending of runtime stats.
    Stats(bool),
}

/// Messages that the runtime sends to connected clients.
#[derive(Clone, Debug, PartialEq, Eq)]
pub enum Response {
    /// The value returned by the `cheat` callback.
    Cheat(i32),
    /// Instructions executed by a callback.
    Fuel(Callback, Fuel),
    /// CPU time spent running code vs sleeping.
    CPU(CPU),
    /// Linear memory used by the wasm app.
    Memory(Memory),
    /// A log record.
    Log(String),
}

#[derive(Clone, Copy, Debug, PartialEq, Eq, Structural)]
pub enum Callback {
    /// The `boot` wasm callback.
    Boot,
    /// The `update` wasm callback.
    Update,
    /// The `render` wasm callback.
    Render,
    /// The `render_line` wasm callback.
    RenderLine,
    /// The `cheat` wasm callback.
    Cheat,
}

/// The bit pattern of an IEEE-754 single-precision float, as `f32::to_bits`
/// gives it. The wire carries it as four little-endian bytes.
#[derive(Clone, Copy, Debug, PartialEq, Eq, Structural)]
pub struct FloatBits(pub u32);

/// The fuel consumed (wasm instructions executed) by a callback on the
/// observed interval.
#[derive(Clone, Copy, Debug, PartialEq, Eq, Structural)]
pub struct Fuel {
    /// The least fuel consumed by a single run.
    pub min: u32,
    /// The most fuel consumed by a single run.
    pub max: u32,
    /// The average number of instructions executed per run.
    pub mean: u32,
    /// Squared standard deviation of individual runs from the average, an
    /// `f32`. Lower means a more even CPU load; take the square root for the
    /// standard deviation.
    pub var: FloatBits,
    /// The number of runs of the callback on the observed interval.
    pub calls: u32,
}

#[derive(Clone, Copy, Debug, PartialEq, Eq, Structural)]
pub struct Memory {
    /// The number of linear memory pages allocated for the app, 64 KB each.
    pub pages: u16,
    /// The address of the last byte that isn't zero: roughly the memory the
    /// app actually uses.
    pub last_one: u32,
    /// The number of read operations. Reserved for future use.
    pub reads: u32,
    /// The number of write operations. Reserved for future use.
    pub writes: u32,
    /// The maximum memory that can be allocated. Reserved for future use.
    pub max: u32,
}

#[derive(Clone, Copy, Debug, PartialEq, Eq, Structural)]
pub struct CPU {
    /// The time taken running the app, in nanoseconds: everything but the
    /// main thread's sleep. Lower is better.
    pub busy_ns: u32,
    /// The time over the expected limit taken by updates, in nanoseconds.
    /// Lower is better; above zero, the app lags.
    pub lag_ns: u32,
    /// The total duration of the observed interval, in nanoseconds.
    pub total_ns: u32,
}

/// The four little-endian bytes of `v`.
pub open spec fn le_bytes(v: u32) -> Seq<u8> {
    seq![
        (v & 0xff) as u8,
        ((v >> 8u32) & 0xff) as u8,
        ((v >> 16u32) & 0xff) as u8,
        ((v >> 24u32) & 0xff) as u8,
    ]
}

/// The `u32` whose little-endian bytes are the first four of `b`.
pub open spec fn from_le_bytes(b: Seq<u8>) -> u32 {
    (b[0] as u32) | ((b[1] as u32) << 8u32) | ((b[2] as u32) << 16u32) | ((b[3] as u32) << 24u32)
}

proof fn lemma_le_bytes(v: u32)
    ensures
        from_le_bytes(le_bytes(v)) == v,
        le_bytes(v).len() == 4,
{
    let b = le_bytes(v);
    let (b0, b1, b2, b3) = (b[0], b[1], b[2], b[3]);
    assert(b0 == (v & 0xff) as u8 && b1 == ((v >> 8u32) & 0xff) as u8 && b2 == ((v >> 16u32)
        & 0xff) as u8 && b3 == ((v >> 24u32) & 0xff) as u8);
    assert(((b0 as u32) | ((b1 as u32) << 8u32) | ((b2 as u32) << 16u32) | ((b3 as u32)
        << 24u32)) == v) by (bit_vector)
        requires
            b0 == (v & 0xff) as u8,
            b1 == ((v >> 8u32) & 0xff) as u8,
            b2 == ((v >> 16u32) & 0xff) as u8,
            b3 == ((v >> 24u32) & 0xff) as u8,
    ;
}

impl DeepView for FloatBits {
    type V = u32;

    open spec fn deep_view(&self) -> u32 {
        self.0
    }
}

impl<'a> Encode<'a> for FloatBits {
    open spec fn spec_enc(v: u32) -> Seq<u8> {
        <[u8; 4] as Encode<'a>>::spec_enc(le_bytes(v))
    }

    open spec fn spec_parse(s: Seq<u8>) -> Result<(u32, nat), DecodeError> {
        match <[u8; 4] as Encode<'a>>::spec_parse(s) {
            Ok((b, k)) => Ok((from_le_bytes(b), k)),
            Err(e) => Err(e),
        }
    }

    proof fn lemma_round_trip(x: FloatBits, rest: Seq<u8>) {
        let b = le_bytes(x.0);
        lemma_le_bytes(x.0);
        assert(models(b) =~= b);
        lemma_items_round_trip::<u8>(b, rest);
    }

    proof fn lemma_prefix_truncated(x: FloatBits, k: int) {
        let b = le_bytes(x.0);
        lemma_le_bytes(x.0);
        assert(models(b) =~= b);
        lemma_items_prefix::<u8>(b, k);
    }

    fn size(&self) -> (r: usize) {
        let b = self.to_le();
        b.size()
    }

    fn encode_at(&self, buf: &mut [u8], pos: usize) -> (r: Result<usize, EncodeError>) {
        let b = self.to_le();
        b.encode_at(buf, pos)
    }

    fn decode_at(buf: &'a [u8], pos: usize) -> (r: Result<(Self, usize), DecodeError>) {
        let (b, end) = <[u8; 4] as Encode<'a>>::decode_at(buf, pos)?;
        assert(b.deep_view() =~= b@);
        let v = (b[0] as u32) | ((b[1] as u32) << 8u32) | ((b[2] as u32) << 16u32) | ((
        b[3] as u32) << 24u32);
        Ok((FloatBits(v), end))
    }
}

impl FloatBits {
    /// The four little-endian bytes of the bit pattern.
    fn to_le(&self) -> (r: [u8; 4])
        ensures
            r.deep_view() == le_bytes(self.0),
    {
        let v = self.0;
        let mut b: [u8; 4] = [0u8; 4];
        b[0] = (v & 0xff) as u8;
        b[1] = ((v >> 8u32) & 0xff) as u8;
        b[2] = ((v >> 16u32) & 0xff) as u8;
        b[3] = ((v >> 24u32) & 0xff) as u8;
        assert(b.deep_view() =~= le_bytes(v));
        b
    }
}

/// The model of a [`Request`].
pub ghost enum RequestModel {
    Cheat(i32, i32),
    Stats(bool),
}

impl DeepView for Request {
    type V = RequestModel;

    open spec fn deep_view(&self) -> RequestModel {
        match self {
            Request::Cheat(a0, a1) => RequestModel::Cheat(*a0, *a1),
            Request::Stats(a0) => RequestModel::Stats(*a0),
        }
    }
}

impl<'a> Encode<'a> for Request {
    open spec fn spec_enc(v: RequestModel) -> Seq<u8> {
        match v {
            RequestModel::Cheat(a0, a1) => {
                <u32 as Encode<'a>>::spec_enc(0u32)
                    + (<i32 as Encode<'a>>::spec_enc(a0)
                    + <i32 as Encode<'a>>::spec_enc(a1))
            },
            RequestModel::Stats(a0) => {
                <u32 as Encode<'a>>::spec_enc(1u32)
                    + <bool as Encode<'a>>::spec_enc(a0)
            },
        }
    }

    open spec fn spec_parse(s: Seq<u8>) -> Result<(RequestModel, nat), DecodeError> {
        match <u32 as Encode<'a>>::spec_parse(s) {
            Err(e) => Err(e),
            Ok((d, k)) => {
                let s0 = s.skip(k as int);
                if d == 0 {
                    match <i32 as Encode<'a>>::spec_parse(s0) {
                        Err(e) => Err(e),
                        Ok((a0, n0)) => {
                            let s1 = s0.skip(n0 as int);
                            match <i32 as Encode<'a>>::spec_parse(s1) {
                                Err(e) => Err(e),
                                Ok((a1, n1)) => {
                                    Ok((RequestModel::Cheat(a0, a1), k + n0 + n1))
                                },
                            }
                        },
                    }
                } else if d == 1 {
                    match <bool as Encode<'a>>::spec_parse(s0) {
                        Err(e) => Err(e),
                        Ok((a0, n0)) => {
                            Ok((RequestModel::Stats(a0), k + n0))
                        },
                    }
                } else {
                    Err(DecodeError::InvalidVariant)
                }
            },
        }
    }

    proof fn lemma_round_trip(x: Request, rest: Seq<u8>) {
        match x {
            Request::Cheat(a0, a1) => {
                let e0 = <u32 as Encode<'a>>::spec_enc(0u32);
                let e1 = <i32 as Encode<'a>>::spec_enc(a0.deep_view());
                let e2 = <i32 as Encode<'a>>::spec_enc(a1.deep_view());
                let x2 = e2;
                let x1 = e1 + x2;
                lemma_split_step(e0, x1, rest);
                <u32 as Encode<'a>>::lemma_round_trip(0u32, x1 + rest);
                lemma_split_step(e1, x2, rest);
                <i32 as Encode<'a>>::lemma_round_trip(a0, x2 + rest);
                <i32 as Encode<'a>>::lemma_round_trip(a1, rest);
            },
            Request::Stats(a0) => {
                let e0 = <u32 as Encode<'a>>::spec_enc(1u32);
                let e1 = <bool as Encode<'a>>::spec_enc(a0.deep_view());
                let x1 = e1;
                lemma_split_step(e0, x1, rest);
                <u32 as Encode<'a>>::lemma_round_trip(1u32, x1 + rest);
                <bool as Encode<'a>>::lemma_round_trip(a0, rest);
            },
        }
    }

    proof fn lemma_prefix_truncated(x: Request, k: int) {
        match x {
            Request::Cheat(a0, a1) => {
                let e0 = <u32 as Encode<'a>>::spec_enc(0u32);
                let e1 = <i32 as Encode<'a>>::spec_enc(a0.deep_view());
                let e2 = <i32 as Encode<'a>>::spec_enc(a1.deep_view());
                let x2 = e2;
                let x1 = e1 + x2;
                let x0 = e0 + x1;
                lemma_take_split(e0, x1, k);
                if k < e0.len() {
                    <u32 as Encode<'a>>::lemma_prefix_truncated(0u32, k);
                } else {
                    let k1 = k - e0.len();
                    <u32 as Encode<'a>>::lemma_round_trip(0u32, x1.take(k1));
                    lemma_take_split(e1, x2, k1);
                    if k1 < e1.len() {
                        <i32 as Encode<'a>>::lemma_prefix_truncated(a0, k1);
                    } else {
                        let k2 = k1 - e1.len();
                        <i32 as Encode<'a>>::lemma_round_trip(a0, x2.take(k2));
                        <i32 as Encode<'a>>::lemma_prefix_truncated(a1, k2);
                    }
                }
            },
            Request::Stats(a0) => {
                let e0 = <u32 as Encode<'a>>::spec_enc(1u32);
                let e1 = <bool as Encode<'a>>::spec_enc(a0.deep_view());
                let x1 = e1;
                let x0 = e0 + x1;
                lemma_take_split(e0, x1, k);
                if k < e0.len() {
                    <u32 as Encode<'a>>::lemma_prefix_truncated(1u32, k);
                } else {
                    let k1 = k - e0.len();
                    <u32 as Encode<'a>>::lemma_round_trip(1u32, x1.take(k1));
                    <bool as Encode<'a>>::lemma_prefix_truncated(a0, k1);
                }
            },
        }
    }

    fn size(&self) -> (r: usize) {
        match self {
            Request::Cheat(a0, a1) => {
                let d: u32 = 0;
                d.size() + a0.size() + a1.size()
            },
            Request::Stats(a0) => {
                let d: u32 = 1;
                d.size() + a0.size()
            },
        }
    }

    fn encode_at(&self, buf: &mut [u8], pos: usize) -> (r: Result<usize, EncodeError>) {
        match self {
            Request::Cheat(a0, a1) => {
                let d: u32 = 0;
                let ghost b0 = buf@;
                let p1 = d.encode_at(buf, pos)?;
                let ghost b1 = buf@;
                let p2 = a0.encode_at(buf, p1)?;
                let ghost b2 = buf@;
                let p3 = a1.encode_at(buf, p2)?;
                let ghost b3 = buf@;
                proof {
                    let e0 = <u32 as Encode<'a>>::spec_enc(0u32);
                    let e1 = <i32 as Encode<'a>>::spec_enc(a0.deep_view());
                    let e2 = <i32 as Encode<'a>>::spec_enc(a1.deep_view());
                    let x2 = e2;
                    let x1 = e1 + x2;
                    lemma_wrote_then(b1, b2, b3, p1 as int, e1, x2, p2, p3);
                    lemma_wrote_then(b0, b1, b3, pos as int, e0, x1, p1, p3);
                }
                Ok(p3)
            },
            Request::Stats(a0) => {
                let d: u32 = 1;
                let ghost b0 = buf@;
                let p1 = d.encode_at(buf, pos)?;
                let ghost b1 = buf@;
                let p2 = a0.encode_at(buf, p1)?;
                let ghost b2 = buf@;
                proof {
                    let e0 = <u32 as Encode<'a>>::spec_enc(1u32);
                    let e1 = <bool as Encode<'a>>::spec_enc(a0.deep_view());
                    let x1 = e1;
                    lemma_wrote_then(b0, b1, b2, pos as int, e0, x1, p1, p2);
                }
                Ok(p2)
            },
        }
    }

    fn decode_at(buf: &'a [u8], pos: usize) -> (r: Result<(Self, usize), DecodeError>) {
        let (d, p0) = <u32 as Encode<'a>>::decode_at(buf, pos)?;
        proof {
            lemma_skip_skip(buf@, pos as int, p0 as int);
        }
        if d == 0 {
            let (a0, p1) = <i32 as Encode<'a>>::decode_at(buf, p0)?;
            proof {
                lemma_skip_skip(buf@, p0 as int, p1 as int);
            }
            let (a1, p2) = <i32 as Encode<'a>>::decode_at(buf, p1)?;
            proof {
                lemma_skip_skip(buf@, p1 as int, p2 as int);
            }
            Ok((Request::Cheat(a0, a1), p2))
        } else if d == 1 {
            let (a0, p1) = <bool as Encode<'a>>::decode_at(buf, p0)?;
            proof {
                lemma_skip_skip(buf@, p0 as int, p1 as int);
            }
            Ok((Request::Stats(a0), p1))
        } else {
            Err(DecodeError::InvalidVariant)
        }
    }
}

/// The model of a [`Response`].
pub ghost enum ResponseModel {
    Cheat(i32),
    Fuel(CallbackModel, FuelModel),
    CPU(CPUModel),
    Memory(MemoryModel),
    Log(Seq<char>),
}

impl DeepView for Response {
    type V = ResponseModel;

    open spec fn deep_view(&self) -> ResponseModel {
        match self {
            Response::Cheat(a0) => ResponseModel::Cheat(*a0),
            Response::Fuel(a0, a1) => ResponseModel::Fuel(a0.deep_view(), a1.deep_view()),
            Response::CPU(a0) => ResponseModel::CPU(a0.deep_view()),
            Response::Memory(a0) => ResponseModel::Memory(a0.deep_view()),
            Response::Log(a0) => ResponseModel::Log(a0.deep_view()),
        }
    }
}

impl<'a> Encode<'a> for Response {
    open spec fn spec_enc(v: ResponseModel) -> Seq<u8> {
        match v {
            ResponseModel::Cheat(a0) => {
                <u32 as Encode<'a>>::spec_enc(0u32)
                    + <i32 as Encode<'a>>::spec_enc(a0)
            },
            ResponseModel::Fuel(a0, a1) => {
                <u32 as Encode<'a>>::spec_enc(1u32)
                    + (<Callback as Encode<'a>>::spec_enc(a0)
                    + <Fuel as Encode<'a>>::spec_enc(a1))
            },
            ResponseModel::CPU(a0) => {
                <u32 as Encode<'a>>::spec_enc(2u32)
                    + <CPU as Encode<'a>>::spec_enc(a0)
            },
            ResponseModel::Memory(a0) => {
                <u32 as Encode<'a>>::spec_enc(3u32)
                    + <Memory as Encode<'a>>::spec_enc(a0)
            },
            ResponseModel::Log(a0) => {
                <u32 as Encode<'a>>::spec_enc(4u32)
                    + <String as Encode<'a>>::spec_enc(a0)
            },
        }
    }

    open spec fn spec_parse(s: Seq<u8>) -> Result<(ResponseModel, nat), DecodeError> {
        match <u32 as Encode<'a>>::spec_parse(s) {
            Err(e) => Err(e),
            Ok((d, k)) => {
                let s0 = s.skip(k as int);
                if d == 0 {
                    match <i32 as Encode<'a>>::spec_parse(s0) {
                        Err(e) => Err(e),
                        Ok((a0, n0)) => {
                            Ok((ResponseModel::Cheat(a0), k + n0))
                        },
                    }
                } else if d == 1 {
                    match <Callback as Encode<'a>>::spec_parse(s0) {
                        Err(e) => Err(e),
                        Ok((a0, n0)) => {
                            let s1 = s0.skip(n0 as int);
                            match <Fuel as Encode<'a>>::spec_parse(s1) {
                                Err(e) => Err(e),
                                Ok((a1, n1)) => {
                                    Ok((ResponseModel::Fuel(a0, a1), k + n0 + n1))
                                },
                            }
                        },
                    }
                } else if d == 2 {
                    match <CPU as Encode<'a>>::spec_parse(s0) {
                        Err(e) => Err(e),
                        Ok((a0, n0)) => {
                            Ok((ResponseModel::CPU(a0), k + n0))
                        },
                    }
                } else if d == 3 {
                    match <Memory as Encode<'a>>::spec_parse(s0) {
                        Err(e) => Err(e),
                        Ok((a0, n0)) => {
                            Ok((ResponseModel::Memory(a0), k + n0))
                        },
                    }
                } else if d == 4 {
                    match <String as Encode<'a>>::spec_parse(s0) {
                        Err(e) => Err(e),
                        Ok((a0, n0)) => {
                            Ok((ResponseModel::Log(a0), k + n0))
                        },
                    }
                } else {
                    Err(DecodeError::InvalidVariant)
                }
            },
        }
    }

    proof fn lemma_round_trip(x: Response, rest: Seq<u8>) {
        match x {
            Response::Cheat(a0) => {
                let e0 = <u32 as Encode<'a>>::spec_enc(0u32);
                let e1 = <i32 as Encode<'a>>::spec_enc(a0.deep_view());
                let x1 = e1;
                lemma_split_step(e0, x1, rest);
                <u32 as Encode<'a>>::lemma_round_trip(0u32, x1 + rest);
                <i32 as Encode<'a>>::lemma_round_trip(a0, rest);
            },
            Response::Fuel(a0, a1) => {
                let e0 = <u32 as Encode<'a>>::spec_enc(1u32);
                let e1 = <Callback as Encode<'a>>::spec_enc(a0.deep_view());
                let e2 = <Fuel as Encode<'a>>::spec_enc(a1.deep_view());
                let x2 = e2;
                let x1 = e1 + x2;
                lemma_split_step(e0, x1, rest);
                <u32 as Encode<'a>>::lemma_round_trip(1u32, x1 + rest);
                lemma_split_step(e1, x2, rest);
                <Callback as Encode<'a>>::lemma_round_trip(a0, x2 + rest);
                <Fuel as Encode<'a>>::lemma_round_trip(a1, rest);
            },
            Response::CPU(a0) => {
                let e0 = <u32 as Encode<'a>>::spec_enc(2u32);
                let e1 = <CPU as Encode<'a>>::spec_enc(a0.deep_view());
                let x1 = e1;
                lemma_split_step(e0, x1, rest);
                <u32 as Encode<'a>>::lemma_round_trip(2u32, x1 + rest);
                <CPU as Encode<'a>>::lemma_round_trip(a0, rest);
            },
            Response::Memory(a0) => {
                let e0 = <u32 as Encode<'a>>::spec_enc(3u32);
                let e1 = <Memory as Encode<'a>>::spec_enc(a0.deep_view());
                let x1 = e1;
                lemma_split_step(e0, x1, rest);
                <u32 as Encode<'a>>::lemma_round_trip(3u32, x1 + rest);
                <Memory as Encode<'a>>::lemma_round_trip(a0, rest);
            },
            Response::Log(a0) => {
                let e0 = <u32 as Encode<'a>>::spec_enc(4u32);
                let e1 = <String as Encode<'a>>::spec_enc(a0.deep_view());
                let x1 = e1;
                lemma_split_step(e0, x1, rest);
                <u32 as Encode<'a>>::lemma_round_trip(4u32, x1 + rest);
                <String as Encode<'a>>::lemma_round_trip(a0, rest);
            },
        }
    }

    proof fn lemma_prefix_truncated(x: Response, k: int) {
        match x {
            Response::Cheat(a0) => {
                let e0 = <u32 as Encode<'a>>::spec_enc(0u32);
                let e1 = <i32 as Encode<'a>>::spec_enc(a0.deep_view());
                let x1 = e1;
                let x0 = e0 + x1;
                lemma_take_split(e0, x1, k);
                if k < e0.len() {
                    <u32 as Encode<'a>>::lemma_prefix_truncated(0u32, k);
                } else {
                    let k1 = k - e0.len();
                    <u32 as Encode<'a>>::lemma_round_trip(0u32, x1.take(k1));
                    <i32 as Encode<'a>>::lemma_prefix_truncated(a0, k1);
                }
            },
            Response::Fuel(a0, a1) => {
                let e0 = <u32 as Encode<'a>>::spec_enc(1u32);
                let e1 = <Callback as Encode<'a>>::spec_enc(a0.deep_view());
                let e2 = <Fuel as Encode<'a>>::spec_enc(a1.deep_view());
                let x2 = e2;
                let x1 = e1 + x2;
                let x0 = e0 + x1;
                lemma_take_split(e0, x1, k);
                if k < e0.len() {
                    <u32 as Encode<'a>>::lemma_prefix_truncated(1u32, k);
                } else {
                    let k1 = k - e0.len();
                    <u32 as Encode<'a>>::lemma_round_trip(1u32, x1.take(k1));
                    lemma_take_split(e1, x2, k1);
                    if k1 < e1.len() {
                        <Callback as Encode<'a>>::lemma_prefix_truncated(a0, k1);
                    } else {
                        let k2 = k1 - e1.len();
                        <Callback as Encode<'a>>::lemma_round_trip(a0, x2.take(k2));
                        <Fuel as Encode<'a>>::lemma_prefix_truncated(a1, k2);
                    }
                }
            },
            Response::CPU(a0) => {
                let e0 = <u32 as Encode<'a>>::spec_enc(2u32);
                let e1 = <CPU as Encode<'a>>::spec_enc(a0.deep_view());
                let x1 = e1;
                let x0 = e0 + x1;
                lemma_take_split(e0, x1, k);
                if k < e0.len() {
                    <u32 as Encode<'a>>::lemma_prefix_truncated(2u32, k);
                } else {
                    let k1 = k - e0.len();
                    <u32 as Encode<'a>>::lemma_round_trip(2u32, x1.take(k1));
                    <CPU as Encode<'a>>::lemma_prefix_truncated(a0, k1);
                }
            },
            Response::Memory(a0) => {
                let e0 = <u32 as Encode<'a>>::spec_enc(3u32);
                let e1 = <Memory as Encode<'a>>::spec_enc(a0.deep_view());
                let x1 = e1;
                let x0 = e0 + x1;
                lemma_take_split(e0, x1, k);
                if k < e0.len() {
                    <u32 as Encode<'a>>::lemma_prefix_truncated(3u32, k);
                } else {
                    let k1 = k - e0.len();
                    <u32 as Encode<'a>>::lemma_round_trip(3u32, x1.take(k1));
                    <Memory as Encode<'a>>::lemma_prefix_truncated(a0, k1);
                }
            },
            Response::Log(a0) => {
                let e0 = <u32 as Encode<'a>>::spec_enc(4u32);
                let e1 = <String as Encode<'a>>::spec_enc(a0.deep_view());
                let x1 = e1;
                let x0 = e0 + x1;
                lemma_take_split(e0, x1, k);
                if k < e0.len() {
                    <u32 as Encode<'a>>::lemma_prefix_truncated(4u32, k);
                } else {
                    let k1 = k - e0.len();
                    <u32 as Encode<'a>>::lemma_round_trip(4u32, x1.take(k1));
                    <String as Encode<'a>>::lemma_prefix_truncated(a0, k1);
                }
            },
        }
    }

    fn size(&self) -> (r: usize) {
        match self {
            Response::Cheat(a0) => {
                let d: u32 = 0;
                d.size() + a0.size()
            },
            Response::Fuel(a0, a1) => {
                let d: u32 = 1;
                d.size() + a0.size() + a1.size()
            },
            Response::CPU(a0) => {
                let d: u32 = 2;
                d.size() + a0.size()
            },
            Response::Memory(a0) => {
                let d: u32 = 3;
                d.size() + a0.size()
            },
            Response::Log(a0) => {
                let d: u32 = 4;
                d.size() + a0.size()
            },
        }
    }

    fn encode_at(&self, buf: &mut [u8], pos: usize) -> (r: Result<usize, EncodeError>) {
        match self {
            Response::Cheat(a0) => {
                let d: u32 = 0;
                let ghost b0 = buf@;
                let p1 = d.encode_at(buf, pos)?;
                let ghost b1 = buf@;
                let p2 = a0.encode_at(buf, p1)?;
                let ghost b2 = buf@;
                proof {
                    let e0 = <u32 as Encode<'a>>::spec_enc(0u32);
                    let e1 = <i32 as Encode<'a>>::spec_enc(a0.deep_view());
                    let x1 = e1;
                    lemma_wrote_then(b0, b1, b2, pos as int, e0, x1, p1, p2);
                }
                Ok(p2)
            },
            Response::Fuel(a0, a1) => {
                let d: u32 = 1;
                let ghost b0 = buf@;
                let p1 = d.encode_at(buf, pos)?;
                let ghost b1 = buf@;
                let p2 = a0.encode_at(buf, p1)?;
                let ghost b2 = buf@;
                let p3 = a1.encode_at(buf, p2)?;
                let ghost b3 = buf@;
                proof {
                    let e0 = <u32 as Encode<'a>>::spec_enc(1u32);
                    let e1 = <Callback as Encode<'a>>::spec_enc(a0.deep_view());
                    let e2 = <Fuel as Encode<'a>>::spec_enc(a1.deep_view());
                    let x2 = e2;
                    let x1 = e1 + x2;
                    lemma_wrote_then(b1, b2, b3, p1 as int, e1, x2, p2, p3);
                    lemma_wrote_then(b0, b1, b3, pos as int, e0, x1, p1, p3);
                }
                Ok(p3)
            },
            Response::CPU(a0) => {
                let d: u32 = 2;
                let ghost b0 = buf@;
                let p1 = d.encode_at(buf, pos)?;
                let ghost b1 = buf@;
                let p2 = a0.encode_at(buf, p1)?;
                let ghost b2 = buf@;
                proof {
                    let e0 = <u32 as Encode<'a>>::spec_enc(2u32);
                    let e1 = <CPU as Encode<'a>>::spec_enc(a0.deep_view());
                    let x1 = e1;
                    lemma_wrote_then(b0, b1, b2, pos as int, e0, x1, p1, p2);
                }
                Ok(p2)
            },
            Response::Memory(a0) => {
                let d: u32 = 3;
                let ghost b0 = buf@;
                let p1 = d.encode_at(buf, pos)?;
                let ghost b1 = buf@;
                let p2 = a0.encode_at(buf, p1)?;
                let ghost b2 = buf@;
                proof {
                    let e0 = <u32 as Encode<'a>>::spec_enc(3u32);
                    let e1 = <Memory as Encode<'a>>::spec_enc(a0.deep_view());
                    let x1 = e1;
                    lemma_wrote_then(b0, b1, b2, pos as int, e0, x1, p1, p2);
                }
                Ok(p2)
            },
            Response::Log(a0) => {
                let d: u32 = 4;
                let ghost b0 = buf@;
                let p1 = d.encode_at(buf, pos)?;
                let ghost b1 = buf@;
                let p2 = a0.encode_at(buf, p1)?;
                let ghost b2 = buf@;
                proof {
                    let e0 = <u32 as Encode<'a>>::spec_enc(4u32);
                    let e1 = <String as Encode<'a>>::spec_enc(a0.deep_view());
                    let x1 = e1;
                    lemma_wrote_then(b0, b1, b2, pos as int, e0, x1, p1, p2);
                }
                Ok(p2)
            },
        }
    }

    fn decode_at(buf: &'a [u8], pos: usize) -> (r: Result<(Self, usize), DecodeError>) {
        let (d, p0) = <u32 as Encode<'a>>::decode_at(buf, pos)?;
        proof {
            lemma_skip_skip(buf@, pos as int, p0 as int);
        }
        if d == 0 {
            let (a0, p1) = <i32 as Encode<'a>>::decode_at(buf, p0)?;
            proof {
                lemma_skip_skip(buf@, p0 as int, p1 as int);
            }
            Ok((Response::Cheat(a0), p1))
        } else if d == 1 {
            let (a0, p1) = <Callback as Encode<'a>>::decode_at(buf, p0)?;
            proof {
                lemma_skip_skip(buf@, p0 as int, p1 as int);
            }
            let (a1, p2) = <Fuel as Encode<'a>>::decode_at(buf, p1)?;
            proof {
                lemma_skip_skip(buf@, p1 as int, p2 as int);
            }
            Ok((Response::Fuel(a0, a1), p2))
        } else if d == 2 {
            let (a0, p1) = <CPU as Encode<'a>>::decode_at(buf, p0)?;
            proof {
                lemma_skip_skip(buf@, p0 as int, p1 as int);
            }
            Ok((Response::CPU(a0), p1))
        } else if d == 3 {
            let (a0, p1) = <Memory as Encode<'a>>::decode_at(buf, p0)?;
            proof {
                lemma_skip_skip(buf@, p0 as int, p1 as int);
            }
            Ok((Response::Memory(a0), p1))
        } else if d == 4 {
            let (a0, p1) = <String as Encode<'a>>::decode_at(buf, p0)?;
            proof {
                lemma_skip_skip(buf@, p0 as int, p1 as int);
            }
            Ok((Response::Log(a0), p1))
        } else {
            Err(DecodeError::InvalidVariant)
        }
    }
}

/// The model of a [`Callback`].
pub ghost enum CallbackModel {
    Boot,
    Update,
    Render,
    RenderLine,
    Cheat,
}

impl DeepView for Callback {
    type V = CallbackModel;

    open spec fn deep_view(&self) -> CallbackModel {
        match self {
            Callback::Boot => CallbackModel::Boot,
            Callback::Update => CallbackModel::Update,
            Callback::Render => CallbackModel::Render,
            Callback::RenderLine => CallbackModel::RenderLine,
            Callback::Cheat => CallbackModel::Cheat,
        }
    }
}

impl<'a> Encode<'a> for Callback {
    open spec fn spec_enc(v: CallbackModel) -> Seq<u8> {
        match v {
            CallbackModel::Boot => <u32 as Encode<'a>>::spec_enc(0u32),
            CallbackModel::Update => <u32 as Encode<'a>>::spec_enc(1u32),
            CallbackModel::Render => <u32 as Encode<'a>>::spec_enc(2u32),
            CallbackModel::RenderLine => <u32 as Encode<'a>>::spec_enc(3u32),
            CallbackModel::Cheat => <u32 as Encode<'a>>::spec_enc(4u32),
        }
    }

    open spec fn spec_parse(s: Seq<u8>) -> Result<(CallbackModel, nat), DecodeError> {
        match <u32 as Encode<'a>>::spec_parse(s) {
            Err(e) => Err(e),
            Ok((d, k)) => {
                let s0 = s.skip(k as int);
                if d == 0 {
                    Ok((CallbackModel::Boot, k))
                } else if d == 1 {
                    Ok((CallbackModel::Update, k))
                } else if d == 2 {
                    Ok((CallbackModel::Render, k))
                } else if d == 3 {
                    Ok((CallbackModel::RenderLine, k))
                } else if d == 4 {
                    Ok((CallbackModel::Cheat, k))
                } else {
                    Err(DecodeError::InvalidVariant)
                }
            },
        }
    }

    proof fn lemma_round_trip(x: Callback, rest: Seq<u8>) {
        match x {
            Callback::Boot => {
                <u32 as Encode<'a>>::lemma_round_trip(0u32, rest);
            },
            Callback::Update => {
                <u32 as Encode<'a>>::lemma_round_trip(1u32, rest);
            },
            Callback::Render => {
                <u32 as Encode<'a>>::lemma_round_trip(2u32, rest);
            },
            Callback::RenderLine => {
                <u32 as Encode<'a>>::lemma_round_trip(3u32, rest);
            },
            Callback::Cheat => {
                <u32 as Encode<'a>>::lemma_round_trip(4u32, rest);
            },
        }
    }

    proof fn lemma_prefix_truncated(x: Callback, k: int) {
        match x {
            Callback::Boot => {
                <u32 as Encode<'a>>::lemma_prefix_truncated(0u32, k);
            },
            Callback::Update => {
                <u32 as Encode<'a>>::lemma_prefix_truncated(1u32, k);
            },
            Callback::Render => {
                <u32 as Encode<'a>>::lemma_prefix_truncated(2u32, k);
            },
            Callback::RenderLine => {
                <u32 as Encode<'a>>::lemma_prefix_truncated(3u32, k);
            },
            Callback::Cheat => {
                <u32 as Encode<'a>>::lemma_prefix_truncated(4u32, k);
            },
        }
    }

    fn size(&self) -> (r: usize) {
        match self {
            Callback::Boot => {
                let d: u32 = 0;
                d.size()
            },
            Callback::Update => {
                let d: u32 = 1;
                d.size()
            },
            Callback::Render => {
                let d: u32 = 2;
                d.size()
            },
            Callback::RenderLine => {
                let d: u32 = 3;
                d.size()
            },
            Callback::Cheat => {
                let d: u32 = 4;
                d.size()
            },
        }
    }

    fn encode_at(&self, buf: &mut [u8], pos: usize) -> (r: Result<usize, EncodeError>) {
        match self {
            Callback::Boot => {
                let d: u32 = 0;
                d.encode_at(buf, pos)
            },
            Callback::Update => {
                let d: u32 = 1;
                d.encode_at(buf, pos)
            },
            Callback::Render => {
                let d: u32 = 2;
                d.encode_at(buf, pos)
            },
            Callback::RenderLine => {
                let d: u32 = 3;
                d.encode_at(buf, pos)
            },
            Callback::Cheat => {
                let d: u32 = 4;
                d.encode_at(buf, pos)
            },
        }
    }

    fn decode_at(buf: &'a [u8], pos: usize) -> (r: Result<(Self, usize), DecodeError>) {
        let (d, p0) = <u32 as Encode<'a>>::decode_at(buf, pos)?;
        proof {
            lemma_skip_skip(buf@, pos as int, p0 as int);
        }
        if d == 0 {
            Ok((Callback::Boot, p0))
        } else if d == 1 {
            Ok((Callback::Update, p0))
        } else if d == 2 {
            Ok((Callback::Render, p0))
        } else if d == 3 {
            Ok((Callback::RenderLine, p0))
        } else if d == 4 {
            Ok((Callback::Cheat, p0))
        } else {
            Err(DecodeError::InvalidVariant)
        }
    }
}

/// The model of a [`Fuel`].
pub ghost struct FuelModel {
    pub min: u32,
    pub max: u32,
    pub mean: u32,
    pub var: u32,
    pub calls: u32,
}

impl DeepView for Fuel {
    type V = FuelModel;

    open spec fn deep_view(&self) -> FuelModel {
        FuelModel {
            min: self.min,
            max: self.max,
            mean: self.mean,
            var: self.var.deep_view(),
            calls: self.calls,
        }
    }
}

impl<'a> Encode<'a> for Fuel {
    open spec fn spec_enc(v: FuelModel) -> Seq<u8> {
        <u32 as Encode<'a>>::spec_enc(v.min)
            + (<u32 as Encode<'a>>::spec_enc(v.max)
            + (<u32 as Encode<'a>>::spec_enc(v.mean)
            + (<FloatBits as Encode<'a>>::spec_enc(v.var)
            + <u32 as Encode<'a>>::spec_enc(v.calls))))
    }

    open spec fn spec_parse(s: Seq<u8>) -> Result<(FuelModel, nat), DecodeError> {
        match <u32 as Encode<'a>>::spec_parse(s) {
            Err(e) => Err(e),
            Ok((min, n0)) => {
                let s1 = s.skip(n0 as int);
                match <u32 as Encode<'a>>::spec_parse(s1) {
                    Err(e) => Err(e),
                    Ok((max, n1)) => {
                        let s2 = s1.skip(n1 as int);
                        match <u32 as Encode<'a>>::spec_parse(s2) {
                            Err(e) => Err(e),
                            Ok((mean, n2)) => {
                                let s3 = s2.skip(n2 as int);
                                match <FloatBits as Encode<'a>>::spec_parse(s3) {
                                    Err(e) => Err(e),
                                    Ok((var, n3)) => {
                                        let s4 = s3.skip(n3 as int);
                                        match <u32 as Encode<'a>>::spec_parse(s4) {
                                            Err(e) => Err(e),
                                            Ok((calls, n4)) => {
                                                Ok((FuelModel { min, max, mean, var, calls }, n0 + n1 + n2 + n3 + n4))
                                            },
                                        }
                                    },
                                }
                            },
                        }
                    },
                }
            },
        }
    }

    proof fn lemma_round_trip(x: Fuel, rest: Seq<u8>) {
        let v = x.deep_view();
        let e0 = <u32 as Encode<'a>>::spec_enc(v.min);
        let e1 = <u32 as Encode<'a>>::spec_enc(v.max);
        let e2 = <u32 as Encode<'a>>::spec_enc(v.mean);
        let e3 = <FloatBits as Encode<'a>>::spec_enc(v.var);
        let e4 = <u32 as Encode<'a>>::spec_enc(v.calls);
        let x4 = e4;
        let x3 = e3 + x4;
        let x2 = e2 + x3;
        let x1 = e1 + x2;
        lemma_split_step(e0, x1, rest);
        <u32 as Encode<'a>>::lemma_round_trip(x.min, x1 + rest);
        lemma_split_step(e1, x2, rest);
        <u32 as Encode<'a>>::lemma_round_trip(x.max, x2 + rest);
        lemma_split_step(e2, x3, rest);
        <u32 as Encode<'a>>::lemma_round_trip(x.mean, x3 + rest);
        lemma_split_step(e3, x4, rest);
        <FloatBits as Encode<'a>>::lemma_round_trip(x.var, x4 + rest);
        <u32 as Encode<'a>>::lemma_round_trip(x.calls, rest);
    }

    proof fn lemma_prefix_truncated(x: Fuel, k: int) {
        let v = x.deep_view();
        let e0 = <u32 as Encode<'a>>::spec_enc(v.min);
        let e1 = <u32 as Encode<'a>>::spec_enc(v.max);
        let e2 = <u32 as Encode<'a>>::spec_enc(v.mean);
        let e3 = <FloatBits as Encode<'a>>::spec_enc(v.var);
        let e4 = <u32 as Encode<'a>>::spec_enc(v.calls);
        let x4 = e4;
        let x3 = e3 + x4;
        let x2 = e2 + x3;
        let x1 = e1 + x2;
        let x0 = e0 + x1;
        lemma_take_split(e0, x1, k);
        if k < e0.len() {
            <u32 as Encode<'a>>::lemma_prefix_truncated(x.min, k);
        } else {
            let k1 = k - e0.len();
            <u32 as Encode<'a>>::lemma_round_trip(x.min, x1.take(k1));
            lemma_take_split(e1, x2, k1);
            if k1 < e1.len() {
                <u32 as Encode<'a>>::lemma_prefix_truncated(x.max, k1);
            } else {
                let k2 = k1 - e1.len();
                <u32 as Encode<'a>>::lemma_round_trip(x.max, x2.take(k2));
                lemma_take_split(e2, x3, k2);
                if k2 < e2.len() {
                    <u32 as Encode<'a>>::lemma_prefix_truncated(x.mean, k2);
                } else {
                    let k3 = k2 - e2.len();
                    <u32 as Encode<'a>>::lemma_round_trip(x.mean, x3.take(k3));
                    lemma_take_split(e3, x4, k3);
                    if k3 < e3.len() {
                        <FloatBits as Encode<'a>>::lemma_prefix_truncated(x.var, k3);
                    } else {
                        let k4 = k3 - e3.len();
                        <FloatBits as Encode<'a>>::lemma_round_trip(x.var, x4.take(k4));
                        <u32 as Encode<'a>>::lemma_prefix_truncated(x.calls, k4);
                    }
                }
            }
        }
    }

    fn size(&self) -> (r: usize) {
        let n0 = self.min.size();
        let n1 = self.max.size();
        let n2 = self.mean.size();
        let n3 = self.var.size();
        let n4 = self.calls.size();
        n0 + n1 + n2 + n3 + n4
    }

    fn encode_at(&self, buf: &mut [u8], pos: usize) -> (r: Result<usize, EncodeError>) {
        let ghost v = self.deep_view();
        let ghost b0 = buf@;
        let p1 = self.min.encode_at(buf, pos)?;
        let ghost b1 = buf@;
        let p2 = self.max.encode_at(buf, p1)?;
        let ghost b2 = buf@;
        let p3 = self.mean.encode_at(buf, p2)?;
        let ghost b3 = buf@;
        let p4 = self.var.encode_at(buf, p3)?;
        let ghost b4 = buf@;
        let p5 = self.calls.encode_at(buf, p4)?;
        let ghost b5 = buf@;
        proof {
            let e0 = <u32 as Encode<'a>>::spec_enc(v.min);
            let e1 = <u32 as Encode<'a>>::spec_enc(v.max);
            let e2 = <u32 as Encode<'a>>::spec_enc(v.mean);
            let e3 = <FloatBits as Encode<'a>>::spec_enc(v.var);
            let e4 = <u32 as Encode<'a>>::spec_enc(v.calls);
            let x4 = e4;
            let x3 = e3 + x4;
            lemma_wrote_then(b3, b4, b5, p3 as int, e3, x4, p4, p5);
            let x2 = e2 + x3;
            lemma_wrote_then(b2, b3, b5, p2 as int, e2, x3, p3, p5);
            let x1 = e1 + x2;
            lemma_wrote_then(b1, b2, b5, p1 as int, e1, x2, p2, p5);
            lemma_wrote_then(b0, b1, b5, pos as int, e0, x1, p1, p5);
        }
        Ok(p5)
    }

    fn decode_at(buf: &'a [u8], pos: usize) -> (r: Result<(Self, usize), DecodeError>) {
        let (min, p1) = <u32 as Encode<'a>>::decode_at(buf, pos)?;
        proof {
            lemma_skip_skip(buf@, pos as int, p1 as int);
        }
        let (max, p2) = <u32 as Encode<'a>>::decode_at(buf, p1)?;
        proof {
            lemma_skip_skip(buf@, p1 as int, p2 as int);
        }
        let (mean, p3) = <u32 as Encode<'a>>::decode_at(buf, p2)?;
        proof {
            lemma_skip_skip(buf@, p2 as int, p3 as int);
        }
        let (var, p4) = <FloatBits as Encode<'a>>::decode_at(buf, p3)?;
        proof {
            lemma_skip_skip(buf@, p3 as int, p4 as int);
        }
        let (calls, p5) = <u32 as Encode<'a>>::decode_at(buf, p4)?;
        proof {
            lemma_skip_skip(buf@, p4 as int, p5 as int);
        }
        Ok((Fuel { min, max, mean, var, calls }, p5))
    }
}

/// The model of a [`Memory`].
pub ghost struct MemoryModel {
    pub pages: u16,
    pub last_one: u32,
    pub reads: u32,
    pub writes: u32,
    pub max: u32,
}

impl DeepView for Memory {
    type V = MemoryModel;

    open spec fn deep_view(&self) -> MemoryModel {
        MemoryModel {
            pages: self.pages,
            last_one: self.last_one,
            reads: self.reads,
            writes: self.writes,
            max: self.max,
        }
    }
}

impl<'a> Encode<'a> for Memory {
    open spec fn spec_enc(v: MemoryModel) -> Seq<u8> {
        <u16 as Encode<'a>>::spec_enc(v.pages)
            + (<u32 as Encode<'a>>::spec_enc(v.last_one)
            + (<u32 as Encode<'a>>::spec_enc(v.reads)
            + (<u32 as Encode<'a>>::spec_enc(v.writes)
            + <u32 as Encode<'a>>::spec_enc(v.max))))
    }

    open spec fn spec_parse(s: Seq<u8>) -> Result<(MemoryModel, nat), DecodeError> {
        match <u16 as Encode<'a>>::spec_parse(s) {
            Err(e) => Err(e),
            Ok((pages, n0)) => {
                let s1 = s.skip(n0 as int);
                match <u32 as Encode<'a>>::spec_parse(s1) {
                    Err(e) => Err(e),
                    Ok((last_one, n1)) => {
                        let s2 = s1.skip(n1 as int);
                        match <u32 as Encode<'a>>::spec_parse(s2) {
                            Err(e) => Err(e),
                            Ok((reads, n2)) => {
                                let s3 = s2.skip(n2 as int);
                                match <u32 as Encode<'a>>::spec_parse(s3) {
                                    Err(e) => Err(e),
                                    Ok((writes, n3)) => {
                                        let s4 = s3.skip(n3 as int);
                                        match <u32 as Encode<'a>>::spec_parse(s4) {
                                            Err(e) => Err(e),
                                            Ok((max, n4)) => {
                                                Ok((MemoryModel { pages, last_one, reads, writes, max }, n0 + n1 + n2 + n3 + n4))
                                            },
                                        }
                                    },
                                }
                            },
                        }
                    },
                }
            },
        }
    }

    proof fn lemma_round_trip(x: Memory, rest: Seq<u8>) {
        let v = x.deep_view();
        let e0 = <u16 as Encode<'a>>::spec_enc(v.pages);
        let e1 = <u32 as Encode<'a>>::spec_enc(v.last_one);
        let e2 = <u32 as Encode<'a>>::spec_enc(v.reads);
        let e3 = <u32 as Encode<'a>>::spec_enc(v.writes);
        let e4 = <u32 as Encode<'a>>::spec_enc(v.max);
        let x4 = e4;
        let x3 = e3 + x4;
        let x2 = e2 + x3;
        let x1 = e1 + x2;
        lemma_split_step(e0, x1, rest);
        <u16 as Encode<'a>>::lemma_round_trip(x.pages, x1 + rest);
        lemma_split_step(e1, x2, rest);
        <u32 as Encode<'a>>::lemma_round_trip(x.last_one, x2 + rest);
        lemma_split_step(e2, x3, rest);
        <u32 as Encode<'a>>::lemma_round_trip(x.reads, x3 + rest);
        lemma_split_step(e3, x4, rest);
        <u32 as Encode<'a>>::lemma_round_trip(x.writes, x4 + rest);
        <u32 as Encode<'a>>::lemma_round_trip(x.max, rest);
    }

    proof fn lemma_prefix_truncated(x: Memory, k: int) {
        let v = x.deep_view();
        let e0 = <u16 as Encode<'a>>::spec_enc(v.pages);
        let e1 = <u32 as Encode<'a>>::spec_enc(v.last_one);
        let e2 = <u32 as Encode<'a>>::spec_enc(v.reads);
        let e3 = <u32 as Encode<'a>>::spec_enc(v.writes);
        let e4 = <u32 as Encode<'a>>::spec_enc(v.max);
        let x4 = e4;
        let x3 = e3 + x4;
        let x2 = e2 + x3;
        let x1 = e1 + x2;
        let x0 = e0 + x1;
        lemma_take_split(e0, x1, k);
        if k < e0.len() {
            <u16 as Encode<'a>>::lemma_prefix_truncated(x.pages, k);
        } else {
            let k1 = k - e0.len();
            <u16 as Encode<'a>>::lemma_round_trip(x.pages, x1.take(k1));
            lemma_take_split(e1, x2, k1);
            if k1 < e1.len() {
                <u32 as Encode<'a>>::lemma_prefix_truncated(x.last_one, k1);
            } else {
                let k2 = k1 - e1.len();
                <u32 as Encode<'a>>::lemma_round_trip(x.last_one, x2.take(k2));
                lemma_take_split(e2, x3, k2);
                if k2 < e2.len() {
                    <u32 as Encode<'a>>::lemma_prefix_truncated(x.reads, k2);
                } else {
                    let k3 = k2 - e2.len();
                    <u32 as Encode<'a>>::lemma_round_trip(x.reads, x3.take(k3));
                    lemma_take_split(e3, x4, k3);
                    if k3 < e3.len() {
                        <u32 as Encode<'a>>::lemma_prefix_truncated(x.writes, k3);
                    } else {
                        let k4 = k3 - e3.len();
                        <u32 as Encode<'a>>::lemma_round_trip(x.writes, x4.take(k4));
                        <u32 as Encode<'a>>::lemma_prefix_truncated(x.max, k4);
                    }
                }
            }
        }
    }

    fn size(&self) -> (r: usize) {
        let n0 = self.pages.size();
        let n1 = self.last_one.size();
        let n2 = self.reads.size();
        let n3 = self.writes.size();
        let n4 = self.max.size();
        n0 + n1 + n2 + n3 + n4
    }

    fn encode_at(&self, buf: &mut [u8], pos: usize) -> (r: Result<usize, EncodeError>) {
        let ghost v = self.deep_view();
        let ghost b0 = buf@;
        let p1 = self.pages.encode_at(buf, pos)?;
        let ghost b1 = buf@;
        let p2 = self.last_one.encode_at(buf, p1)?;
        let ghost b2 = buf@;
        let p3 = self.reads.encode_at(buf, p2)?;
        let ghost b3 = buf@;
        let p4 = self.writes.encode_at(buf, p3)?;
        let ghost b4 = buf@;
        let p5 = self.max.encode_at(buf, p4)?;
        let ghost b5 = buf@;
        proof {
            let e0 = <u16 as Encode<'a>>::spec_enc(v.pages);
            let e1 = <u32 as Encode<'a>>::spec_enc(v.last_one);
            let e2 = <u32 as Encode<'a>>::spec_enc(v.reads);
            let e3 = <u32 as Encode<'a>>::spec_enc(v.writes);
            let e4 = <u32 as Encode<'a>>::spec_enc(v.max);
            let x4 = e4;
            let x3 = e3 + x4;
            lemma_wrote_then(b3, b4, b5, p3 as int, e3, x4, p4, p5);
            let x2 = e2 + x3;
            lemma_wrote_then(b2, b3, b5, p2 as int, e2, x3, p3, p5);
            let x1 = e1 + x2;
            lemma_wrote_then(b1, b2, b5, p1 as int, e1, x2, p2, p5);
            lemma_wrote_then(b0, b1, b5, pos as int, e0, x1, p1, p5);
        }
        Ok(p5)
    }

    fn decode_at(buf: &'a [u8], pos: usize) -> (r: Result<(Self, usize), DecodeError>) {
        let (pages, p1) = <u16 as Encode<'a>>::decode_at(buf, pos)?;
        proof {
            lemma_skip_skip(buf@, pos as int, p1 as int);
        }
        let (last_one, p2) = <u32 as Encode<'a>>::decode_at(buf, p1)?;
        proof {
            lemma_skip_skip(buf@, p1 as int, p2 as int);
        }
        let (reads, p3) = <u32 as Encode<'a>>::decode_at(buf, p2)?;
        proof {
            lemma_skip_skip(buf@, p2 as int, p3 as int);
        }
        let (writes, p4) = <u32 as Encode<'a>>::decode_at(buf, p3)?;
        proof {
            lemma_skip_skip(buf@, p3 as int, p4 as int);
        }
        let (max, p5) = <u32 as Encode<'a>>::decode_at(buf, p4)?;
        proof {
            lemma_skip_skip(buf@, p4 as int, p5 as int);
        }
        Ok((Memory { pages, last_one, reads, writes, max }, p5))
    }
}

/// The model of a [`CPU`].
pub ghost struct CPUModel {
    pub busy_ns: u32,
    pub lag_ns: u32,
    pub total_ns: u32,
}

impl DeepView for CPU {
    type V = CPUModel;

    open spec fn deep_view(&self) -> CPUModel {
        CPUModel {
            busy_ns: self.busy_ns,
            lag_ns: self.lag_ns,
            total_ns: self.total_ns,
        }
    }
}

impl<'a> Encode<'a> for CPU {
    open spec fn spec_enc(v: CPUModel) -> Seq<u8> {
        <u32 as Encode<'a>>::spec_enc(v.busy_ns)
            + (<u32 as Encode<'a>>::spec_enc(v.lag_ns)
            + <u32 as Encode<'a>>::spec_enc(v.total_ns))
    }

    open spec fn spec_parse(s: Seq<u8>) -> Result<(CPUModel, nat), DecodeError> {
        match <u32 as Encode<'a>>::spec_parse(s) {
            Err(e) => Err(e),
            Ok((busy_ns, n0)) => {
                let s1 = s.skip(n0 as int);
                match <u32 as Encode<'a>>::spec_parse(s1) {
                    Err(e) => Err(e),
                    Ok((lag_ns, n1)) => {
                        let s2 = s1.skip(n1 as int);
                        match <u32 as Encode<'a>>::spec_parse(s2) {
                            Err(e) => Err(e),
                            Ok((total_ns, n2)) => {
                                Ok((CPUModel { busy_ns, lag_ns, total_ns }, n0 + n1 + n2))
                            },
                        }
                    },
                }
            },
        }
    }

    proof fn lemma_round_trip(x: CPU, rest: Seq<u8>) {
        let v = x.deep_view();
        let e0 = <u32 as Encode<'a>>::spec_enc(v.busy_ns);
        let e1 = <u32 as Encode<'a>>::spec_enc(v.lag_ns);
        let e2 = <u32 as Encode<'a>>::spec_enc(v.total_ns);
        let x2 = e2;
        let x1 = e1 + x2;
        lemma_split_step(e0, x1, rest);
        <u32 as Encode<'a>>::lemma_round_trip(x.busy_ns, x1 + rest);
        lemma_split_step(e1, x2, rest);
        <u32 as Encode<'a>>::lemma_round_trip(x.lag_ns, x2 + rest);
        <u32 as Encode<'a>>::lemma_round_trip(x.total_ns, rest);
    }

    proof fn lemma_prefix_truncated(x: CPU, k: int) {
        let v = x.deep_view();
        let e0 = <u32 as Encode<'a>>::spec_enc(v.busy_ns);
        let e1 = <u32 as Encode<'a>>::spec_enc(v.lag_ns);
        let e2 = <u32 as Encode<'a>>::spec_enc(v.total_ns);
        let x2 = e2;
        let x1 = e1 + x2;
        let x0 = e0 + x1;
        lemma_take_split(e0, x1, k);
        if k < e0.len() {
            <u32 as Encode<'a>>::lemma_prefix_truncated(x.busy_ns, k);
        } else {
            let k1 = k - e0.len();
            <u32 as Encode<'a>>::lemma_round_trip(x.busy_ns, x1.take(k1));
            lemma_take_split(e1, x2, k1);
            if k1 < e1.len() {
                <u32 as Encode<'a>>::lemma_prefix_truncated(x.lag_ns, k1);
            } else {
                let k2 = k1 - e1.len();
                <u32 as Encode<'a>>::lemma_round_trip(x.lag_ns, x2.take(k2));
                <u32 as Encode<'a>>::lemma_prefix_truncated(x.total_ns, k2);
            }
        }
    }

    fn size(&self) -> (r: usize) {
        let n0 = self.busy_ns.size();
        let n1 = self.lag_ns.size();
        let n2 = self.total_ns.size();
        n0 + n1 + n2
    }

    fn encode_at(&self, buf: &mut [u8], pos: usize) -> (r: Result<usize, EncodeError>) {
        let ghost v = self.deep_view();
        let ghost b0 = buf@;
        let p1 = self.busy_ns.encode_at(buf, pos)?;
        let ghost b1 = buf@;
        let p2 = self.lag_ns.encode_at(buf, p1)?;
        let ghost b2 = buf@;
        let p3 = self.total_ns.encode_at(buf, p2)?;
        let ghost b3 = buf@;
        proof {
            let e0 = <u32 as Encode<'a>>::spec_enc(v.busy_ns);
            let e1 = <u32 as Encode<'a>>::spec_enc(v.lag_ns);
            let e2 = <u32 as Encode<'a>>::spec_enc(v.total_ns);
            let x2 = e2;
            let x1 = e1 + x2;
            lemma_wrote_then(b1, b2, b3, p1 as int, e1, x2, p2, p3);
            lemma_wrote_then(b0, b1, b3, pos as int, e0, x1, p1, p3);
        }
        Ok(p3)
    }

    fn decode_at(buf: &'a [u8], pos: usize) -> (r: Result<(Self, usize), DecodeError>) {
        let (busy_ns, p1) = <u32 as Encode<'a>>::decode_at(buf, pos)?;
        proof {
            lemma_skip_skip(buf@, pos as int, p1 as int);
        }
        let (lag_ns, p2) = <u32 as Encode<'a>>::decode_at(buf, p1)?;
        proof {
            lemma_skip_skip(buf@, p1 as int, p2 as int);
        }
        let (total_ns, p3) = <u32 as Encode<'a>>::decode_at(buf, p2)?;
        proof {
            lemma_skip_skip(buf@, p2 as int, p3 as int);
        }
        Ok((CPU { busy_ns, lag_ns, total_ns }, p3))
    }
}

} // verus!
