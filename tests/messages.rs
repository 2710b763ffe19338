use firefly_types::serial::{Callback, Fuel, FloatBits, Memory, Request, Response, CPU};
use firefly_types::spi;
use firefly_types::{DecodeError, Encode};

#[test]
fn test_roundtrip_request() {
    let given = Request::Cheat(3, 4);
    let mut buf = vec![0; given.size()];
    let n = given.encode(&mut buf).unwrap();
    let actual = Request::decode(&buf[..n]).unwrap();
    assert_eq!(given, actual);
}

#[test]
fn test_roundtrip_response() {
    let given = Response::Cheat(13);
    let mut buf = vec![0; given.size()];
    let n = given.encode(&mut buf).unwrap();
    let actual = Response::decode(&buf[..n]).unwrap();
    assert_eq!(given, actual);
}

#[test]
fn serial_bytes_are_exact() {
    let mut buf = vec![0; 16];
    let n = Request::Cheat(3, -4).encode(&mut buf).unwrap();
    assert_eq!(&buf[..n], &[0, 6, 7]);
    let n = Request::Stats(true).encode(&mut buf).unwrap();
    assert_eq!(&buf[..n], &[1, 1]);
    let n = Response::Log("ok".to_string()).encode(&mut buf).unwrap();
    assert_eq!(&buf[..n], &[4, 2, b'o', b'k']);
    let n = Response::CPU(CPU { busy_ns: 1, lag_ns: 0, total_ns: 200 }).encode(&mut buf).unwrap();
    assert_eq!(&buf[..n], &[2, 1, 0, 0xc8, 0x01]);
}

#[test]
fn serial_responses_roundtrip() {
    let all = vec![
        Response::Cheat(-13),
        Response::Fuel(
            Callback::RenderLine,
            Fuel { min: 1, max: 99, mean: 50, var: FloatBits(2.25f32.to_bits()), calls: 7 },
        ),
        Response::CPU(CPU { busy_ns: 1, lag_ns: 2, total_ns: 3 }),
        Response::Memory(Memory { pages: 3, last_one: 70000, reads: 0, writes: 0, max: 1 }),
        Response::Log("boot ok".to_string()),
    ];
    for given in all {
        let mut buf = vec![0; given.size()];
        let n = given.encode(&mut buf).unwrap();
        assert_eq!(n, buf.len());
        assert_eq!(Response::decode(&buf).unwrap(), given);
    }
}

#[test]
fn unknown_discriminant_is_invalid_variant() {
    assert_eq!(Request::decode(&[2]), Err(DecodeError::InvalidVariant));
    assert_eq!(Response::decode(&[5]), Err(DecodeError::InvalidVariant));
    assert_eq!(Callback::decode(&[5]), Err(DecodeError::InvalidVariant));
    assert_eq!(spi::Request::decode(&[8]), Err(DecodeError::InvalidVariant));
    assert_eq!(spi::Response::decode(&[10]), Err(DecodeError::InvalidVariant));
    assert_eq!(spi::SendStatus::decode(&[4]), Err(DecodeError::InvalidVariant));
    assert_eq!(Request::decode(&[]), Err(DecodeError::Truncated));
}

#[test]
fn spi_bytes_are_exact() {
    let payload = [9u8, 8];
    let req = spi::Request::NetSend([1, 2, 3, 4, 5, 6], &payload);
    let mut buf = vec![0; req.size()];
    req.encode(&mut buf).unwrap();
    assert_eq!(buf, vec![5, 1, 2, 3, 4, 5, 6, 2, 9, 8]);
    assert_eq!(spi::Request::decode(&buf).unwrap(), req);

    let resp = spi::Response::Input(Some((1, 300)), 3);
    let mut buf = vec![0; resp.size()];
    resp.encode(&mut buf).unwrap();
    assert_eq!(buf, vec![9, 1, 1, 0xac, 0x02, 3]);
    assert_eq!(spi::Response::decode(&buf).unwrap(), resp);

    let none = spi::Response::Input(None, 0);
    let mut buf = vec![0; none.size()];
    none.encode(&mut buf).unwrap();
    assert_eq!(buf, vec![9, 0, 0]);
    assert_eq!(spi::Response::decode(&[9, 2, 0]), Err(DecodeError::Malformed));

    let status = spi::Response::NetSendStatus(spi::SendStatus::Delivered(3));
    let mut buf = vec![0; status.size()];
    status.encode(&mut buf).unwrap();
    assert_eq!(buf, vec![8, 1, 3]);
}

#[test]
fn spi_messages_roundtrip() {
    let data = [1u8, 2, 3];
    let requests = vec![
        spi::Request::NetStart,
        spi::Request::NetStop,
        spi::Request::NetLocalAddr,
        spi::Request::NetAdvertise,
        spi::Request::NetRecv,
        spi::Request::NetSend([0; 6], &data),
        spi::Request::NetSendStatus([6, 5, 4, 3, 2, 1]),
        spi::Request::ReadInput,
    ];
    for (i, given) in requests.iter().enumerate() {
        let mut buf = vec![0; given.size()];
        given.encode(&mut buf).unwrap();
        assert_eq!(buf[0] as usize, i);
        assert_eq!(&spi::Request::decode(&buf).unwrap(), given);
    }
    let responses = vec![
        spi::Response::Error("oops"),
        spi::Response::NetStarted,
        spi::Response::NetStopped,
        spi::Response::NetLocalAddr([1; 6]),
        spi::Response::NetAdvertised,
        spi::Response::NetIncoming([2; 6], &data),
        spi::Response::NetNoIncoming,
        spi::Response::NetSent,
        spi::Response::NetSendStatus(spi::SendStatus::Sending(1)),
        spi::Response::NetSendStatus(spi::SendStatus::Failed),
        spi::Response::NetSendStatus(spi::SendStatus::Empty),
        spi::Response::Input(Some((u16::MAX, 0)), 255),
    ];
    for given in responses {
        let mut buf = vec![0; given.size()];
        given.encode(&mut buf).unwrap();
        assert_eq!(spi::Response::decode(&buf).unwrap(), given);
    }
}
