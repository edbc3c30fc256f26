use bytes::BytesMut;
use tokio_experiments::codec::{LineCodec, LineCodecError};

#[test]
fn encode_appends_line_and_newline() {
    let mut codec = LineCodec;
    let mut buf = BytesMut::from(&b"ab"[..]);
    assert_eq!(codec.encode(String::from("hello"), &mut buf), Ok(()));
    assert_eq!(&buf[..], &b"abhello\n"[..]);
    assert_eq!(codec.encode(String::from("h\u{e9}"), &mut buf), Ok(()));
    assert_eq!(&buf[..], &b"abhello\nh\xc3\xa9\n"[..]);
}

#[test]
fn decode_takes_first_line() {
    let mut codec = LineCodec;
    let mut buf = BytesMut::from(&b"one\ntwo\nthr"[..]);
    assert_eq!(codec.decode(&mut buf), Ok(Some(String::from("one"))));
    assert_eq!(&buf[..], &b"two\nthr"[..]);
    assert_eq!(codec.decode(&mut buf), Ok(Some(String::from("two"))));
    assert_eq!(&buf[..], &b"thr"[..]);
    assert_eq!(codec.decode(&mut buf), Ok(None));
    assert_eq!(&buf[..], &b"thr"[..]);
}

#[test]
fn decode_empty_line_and_empty_buffer() {
    let mut codec = LineCodec;
    let mut buf = BytesMut::from(&b"\n"[..]);
    assert_eq!(codec.decode(&mut buf), Ok(Some(String::new())));
    assert_eq!(buf.len(), 0);
    assert_eq!(codec.decode(&mut buf), Ok(None));
}

#[test]
fn decode_rejects_invalid_utf8_and_drops_the_line() {
    let mut codec = LineCodec;
    let mut buf = BytesMut::from(&b"\xff\xfe\nok\n"[..]);
    assert_eq!(codec.decode(&mut buf), Err(LineCodecError::InvalidUtf8));
    assert_eq!(&buf[..], &b"ok\n"[..]);
    assert_eq!(codec.decode(&mut buf), Ok(Some(String::from("ok"))));
}

#[test]
fn encoded_lines_decode_in_order() {
    let mut codec = LineCodec;
    let mut buf = BytesMut::new();
    let lines = ["first", "", "s\u{e9}cond \u{1f600}", "last"];
    for l in lines.iter() {
        codec.encode(l.to_string(), &mut buf).unwrap();
    }
    buf.extend_from_slice(b"partial");
    for l in lines.iter() {
        assert_eq!(codec.decode(&mut buf), Ok(Some(l.to_string())));
    }
    assert_eq!(codec.decode(&mut buf), Ok(None));
    assert_eq!(&buf[..], &b"partial"[..]);
}
