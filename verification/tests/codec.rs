use bytes::BytesMut;
use irc_codec::codec::IrcCodec;
use irc_codec::codec::IrcCodecError;
use irc_codec::wire::RawMsg;

#[test]
fn new_defaults_test() {
    let codec = IrcCodec::new();
    assert_eq!(codec.max_length(), 1024);
}

#[test]
fn decode_one_record_test() {
    let mut codec = IrcCodec::new();
    let mut buf = BytesMut::new();
    buf.extend_from_slice(b":dan!d@localhost PRIVMSG #chan :Hey what's up!\r\n");

    let msg = codec.decode(&mut buf).unwrap().unwrap();
    assert_eq!("PRIVMSG", msg.command);
    assert_eq!("dan!d@localhost", msg.source.unwrap());
    assert_eq!(2, msg.params.len());
    assert_eq!("#chan", msg.params[0]);
    assert_eq!("Hey what's up!", msg.params[1]);
    assert!(buf.is_empty());
}

#[test]
fn partial_delivery_test() {
    let mut codec = IrcCodec::new();
    let mut buf = BytesMut::new();

    buf.extend_from_slice(b"PING");
    assert!(matches!(codec.decode(&mut buf), Ok(None)));

    buf.extend_from_slice(b" :tok\r\n");
    let msg = codec.decode(&mut buf).unwrap().unwrap();
    assert_eq!("PING", msg.command);
    assert_eq!(1, msg.params.len());
    assert_eq!("tok", msg.params[0]);
    assert!(matches!(codec.decode(&mut buf), Ok(None)));
}

#[test]
fn length_enforcement_test() {
    let mut codec = IrcCodec::new();
    let mut buf = BytesMut::new();

    buf.extend_from_slice(&vec![b'a'; 1025]);
    assert!(matches!(codec.decode(&mut buf), Err(IrcCodecError::MaxLengthExceeded)));

    buf.extend_from_slice(b"\nPING\r\n");
    let msg = codec.decode(&mut buf).unwrap().unwrap();
    assert_eq!("PING", msg.command);
    assert!(buf.is_empty());
}

#[test]
fn discard_resync_test() {
    let mut codec = IrcCodec::new();
    let mut buf = BytesMut::new();
    buf.extend_from_slice(&vec![b'a'; 1100]);
    buf.extend_from_slice(b"\n");
    buf.extend_from_slice(&vec![b'b'; 1100]);
    buf.extend_from_slice(b"\n");
    buf.extend_from_slice(b"PING\r\n");

    // One error per over-length segment, then the valid record survives.
    assert!(matches!(codec.decode(&mut buf), Err(IrcCodecError::MaxLengthExceeded)));
    assert!(matches!(codec.decode(&mut buf), Err(IrcCodecError::MaxLengthExceeded)));
    let msg = codec.decode(&mut buf).unwrap().unwrap();
    assert_eq!("PING", msg.command);
    assert!(buf.is_empty());
    assert!(matches!(codec.decode(&mut buf), Ok(None)));
}

#[test]
fn invalid_encoding_test() {
    let mut codec = IrcCodec::new();
    let mut buf = BytesMut::new();
    buf.extend_from_slice(b"\xff\xfePING\r\n");

    assert!(matches!(codec.decode(&mut buf), Err(IrcCodecError::InvalidEncoding)));

    // The offending record is consumed; the next one is unaffected.
    buf.extend_from_slice(b"PONG\r\n");
    let msg = codec.decode(&mut buf).unwrap().unwrap();
    assert_eq!("PONG", msg.command);
}

#[test]
fn decode_eof_residue_test() {
    let mut codec = IrcCodec::new();
    let mut buf = BytesMut::new();
    buf.extend_from_slice(b"PING :tok");

    let msg = codec.decode_eof(&mut buf).unwrap().unwrap();
    assert_eq!("PING", msg.command);
    assert_eq!(1, msg.params.len());
    assert_eq!("tok", msg.params[0]);
    assert!(buf.is_empty());
    assert!(matches!(codec.decode_eof(&mut buf), Ok(None)));
}

#[test]
fn decode_eof_lone_carriage_return_test() {
    let mut codec = IrcCodec::new();
    let mut buf = BytesMut::new();
    buf.extend_from_slice(b"\r");
    assert!(matches!(codec.decode_eof(&mut buf), Ok(None)));
}

#[test]
fn decode_eof_over_length_test() {
    let mut codec = IrcCodec::new();
    let mut buf = BytesMut::new();
    buf.extend_from_slice(&vec![b'a'; 1025]);
    assert!(matches!(codec.decode_eof(&mut buf), Err(IrcCodecError::MaxLengthExceeded)));
}

#[test]
fn encode_appends_crlf_test() {
    let mut codec = IrcCodec::new();
    let mut buf = BytesMut::new();
    let msg = RawMsg {
        tags: None,
        source: Some("dan!d@localhost".to_string()),
        command: "PRIVMSG".to_string(),
        params: vec!["#chan".to_string(), "Hello world!".to_string()],
    };

    codec.encode(msg, &mut buf).unwrap();
    assert_eq!(&buf[..], b":dan!d@localhost PRIVMSG #chan :Hello world!\r\n");

    // Decoding what was encoded yields the record back.
    let again = codec.decode(&mut buf).unwrap().unwrap();
    assert_eq!("PRIVMSG", again.command);
    assert_eq!("dan!d@localhost", again.source.unwrap());
    assert_eq!(vec!["#chan".to_string(), "Hello world!".to_string()], again.params);
}

#[test]
fn records_in_order_test() {
    let mut codec = IrcCodec::new();
    let mut buf = BytesMut::new();
    buf.extend_from_slice(b"PING :a\r\nPING :b\r\n");

    let first = codec.decode(&mut buf).unwrap().unwrap();
    let second = codec.decode(&mut buf).unwrap().unwrap();
    assert_eq!("a", first.params[0]);
    assert_eq!("b", second.params[0]);
    assert!(matches!(codec.decode(&mut buf), Ok(None)));
}

#[test]
fn default_is_new_test() {
    let codec: IrcCodec = Default::default();
    assert_eq!(codec, IrcCodec::new());
}
