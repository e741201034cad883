use irc_codec::tags::TagValue;
use irc_codec::tags::Tags;
use irc_codec::wire::RawMsg;

#[test]
fn wire_from_string_complete_test() {
    let sample = String::from("@id=234AB;rose :dan!d@localhost PRIVMSG #chan :Hey what's up!\r\n");

    let msg = RawMsg::from_string(sample);
    let tags = msg.tags.unwrap();
    let source = msg.source.unwrap();
    let command = msg.command;
    let params = msg.params;

    assert!(match tags.get("rose".to_string()).unwrap() {
        TagValue::True => true,
        _ => false,
    });

    assert!(match tags.get("id".to_string()).unwrap() {
        TagValue::String(s) => s == "234AB",
        _ => false,
    });
    assert_eq!("dan!d@localhost", source);
    assert_eq!("PRIVMSG", command);
    assert_eq!(2, params.len());
    assert_eq!("#chan", params[0]);
    assert_eq!("Hey what's up!", params[1]);
}

#[test]
fn wire_from_string_no_tags_test() {
    let sample = String::from(":irc.example.com CAP LS * :multi-prefix extended-join sasl\r\n");

    let msg = RawMsg::from_string(sample);
    let source = msg.source.unwrap();

    assert!(msg.tags.is_none());
    assert_eq!("irc.example.com", source);
    assert_eq!("CAP", msg.command);
    assert_eq!("LS", msg.params[0]);
    assert_eq!("*", msg.params[1]);
    assert_eq!(3, msg.params.len());
    assert_eq!("multi-prefix extended-join sasl", msg.params[2]);
}

#[test]
fn wire_from_string_no_tags_no_source_test() {
    let sample = String::from("CAP LS * :multi-prefix extended-join sasl\r\n");

    let msg = RawMsg::from_string(sample);

    assert!(msg.tags.is_none());
    assert_eq!(None, msg.source);
    assert_eq!("CAP", msg.command);
    assert_eq!("LS", msg.params[0]);
    assert_eq!("*", msg.params[1]);
    assert_eq!(3, msg.params.len());
    assert_eq!("multi-prefix extended-join sasl", msg.params[2]);
}

#[test]
fn wire_from_string_no_tags_no_trailing_test() {
    let sample = String::from(":dan!d@localhost PRIVMSG #chan Hey!\r\n");

    let msg = RawMsg::from_string(sample);

    assert!(msg.tags.is_none());
    assert_eq!("dan!d@localhost", msg.source.unwrap());
    assert_eq!("PRIVMSG", msg.command);
    assert_eq!("#chan", msg.params[0]);
    assert_eq!("Hey!", msg.params[1]);
    assert_eq!(2, msg.params.len());
}

#[test]
fn wire_to_string_simple_test() {
    let sample = RawMsg {
        tags: None,
        source: None,
        command: "PRIVMSG".to_string(),
        params: vec!["#chan".to_string(), "Hello world!".to_string()],
    };

    assert_eq!("PRIVMSG #chan :Hello world!", sample.to_string());
}

#[test]
fn wire_to_string_source_test() {
    let sample = RawMsg {
        tags: None,
        source: Some("dan!d@localhost".to_string()),
        command: "PRIVMSG".to_string(),
        params: vec!["#chan".to_string(), "Hello world!".to_string()],
    };

    assert_eq!(":dan!d@localhost PRIVMSG #chan :Hello world!", sample.to_string());
}

#[test]
fn wire_to_string_complete_test() {
    let sample = RawMsg {
        tags: Some(Tags::from_string("id=234AB;rose".to_string())),
        source: Some("dan!d@localhost".to_string()),
        command: "PRIVMSG".to_string(),
        params: vec!["#chan".to_string(), "Hello world!".to_string()],
    };

    assert_eq!("@id=234AB;rose :dan!d@localhost PRIVMSG #chan :Hello world!", sample.to_string());
}
