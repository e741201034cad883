use irc_codec::prefix::Prefix;
use irc_codec::protocol::wire::RawMsg;
use irc_codec::tags::TagValue;
use irc_codec::tags::Tags;

#[test]
fn from_string_complete_test() {
    let sample = String::from("@id=234AB;rose :dan!d@localhost PRIVMSG #chan :Hey what's up!");

    let msg = RawMsg::from_string(sample);
    let tags = msg.tags.unwrap();
    let source = msg.source.unwrap();
    let command = msg.command;
    let params = msg.params;

    assert!(match tags.get("rose".to_string()).unwrap() {
        TagValue::True => true,
        _ => false,
    });

    assert!(match tags.get("id".to_string()).unwrap() {
        TagValue::String(s) => s == "234AB",
        _ => false,
    });
    assert_eq!("dan!d@localhost", source.to_string());
    assert_eq!("PRIVMSG", command);
    assert_eq!(2, params.len());
    assert_eq!("#chan", params[0]);
    assert_eq!("Hey what's up!", params[1]);
}

#[test]
fn from_string_no_tags_test() {
    let sample = String::from(":irc.example.com CAP LS * :multi-prefix extended-join sasl");

    let msg = RawMsg::from_string(sample);
    let source = msg.source.unwrap();

    assert!(msg.tags.is_none());
    assert_eq!("irc.example.com", source.to_string());
    assert_eq!("CAP", msg.command);
    assert_eq!("LS", msg.params[0]);
    assert_eq!("*", msg.params[1]);
    assert_eq!(3, msg.params.len());
    assert_eq!("multi-prefix extended-join sasl", msg.params[2]);
}

#[test]
fn from_string_no_tags_no_source_test() {
    let sample = String::from("CAP LS * :multi-prefix extended-join sasl");

    let msg = RawMsg::from_string(sample);

    assert!(msg.tags.is_none());
    assert!(msg.source.is_none());
    assert_eq!("CAP", msg.command);
    assert_eq!("LS", msg.params[0]);
    assert_eq!("*", msg.params[1]);
    assert_eq!(3, msg.params.len());
    assert_eq!("multi-prefix extended-join sasl", msg.params[2]);
}

#[test]
fn from_string_no_tags_no_trailing_test() {
    let sample = String::from(":dan!d@localhost PRIVMSG #chan Hey!");

    let msg = RawMsg::from_string(sample);

    assert!(msg.tags.is_none());
    assert_eq!("dan!d@localhost", msg.source.unwrap().to_string());
    assert_eq!("PRIVMSG", msg.command);
    assert_eq!("#chan", msg.params[0]);
    assert_eq!("Hey!", msg.params[1]);
    assert_eq!(2, msg.params.len());
}

#[test]
fn to_string_simple_test() {
    let sample = RawMsg {
        tags: None,
        source: None,
        command: "PRIVMSG".to_string(),
        params: vec!["#chan".to_string(), "Hello world!".to_string()],
    };

    assert_eq!("PRIVMSG #chan :Hello world!", sample.to_string());
}

#[test]
fn to_string_source_test() {
    let sample = RawMsg {
        tags: None,
        source: Some(Prefix {
            nick: "dan".to_string(),
            user: Some("d".to_string()),
            host: Some("localhost".to_string()),
        }),
        command: "PRIVMSG".to_string(),
        params: vec!["#chan".to_string(), "Hello world!".to_string()],
    };

    assert_eq!(":dan!d@localhost PRIVMSG #chan :Hello world!", sample.to_string());
}

#[test]
fn to_string_complete_test() {
    let sample = RawMsg {
        tags: Some(Tags::from_string("id=234AB;rose".to_string())),
        source: Some(Prefix {
            nick: "dan".to_string(),
            user: Some("d".to_string()),
            host: Some("localhost".to_string()),
        }),
        command: "PRIVMSG".to_string(),
        params: vec!["#chan".to_string(), "Hello world!".to_string()],
    };

    assert_eq!("@id=234AB;rose :dan!d@localhost PRIVMSG #chan :Hello world!", sample.to_string());
}

#[test]
fn source_identity_parts_test() {
    let msg = RawMsg::from_string(
        "@id=234AB;rose :dan!d@localhost PRIVMSG #chan :Hey what's up!".to_string(),
    );
    let source = msg.source.unwrap();
    assert_eq!("dan", source.nick);
    assert_eq!("d", source.user.unwrap());
    assert_eq!("localhost", source.host.unwrap());
}

#[test]
fn empty_trailing_parameter_test() {
    let msg = RawMsg::from_string("PRIVMSG #chan :".to_string());
    assert_eq!("PRIVMSG", msg.command);
    assert_eq!(2, msg.params.len());
    assert_eq!("#chan", msg.params[0]);
    assert_eq!("", msg.params[1]);
}

#[test]
fn params_region_trimmed_test() {
    // Leading whitespace of the parameter region is discarded.
    let msg = RawMsg::from_string("CMD  a".to_string());
    assert_eq!("CMD", msg.command);
    assert_eq!(1, msg.params.len());
    assert_eq!("a", msg.params[0]);

    // So is trailing whitespace when there is no trailing marker.
    let msg = RawMsg::from_string("PRIVMSG a b ".to_string());
    assert_eq!(2, msg.params.len());
    assert_eq!("a", msg.params[0]);
    assert_eq!("b", msg.params[1]);

    // And whitespace standing right before the trailing marker.
    let msg = RawMsg::from_string("PRIVMSG #chan  :Hey there".to_string());
    assert_eq!(2, msg.params.len());
    assert_eq!("#chan", msg.params[0]);
    assert_eq!("Hey there", msg.params[1]);
}

#[test]
fn marker_only_at_token_boundary_test() {
    // A colon inside a token does not begin the trailing parameter.
    let msg = RawMsg::from_string("CMD a:b c".to_string());
    assert_eq!(2, msg.params.len());
    assert_eq!("a:b", msg.params[0]);
    assert_eq!("c", msg.params[1]);
}

#[test]
fn round_trip_complete_test() {
    let original = RawMsg {
        tags: Some(Tags::from_string("id=234AB;rose".to_string())),
        source: Some(Prefix {
            nick: "dan".to_string(),
            user: Some("d".to_string()),
            host: Some("localhost".to_string()),
        }),
        command: "PRIVMSG".to_string(),
        params: vec!["#chan".to_string(), "Hey what's up!".to_string()],
    };

    let again = RawMsg::from_string(original.to_string());

    let tags = again.tags.unwrap();
    assert_eq!(tags.to_string().unwrap(), "id=234AB;rose");
    let source = again.source.unwrap();
    assert_eq!(source.nick, "dan");
    assert_eq!(source.user.unwrap(), "d");
    assert_eq!(source.host.unwrap(), "localhost");
    assert_eq!(again.command, "PRIVMSG");
    assert_eq!(again.params, vec!["#chan".to_string(), "Hey what's up!".to_string()]);
}

#[test]
fn new_has_no_tags_or_source_test() {
    let msg = RawMsg::new("PING".to_string(), None);
    assert!(msg.tags.is_none());
    assert!(msg.source.is_none());
    assert_eq!("PING", msg.command);
    assert_eq!(0, msg.params.len());

    let msg = RawMsg::new("CAP".to_string(), Some(vec!["LS".to_string(), "302".to_string()]));
    assert_eq!(2, msg.params.len());
    assert_eq!("LS", msg.params[0]);
    assert_eq!("302", msg.params[1]);
}
