use irc_codec::prefix::Prefix;

#[test]
fn prefix_only_server_from_string_test() {
    let sample: String = "tolkien.freenode.net".to_string();
    let prefix = Prefix::from_string(sample.clone());

    assert_eq!(prefix.nick, sample);
    assert!(prefix.user.is_none());
    assert!(prefix.host.is_none());
    assert_eq!(prefix.to_string(), sample);
}

#[test]
fn prefix_from_string_test() {
    let sample: String = "the_angry_angel!~karl@127.0.0.1".to_string();
    let prefix: Prefix = Prefix::from_string(sample.clone());

    assert_eq!(prefix.nick, "the_angry_angel");
    assert_eq!(prefix.user.as_ref().unwrap(), "~karl");
    assert_eq!(prefix.host.as_ref().unwrap(), "127.0.0.1");

    assert_eq!(prefix.to_string(), sample);
}

#[test]
fn prefix_user_without_host_round_trip_test() {
    let prefix = Prefix::from_string("nick!user".to_string());

    assert_eq!(prefix.nick, "nick");
    assert_eq!(prefix.user.as_ref().unwrap(), "user");
    assert!(prefix.host.is_none());
    assert_eq!(prefix.to_string(), "nick!user");
}

#[test]
fn prefix_server_round_trip_test() {
    let prefix = Prefix::from_string("server.example.com".to_string());

    assert_eq!(prefix.nick, "server.example.com");
    assert!(prefix.user.is_none());
    assert!(prefix.host.is_none());
    assert_eq!(prefix.to_string(), "server.example.com");
}
