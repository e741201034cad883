use irc_codec::tags::TagValue;
use irc_codec::tags::Tags;

#[test]
fn from_string_test() {
    let sample: String = "id=123123;rose".to_string();
    let tags: Tags = Tags::from_string(sample.clone());

    assert!(match tags.get("rose".to_string()).unwrap() {
        TagValue::True => true,
        _ => false,
    });

    assert!(match tags.get("id".to_string()).unwrap() {
        TagValue::String(s) => s == "123123",
        _ => false,
    });

    assert!(tags.to_string().unwrap() == sample);
}

#[test]
fn tags_sorted_on_encode_test() {
    let tags = Tags::from_string("rose;id=1".to_string());
    assert_eq!(tags.to_string().unwrap(), "id=1;rose");
}

#[test]
fn tags_duplicate_key_overwrites_test() {
    let tags = Tags::from_string("id=1;id=2".to_string());
    assert!(match tags.get("id".to_string()).unwrap() {
        TagValue::String(s) => s == "2",
        _ => false,
    });
    assert_eq!(tags.to_string().unwrap(), "id=2");
}

#[test]
fn tags_value_keeps_later_equals_test() {
    let tags = Tags::from_string("key=a=b".to_string());
    assert!(match tags.get("key".to_string()).unwrap() {
        TagValue::String(s) => s == "a=b",
        _ => false,
    });
}

#[test]
fn tags_iter_ascending_test() {
    let tags = Tags::from_string("b;a=1;c=x".to_string());
    let entries = tags.iter();
    assert_eq!(entries.len(), 3);
    assert_eq!(entries[0].0, "a");
    assert_eq!(entries[1].0, "b");
    assert_eq!(entries[2].0, "c");
}
