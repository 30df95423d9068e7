use topic_store::codec::{decode, encode};
use topic_store::topic::Topic;

fn sample_topic() -> Topic {
    let mut t = Topic::new(
        "Lunch".to_string(),
        vec![0x01, 0x02, 0x03],
        vec!["Pizza".to_string(), "Salad".to_string()],
    );
    assert_eq!(t.vote("Pizza".to_string()), Ok(()));
    assert_eq!(t.vote("Pizza".to_string()), Ok(()));
    assert_eq!(t.vote("Salad".to_string()), Ok(()));
    t
}

#[test]
fn round_trip_keeps_the_record() {
    let t = sample_topic();
    let bytes = encode(&t);
    let back = decode(bytes.as_slice()).expect("round trip must decode");
    assert_eq!(back, t);
    assert_eq!(back.title().as_str(), "Lunch");
    assert_eq!(back.owner(), &vec![1u8, 2u8, 3u8]);
    assert_eq!(back.get_tally(&"Pizza".to_string()), Some(2));
    assert_eq!(back.get_tally(&"Salad".to_string()), Some(1));
}

#[test]
fn round_trip_of_non_ascii_title() {
    let mut t = Topic::new(
        "D\u{e9}jeuner \u{1f355}".to_string(),
        vec![7],
        vec!["Caf\u{e9}".to_string()],
    );
    assert_eq!(t.vote("Caf\u{e9}".to_string()), Ok(()));
    let bytes = encode(&t);
    let back = decode(bytes.as_slice()).expect("round trip must decode");
    assert_eq!(back, t);
}

#[test]
fn round_trip_of_empty_record() {
    let t = Topic::new(String::new(), Vec::new(), Vec::new());
    let bytes = encode(&t);
    // Three empty length fields and an empty option count.
    assert_eq!(bytes.len(), 12);
    let back = decode(bytes.as_slice()).expect("round trip must decode");
    assert_eq!(back, t);
}

#[test]
fn encoded_layout_is_length_prefixed() {
    let t = Topic::new("AB".to_string(), vec![0xAA], vec!["x".to_string()]);
    let bytes = encode(&t);
    let mut expected: Vec<u8> = Vec::new();
    expected.extend_from_slice(&1u32.to_le_bytes()); // owner length
    expected.push(0xAA); // owner
    expected.extend_from_slice(&2u32.to_le_bytes()); // title length
    expected.extend_from_slice(b"AB"); // title
    expected.extend_from_slice(&1u32.to_le_bytes()); // option count
    expected.extend_from_slice(&1u32.to_le_bytes()); // name length
    expected.extend_from_slice(b"x"); // name
    expected.extend_from_slice(&0u32.to_le_bytes()); // tally
    assert_eq!(bytes, expected);
}

#[test]
fn malformed_bytes_do_not_decode() {
    assert!(decode(&[]).is_none());
    assert!(decode(&[1, 2, 3]).is_none()); // too short for a length field
    assert!(decode(&[255, 255, 255, 255]).is_none()); // length overruns the input
    // Well-formed record followed by a trailing byte is refused whole.
    let t = Topic::new("T".to_string(), vec![1], vec![]);
    let mut bytes = encode(&t);
    bytes.push(0);
    assert!(decode(bytes.as_slice()).is_none());
}

#[test]
fn invalid_utf8_title_does_not_decode() {
    let mut bytes: Vec<u8> = Vec::new();
    bytes.extend_from_slice(&0u32.to_le_bytes()); // empty owner
    bytes.extend_from_slice(&2u32.to_le_bytes()); // title of two bytes
    bytes.extend_from_slice(&[0xFF, 0xFE]); // not UTF-8
    bytes.extend_from_slice(&0u32.to_le_bytes()); // no options
    assert!(decode(bytes.as_slice()).is_none());
}

#[test]
fn add_and_delete_options_on_a_record() {
    let mut t = sample_topic();
    t.add_new_option("Soup".to_string());
    assert_eq!(t.get_tally(&"Soup".to_string()), Some(0));
    t.add_new_option("Pizza".to_string()); // already there: a no-op
    assert_eq!(t.get_tally(&"Pizza".to_string()), Some(2));
    assert_eq!(t.options().len(), 3);
    t.delete_option("Pizza".to_string());
    assert_eq!(t.get_tally(&"Pizza".to_string()), None);
    assert_eq!(t.options().len(), 2);
    t.delete_option("Absent".to_string()); // a no-op
    assert_eq!(t.options().len(), 2);
    let bytes = encode(&t);
    let back = decode(bytes.as_slice()).expect("round trip must decode");
    assert_eq!(back, t);
}

#[test]
fn voting_an_unknown_name_on_a_record_fails() {
    let mut t = sample_topic();
    let before = encode(&t);
    assert!(t.vote("Soup".to_string()).is_err());
    let after = encode(&t);
    assert_eq!(before, after);
}
