use game_monitor::error::{ChainError, MalformedRecord};
use game_monitor::payload::{
    get_string_payload, unique_payloads, TaggedData, DATA_LENGTH_MAX, TAG_LENGTH_MAX,
};

#[test]
fn limits_are_those_of_the_ledger() {
    assert_eq!(TAG_LENGTH_MAX, 64);
    assert_eq!(DATA_LENGTH_MAX, 32713);
}

#[test]
fn new_keeps_tag_and_data() {
    let payload = TaggedData::new(b"NP_GAME_CACHE".to_vec(), b"hello".to_vec()).unwrap();
    assert_eq!(payload.tag(), b"NP_GAME_CACHE");
    assert_eq!(payload.data(), b"hello");
    let empty = TaggedData::new(Vec::new(), Vec::new()).unwrap();
    assert_eq!(empty.tag(), b"");
    assert_eq!(empty.data(), b"");
}

#[test]
fn new_takes_the_longest_tag_and_refuses_a_longer_one() {
    assert!(TaggedData::new(vec![b't'; 64], Vec::new()).is_ok());
    assert_eq!(
        TaggedData::new(vec![b't'; 65], Vec::new()),
        Err(ChainError::LedgerRejected)
    );
}

#[test]
fn new_takes_the_longest_data_and_refuses_longer() {
    assert!(TaggedData::new(Vec::new(), vec![0u8; 32713]).is_ok());
    assert_eq!(
        TaggedData::new(Vec::new(), vec![0u8; 32714]),
        Err(ChainError::LedgerRejected)
    );
    assert_eq!(
        TaggedData::new(vec![b't'; 65], vec![0u8; 32714]),
        Err(ChainError::LedgerRejected)
    );
}

#[test]
fn clone_keeps_tag_and_data() {
    let payload = TaggedData::new(b"tag".to_vec(), b"data".to_vec()).unwrap();
    let copy = payload.clone();
    assert_eq!(copy, payload);
    assert_eq!(copy.tag(), b"tag");
    assert_eq!(copy.data(), b"data");
}

#[test]
fn string_payload_is_the_text_of_the_data() {
    let payload = TaggedData::new(b"t".to_vec(), "Game ID: 77 \u{2603}".as_bytes().to_vec()).unwrap();
    assert_eq!(get_string_payload(&payload), Ok("Game ID: 77 \u{2603}".to_string()));
    let empty = TaggedData::new(b"t".to_vec(), Vec::new()).unwrap();
    assert_eq!(get_string_payload(&empty), Ok(String::new()));
}

#[test]
fn string_payload_refuses_what_is_not_utf8() {
    for data in [vec![0xffu8], vec![b'a', 0x80], vec![0xc3], vec![0xed, 0xa0, 0x80], vec![0xc0, 0xaf]] {
        let payload = TaggedData::new(b"t".to_vec(), data).unwrap();
        assert_eq!(get_string_payload(&payload), Err(MalformedRecord));
    }
}

fn tagged(tag: &str, data: &str) -> TaggedData {
    TaggedData::new(tag.as_bytes().to_vec(), data.as_bytes().to_vec()).unwrap()
}

fn pair(tag: &str, data: &str) -> (String, String) {
    (tag.to_string(), data.to_string())
}

#[test]
fn unique_payloads_keeps_each_pair_once_where_it_comes_first() {
    let payloads = vec![
        tagged("Game: Orion", "Game ID: 7"),
        tagged("Game: Lyra", "Game ID: 8"),
        tagged("Game: Orion", "Game ID: 7"),
        tagged("Game: Orion", "Game ID: 8"),
        tagged("Game: Lyra", "Game ID: 8"),
        tagged("", ""),
        tagged("Game: Orion", "Game ID: 7"),
        tagged("", ""),
    ];
    assert_eq!(
        unique_payloads(&payloads),
        Ok(vec![
            pair("Game: Orion", "Game ID: 7"),
            pair("Game: Lyra", "Game ID: 8"),
            pair("Game: Orion", "Game ID: 8"),
            pair("", ""),
        ])
    );
}

#[test]
fn unique_payloads_of_nothing_is_nothing() {
    assert_eq!(unique_payloads(&Vec::new()), Ok(Vec::new()));
}

#[test]
fn unique_payloads_refuses_what_is_not_utf8() {
    let bad_data = TaggedData::new(b"tag".to_vec(), vec![0xff]).unwrap();
    let bad_tag = TaggedData::new(vec![0xc3], b"data".to_vec()).unwrap();
    assert_eq!(unique_payloads(&vec![tagged("a", "b"), bad_data]), Err(MalformedRecord));
    assert_eq!(unique_payloads(&vec![bad_tag, tagged("a", "b")]), Err(MalformedRecord));
}
