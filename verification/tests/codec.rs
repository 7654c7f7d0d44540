use vote_program::codec::{deserialize, serialize};
use vote_program::registry::VoteAccount;

fn wallet(b: u8) -> [u8; 32] {
    [b; 32]
}

fn assert_same_registry(a: &VoteAccount, b: &VoteAccount) {
    assert_eq!(a.candidates.len(), b.candidates.len());
    for (x, y) in a.candidates.iter().zip(b.candidates.iter()) {
        assert_eq!(x.nickname, y.nickname);
        assert_eq!(x.wallet_address, y.wallet_address);
        assert_eq!(x.votes, y.votes);
    }
}

#[test]
fn round_trip_empty_registry() {
    let r = VoteAccount::initialize();
    let bytes = serialize(&r).expect("an empty registry fits the layout");
    assert_eq!(bytes, vec![0, 0, 0, 0]);
    let back = deserialize(&bytes).expect("its own encoding decodes");
    assert_same_registry(&r, &back);
}

#[test]
fn round_trip_keeps_order_fields_and_duplicates() {
    let mut r = VoteAccount::initialize();
    r.add_candidate("alice".to_string(), wallet(1));
    r.add_candidate("dup".to_string(), wallet(2));
    r.add_candidate("dup".to_string(), wallet(3));
    r.add_candidate(String::new(), wallet(4));
    r.vote(&"alice".to_string()).unwrap();
    r.vote(&"alice".to_string()).unwrap();
    r.vote(&"dup".to_string()).unwrap();
    let bytes = serialize(&r).expect("this registry fits the layout");
    let back = deserialize(&bytes).expect("its own encoding decodes");
    assert_same_registry(&r, &back);
}

#[test]
fn round_trip_keeps_multibyte_nicknames() {
    let mut r = VoteAccount::initialize();
    r.add_candidate("zo\u{eb} \u{1f600}".to_string(), wallet(9));
    let bytes = serialize(&r).expect("this registry fits the layout");
    let back = deserialize(&bytes).expect("its own encoding decodes");
    assert_same_registry(&r, &back);
    assert_eq!(back.candidates[0].nickname, "zo\u{eb} \u{1f600}");
}

#[test]
fn serialized_layout_is_exact() {
    let mut r = VoteAccount::initialize();
    r.add_candidate("ab".to_string(), wallet(7));
    r.vote(&"ab".to_string()).unwrap();
    r.vote(&"ab".to_string()).unwrap();
    r.vote(&"ab".to_string()).unwrap();
    let bytes = serialize(&r).expect("this registry fits the layout");
    let mut expected = vec![1, 0, 0, 0];
    expected.extend_from_slice(&[2, 0, 0, 0]);
    expected.extend_from_slice(b"ab");
    expected.extend_from_slice(&[7u8; 32]);
    expected.extend_from_slice(&[3, 0, 0, 0, 0, 0, 0, 0]);
    assert_eq!(bytes, expected);
}

#[test]
fn deserialize_rejects_truncated_input() {
    let mut r = VoteAccount::initialize();
    r.add_candidate("alice".to_string(), wallet(1));
    let bytes = serialize(&r).unwrap();
    assert!(deserialize(&[]).is_none());
    assert!(deserialize(&bytes[..3]).is_none());
    assert!(deserialize(&bytes[..bytes.len() - 1]).is_none());
}

#[test]
fn deserialize_rejects_trailing_bytes() {
    let r = VoteAccount::initialize();
    let mut bytes = serialize(&r).unwrap();
    bytes.push(0);
    assert!(deserialize(&bytes).is_none());
}

#[test]
fn deserialize_rejects_invalid_utf8_nickname() {
    let mut bytes = vec![1, 0, 0, 0];
    bytes.extend_from_slice(&[1, 0, 0, 0]);
    bytes.push(0xff);
    bytes.extend_from_slice(&[0u8; 32]);
    bytes.extend_from_slice(&[0u8; 8]);
    assert!(deserialize(&bytes).is_none());
}

#[test]
fn deserialize_rejects_overlong_nickname_length() {
    let mut bytes = vec![1, 0, 0, 0];
    bytes.extend_from_slice(&[200, 0, 0, 0]);
    bytes.extend_from_slice(b"short");
    assert!(deserialize(&bytes).is_none());
}

#[test]
fn deserialize_accepts_a_foreign_but_well_formed_encoding() {
    let mut bytes = vec![2, 0, 0, 0];
    bytes.extend_from_slice(&[1, 0, 0, 0]);
    bytes.push(b'a');
    bytes.extend_from_slice(&[5u8; 32]);
    bytes.extend_from_slice(&[9, 0, 0, 0, 0, 0, 0, 0]);
    bytes.extend_from_slice(&[0, 0, 0, 0]);
    bytes.extend_from_slice(&[6u8; 32]);
    bytes.extend_from_slice(&[0, 1, 0, 0, 0, 0, 0, 0]);
    let r = deserialize(&bytes).expect("a well-formed encoding decodes");
    assert_eq!(r.candidates.len(), 2);
    assert_eq!(r.candidates[0].nickname, "a");
    assert_eq!(r.candidates[0].wallet_address, wallet(5));
    assert_eq!(r.candidates[0].votes, 9);
    assert_eq!(r.candidates[1].nickname, "");
    assert_eq!(r.candidates[1].wallet_address, wallet(6));
    assert_eq!(r.candidates[1].votes, 256);
    let again = serialize(&r).unwrap();
    assert_eq!(again, bytes);
}
