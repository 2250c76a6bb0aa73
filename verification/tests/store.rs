use kvstore::codec::encode;
use kvstore::replay::replay;
use kvstore::store::{encode_entries, KvStore};
use regex::Regex;

fn bytes(s: &str) -> Vec<u8> {
    s.as_bytes().to_vec()
}

#[test]
fn replay_of_an_empty_log_is_an_empty_index() {
    let idx = replay(&[]);
    assert_eq!(idx.len(), 0);
}

#[test]
fn replay_applies_records_in_order() {
    let mut log = encode(b"a", b"1");
    log.extend_from_slice(&encode(b"a", b"2"));
    log.extend_from_slice(&encode(b"b", b"3"));
    let idx = replay(&log);
    assert_eq!(idx.len(), 2);
    assert_eq!(idx.get(b"a"), Some(&bytes("2")));
    assert_eq!(idx.get(b"b"), Some(&bytes("3")));
}

#[test]
fn replay_takes_a_tombstone_as_a_delete() {
    let mut log = encode(b"a", b"1");
    log.extend_from_slice(&encode(b"a", b""));
    let idx = replay(&log);
    assert_eq!(idx.len(), 0);
    assert!(idx.get(b"a").is_none());
}

#[test]
fn replay_of_a_cut_log_gives_the_whole_records_before_the_cut() {
    let first = encode(b"a", b"1");
    let second = encode(b"bb", b"22");
    let third = encode(b"a", b"");
    let mut log = first.clone();
    log.extend_from_slice(&second);
    log.extend_from_slice(&third);
    let end1 = first.len();
    let end2 = end1 + second.len();
    let end3 = end2 + third.len();
    for cut in 0..=log.len() {
        let idx = replay(&log[..cut]);
        if cut < end1 {
            assert_eq!(idx.len(), 0);
        } else if cut < end2 {
            assert_eq!(idx.keys(), vec![bytes("a")]);
            assert_eq!(idx.get(b"a"), Some(&bytes("1")));
        } else if cut < end3 {
            assert_eq!(idx.keys(), vec![bytes("a"), bytes("bb")]);
            assert_eq!(idx.get(b"bb"), Some(&bytes("22")));
        } else {
            assert_eq!(idx.keys(), vec![bytes("bb")]);
        }
    }
}

#[test]
fn replay_ignores_a_header_that_reaches_past_the_end() {
    let mut log = encode(b"a", b"1");
    log.extend_from_slice(&[0xff; 16]);
    log.extend_from_slice(b"rest");
    let idx = replay(&log);
    assert_eq!(idx.keys(), vec![bytes("a")]);
}

#[test]
fn restart_after_set_set_delete() {
    let mut store = KvStore::new(&[]);
    let mut log: Vec<u8> = Vec::new();
    log.extend_from_slice(&store.set(bytes("a"), bytes("1")));
    log.extend_from_slice(&store.set(bytes("b"), bytes("2")));
    let rewritten = store.delete(b"a");
    assert!(rewritten.is_some());
    log = rewritten.unwrap();
    let restarted = KvStore::new(&log);
    assert_eq!(restarted.get(b"a"), None);
    assert_eq!(restarted.get(b"b"), Some(bytes("2")));
    assert_eq!(restarted.len(), 1);
}

#[test]
fn restart_gives_the_index_of_an_ideal_map() {
    let mut store = KvStore::new(&[]);
    let mut log: Vec<u8> = Vec::new();
    log.extend_from_slice(&store.set(bytes("k1"), bytes("v1")));
    log.extend_from_slice(&store.set(bytes("k2"), bytes("v2")));
    log.extend_from_slice(&store.set(bytes("k1"), bytes("v3")));
    if let Some(contents) = store.delete(b"k2") {
        log = contents;
    }
    assert!(store.delete(b"missing").is_none());
    log.extend_from_slice(&store.set(bytes("k4"), bytes("v4")));
    let restarted = KvStore::new(&log);
    assert_eq!(restarted.len(), 2);
    assert_eq!(restarted.get(b"k1"), Some(bytes("v3")));
    assert_eq!(restarted.get(b"k2"), None);
    assert_eq!(restarted.get(b"k4"), Some(bytes("v4")));
    assert_eq!(restarted.list_keys(), store.list_keys());
}

#[test]
fn set_of_an_empty_value_is_gone_after_a_restart() {
    let mut store = KvStore::new(&[]);
    let log = store.set(bytes("a"), Vec::new());
    assert_eq!(store.get(b"a"), Some(Vec::new()));
    let restarted = KvStore::new(&log);
    assert_eq!(restarted.get(b"a"), None);
}

#[test]
fn set_twice_keeps_one_entry_and_appends_two_records() {
    let mut store = KvStore::new(&[]);
    let first = store.set(bytes("key"), bytes("value"));
    let second = store.set(bytes("key"), bytes("value"));
    assert_eq!(store.len(), 1);
    assert_eq!(store.get(b"key"), Some(bytes("value")));
    assert_eq!(first, encode(b"key", b"value"));
    assert_eq!(second, first);
    assert_eq!(first.len(), 16 + 3 + 5);
    let contents = store.compact();
    assert_eq!(contents, first);
}

#[test]
fn compact_writes_one_record_for_each_key() {
    let mut store = KvStore::new(&[]);
    store.set(bytes("a"), bytes("1"));
    store.set(bytes("b"), bytes("2"));
    store.set(bytes("a"), bytes("3"));
    let contents = store.compact();
    let mut expected = encode(b"a", b"3");
    expected.extend_from_slice(&encode(b"b", b"2"));
    assert_eq!(contents, expected);
}

#[test]
fn compact_twice_gives_the_same_bytes() {
    let mut store = KvStore::new(&[]);
    store.set(bytes("a"), bytes("1"));
    store.set(bytes("b"), bytes("2"));
    store.set(bytes("c"), bytes("3"));
    store.delete(b"b");
    let once = store.compact();
    let twice = store.compact();
    assert_eq!(once, twice);
    let restarted = KvStore::new(&once);
    assert_eq!(restarted.list_keys(), vec![bytes("a"), bytes("c")]);
}

#[test]
fn compact_of_an_empty_store_is_an_empty_log() {
    let mut store = KvStore::new(&[]);
    assert_eq!(store.compact(), Vec::<u8>::new());
}

#[test]
fn delete_says_whether_the_key_was_there() {
    let mut store = KvStore::new(&[]);
    store.set(bytes("a"), bytes("1"));
    store.set(bytes("b"), bytes("2"));
    assert_eq!(store.delete(b"zzz"), None);
    assert_eq!(store.delete(b"a"), Some(encode(b"b", b"2")));
    assert_eq!(store.delete(b"a"), None);
    assert_eq!(store.get(b"a"), None);
    assert_eq!(store.delete(b"b"), Some(Vec::new()));
}

#[test]
fn encode_entries_follows_the_index() {
    let mut log = encode(b"x", b"1");
    log.extend_from_slice(&encode(b"y", b"2"));
    log.extend_from_slice(&encode(b"x", b"9"));
    let idx = replay(&log);
    let mut expected = encode(b"x", b"9");
    expected.extend_from_slice(&encode(b"y", b"2"));
    assert_eq!(encode_entries(&idx), expected);
}

#[test]
fn scan_by_pattern_returns_the_values_of_matching_keys() {
    let mut store = KvStore::new(&[]);
    store.set(bytes("user:1"), bytes("alice"));
    store.set(bytes("user:2"), bytes("bob"));
    store.set(bytes("group:1"), bytes("staff"));
    let mut values = store.find_values_by_regex("^user:").unwrap();
    values.sort();
    assert_eq!(values, vec![bytes("alice"), bytes("bob")]);
    assert_eq!(store.find_values_by_regex("^nobody").unwrap(), Vec::<Vec<u8>>::new());
    assert_eq!(store.find_values_by_regex("1$").unwrap(), vec![bytes("alice"), bytes("staff")]);
}

#[test]
fn scan_by_pattern_rejects_an_invalid_pattern() {
    let mut store = KvStore::new(&[]);
    store.set(bytes("user:1"), bytes("alice"));
    let err = store.find_values_by_regex("[").unwrap_err();
    assert!(!err.message.is_empty());
    assert_eq!(store.get(b"user:1"), Some(bytes("alice")));
    assert_eq!(store.len(), 1);
}

#[test]
fn scan_reads_keys_that_are_no_text_leniently() {
    let mut store = KvStore::new(&[]);
    store.set(vec![b'k', 0xff], bytes("odd"));
    store.set(bytes("k"), bytes("plain"));
    assert_eq!(store.find_values_by_regex("^k\u{fffd}$").unwrap(), vec![bytes("odd")]);
    assert_eq!(store.find_values_by_regex("^k$").unwrap(), vec![bytes("plain")]);
    assert_eq!(store.get(&[b'k', 0xff]), Some(bytes("odd")));
}

#[test]
fn values_for_takes_what_compiling_gave() {
    let mut store = KvStore::new(&[]);
    store.set(bytes("ab"), bytes("1"));
    store.set(bytes("cd"), bytes("2"));
    let vs = store.values_for(Regex::new("c")).unwrap();
    assert_eq!(vs, vec![bytes("2")]);
    assert!(store.values_for(Regex::new("(")).is_err());
    let re = Regex::new("^a").unwrap();
    assert_eq!(store.key_flags(&re), vec![true, false]);
}

#[test]
fn list_keys_gives_every_key_once() {
    let mut store = KvStore::new(&[]);
    assert!(store.list_keys().is_empty());
    store.set(bytes("a"), bytes("1"));
    store.set(bytes("b"), bytes("2"));
    store.set(bytes("a"), bytes("3"));
    assert_eq!(store.list_keys(), vec![bytes("a"), bytes("b")]);
}

#[test]
fn put_key_refuses_a_key_that_is_there() {
    let mut store = KvStore::new(&[]);
    assert_eq!(store.put_key(bytes("a"), bytes("1")), Some(encode(b"a", b"1")));
    assert_eq!(store.put_key(bytes("a"), bytes("2")), None);
    assert_eq!(store.get(b"a"), Some(bytes("1")));
}

#[test]
fn update_key_refuses_a_key_that_is_not_there() {
    let mut store = KvStore::new(&[]);
    assert_eq!(store.update_key(bytes("a"), bytes("1")), None);
    assert_eq!(store.get(b"a"), None);
    store.set(bytes("a"), bytes("1"));
    assert_eq!(store.update_key(bytes("a"), bytes("2")), Some(encode(b"a", b"2")));
    assert_eq!(store.get(b"a"), Some(bytes("2")));
}

#[test]
fn two_sets_on_different_keys_leave_two_whole_records_in_either_order() {
    let mut one = KvStore::new(&[]);
    let mut log_one = one.set(bytes("left"), bytes("1"));
    log_one.extend_from_slice(&one.set(bytes("right"), bytes("2")));
    let mut two = KvStore::new(&[]);
    let mut log_two = two.set(bytes("right"), bytes("2"));
    log_two.extend_from_slice(&two.set(bytes("left"), bytes("1")));
    for log in [log_one, log_two] {
        assert_eq!(log.len(), 16 + 4 + 1 + 16 + 5 + 1);
        let restarted = KvStore::new(&log);
        assert_eq!(restarted.len(), 2);
        assert_eq!(restarted.get(b"left"), Some(bytes("1")));
        assert_eq!(restarted.get(b"right"), Some(bytes("2")));
    }
}

#[test]
fn scan_by_pattern_rejects_a_pattern_beyond_the_size_limit() {
    let mut store = KvStore::new(&[]);
    store.set(bytes("word"), bytes("1"));
    let err = store.find_values_by_regex(r"\w{1000}").unwrap_err();
    assert!(!err.message.is_empty());
    assert_eq!(store.find_values_by_regex(r"^\w{4}$").unwrap(), vec![bytes("1")]);
}
