use kvcache::protocol::handle_request;
use kvcache::store::KeyValueStore;

fn send(s: &mut KeyValueStore, line: &str, now: u64) -> String {
    String::from_utf8(handle_request(s, line.as_bytes(), now)).unwrap()
}

#[test]
fn end_to_end_scenario() {
    let mut s = KeyValueStore::new();
    assert_eq!(send(&mut s, "SET a 1 2", 0), "OK\n");
    assert_eq!(send(&mut s, "GET a", 0), "1\n");
    assert_eq!(send(&mut s, "GET a", 3), "NULL\n");
    assert_eq!(send(&mut s, "DEL a", 3), "NOT_FOUND\n");
    assert_eq!(send(&mut s, "ALL", 3), "\n");
}

#[test]
fn set_get_del_round_trip() {
    let mut s = KeyValueStore::new();
    assert_eq!(send(&mut s, "SET k hello 100", 0), "OK\n");
    assert_eq!(send(&mut s, "GET k", 50), "hello\n");
    assert_eq!(send(&mut s, "DEL k", 50), "DELETED\n");
    assert_eq!(send(&mut s, "GET k", 50), "NULL\n");
    assert_eq!(send(&mut s, "DEL k", 50), "NOT_FOUND\n");
}

#[test]
fn all_joins_live_keys_with_commas() {
    let mut s = KeyValueStore::new();
    assert_eq!(send(&mut s, "SET a 1 100", 0), "OK\n");
    assert_eq!(send(&mut s, "SET b 2 100", 0), "OK\n");
    assert_eq!(send(&mut s, "SET c 3 1", 0), "OK\n");
    assert_eq!(send(&mut s, "ALL", 0), "a,b,c\n");
    // c expires; the listing drops it and keeps dropping it
    assert_eq!(send(&mut s, "ALL", 10), "a,b\n");
    assert_eq!(send(&mut s, "ALL", 10), "a,b\n");
}

#[test]
fn malformed_ttl_is_coerced_to_zero() {
    let mut s = KeyValueStore::new();
    // not a number: the entry expires immediately, but SET still succeeds
    assert_eq!(send(&mut s, "SET a 1 xyz", 5), "OK\n");
    assert_eq!(send(&mut s, "GET a", 5), "NULL\n");
    // a negative ttl is malformed for the same reason
    assert_eq!(send(&mut s, "SET b 1 -3", 5), "OK\n");
    assert_eq!(send(&mut s, "GET b", 5), "NULL\n");
    // out of range for 64 bits: same coercion
    assert_eq!(send(&mut s, "SET c 1 99999999999999999999", 5), "OK\n");
    assert_eq!(send(&mut s, "GET c", 5), "NULL\n");
}

#[test]
fn ttl_with_leading_plus_parses() {
    let mut s = KeyValueStore::new();
    assert_eq!(send(&mut s, "SET a 1 +5", 0), "OK\n");
    assert_eq!(send(&mut s, "GET a", 4), "1\n");
    assert_eq!(send(&mut s, "GET a", 5), "NULL\n");
}

#[test]
fn unknown_commands_get_the_error_line() {
    let mut s = KeyValueStore::new();
    assert_eq!(send(&mut s, "SET k v 100", 0), "OK\n");
    let error = "ERROR: Unknown command\n";
    assert_eq!(send(&mut s, "", 0), error);
    assert_eq!(send(&mut s, "   ", 0), error);
    assert_eq!(send(&mut s, "SET a 1", 0), error);
    assert_eq!(send(&mut s, "SET a 1 2 3", 0), error);
    assert_eq!(send(&mut s, "GET", 0), error);
    assert_eq!(send(&mut s, "GET a b", 0), error);
    assert_eq!(send(&mut s, "DEL", 0), error);
    assert_eq!(send(&mut s, "ALL now", 0), error);
    assert_eq!(send(&mut s, "FLUSH", 0), error);
    assert_eq!(send(&mut s, "set a 1 2", 0), error);
    // none of those touched the store
    assert_eq!(send(&mut s, "GET k", 0), "v\n");
    assert_eq!(send(&mut s, "ALL", 0), "k\n");
}

#[test]
fn tokens_split_on_any_run_of_whitespace() {
    let mut s = KeyValueStore::new();
    assert_eq!(send(&mut s, "  SET \t a  1   100  ", 0), "OK\n");
    assert_eq!(send(&mut s, "\tGET\ta\t", 0), "1\n");
}

#[test]
fn values_are_opaque_tokens() {
    let mut s = KeyValueStore::new();
    // a value that happens to spell a response keyword is returned verbatim
    assert_eq!(send(&mut s, "SET a NULL 100", 0), "OK\n");
    assert_eq!(send(&mut s, "GET a", 0), "NULL\n");
    assert_eq!(send(&mut s, "DEL a", 0), "DELETED\n");
}
