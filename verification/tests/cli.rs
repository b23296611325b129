use rclip::codec::{load_db_text, parse_store_text, save_to_string};
use rclip::command::{execute, Command, Outcome};
use rclip::store::Store;

fn run(store: &mut Store, cmd: Command) -> Outcome {
    execute(store, cmd)
}

fn get(store: &mut Store, target: &str, by_key: bool) -> Outcome {
    run(store, Command::Get { target: String::from(target), by_key })
}

fn put(store: &mut Store, key: &str, value: &str) -> Outcome {
    run(store, Command::Put { key: String::from(key), value: String::from(value) })
}

fn del(store: &mut Store, target: &str, by_key: bool) -> Outcome {
    run(store, Command::Del { target: String::from(target), by_key })
}

#[test]
fn ids_are_assigned_sequentially_from_one() {
    let mut store = Store::new();
    assert_eq!(store.insert(String::from("a"), String::from("1")), 1);
    assert_eq!(store.insert(String::from("b"), String::from("2")), 2);
    assert_eq!(store.insert(String::from("a"), String::from("3")), 3);
    assert_eq!(store.len(), 3);
}

#[test]
fn get_after_set_returns_inserted_value() {
    let mut store = Store::new();
    let id = store.insert(String::from("user"), String::from("alice"));
    let rec = store.get_by_id(id).expect("inserted record must be found");
    assert_eq!(rec.id, id);
    assert_eq!(rec.key, "user");
    assert_eq!(rec.value, "alice");
}

#[test]
fn del_then_get_yields_not_found() {
    let mut store = Store::new();
    let id = store.insert(String::from("k"), String::from("v"));
    assert!(store.remove_by_id(id));
    assert!(store.get_by_id(id).is_none());
}

#[test]
fn list_is_sorted_ascending_by_id() {
    let mut store = Store::new();
    store.insert(String::from("a"), String::from("1"));
    store.insert(String::from("b"), String::from("2"));
    store.insert(String::from("c"), String::from("3"));
    assert!(store.remove_by_id(2));
    store.insert(String::from("d"), String::from("4"));
    let ids: Vec<u64> = store.records().iter().map(|r| r.id).collect();
    assert_eq!(ids, vec![1, 3, 4]);
    for w in ids.windows(2) {
        assert!(w[0] < w[1]);
    }
}

#[test]
fn save_then_load_preserves_all_records() {
    let mut store = Store::new();
    store.insert(String::from("plain"), String::from("value"));
    store.insert(String::from("qu\"ote"), String::from("back\\slash"));
    store.insert(String::from("line\nbreak"), String::from("tab\there\rcr"));
    store.insert(String::from("back\u{8}space"), String::from("form\u{c}feed"));
    store.insert(String::from(""), String::from(""));
    let text = save_to_string(&store);
    let loaded = parse_store_text(&text).expect("canonical text must parse");
    assert_eq!(loaded.recs.len(), store.recs.len());
    for (a, b) in store.recs.iter().zip(loaded.recs.iter()) {
        assert_eq!(a.id, b.id);
        assert_eq!(a.key, b.key);
        assert_eq!(a.value, b.value);
    }
}

#[test]
fn empty_store_round_trips() {
    let store = Store::new();
    let text = save_to_string(&store);
    assert_eq!(text, "{}");
    let loaded = parse_store_text(&text).expect("{} must parse");
    assert_eq!(loaded.recs.len(), 0);
}

#[test]
fn missing_or_corrupt_text_loads_as_empty_store() {
    assert_eq!(load_db_text(None).recs.len(), 0);
    assert_eq!(load_db_text(Some("")).recs.len(), 0);
    assert_eq!(load_db_text(Some("not json")).recs.len(), 0);
    assert_eq!(load_db_text(Some("{\"1\":{\"id\":1")).recs.len(), 0);
    assert_eq!(load_db_text(Some("{}trailing")).recs.len(), 0);
    assert_eq!(load_db_text(Some("[]")).recs.len(), 0);
    // a label that contradicts the record's own id is rejected
    assert_eq!(
        load_db_text(Some("{\"2\":{\"id\":1,\"key\":\"a\",\"value\":\"b\"}}")).recs.len(),
        0
    );
    // a repeated id is rejected
    let txt = "{\"1\":{\"id\":1,\"key\":\"a\",\"value\":\"b\"},\"1\":{\"id\":1,\"key\":\"c\",\"value\":\"d\"}}";
    assert_eq!(load_db_text(Some(txt)).recs.len(), 0);
    // while a valid text loads in full
    let good = "{\"1\":{\"id\":1,\"key\":\"a\",\"value\":\"b\"},\"7\":{\"id\":7,\"key\":\"c\",\"value\":\"d\"}}";
    let st = load_db_text(Some(good));
    assert_eq!(st.recs.len(), 2);
    assert_eq!(st.recs[1].id, 7);
    assert_eq!(st.recs[1].value, "d");
}

#[test]
fn members_in_any_order_load_sorted_by_id() {
    let txt = "{\"7\":{\"id\":7,\"key\":\"c\",\"value\":\"d\"},\"1\":{\"id\":1,\"key\":\"a\",\"value\":\"b\"},\"3\":{\"id\":3,\"key\":\"e\",\"value\":\"f\"}}";
    let st = load_db_text(Some(txt));
    let ids: Vec<u64> = st.records().iter().map(|r| r.id).collect();
    assert_eq!(ids, vec![1, 3, 7]);
    assert_eq!(st.recs[0].key, "a");
    assert_eq!(st.recs[2].value, "d");
}

#[test]
fn whitespace_between_tokens_is_accepted() {
    let spaced = "{ \"1\":{\"id\":1,\"key\":\"a\",\"value\":\"b\"}}";
    let st = load_db_text(Some(spaced));
    assert_eq!(st.recs.len(), 1);
    assert_eq!(st.recs[0].id, 1);
    assert_eq!(st.recs[0].key, "a");
    assert_eq!(st.recs[0].value, "b");

    let airy = "{ \"1\" : { \"id\" : 1 , \"key\" : \"a\" , \"value\" : \"b\" } ,\n \"2\" : { \"id\" : 2 , \"key\" : \"c\" , \"value\" : \"d\" } }\n";
    let st = load_db_text(Some(airy));
    assert_eq!(st.recs.len(), 2);
    assert_eq!(st.recs[1].id, 2);
    assert_eq!(st.recs[1].key, "c");
    assert_eq!(st.recs[1].value, "d");

    // the optional JSON escape of a solidus reads as a solidus
    let st = load_db_text(Some("{\"1\":{\"id\":1,\"key\":\"a\\/b\",\"value\":\"c\"}}"));
    assert_eq!(st.recs[0].key, "a/b");

    // whitespace inside a quoted label or string is content, not formatting
    assert_eq!(load_db_text(Some("{\" 1\":{\"id\":1,\"key\":\"a\",\"value\":\"b\"}}")).recs.len(), 0);
    let st = load_db_text(Some("{\"1\":{\"id\":1,\"key\":\" a \",\"value\":\"b\"}}"));
    assert_eq!(st.recs[0].key, " a ");
}

#[test]
fn pretty_printed_database_text_loads() {
    let mut store = Store::new();
    store.insert(String::from("user"), String::from("ali ce"));
    store.insert(String::from("qu\"ote"), String::from("li\nne"));
    let text = save_to_string(&store);
    // re-render the same data pretty-printed, as an earlier writer would
    let value: serde_json::Value = serde_json::from_str(&text).expect("valid JSON");
    let pretty = serde_json::to_string_pretty(&value).expect("pretty text");
    assert_ne!(text, pretty);
    let loaded = load_db_text(Some(&pretty));
    assert_eq!(loaded.recs.len(), store.recs.len());
    for (a, b) in store.recs.iter().zip(loaded.recs.iter()) {
        assert_eq!(a.id, b.id);
        assert_eq!(a.key, b.key);
        assert_eq!(a.value, b.value);
    }
}

#[test]
fn scenario_set_list_get_del() {
    let mut store = Store::new();

    let out = put(&mut store, "foo", "bar");
    assert_eq!(out.lines, vec![String::from("OK (id = 1)")]);
    assert!(out.mutated);

    let out = put(&mut store, "foo", "baz");
    assert_eq!(out.lines, vec![String::from("OK (id = 2)")]);

    let out = run(&mut store, Command::List);
    assert_eq!(
        out.lines,
        vec![String::from("1 => (foo => bar)"), String::from("2 => (foo => baz)")]
    );
    assert!(!out.mutated);

    let out = get(&mut store, "foo", true);
    assert_eq!(out.lines, vec![String::from("bar")]);

    let out = del(&mut store, "1", false);
    assert_eq!(out.lines, vec![String::from("(integer) 1")]);
    assert!(out.mutated);

    let out = get(&mut store, "1", false);
    assert_eq!(out.lines, vec![String::from("(nil)")]);
}

#[test]
fn get_with_non_numeric_target_is_not_found() {
    let mut store = Store::new();
    put(&mut store, "abc", "v");
    // without --by-key the target must be a number, not a key
    let out = get(&mut store, "abc", false);
    assert_eq!(out.lines, vec![String::from("(nil)")]);
    let out = get(&mut store, "", false);
    assert_eq!(out.lines, vec![String::from("(nil)")]);
    let out = get(&mut store, "18446744073709551616", false);
    assert_eq!(out.lines, vec![String::from("(nil)")]);
    let out = get(&mut store, "0", false);
    assert_eq!(out.lines, vec![String::from("(nil)")]);
}

#[test]
fn del_miss_prints_integer_zero_and_keeps_store() {
    let mut store = Store::new();
    put(&mut store, "k", "v");
    let out = del(&mut store, "9", false);
    assert_eq!(out.lines, vec![String::from("(integer) 0")]);
    assert!(!out.mutated);
    assert_eq!(store.len(), 1);
    let out = del(&mut store, "nope", true);
    assert_eq!(out.lines, vec![String::from("(integer) 0")]);
    assert_eq!(store.len(), 1);
}

#[test]
fn del_by_key_removes_lowest_id_match() {
    let mut store = Store::new();
    put(&mut store, "dup", "first");
    put(&mut store, "dup", "second");
    let out = del(&mut store, "dup", true);
    assert_eq!(out.lines, vec![String::from("(integer) 1")]);
    let rec = store.get_by_key(&String::from("dup")).expect("second remains");
    assert_eq!(rec.id, 2);
    assert_eq!(rec.value, "second");
}

#[test]
fn copy_hands_the_value_to_the_clipboard() {
    let mut store = Store::new();
    put(&mut store, "k", "secret");
    let out = run(&mut store, Command::Copy { target: String::from("1"), by_key: false });
    assert_eq!(out.lines, vec![String::from("copied 'secret' to clipboard")]);
    assert_eq!(out.clipboard, Some(String::from("secret")));
    assert!(!out.mutated);

    let out = run(&mut store, Command::Copy { target: String::from("2"), by_key: false });
    assert_eq!(out.lines, vec![String::from("(nil)")]);
    assert_eq!(out.clipboard, None);
}

#[test]
fn deleted_maximum_id_is_reused() {
    // the documented quirk of max-based id assignment
    let mut store = Store::new();
    put(&mut store, "a", "1");
    put(&mut store, "b", "2");
    del(&mut store, "2", false);
    let out = put(&mut store, "c", "3");
    assert_eq!(out.lines, vec![String::from("OK (id = 2)")]);
}

#[test]
fn deleted_inner_id_is_not_reused() {
    let mut store = Store::new();
    put(&mut store, "a", "1");
    put(&mut store, "b", "2");
    put(&mut store, "c", "3");
    del(&mut store, "2", false);
    let out = put(&mut store, "d", "4");
    assert_eq!(out.lines, vec![String::from("OK (id = 4)")]);
}

#[test]
fn database_text_is_real_json() {
    let mut store = Store::new();
    store.insert(String::from("user"), String::from("alice"));
    store.insert(String::from("qu\"ote\n"), String::from("back\\slash\there"));
    let text = save_to_string(&store);
    let parsed: serde_json::Value = serde_json::from_str(&text).expect("output must be JSON");
    let obj = parsed.as_object().expect("top level is an object");
    assert_eq!(obj.len(), 2);
    let one = obj.get("1").and_then(|v| v.as_object()).expect("entry 1");
    assert_eq!(one.get("id").and_then(|v| v.as_u64()), Some(1));
    assert_eq!(one.get("key").and_then(|v| v.as_str()), Some("user"));
    assert_eq!(one.get("value").and_then(|v| v.as_str()), Some("alice"));
    let two = obj.get("2").and_then(|v| v.as_object()).expect("entry 2");
    assert_eq!(two.get("key").and_then(|v| v.as_str()), Some("qu\"ote\n"));
    assert_eq!(two.get("value").and_then(|v| v.as_str()), Some("back\\slash\there"));
}

#[test]
fn mutating_commands_round_trip_through_the_text() {
    let mut store = Store::new();
    put(&mut store, "user", "alice");
    put(&mut store, "pass", "secret");
    del(&mut store, "1", false);
    let text = save_to_string(&store);
    let reloaded = load_db_text(Some(&text));
    assert_eq!(reloaded.recs.len(), 1);
    assert_eq!(reloaded.recs[0].id, 2);
    assert_eq!(reloaded.recs[0].key, "pass");
    assert_eq!(reloaded.recs[0].value, "secret");
}
