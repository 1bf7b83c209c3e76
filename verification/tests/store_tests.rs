use notelog::codec::decode_pairs;
use notelog::store::{NoteError, Store};

const TS1: &str = "2024-01-01 10:00:00";
const TS2: &str = "2024-01-02 11:00:00";
const TS3: &str = "2024-01-03 12:00:00";

fn store_pairs(s: &Store) -> Vec<(String, String)> {
    s.list()
        .iter()
        .map(|n| (n.timestamp.clone(), n.content.clone()))
        .collect()
}

#[test]
fn create_and_get() {
    let mut s = Store::new_store();
    let out = s.create_with_timestamp("hello", TS1);
    assert_eq!(out.note.timestamp, TS1);
    assert_eq!(out.note.content, "hello");
    let got = s.get(0).unwrap();
    assert_eq!(got.content, "hello");
    assert!(matches!(s.get(1), Err(NoteError::NotFound)));
}

#[test]
fn deletion_keeps_order_and_log() {
    let mut s = Store::new_store();
    s.create_with_timestamp("zero", TS1);
    s.create_with_timestamp("one", TS2);
    s.create_with_timestamp("two", TS3);
    s.delete(1).unwrap();
    assert_eq!(s.count(), 2);
    let ps = store_pairs(&s);
    assert_eq!(
        ps,
        vec![
            (TS1.to_string(), "zero".to_string()),
            (TS3.to_string(), "two".to_string())
        ]
    );
    // the log file text holds exactly those two records
    assert_eq!(decode_pairs(&s.log_text(), "fb"), ps);
}

#[test]
fn delete_out_of_range() {
    let mut s = Store::new_store();
    s.create_with_timestamp("only", TS1);
    assert!(matches!(s.delete(3), Err(NoteError::NotFound)));
    assert_eq!(s.count(), 1);
}

#[test]
fn log_matches_list_after_each_mutation() {
    let mut s = Store::new_store();
    s.create_with_timestamp("first", TS1);
    assert_eq!(decode_pairs(&s.log_text(), "fb"), store_pairs(&s));
    let out = s.create_with_timestamp("see +http://a.example here", TS2);
    assert_eq!(decode_pairs(&s.log_text(), "fb"), store_pairs(&s));
    s.delete(0).unwrap();
    assert_eq!(decode_pairs(&s.log_text(), "fb"), store_pairs(&s));
    s.repair(out.note.id, "http://a.example");
    assert_eq!(decode_pairs(&s.log_text(), "fb"), store_pairs(&s));
}

#[test]
fn search_is_case_insensitive_substring() {
    let mut s = Store::new_store();
    s.create_with_timestamp("Hello World", TS1);
    s.create_with_timestamp("unrelated", TS2);
    let r1 = s.search("world");
    assert_eq!(r1.len(), 1);
    assert_eq!(r1[0].content, "Hello World");
    let r2 = s.search("HELLO");
    assert_eq!(r2.len(), 1);
    assert_eq!(r2[0].content, "Hello World");
    assert!(s.search("absent").is_empty());
}

#[test]
fn end_to_end_link_substitution_and_repair() {
    let mut s = Store::new_store();
    let out = s.create_with_timestamp("check +http://example.com out", TS1);
    assert_eq!(
        out.note.content,
        "check http://example.com (local copy at attachments/webpages/example.com.html) out"
    );
    assert_eq!(out.links, vec!["+http://example.com".to_string()]);
    let found = s.repair(out.note.id, "http://example.com");
    assert!(found);
    let n = s.get(0).unwrap();
    assert_eq!(n.content, "check http://example.com (local copy failed) out");
    // the log on disk reflects the same text
    let ps = decode_pairs(&s.log_text(), "fb");
    assert_eq!(ps[0].1, "check http://example.com (local copy failed) out");
}

#[test]
fn repair_twice_is_idempotent() {
    let mut s = Store::new_store();
    let out = s.create_with_timestamp("get +http://x.example now", TS1);
    s.repair(out.note.id, "http://x.example");
    let once = store_pairs(&s);
    let log_once = s.log_text();
    s.repair(out.note.id, "http://x.example");
    assert_eq!(store_pairs(&s), once);
    assert_eq!(s.log_text(), log_once);
}

#[test]
fn repair_after_earlier_delete_hits_the_right_note() {
    let mut s = Store::new_store();
    s.create_with_timestamp("victim", TS1);
    let out = s.create_with_timestamp("keep +http://y.example around", TS2);
    s.delete(0).unwrap();
    assert_eq!(s.find_by_id(out.note.id), Some(0));
    let found = s.repair(out.note.id, "http://y.example");
    assert!(found);
    let n = s.get(0).unwrap();
    assert_eq!(n.content, "keep http://y.example (local copy failed) around");
    assert_eq!(n.timestamp, TS2);
}

#[test]
fn repair_of_deleted_note_is_noop() {
    let mut s = Store::new_store();
    let out = s.create_with_timestamp("gone +http://z.example soon", TS1);
    s.delete(0).unwrap();
    let found = s.repair(out.note.id, "http://z.example");
    assert!(!found);
    assert_eq!(s.count(), 0);
}

#[test]
fn hr_is_escaped() {
    let mut s = Store::new_store();
    let out = s.create_with_timestamp("a---b", TS1);
    assert_eq!(out.note.content, "a<hr>b");
}

#[test]
fn html_is_rendered_markdown() {
    let mut s = Store::new_store();
    let out = s.create_with_timestamp("plain", TS1);
    assert_eq!(out.note.html, "<p>plain</p>\n");
}

#[test]
fn create_with_clock_gives_nonempty_timestamp() {
    let mut s = Store::new_store();
    let out = s.create("clocked");
    assert!(!out.note.timestamp.is_empty());
    assert!(!out.note.timestamp.contains('\n'));
}

#[test]
fn bad_timestamp_falls_back() {
    let mut s = Store::new_store();
    let out = s.create_with_timestamp("note", "two\nlines");
    assert_eq!(out.note.timestamp, "1970-01-01 00:00:00");
}

#[test]
fn load_round_trips_a_store() {
    let mut s = Store::new_store();
    s.create_with_timestamp("alpha", TS1);
    s.create_with_timestamp("beta\nwith lines", TS2);
    let loaded = Store::load(&s.log_text(), "fb");
    assert_eq!(store_pairs(&loaded), store_pairs(&s));
}

#[test]
fn load_empty_gives_empty_store() {
    let s = Store::load("", "fb");
    assert_eq!(s.count(), 0);
}
