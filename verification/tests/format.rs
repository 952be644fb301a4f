use todo_store::codec::{parse_task, render_task};
use todo_store::counter::{next_id, parse_counter, reset};
use todo_store::store::{insert, load, save};
use todo_store::task::{Status, Task};

#[test]
fn rendered_record_has_exact_bytes() {
    let t = Task {
        id: 12,
        content: b"buy milk".to_vec(),
        date: b"2024-01-01 10:00:00".to_vec(),
        status: Status::Undone,
    };
    let line = render_task(&t);
    assert_eq!(
        String::from_utf8(line).unwrap(),
        "{\"id\":12,\"content\":\"buy milk\",\"date\":\"2024-01-01 10:00:00\",\"status\":\"undone\"}",
    );
}

#[test]
fn rendered_record_escapes_specials() {
    let t = Task {
        id: 3,
        content: vec![0x22, 0x5c, 0x0a, 0x09, 0x01],
        date: b"d".to_vec(),
        status: Status::Done,
    };
    let line = render_task(&t);
    assert_eq!(
        String::from_utf8(line).unwrap(),
        "{\"id\":3,\"content\":\"\\\"\\\\\\n\\t\\u0001\",\"date\":\"d\",\"status\":\"done\"}",
    );
}

#[test]
fn parse_accepts_unicode_escape_and_named_escapes() {
    let line = b"{\"id\":5,\"content\":\"a\\u0002b\\rc\\/d\",\"date\":\"x\",\"status\":\"done\"}"
        .to_vec();
    let t = parse_task(&line).unwrap();
    assert_eq!(t.id, 5);
    assert_eq!(t.content, vec![b'a', 0x02, b'b', 0x0d, b'c', b'/', b'd']);
    assert_eq!(t.status, Status::Done);
}

#[test]
fn parse_rejects_bad_records() {
    let cases: Vec<&[u8]> = vec![
        b"",
        b"{\"id\":,\"content\":\"a\",\"date\":\"d\",\"status\":\"undone\"}",
        b"{\"id\":1,\"content\":\"a\",\"date\":\"d\",\"status\":\"later\"}",
        b"{\"id\":1,\"content\":\"a\",\"date\":\"d\",\"status\":\"undone\"} ",
        b"{\"id\":4294967296,\"content\":\"a\",\"date\":\"d\",\"status\":\"undone\"}",
        b"{\"id\":1,\"content\":\"a\",\"date\":\"d\"}",
    ];
    for c in cases {
        assert!(parse_task(&c.to_vec()).is_none());
    }
}

#[test]
fn loader_strips_carriage_returns() {
    let data =
        b"{\"id\":1,\"content\":\"a\",\"date\":\"d\",\"status\":\"undone\"}\r\n".to_vec();
    let loaded = load(&data);
    assert_eq!(loaded.len(), 1);
    assert_eq!(loaded[0].id, 1);
}

#[test]
fn loader_takes_final_line_without_newline() {
    let data = b"{\"id\":1,\"content\":\"a\",\"date\":\"d\",\"status\":\"undone\"}".to_vec();
    let loaded = load(&data);
    assert_eq!(loaded.len(), 1);
}

#[test]
fn counter_reads_stored_number() {
    assert_eq!(parse_counter(&b"41\n".to_vec()), 41);
    assert_eq!(parse_counter(&b"  7 \n".to_vec()), 7);
    assert_eq!(parse_counter(&Vec::new()), 0);
    assert_eq!(parse_counter(&b"abc".to_vec()), 0);
    assert_eq!(parse_counter(&b"12x".to_vec()), 0);
    assert_eq!(parse_counter(&b"99999999999999".to_vec()), 0);
    assert_eq!(parse_counter(&b"4294967295".to_vec()), u32::MAX);
}

#[test]
fn next_id_increments_and_persists() {
    let (id, stored) = next_id(&b"41\n".to_vec()).unwrap();
    assert_eq!(id, 42);
    assert_eq!(stored, b"42\n".to_vec());
    let (id2, _) = next_id(&stored).unwrap();
    assert_eq!(id2, 43);
}

#[test]
fn next_id_recovers_from_corrupt_counter() {
    let (id, _) = next_id(&b"garbage".to_vec()).unwrap();
    assert_eq!(id, 1);
}

#[test]
fn next_id_refuses_exhausted_counter() {
    assert!(next_id(&b"4294967295".to_vec()).is_none());
}

#[test]
fn reset_makes_next_id_one() {
    let cleared = reset();
    assert!(cleared.is_empty());
    let (id, _) = next_id(&cleared).unwrap();
    assert_eq!(id, 1);
}

#[test]
fn saved_records_are_valid_json_for_serde() {
    let mut list = Vec::new();
    insert(
        &mut list,
        "say \"hi\"\nto \u{00e9}veryone".as_bytes().to_vec(),
        b"2024-01-01 10:00:00".to_vec(),
        1,
    );
    insert(&mut list, vec![0x07], b"d".to_vec(), 2);
    let bytes = save(&list);
    let text = String::from_utf8(bytes).unwrap();
    let lines: Vec<&str> = text.lines().collect();
    assert_eq!(lines.len(), 2);
    let first: serde_json::Value = serde_json::from_str(lines[0]).unwrap();
    assert_eq!(first["id"].as_u64(), Some(1));
    assert_eq!(first["content"].as_str(), Some("say \"hi\"\nto \u{00e9}veryone"));
    assert_eq!(first["date"].as_str(), Some("2024-01-01 10:00:00"));
    assert_eq!(first["status"].as_str(), Some("undone"));
    let second: serde_json::Value = serde_json::from_str(lines[1]).unwrap();
    assert_eq!(second["content"].as_str(), Some("\u{0007}"));
}
