use todo_store::counter::{next_id, reset};
use todo_store::store::{clear_all, clear_done, delete, insert, load, load_report, mark_done, save};
use todo_store::task::Status;

#[test]
fn end_to_end_scenario() {
    let mut task_file: Vec<u8> = Vec::new();
    let mut counter_file: Vec<u8> = Vec::new();
    let stamp = b"2024-01-01 10:00:00".to_vec();

    // add "buy milk"
    let mut list = load(&task_file);
    assert_eq!(list.len(), 0);
    let (id1, c1) = next_id(&counter_file).unwrap();
    counter_file = c1;
    assert_eq!(id1, 1);
    insert(&mut list, b"buy milk".to_vec(), stamp.clone(), id1);
    assert_eq!(list[0].status, Status::Undone);
    task_file = save(&list);

    // add "walk dog"
    let mut list = load(&task_file);
    let (id2, c2) = next_id(&counter_file).unwrap();
    counter_file = c2;
    assert_eq!(id2, 2);
    insert(&mut list, b"walk dog".to_vec(), stamp.clone(), id2);
    task_file = save(&list);

    // markdone 1
    let mut list = load(&task_file);
    assert!(mark_done(&mut list, 1));
    assert_eq!(list[0].status, Status::Done);
    assert_eq!(list[1].status, Status::Undone);
    task_file = save(&list);

    // delete 2
    let mut list = load(&task_file);
    assert!(delete(&mut list, 2));
    assert_eq!(list.len(), 1);
    assert_eq!(list[0].id, 1);
    assert_eq!(list[0].content, b"buy milk".to_vec());
    assert_eq!(list[0].status, Status::Done);
    task_file = save(&list);

    // clearlist, then add "x": the counter restarts at 1
    let mut list = load(&task_file);
    clear_all(&mut list);
    counter_file = reset();
    task_file = save(&list);
    assert_eq!(task_file.len(), 0);
    let (id, c3) = next_id(&counter_file).unwrap();
    counter_file = c3;
    assert_eq!(id, 1);
    let mut list = load(&task_file);
    insert(&mut list, b"x".to_vec(), stamp.clone(), id);
    assert_eq!(list.len(), 1);
    assert_eq!(list[0].id, 1);
    let _ = counter_file;
}

#[test]
fn ids_are_monotonic_across_calls() {
    let mut counter_file: Vec<u8> = Vec::new();
    let mut last: u32 = 0;
    for _ in 0..5 {
        let (id, c) = next_id(&counter_file).unwrap();
        counter_file = c;
        assert!(id > last);
        last = id;
    }
    assert_eq!(last, 5);
}

#[test]
fn mark_done_twice_is_idempotent() {
    let mut list = Vec::new();
    insert(&mut list, b"a".to_vec(), b"d".to_vec(), 1);
    insert(&mut list, b"b".to_vec(), b"d".to_vec(), 2);
    assert!(mark_done(&mut list, 2));
    assert_eq!(list[1].status, Status::Done);
    assert!(mark_done(&mut list, 2));
    assert_eq!(list[1].status, Status::Done);
    assert_eq!(list[0].status, Status::Undone);
    assert_eq!(list.len(), 2);
}

#[test]
fn mark_done_missing_id_reports_not_found() {
    let mut list = Vec::new();
    insert(&mut list, b"a".to_vec(), b"d".to_vec(), 1);
    assert!(!mark_done(&mut list, 9));
    assert_eq!(list[0].status, Status::Undone);
}

#[test]
fn delete_twice_second_not_found() {
    let mut list = Vec::new();
    insert(&mut list, b"a".to_vec(), b"d".to_vec(), 1);
    insert(&mut list, b"b".to_vec(), b"d".to_vec(), 2);
    insert(&mut list, b"c".to_vec(), b"d".to_vec(), 3);
    assert!(delete(&mut list, 2));
    assert_eq!(list.len(), 2);
    assert!(!delete(&mut list, 2));
    assert_eq!(list.len(), 2);
    assert_eq!(list[0].id, 1);
    assert_eq!(list[1].id, 3);
}

#[test]
fn clear_done_keeps_undone_in_order() {
    let mut list = Vec::new();
    insert(&mut list, b"a".to_vec(), b"d".to_vec(), 1);
    insert(&mut list, b"b".to_vec(), b"d".to_vec(), 2);
    insert(&mut list, b"c".to_vec(), b"d".to_vec(), 3);
    insert(&mut list, b"e".to_vec(), b"d".to_vec(), 4);
    assert!(mark_done(&mut list, 1));
    assert!(mark_done(&mut list, 3));
    clear_done(&mut list);
    assert_eq!(list.len(), 2);
    assert!(list.iter().all(|t| t.status != Status::Done));
    assert_eq!(list[0].id, 2);
    assert_eq!(list[0].content, b"b".to_vec());
    assert_eq!(list[1].id, 4);
    assert_eq!(list[1].content, b"e".to_vec());
}

#[test]
fn save_load_round_trip_is_stable() {
    let mut list = Vec::new();
    insert(&mut list, b"plain".to_vec(), b"2024-02-03 04:05:06".to_vec(), 1);
    insert(
        &mut list,
        b"quotes \" and \\ backslash".to_vec(),
        b"2024-02-03 04:05:06".to_vec(),
        2,
    );
    insert(&mut list, b"line\nbreak\tand\rmore".to_vec(), b"d".to_vec(), 3);
    insert(&mut list, vec![0x01, 0x02, 0x1f, 0x7f, 0xc3, 0xa9], b"d".to_vec(), 4);
    assert!(mark_done(&mut list, 2));
    let bytes1 = save(&list);
    let loaded = load(&bytes1);
    assert_eq!(loaded.len(), 4);
    for (a, b) in list.iter().zip(loaded.iter()) {
        assert_eq!(a.id, b.id);
        assert_eq!(a.content, b.content);
        assert_eq!(a.date, b.date);
        assert_eq!(a.status, b.status);
    }
    let bytes2 = save(&loaded);
    assert_eq!(bytes1, bytes2);
}

#[test]
fn load_drops_malformed_records() {
    let mut good = Vec::new();
    insert(&mut good, b"keep me".to_vec(), b"d".to_vec(), 7);
    let line = save(&good);
    let mut data = Vec::new();
    data.extend_from_slice(b"not a record\n");
    data.extend_from_slice(&line);
    data.extend_from_slice(b"{\"id\":9,\"content\":\"unterminated\n");
    let loaded = load(&data);
    assert_eq!(loaded.len(), 1);
    assert_eq!(loaded[0].id, 7);
    assert_eq!(loaded[0].content, b"keep me".to_vec());
}

#[test]
fn load_report_counts_dropped_records() {
    let mut good = Vec::new();
    insert(&mut good, b"ok".to_vec(), b"d".to_vec(), 1);
    let mut data = save(&good);
    data.extend_from_slice(b"junk\n");
    data.extend_from_slice(b"{\"id\":2,\"content\":\"broken\n");
    let (list, skipped) = load_report(&data);
    assert_eq!(list.len(), 1);
    assert_eq!(list[0].id, 1);
    assert_eq!(skipped, 2);
}

#[test]
fn load_of_empty_file_is_empty_list() {
    let loaded = load(&Vec::new());
    assert!(loaded.is_empty());
}
