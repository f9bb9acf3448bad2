use squid_db::codec::{decode_segment, encode_entry, encode_segment, Entry};
use squid_db::error::DbError;
use squid_db::store::{same_bytes, Instance};
use squid_db::ttl::Ttl;
use squid_db::MAX_ENTRIES_PER_FILE;

fn rec(id: &str, ttl: Option<u64>, data: &[u8]) -> Entry {
    Entry { id: id.as_bytes().to_vec(), ttl, data: data.to_vec() }
}

fn files_of(inst: &Instance) -> Vec<(String, Vec<u8>)> {
    (0..inst.segment_count()).map(|i| (inst.segment_name(i), inst.segment_file(i))).collect()
}

#[test]
fn entry_layout_is_length_prefixed() {
    let mut out = Vec::new();
    encode_entry(&mut out, &rec("ab", Some(258), &[9]));
    let expected: Vec<u8> = vec![
        2, 0, 0, 0, 0, 0, 0, 0, b'a', b'b', 1, 2, 1, 0, 0, 0, 0, 0, 0, 1, 0, 0, 0, 0, 0, 0, 0, 9,
    ];
    assert_eq!(out, expected);
}

#[test]
fn segment_round_trip() {
    let es = vec![rec("a", None, b"x\ny"), rec("b", Some(5), &[10, 10, 0]), rec("", None, &[])];
    let bytes = encode_segment(&es);
    assert_eq!(decode_segment(&bytes), Some(es));
}

#[test]
fn empty_segment_round_trip() {
    assert_eq!(encode_segment(&vec![]), Vec::<u8>::new());
    assert_eq!(decode_segment(&vec![]), Some(vec![]));
}

#[test]
fn truncated_segment_is_rejected() {
    let mut bytes = encode_segment(&vec![rec("a", None, b"payload")]);
    bytes.pop();
    assert_eq!(decode_segment(&bytes), None);
    assert_eq!(decode_segment(&vec![3, 0]), None);
}

#[test]
fn bad_ttl_tag_is_rejected() {
    let mut bytes = encode_segment(&vec![rec("a", None, b"p")]);
    bytes[9] = 7;
    assert_eq!(decode_segment(&bytes), None);
}

#[test]
fn corrupted_file_aborts_loading() {
    let good = encode_segment(&vec![rec("a", None, b"p")]);
    let files = vec![("one".to_string(), good), ("two".to_string(), vec![1, 2, 3])];
    assert!(matches!(Instance::new(files, 0), Err(DbError::FailedDeserialization)));
}

#[test]
fn unbuffered_writes_reload_in_order() {
    let mut inst = Instance::new(vec![], 0).unwrap();
    let (a, b, c) = (rec("A", None, b"1"), rec("B", None, b"2"), rec("C", None, b"3"));
    inst.set(a.clone(), 0).unwrap();
    inst.set(b.clone(), 0).unwrap();
    inst.set(c.clone(), 0).unwrap();
    assert_eq!(inst.segment_count(), 1);
    let reloaded = Instance::new(files_of(&inst), 0).unwrap();
    assert_eq!(reloaded.entries, vec![a, b, c]);
}

#[test]
fn buffered_write_survives_flush_and_reload() {
    let mut inst = Instance::new(vec![], 100).unwrap();
    let a = rec("A", None, b"kept");
    inst.set(a.clone(), 0).unwrap();
    assert_eq!(inst.buffered_len(), 1);
    assert_eq!(inst.segment_count(), 0);
    inst.flush().unwrap();
    assert_eq!(inst.buffered_len(), 0);
    let reloaded = Instance::new(files_of(&inst), 100).unwrap();
    assert_eq!(reloaded.entries, vec![a]);
}

#[test]
fn buffer_flushes_itself_past_threshold() {
    // 31 records of 64 bytes count as 1 kB; 32 count as 2 kB, over a threshold of 1.
    let mut inst = Instance::new(vec![], 1).unwrap();
    for i in 0..31 {
        inst.set(rec(&format!("r{}", i), None, b""), 0).unwrap();
    }
    assert_eq!(inst.buffered_len(), 31);
    inst.set(rec("r31", None, b""), 0).unwrap();
    assert_eq!(inst.buffered_len(), 0);
    assert_eq!(inst.segment_len(0), 32);
}

#[test]
fn one_record_past_capacity_opens_a_second_segment() {
    let mut inst = Instance::new(vec![], 0).unwrap();
    for i in 0..=MAX_ENTRIES_PER_FILE {
        inst.set(rec(&format!("{}", i), None, b""), 0).unwrap();
    }
    assert_eq!(inst.segment_count(), 2);
    assert_eq!(inst.segment_len(0), MAX_ENTRIES_PER_FILE);
    assert_eq!(inst.segment_len(1), 1);
    let reloaded = Instance::new(files_of(&inst), 0).unwrap();
    assert_eq!(reloaded.entries.len(), MAX_ENTRIES_PER_FILE + 1);
    assert_eq!(reloaded.entries[MAX_ENTRIES_PER_FILE].id, format!("{}", MAX_ENTRIES_PER_FILE).into_bytes());
    assert_eq!(reloaded.active_segment(), Some(1));
}

#[test]
fn filling_a_segment_opens_the_next_one_at_once() {
    let mut inst = Instance::new(vec![], 0).unwrap();
    for i in 0..MAX_ENTRIES_PER_FILE {
        inst.set(rec(&format!("{}", i), None, b""), 0).unwrap();
    }
    assert_eq!(inst.segment_count(), 2);
    assert_eq!(inst.segment_len(0), MAX_ENTRIES_PER_FILE);
    assert_eq!(inst.segment_len(1), 0);
    assert_eq!(inst.active_segment(), Some(1));
}

#[test]
fn flush_that_fills_a_segment_leaves_a_new_active_one() {
    let mut inst = Instance::new(vec![], 1_000_000).unwrap();
    for i in 0..MAX_ENTRIES_PER_FILE {
        inst.set(rec(&format!("{}", i), None, b""), 0).unwrap();
    }
    inst.flush().unwrap();
    assert_eq!(inst.segment_count(), 2);
    assert_eq!(inst.segment_len(0), MAX_ENTRIES_PER_FILE);
    assert_eq!(inst.active_segment(), Some(1));
}

#[test]
fn expiry_skips_buffered_records_and_drops_their_deadline() {
    let mut inst = Instance::new(vec![], 100).unwrap();
    inst.set(rec("b", Some(1), b""), 0).unwrap();
    assert!(inst.expire(5).is_empty());
    assert_eq!(inst.buffered_len(), 1);
    inst.flush().unwrap();
    assert!(inst.expire(10).is_empty());
    assert_eq!(inst.segment_len(0), 1);
}

#[test]
fn start_ttl_with_overflowing_deadline_fails() {
    let es = vec![rec("a", Some(5), b""), rec("b", Some(u64::MAX), b"")];
    let mut inst = Instance::new(vec![("s".to_string(), encode_segment(&es))], 0).unwrap();
    assert_eq!(inst.start_ttl(10), Err(DbError::Unspecified));
    assert!(inst.expire(u64::MAX).is_empty());
}

#[test]
fn flush_onto_a_full_segment_opens_a_new_one() {
    let full: Vec<Entry> = (0..MAX_ENTRIES_PER_FILE).map(|i| rec(&format!("f{}", i), None, b"")).collect();
    let full_bytes = encode_segment(&full);
    let mut inst = Instance::new(vec![("full".to_string(), full_bytes.clone())], 1000).unwrap();
    assert_eq!(inst.active_segment(), None);
    let five: Vec<Entry> = (0..5).map(|i| rec(&format!("n{}", i), None, &[i as u8])).collect();
    for e in &five {
        inst.set(e.clone(), 0).unwrap();
    }
    inst.flush().unwrap();
    assert_eq!(inst.segment_count(), 2);
    assert_eq!(inst.segment_file(0), full_bytes);
    assert_eq!(decode_segment(&inst.segment_file(1)), Some(five));
}

#[test]
fn load_picks_the_last_incomplete_segment() {
    let one = encode_segment(&vec![rec("a", None, b"")]);
    let files = vec![("x".to_string(), one.clone()), ("y".to_string(), one)];
    let mut inst = Instance::new(files, 0).unwrap();
    assert_eq!(inst.active_segment(), Some(1));
    inst.set(rec("b", None, b""), 0).unwrap();
    assert_eq!(inst.segment_len(0), 1);
    assert_eq!(inst.segment_len(1), 2);
    assert_eq!(inst.segment_name(1), "y");
}

#[test]
fn delete_removes_only_the_matching_record() {
    let es = vec![rec("a", None, b"1"), rec("b", None, b"2"), rec("c", None, b"3")];
    let files = vec![("s".to_string(), encode_segment(&es))];
    let mut inst = Instance::new(files, 0).unwrap();
    assert_eq!(inst.delete(b"b".to_vec()), Ok((0, 1)));
    let reloaded = Instance::new(files_of(&inst), 0).unwrap();
    assert_eq!(reloaded.entries, vec![es[0].clone(), es[2].clone()]);
}

#[test]
fn delete_of_a_record_written_after_start() {
    let mut inst = Instance::new(vec![], 0).unwrap();
    inst.set(rec("late", None, b"z"), 0).unwrap();
    assert_eq!(inst.delete(b"late".to_vec()), Ok((0, 0)));
    assert_eq!(inst.segment_len(0), 0);
}

#[test]
fn delete_of_an_unknown_id_fails_and_changes_nothing() {
    let es = vec![rec("a", None, b"1")];
    let bytes = encode_segment(&es);
    let mut inst = Instance::new(vec![("s".to_string(), bytes.clone())], 0).unwrap();
    assert_eq!(inst.delete(b"zz".to_vec()), Err(DbError::Unspecified));
    assert_eq!(inst.segment_file(0), bytes);
}

#[test]
fn buffered_records_are_not_deleted() {
    let mut inst = Instance::new(vec![], 100).unwrap();
    inst.set(rec("m", None, b""), 0).unwrap();
    assert_eq!(inst.delete(b"m".to_vec()), Err(DbError::Unspecified));
    assert_eq!(inst.buffered_len(), 1);
}

#[test]
fn set_with_overflowing_deadline_fails() {
    let mut inst = Instance::new(vec![], 0).unwrap();
    assert_eq!(inst.set(rec("a", Some(u64::MAX), b""), 1), Err(DbError::Unspecified));
    assert_eq!(inst.segment_count(), 0);
}

#[test]
fn ttl_record_expires_at_its_deadline_and_not_before() {
    let mut inst = Instance::new(vec![], 0).unwrap();
    inst.set(rec("short", Some(10), b""), 100).unwrap();
    inst.set(rec("forever", None, b""), 100).unwrap();
    assert!(inst.expire(109).is_empty());
    assert_eq!(inst.segment_len(0), 2);
    assert_eq!(inst.expire(110), vec![0]);
    assert_eq!(inst.segment_len(0), 1);
    assert!(inst.expire(u64::MAX).is_empty());
    let reloaded = Instance::new(files_of(&inst), 0).unwrap();
    assert_eq!(reloaded.entries, vec![rec("forever", None, b"")]);
}

#[test]
fn start_ttl_registers_loaded_records() {
    let es = vec![rec("a", Some(5), b""), rec("b", None, b""), rec("c", Some(50), b"")];
    let mut inst = Instance::new(vec![("s".to_string(), encode_segment(&es))], 0).unwrap();
    inst.start_ttl(1000).unwrap();
    assert_eq!(inst.expire(1005), vec![0]);
    assert_eq!(inst.segment_len(0), 2);
    assert_eq!(inst.expire(1050), vec![0]);
    assert_eq!(inst.segment_len(0), 1);
}

#[test]
fn schedule_hands_out_reached_deadlines_in_order() {
    let mut t = Ttl::new();
    t.add_entry(b"a".to_vec(), 0, 30).unwrap();
    t.add_entry(b"b".to_vec(), 0, 10).unwrap();
    t.add_entry(b"c".to_vec(), 0, 20).unwrap();
    assert_eq!(t.take_expired(9), Vec::<Vec<u8>>::new());
    assert_eq!(t.take_expired(20), vec![b"b".to_vec(), b"c".to_vec()]);
    assert_eq!(t.entries.len(), 1);
    assert_eq!(t.entries[0].expire_at, 30);
    assert_eq!(t.add_entry(b"d".to_vec(), u64::MAX, 1), Err(DbError::Unspecified));
}

#[test]
fn byte_comparison() {
    assert!(same_bytes(&vec![1, 2], &vec![1, 2]));
    assert!(!same_bytes(&vec![1, 2], &vec![1, 3]));
    assert!(!same_bytes(&vec![1], &vec![1, 2]));
}

#[test]
fn error_messages() {
    assert_eq!(DbError::Unspecified.message(), "Unknown error");
    assert_eq!(DbError::FailedWriting.message(), "Cannot get Rwlock write");
    assert_eq!(DbError::DirCreationFailed.message(), "The directory could not be created.");
    assert_eq!(
        DbError::FailedSerialization.message(),
        "An error occurred during serialization, check the serde implementation"
    );
}
