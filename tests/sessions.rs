use sauna_logger::ntp::{sync_step, SyncStep};
use sauna_logger::sessions::{add_temp, init, scan, sessions, Session, SessionLog};

fn summary(found: &[Session]) -> Vec<(u64, Vec<u8>)> {
    found
        .iter()
        .map(|s| (s.start_at, s.temperatures.clone()))
        .collect()
}

#[test]
fn header_is_big_endian() {
    let mut log = SessionLog::new();
    init(&mut log, 0x0102_0304_0506_0708);
    assert_eq!(log.as_bytes(), &vec![1, 2, 3, 4, 5, 6, 7, 8]);
}

#[test]
fn begin_on_nonempty_log_writes_terminator_first() {
    let mut log = SessionLog::new();
    init(&mut log, 1);
    add_temp(&mut log, 0x42);
    init(&mut log, 2);
    assert_eq!(
        log.as_bytes(),
        &vec![0, 0, 0, 0, 0, 0, 0, 1, 0x42, 0xff, 0, 0, 0, 0, 0, 0, 0, 2]
    );
}

#[test]
fn add_temp_appends_one_byte() {
    let mut log = SessionLog::new();
    init(&mut log, 9);
    add_temp(&mut log, 20);
    add_temp(&mut log, 21);
    assert_eq!(log.len(), 10);
    assert_eq!(&log.as_bytes()[8..], &[20, 21]);
}

#[test]
fn round_trip_of_several_sessions() {
    let mut log = SessionLog::new();
    init(&mut log, 100);
    add_temp(&mut log, 1);
    add_temp(&mut log, 2);
    init(&mut log, 200);
    add_temp(&mut log, 254);
    init(&mut log, u64::MAX);
    add_temp(&mut log, 0);
    let found = sessions(&mut log, false);
    assert_eq!(
        summary(&found),
        vec![(100, vec![1, 2]), (200, vec![254]), (u64::MAX, vec![0])]
    );
}

#[test]
fn open_record_has_exactly_its_samples() {
    let mut log = SessionLog::new();
    init(&mut log, 5);
    add_temp(&mut log, 7);
    init(&mut log, 6);
    add_temp(&mut log, 30);
    add_temp(&mut log, 31);
    add_temp(&mut log, 32);
    let found = sessions(&mut log, false);
    let last = found.last().unwrap();
    assert_eq!(last.start_at, 6);
    assert_eq!(last.temperatures, vec![30, 31, 32]);
    assert_ne!(log.as_bytes().last(), Some(&0xff));
}

#[test]
fn open_record_without_samples_is_visible() {
    let mut log = SessionLog::new();
    init(&mut log, 11);
    let found = sessions(&mut log, false);
    assert_eq!(summary(&found), vec![(11, vec![])]);
}

#[test]
fn read_without_compaction_is_stable() {
    let mut log = SessionLog::new();
    init(&mut log, 1);
    add_temp(&mut log, 10);
    init(&mut log, 2);
    add_temp(&mut log, 20);
    let before = log.as_bytes().clone();
    let first = sessions(&mut log, false);
    let second = sessions(&mut log, false);
    assert_eq!(summary(&first), summary(&second));
    assert_eq!(log.as_bytes(), &before);
}

#[test]
fn compaction_retains_exactly_the_tail() {
    let mut log = SessionLog::new();
    init(&mut log, 1);
    add_temp(&mut log, 10);
    init(&mut log, 2);
    add_temp(&mut log, 20);
    add_temp(&mut log, 21);
    init(&mut log, 3);
    add_temp(&mut log, 30);
    add_temp(&mut log, 31);
    let found = sessions(&mut log, true);
    assert_eq!(
        summary(&found),
        vec![(1, vec![10]), (2, vec![20, 21]), (3, vec![30, 31])]
    );
    assert_eq!(
        log.as_bytes(),
        &vec![0, 0, 0, 0, 0, 0, 0, 3, 30, 31]
    );
    let after = sessions(&mut log, false);
    assert_eq!(summary(&after), vec![(3, vec![30, 31])]);
    add_temp(&mut log, 32);
    let extended = sessions(&mut log, false);
    assert_eq!(summary(&extended), vec![(3, vec![30, 31, 32])]);
}

#[test]
fn compaction_of_just_closed_record_drops_terminator() {
    let bytes = vec![0, 0, 0, 0, 0, 0, 0, 4, 1, 0xff, 0, 0, 0, 0, 0, 0, 0, 5, 2, 0xff];
    let mut log = SessionLog::from_bytes(bytes);
    let found = sessions(&mut log, true);
    assert_eq!(summary(&found), vec![(4, vec![1]), (5, vec![2])]);
    assert_eq!(log.as_bytes(), &vec![0, 0, 0, 0, 0, 0, 0, 5, 2]);
}

#[test]
fn empty_log_compaction_is_a_no_op() {
    let mut log = SessionLog::new();
    let found = sessions(&mut log, true);
    assert!(found.is_empty());
    assert_eq!(log.len(), 0);
}

#[test]
fn sentinel_boundary_has_no_trailing_session() {
    let bytes = vec![0, 0, 0, 0, 0, 0, 0, 1, 0x10, 0x20, 0xff];
    let found = scan(&bytes);
    assert_eq!(summary(&found), vec![(1, vec![0x10, 0x20])]);
}

#[test]
fn zero_sample_session_is_closed_empty() {
    let mut log = SessionLog::new();
    init(&mut log, 40);
    init(&mut log, 41);
    add_temp(&mut log, 9);
    let found = sessions(&mut log, false);
    assert_eq!(summary(&found), vec![(40, vec![]), (41, vec![9])]);
}

#[test]
fn empty_log_scans_to_nothing() {
    assert!(scan(&Vec::new()).is_empty());
}

#[test]
fn truncated_header_ends_the_scan() {
    let bytes = vec![0, 0, 0, 0, 0, 0, 0, 1, 5, 0xff, 0, 0, 0];
    let found = scan(&bytes);
    assert_eq!(summary(&found), vec![(1, vec![5])]);
}

#[test]
fn dangling_terminator_is_tolerated() {
    let bytes = vec![0, 0, 0, 0, 0, 0, 0, 7, 0xff];
    let found = scan(&bytes);
    assert_eq!(summary(&found), vec![(7, vec![])]);
}

#[test]
fn sample_equal_to_terminator_splits_the_session() {
    let mut log = SessionLog::new();
    init(&mut log, 1);
    add_temp(&mut log, 3);
    add_temp(&mut log, 0xff);
    add_temp(&mut log, 4);
    let found = sessions(&mut log, false);
    assert_eq!(summary(&found), vec![(1, vec![3])]);
}

#[test]
fn sync_step_decisions() {
    assert_eq!(sync_step(true, 50, 10), SyncStep::Synced);
    assert_eq!(sync_step(false, 11, 10), SyncStep::TimedOut);
    assert_eq!(sync_step(false, 10, 10), SyncStep::Wait);
    assert_eq!(sync_step(false, 0, 10), SyncStep::Wait);
}
