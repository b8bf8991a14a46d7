use minimarket::snapshot::{frame_record, needs_rollover, split_records, SnapshotError};
use minimarket::SnapshotJob;

#[test]
fn framed_records_read_back() {
    let mut file = Vec::new();
    file.extend(frame_record(b"hello"));
    file.extend(frame_record(b""));
    file.extend(frame_record(&[1, 2, 3]));
    assert_eq!(&file[0..8], &[5, 0, 0, 0, 0, 0, 0, 0]);
    let r = split_records(&file).unwrap();
    assert_eq!(r.len(), 3);
    assert_eq!(&file[r[0].0..r[0].1], b"hello");
    assert_eq!(r[1].0, r[1].1);
    assert_eq!(&file[r[2].0..r[2].1], &[1, 2, 3]);
}

#[test]
fn trailing_partial_length_is_ignored() {
    let mut file = frame_record(b"ab");
    file.extend([1, 2, 3]);
    let r = split_records(&file).unwrap();
    assert_eq!(r.len(), 1);
    assert_eq!(split_records(&[]).unwrap().len(), 0);
}

#[test]
fn truncated_record_is_an_error() {
    let mut file = frame_record(b"abcdef");
    file.truncate(10);
    assert_eq!(split_records(&file), Err(SnapshotError::Truncated));
}

#[test]
fn file_names_and_versions() {
    let mut job = SnapshotJob::new();
    assert_eq!(job.construct_fname("shard-0", 3), "./snapshots/shard-0-3.dat");
    assert_eq!(job.construct_fname("/tmp/prices", 3), "/tmp/prices-3.dat");
    assert_eq!(job.construct_fname("", 0), "./snapshots/-0.dat");
    assert_eq!(job.last_fname("market_prices"), "./snapshots/market_prices-0.dat");
    assert_eq!(job.version_for("a"), 0);
    assert_eq!(job.bump_version("a"), 1);
    assert_eq!(job.bump_version("a"), 2);
    assert_eq!(job.version_for("a"), 2);
    assert_eq!(job.version_of("a"), 2);
    assert_eq!(job.version_of("zzz"), 0);
    assert_eq!(job.last_fname("a"), job.construct_fname("a", 2));
    assert_eq!(job.last_fname("a"), "./snapshots/a-2.dat");
    assert_eq!(job.bump_version("b"), 0);
    assert_eq!(job.version_for("b"), 0);
    let copy = job.clone();
    let mut copy = copy;
    assert_eq!(copy.version_for("a"), 2);
}

#[test]
fn rollover_at_64_mib() {
    assert!(!needs_rollover(0));
    assert!(!needs_rollover((1 << 26) - 1));
    assert!(needs_rollover(1 << 26));
}
