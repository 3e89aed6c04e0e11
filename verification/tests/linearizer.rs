use maroon::coordinator::commit_new_epoch;
use maroon::epoch::Epoch;
use maroon::linearizer::{AppImitation, Linearizer, LogLineriazer};
use maroon::range_key::UniqueU64BlobId;

#[test]
fn test_linear() {
    let mut app = AppImitation::<LogLineriazer> { linearizer: LogLineriazer { sequence: vec![] } };

    app.some();
    assert_eq!(app.linearizer.sequence, vec![UniqueU64BlobId(0)]);
}

#[test]
fn log_linearizer_keeps_one_slot_per_increment() {
    let mut l = LogLineriazer { sequence: vec![UniqueU64BlobId(4), UniqueU64BlobId(5), UniqueU64BlobId(6)] };
    l.new_epoch(Epoch::new(vec![(UniqueU64BlobId(0), UniqueU64BlobId(1))], None));
    assert_eq!(l.sequence, vec![UniqueU64BlobId(4)]);
}

#[test]
fn every_epoch_commit_is_accepted() {
    assert!(commit_new_epoch(Epoch::new(vec![], None)).is_ok());
}
