use playlist_tidy::batch::{batch_exit_code, batch_start, batch_step, batch_tally_new, single_exit_code, FileEvent};

#[test]
fn batch_start_stops_without_files_or_without_output() {
    assert_eq!(batch_start(0, false, false), Some(0));
    assert_eq!(batch_start(0, true, true), Some(0));
    assert_eq!(batch_start(3, false, false), Some(2));
    assert_eq!(batch_start(3, true, false), None);
    assert_eq!(batch_start(3, false, true), None);
}

#[test]
fn a_failing_file_is_counted_and_the_batch_goes_on() {
    let t = batch_tally_new();
    let (t, w) = batch_step(t, FileEvent::Unreadable, false);
    assert!(!w);
    let (t, w) = batch_step(t, FileEvent::Formatted { warnings: 0, missing: 0 }, false);
    assert!(w);
    assert_eq!((t.clean, t.repaired, t.failed), (0, 0, 1));
    let (t, _) = batch_step(t, FileEvent::Written { warnings: 0 }, false);
    let (t, w) = batch_step(t, FileEvent::Formatted { warnings: 2, missing: 1 }, false);
    assert!(w);
    let (t, _) = batch_step(t, FileEvent::WriteFailed, false);
    let (t, _) = batch_step(t, FileEvent::Rejected, false);
    assert_eq!((t.clean, t.repaired, t.failed, t.missing), (1, 0, 3, 1));
    assert_eq!(batch_exit_code(t, false), 1);
}

#[test]
fn check_counts_without_writing_and_exits_nonzero_on_repairs() {
    let t = batch_tally_new();
    let (t, w1) = batch_step(t, FileEvent::Formatted { warnings: 0, missing: 0 }, true);
    let (t, w2) = batch_step(t, FileEvent::Formatted { warnings: 3, missing: 0 }, true);
    assert!(!w1 && !w2);
    assert_eq!((t.clean, t.repaired, t.failed), (1, 1, 0));
    assert_eq!(batch_exit_code(t, true), 1);
    assert_eq!(batch_exit_code(t, false), 0);
    let clean_only = batch_step(batch_tally_new(), FileEvent::Formatted { warnings: 0, missing: 0 }, true).0;
    assert_eq!(batch_exit_code(clean_only, true), 0);
}

#[test]
fn single_file_exit_codes() {
    assert_eq!(single_exit_code(0, 0, true), 0);
    assert_eq!(single_exit_code(2, 0, true), 1);
    assert_eq!(single_exit_code(2, 0, false), 0);
    assert_eq!(single_exit_code(0, 1, false), 1);
}
