use musicstudio::progress::{take_progress_chunk, MAX_PENDING_BYTES};

#[test]
fn progress_values_are_read_across_chunks() {
    let mut pending = String::new();
    let v = take_progress_chunk(&mut pending, "Current Frame:  10, percentage:  5\rCurrent Frame: 20, percen", 100);
    assert_eq!(v, vec![5]);
    assert_eq!(pending, "  5\rCurrent Frame: 20, percen");
    let v = take_progress_chunk(&mut pending, "tage: 42\rpercentage: 100\r", 100);
    assert_eq!(v, vec![42, 99]);
    assert_eq!(pending, " 100\r");
}

#[test]
fn markers_without_digits_report_nothing() {
    let mut pending = String::new();
    let v = take_progress_chunk(&mut pending, "percentage: x percentage:7", 10);
    assert_eq!(v, vec![7]);
    assert_eq!(pending, "7");
}

#[test]
fn no_frames_stops_after_the_first_marker() {
    let mut pending = String::new();
    let v = take_progress_chunk(&mut pending, "percentage: 3 percentage: 4", 0);
    assert_eq!(v, vec![3]);
    assert_eq!(pending, " 3 percentage: 4");
}

#[test]
fn long_text_without_markers_is_dropped() {
    let mut pending = String::new();
    let text = "x".repeat(MAX_PENDING_BYTES);
    assert!(take_progress_chunk(&mut pending, &text, 1).is_empty());
    assert_eq!(pending.len(), MAX_PENDING_BYTES);
    assert!(take_progress_chunk(&mut pending, "é", 1).is_empty());
    assert_eq!(pending, "");
}

#[test]
fn overflowing_values_are_ignored() {
    let mut pending = String::new();
    let v = take_progress_chunk(&mut pending, "percentage: 99999999999 percentage: 12", 1);
    assert_eq!(v, vec![12]);
    assert_eq!(pending, " 12");
}
