use crimeline::{TimeSpan, Window};

#[test]
fn absolute_roundtrip() {
    let span = TimeSpan::new(1000, 100);
    let ts: u64 = 1042;
    assert_eq!(span.convert_to_absolute(span.convert_to_relative(ts)), ts);
}

#[test]
fn absolute_at_zero() {
    let span = TimeSpan::new(1000, 100);
    assert_eq!(span.convert_to_absolute(0), 1000);
}

#[test]
fn contains_before_epoch() {
    let span = TimeSpan::new(1000, 100);
    assert!(!span.contains(999));
}

#[test]
fn contains_start_inclusive() {
    let span = TimeSpan::new(1000, 100);
    assert!(span.contains(1000), "start should be inclusive");
}

#[test]
fn contains_end_exclusive() {
    let span = TimeSpan::new(1000, 100);
    assert!(!span.contains(1100), "end should be exclusive");
}

#[test]
fn contains_mid() {
    let span = TimeSpan::new(1000, 100);
    assert!(span.contains(1050));
}

#[test]
fn end_equals_epoch_plus_duration() {
    let span = TimeSpan::new(500, 200);
    assert_eq!(span.end_exclusive(), 700);
}

#[test]
fn relative_at_epoch() {
    let span = TimeSpan::new(1000, 100);
    assert_eq!(span.convert_to_relative(1000), 0);
}

#[test]
fn relative_mid() {
    let span = TimeSpan::new(1000, 100);
    assert_eq!(span.convert_to_relative(1042), 42);
}

#[test]
fn span_zero_duration_contains_nothing() {
    let span = TimeSpan::new(1000, 0);
    assert!(!span.contains(1000));
    assert!(!span.contains(999));
    assert_eq!(span.end_exclusive(), 1000);
}

#[test]
fn window_zero_duration_contains_nothing() {
    let span = Window::new(1000, 0);
    assert!(!span.contains(1000));
    assert!(!span.contains(999));
    assert_eq!(span.end_exclusive(), 1000);
}

#[test]
fn window_round_trip_samples() {
    for epoch in [0u64, 1_000, 1_700_000_000] {
        let span = Window::new(epoch, 86_400);
        for offset in [0u64, 1, 4_321, 86_399] {
            let ts = epoch + offset;
            assert!(span.contains(ts));
            assert_eq!(span.convert_to_absolute(span.convert_to_relative(ts)), ts);
        }
    }
}

#[test]
fn window_end_exclusive_value() {
    let span = Window::new(1000, 100);
    assert_eq!(span.end_exclusive(), 1100);
    assert!(span.contains(1099));
    assert!(!span.contains(1100));
}
