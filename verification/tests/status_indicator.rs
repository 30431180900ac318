//! The status indicator: blinks only while blinking is on, and only when
//! the configured interval has passed.

use armistice_core::status::StatusIndicator;

#[test]
fn blinks_only_after_the_interval() {
    let mut status = StatusIndicator::new(true, 0);
    assert!(!status.should_blink(499));
    assert!(status.should_blink(500));
    // the blink reset the clock
    assert!(!status.should_blink(999));
    assert!(status.should_blink(1000));
}

#[test]
fn steady_indicator_never_blinks() {
    let mut status = StatusIndicator::new(false, 0);
    assert!(!status.should_blink(10_000));

    let mut blinking = StatusIndicator::new(true, 0);
    blinking.set_blink(false);
    assert!(!blinking.should_blink(10_000));
}

#[test]
fn blinking_can_be_switched_back_on() {
    let mut status = StatusIndicator::new(false, 0);
    status.set_blink(true);
    assert!(status.should_blink(500));
    assert!(!status.should_blink(750));
}
