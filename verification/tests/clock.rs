use dpll::clock::Clock;

#[test]
fn a_new_clock_has_measured_nothing() {
    let c = Clock::new();
    assert!(!c.running());
    assert_eq!(c.get_nanos(), 0);
}

#[test]
fn a_clock_that_was_only_stopped_has_measured_nothing() {
    let mut c = Clock::new();
    c.stop();
    assert!(!c.running());
    assert_eq!(c.get_nanos(), 0);
}

#[test]
fn a_running_clock_goes_on() {
    let mut c = Clock::new();
    c.start();
    assert!(c.running());
    let a = c.get_nanos();
    let mut spin: u64 = 0;
    for i in 0..200000u64 {
        spin = spin.wrapping_mul(31).wrapping_add(i);
    }
    assert_ne!(spin, 1);
    let b = c.get_nanos();
    assert!(b >= a);
}

fn spin() -> u64 {
    let mut spin: u64 = 0;
    for i in 0..200000u64 {
        spin = spin.wrapping_mul(31).wrapping_add(i);
    }
    spin
}

#[test]
fn a_stopped_clock_stands_still() {
    let mut c = Clock::new();
    c.start();
    assert_ne!(spin(), 1);
    c.stop();
    assert!(!c.running());
    let a = c.get_nanos();
    assert_ne!(spin(), 1);
    let b = c.get_nanos();
    assert_eq!(a, b);
    c.stop();
    assert_eq!(c.get_nanos(), a);
}

#[test]
fn a_stopped_clock_holds_the_time_that_went_by() {
    let mut c = Clock::new();
    let mut seen = false;
    for rounds in 0..1000 {
        c.start();
        for _ in 0..rounds {
            assert_ne!(spin(), 1);
        }
        let running = c.get_nanos();
        c.stop();
        let held = c.get_nanos();
        assert!(held >= running);
        assert_eq!(c.get_nanos(), held);
        if held > 0 {
            seen = true;
            break;
        }
    }
    assert!(seen);
}

#[test]
fn reset_forgets_the_measurement() {
    let mut c = Clock::new();
    c.start();
    c.stop();
    c.reset();
    assert!(!c.running());
    assert_eq!(c.get_nanos(), 0);
    c.start();
    c.reset();
    assert!(!c.running());
    assert_eq!(c.get_nanos(), 0);
}
