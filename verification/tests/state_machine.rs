use broadcast_server::state_machine::{Counter, CounterTransition};

#[test]
fn new_counter_starts_at_zero() {
    let c = Counter::new();
    assert_eq!(c.value(), 0);
}

#[test]
fn add_subtract_reset() {
    let mut c = Counter::new();
    assert!(c.apply(CounterTransition::Add(1)).is_ok());
    assert_eq!(c.value(), 1);
    assert!(c.apply(CounterTransition::Subtract(3)).is_ok());
    assert_eq!(c.value(), -2);
    assert!(c.apply(CounterTransition::Reset).is_ok());
    assert_eq!(c.value(), 0);
}

#[test]
fn add_wraps_on_overflow() {
    let mut c = Counter::new();
    assert!(c.apply(CounterTransition::Add(i64::MAX)).is_ok());
    assert_eq!(c.value(), i64::MAX);
    assert!(c.apply(CounterTransition::Add(1)).is_ok());
    assert_eq!(c.value(), i64::MIN);
}

#[test]
fn subtract_wraps_on_underflow() {
    let mut c = Counter::new();
    assert!(c.apply(CounterTransition::Subtract(i64::MAX)).is_ok());
    assert!(c.apply(CounterTransition::Subtract(2)).is_ok());
    assert_eq!(c.value(), i64::MAX);
}

#[test]
fn transitions_fold_in_order() {
    let transitions = vec![
        CounterTransition::Add(10),
        CounterTransition::Subtract(4),
        CounterTransition::Add(1),
        CounterTransition::Reset,
        CounterTransition::Subtract(2),
    ];
    let mut c = Counter::new();
    let mut expected: i64 = 0;
    for t in transitions {
        expected = match t {
            CounterTransition::Add(n) => expected.wrapping_add(n),
            CounterTransition::Subtract(n) => expected.wrapping_sub(n),
            CounterTransition::Reset => 0,
        };
        assert!(c.apply(t).is_ok());
        assert_eq!(c.value(), expected);
    }
    assert_eq!(c.value(), -2);
}
