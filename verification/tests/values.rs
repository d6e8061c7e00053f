use hive::containers::{Immutable, Mutable};
use hive::control::{escalation_method, EscalationMethod};
use hive::dev::DevelopmentState;

#[test]
fn immutable_holds_its_value() {
    let held: Immutable<u64> = Immutable::new(5u8);
    assert_eq!(*held.get(), 5u64);
    let state: Immutable<DevelopmentState> = Immutable::new(DevelopmentState::Alpha);
    assert_eq!(*state.get(), DevelopmentState::Alpha);
}

#[test]
fn mutable_value_can_be_replaced() {
    let mut held: Mutable<u32> = Mutable::new(1u16);
    assert_eq!(*held.get(), 1);
    held.set(7u8);
    assert_eq!(*held.get(), 7);
    let mut state: Mutable<DevelopmentState> = Mutable::new(DevelopmentState::Beta);
    state.set(DevelopmentState::Release);
    assert_eq!(*state.get(), DevelopmentState::Release);
}

#[test]
fn desktop_sessions_escalate_through_pkexec() {
    assert_eq!(escalation_method(true), EscalationMethod::Pkexec);
    assert_eq!(escalation_method(false), EscalationMethod::SudoIfNeeded);
}
