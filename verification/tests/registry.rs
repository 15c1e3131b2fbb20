use henosis::registry::{RegistryEvent, RegistryState};

#[test]
fn registry_fold_keeps_latest_intent_and_retirement() {
    let events = vec![
        RegistryEvent::Registered(1, "first"),
        RegistryEvent::Registered(2, "other"),
        RegistryEvent::Retired(1, 4),
        RegistryEvent::RegistrationSuperseded(1, "second"),
        RegistryEvent::Retired(2, 9),
    ];
    let state = RegistryState::fold(17, events);
    assert_eq!(state.tail(), 17);
    assert_eq!(state.get(1), Some((&"second", false)));
    assert_eq!(state.get(2), Some((&"other", true)));
    assert_eq!(state.get(3), None);
}

#[test]
fn registry_retirement_keeps_last_intent() {
    let events = vec![RegistryEvent::Registered(7, 70_u32), RegistryEvent::Retired(7, 3)];
    let state = RegistryState::fold(2, events);
    assert_eq!(state.get(7), Some((&70, true)));
}

#[test]
fn registry_empty_stream_has_no_graphs() {
    let state: RegistryState<u32> = RegistryState::fold(0, Vec::new());
    assert_eq!(state.tail(), 0);
    assert_eq!(state.get(1), None);
}
