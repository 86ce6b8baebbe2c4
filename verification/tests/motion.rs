use solid_gpui::motion::{MotionMode, MotionPreference, MotionSource};

#[test]
fn system_updates_respect_override_and_source_loss_preserves_effective_motion() {
    let mut state = MotionPreference::default();
    assert!(state.reduced);
    state.source_changed(MotionSource::Available { reduced: false });
    assert!(!state.reduced);
    state.set_mode(MotionMode::Reduced).unwrap();
    state.source_changed(MotionSource::Available { reduced: false });
    assert!(state.reduced);
    state.set_mode(MotionMode::System).unwrap();
    assert!(!state.reduced);
    state.source_changed(MotionSource::Unavailable {
        message: "subscription ended".into(),
    });
    assert!(!state.reduced);
    state.set_mode(MotionMode::Reduced).unwrap();
    assert!(state.set_mode(MotionMode::System).is_err());
    assert_eq!(state.mode, MotionMode::Reduced);
}

#[test]
fn system_mode_reports_why_the_preference_is_missing() {
    let mut state = MotionPreference::default();
    assert_eq!(
        state.set_mode(MotionMode::System).unwrap_err(),
        "system-motion-unavailable: preference is still loading"
    );
    state.source_changed(MotionSource::Unavailable {
        message: "no portal".into(),
    });
    assert_eq!(
        state.set_mode(MotionMode::System).unwrap_err(),
        "system-motion-unavailable: no portal"
    );
    state.set_mode(MotionMode::Full).unwrap();
    assert!(!state.reduced);
    state.source_changed(MotionSource::Available { reduced: true });
    assert!(!state.reduced);
    assert_eq!(state.mode, MotionMode::Full);
}
