use solid_gpui::lifecycle::ApplicationLifecycle;

#[test]
fn activations_wait_for_ready_replay_across_reload_and_retire_only_after_ack() {
    let mut state = ApplicationLifecycle::default();
    state
        .enqueue("open-urls", vec!["demo://document/7".into()])
        .unwrap();
    assert!(state.pending().is_empty());
    assert!(!state.configure(1, true, false, 0).unwrap());
    assert_eq!(state.pending().len(), 2);
    state.sent(1);
    state.sent(2);
    assert!(state.pending().is_empty());
    state.configure(2, true, false, 1).unwrap();
    assert_eq!(state.pending()[0].sequence, 2);
    assert!(!state.configure(1, false, true, 0).unwrap());
    assert!(state.keep_alive);
    state.configure(2, true, false, 2).unwrap();
    assert!(state.pending().is_empty());
    assert!(state.configure(2, false, true, 3).is_err());
    assert!(state.configure(2, false, true, 2).unwrap());
    for _ in 0..32 {
        state.enqueue("reopen", Vec::new()).unwrap();
    }
    assert!(state.enqueue("reopen", Vec::new()).is_err());
}

#[test]
fn enqueue_rejects_invalid_requests_with_their_reasons() {
    let mut state = ApplicationLifecycle::new();
    assert_eq!(
        state.enqueue("launch", vec!["x".into()]).unwrap_err(),
        "activation requires at most 64 safe URLs of at most 4096 bytes"
    );
    assert!(state.enqueue("open-urls", Vec::new()).is_err());
    assert!(state.enqueue("shutdown", Vec::new()).is_err());
    assert!(state.enqueue("open-urls", vec!["a\u{7}b".into()]).is_err());
    assert!(state.enqueue("open-urls", vec![String::new()]).is_err());
    assert!(state.enqueue("open-urls", vec!["x".repeat(4097)]).is_err());
    assert!(state.enqueue("open-urls", vec!["x".repeat(4096)]).is_ok());
    let many: Vec<String> = (0..65).map(|i| format!("demo://{i}")).collect();
    assert!(state.enqueue("open-urls", many).is_err());
    for _ in 0..30 {
        state.enqueue("reopen", Vec::new()).unwrap();
    }
    assert_eq!(
        state.enqueue("reopen", Vec::new()).unwrap_err(),
        "application activation queue is full"
    );
}

#[test]
fn configure_rejects_zero_and_unsent_acknowledgements() {
    let mut state = ApplicationLifecycle::new();
    assert_eq!(
        state.configure(0, true, false, 0).unwrap_err(),
        "invalid application generation or activation acknowledgement"
    );
    assert!(state.configure(1, true, false, 1).is_err());
    assert_eq!(state.epoch, 0);
    assert!(state.configure(1, true, false, 0).is_ok());
    let pending = state.pending();
    assert_eq!(pending.len(), 1);
    assert_eq!(pending[0].reason, "launch");
    state.sent(7);
    assert_eq!(state.pending().len(), 1);
    state.sent(1);
    assert!(state.pending().is_empty());
    assert!(state.configure(2, true, false, 1).is_ok());
    assert!(state.pending().is_empty());
}

#[test]
fn only_the_launch_activation_leaves_the_window_where_it_is() {
    let mut lifecycle = ApplicationLifecycle::new();
    lifecycle.enqueue("reopen", vec![]).unwrap();
    assert!(!lifecycle.configure(1, true, false, 0).unwrap());
    let pending = lifecycle.pending();
    assert_eq!(pending.len(), 2);
    assert!(pending.iter().all(|a| a.reason != "launch" || !a.raises_window()));
    assert!(pending.iter().any(|a| a.reason == "reopen" && a.raises_window()));
}
