use solid_gpui::host::CommandAdmission;
use solid_gpui::surfaces::{
    admit_renderer_command, announce_close, check_keybindings, check_keystroke, check_replacement_surfaces,
    check_resolve_target, newest_first, notification_surface, parse_close_policy,
    quit_after_close, require_root, route_payload, surface_size, window_kind, CloseDecision,
    ClosePolicy, PayloadRoute, SurfaceClose, WindowKind,
};

#[test]
fn confirmation_is_asked_once_and_answered_once() {
    let mut s = SurfaceClose::new();
    assert_eq!(s.on_close_requested(false), CloseDecision::Close);
    s.set_policy(ClosePolicy::RequireConfirmation);
    assert_eq!(s.on_close_requested(false), CloseDecision::Ask(1));
    assert_eq!(s.on_close_requested(false), CloseDecision::Keep);
    assert_eq!(s.on_close_requested(true), CloseDecision::Close);
    assert!(!s.resolve(2, true));
    assert_eq!(s.pending_close_request, Some(1));
    assert!(!s.resolve(1, false));
    assert_eq!(s.pending_close_request, None);
    assert!(!s.resolve(1, true));
    assert_eq!(s.on_close_requested(false), CloseDecision::Ask(2));
    assert!(s.resolve(2, true));
}

#[test]
fn changing_the_policy_drops_the_outstanding_request() {
    let mut s = SurfaceClose::new();
    s.set_policy(ClosePolicy::RequireConfirmation);
    assert_eq!(s.on_close_requested(false), CloseDecision::Ask(1));
    s.set_policy(ClosePolicy::RequireConfirmation);
    assert_eq!(s.pending_close_request, Some(1));
    s.set_policy(ClosePolicy::Allow);
    assert_eq!(s.pending_close_request, None);
    let mut exhausted = SurfaceClose {
        close_policy: ClosePolicy::RequireConfirmation,
        pending_close_request: None,
        next_close_request: u32::MAX,
    };
    assert_eq!(exhausted.on_close_requested(false), CloseDecision::Keep);
}

#[test]
fn close_commands_address_the_root_container() {
    assert_eq!(parse_close_policy(1, "allow"), Ok(ClosePolicy::Allow));
    assert_eq!(parse_close_policy(1, "require-confirmation"), Ok(ClosePolicy::RequireConfirmation));
    assert_eq!(parse_close_policy(1, "deny").unwrap_err(), "close policy is invalid");
    assert_eq!(
        parse_close_policy(2, "allow").unwrap_err(),
        "setClosePolicy requires the root container"
    );
    assert!(check_resolve_target(1).is_ok());
    assert_eq!(
        check_resolve_target(3).unwrap_err(),
        "resolveCloseRequest requires the root container"
    );
}

#[test]
fn commands_pass_profile_and_admission_checks() {
    assert!(admit_renderer_command(false, false, None, CommandAdmission::Accepted).is_ok());
    assert_eq!(
        admit_renderer_command(true, false, None, CommandAdmission::Accepted).unwrap_err(),
        "SetKeybindings is unavailable in this host profile"
    );
    assert!(admit_renderer_command(true, true, None, CommandAdmission::Accepted).is_ok());
    assert_eq!(
        admit_renderer_command(false, true, Some("menus are disabled"), CommandAdmission::Accepted).unwrap_err(),
        "menus are disabled"
    );
    assert_eq!(
        admit_renderer_command(false, true, None, CommandAdmission::Rejected("command revision is stale".into()))
            .unwrap_err(),
        "command revision is stale"
    );
    assert_eq!(route_payload(false, true), PayloadRoute::Apply);
    assert_eq!(route_payload(true, true), PayloadRoute::DropAndReportClosed);
    assert_eq!(route_payload(true, false), PayloadRoute::Drop);
    assert_eq!(window_kind(None), Ok(WindowKind::Normal));
    assert_eq!(window_kind(Some(1)), Ok(WindowKind::Floating));
    assert_eq!(window_kind(Some(2)), Ok(WindowKind::Dialog));
    assert_eq!(window_kind(Some(3)).unwrap_err(), "open-surface kind is invalid");
}

#[test]
fn replacements_cover_exactly_the_persistent_surfaces() {
    let surfaces = vec![1, 2, 5, 7];
    let popups = vec![5];
    let retired = vec![7];
    assert!(check_replacement_surfaces(&vec![2, 1], &surfaces, &popups, &retired).is_ok());
    let message = "candidate must replace exactly the current persistent Surface set";
    assert_eq!(check_replacement_surfaces(&vec![1], &surfaces, &popups, &retired).unwrap_err(), message);
    assert_eq!(check_replacement_surfaces(&vec![1, 1, 2], &surfaces, &popups, &retired).unwrap_err(), message);
    assert_eq!(check_replacement_surfaces(&vec![1, 2, 5], &surfaces, &popups, &retired).unwrap_err(), message);
    assert_eq!(check_replacement_surfaces(&vec![1, 2, 9], &surfaces, &popups, &retired).unwrap_err(), message);
    assert!(check_replacement_surfaces(&vec![], &vec![], &vec![], &vec![]).is_ok());
}

#[test]
fn window_commands_and_keybindings_are_checked() {
    assert!(require_root(1, "openSurface").is_ok());
    assert_eq!(
        require_root(2, "setKeybindings").unwrap_err(),
        "setKeybindings requires the root container"
    );
    assert!(check_keystroke(3, 0, "cmd-s").is_ok());
    assert_eq!(check_keystroke(3, 12, " \t ").unwrap_err(), "keybinding 3[12] has no keystroke");
    assert_eq!(surface_size(0, 0), (800, 600));
    assert_eq!(surface_size(0, 300), (0, 300));
    assert_eq!(surface_size(640, 480), (640, 480));
}

#[test]
fn notification_tags_name_their_surface() {
    assert_eq!(notification_surface("solid-gpui:7:reminder"), Some(7));
    assert_eq!(notification_surface("solid-gpui:+12:"), Some(12));
    assert_eq!(notification_surface("solid-gpui:7"), None);
    assert_eq!(notification_surface("other:7:x"), None);
    assert_eq!(notification_surface("solid-gpui:x7:y"), None);
    assert_eq!(notification_surface("solid-gpui:4294967296:y"), None);
    assert_eq!(notification_surface("solid-gpui:4294967295:y"), Some(u32::MAX));
}

#[test]
fn last_window_closes_the_application_unless_kept_alive() {
    assert!(quit_after_close(&vec![], &vec![], &vec![], false));
    assert!(!quit_after_close(&vec![], &vec![], &vec![], true));
    assert!(quit_after_close(&vec![4, 5], &vec![4], &vec![5], false));
    assert!(!quit_after_close(&vec![4, 6], &vec![4], &vec![5], false));
    assert!(announce_close(false, 2));
    assert!(!announce_close(false, 0));
    assert!(!announce_close(true, 2));
    assert_eq!(newest_first(&vec![3, 9, 1, 4]), vec![9, 4, 3, 1]);
    assert_eq!(newest_first(&vec![]), Vec::<u32>::new());
}

#[test]
fn the_first_binding_without_a_keystroke_is_reported() {
    let ok = vec!["cmd-s".to_string(), "ctrl-k ctrl-c".to_string()];
    assert!(check_keybindings(4, &ok, &vec![Ok(()), Ok(())]).is_ok());
    assert!(check_keybindings(4, &vec![], &vec![]).is_ok());
    let bad = vec!["cmd-s".to_string(), "  ".to_string(), "".to_string()];
    assert_eq!(
        check_keybindings(4, &bad, &vec![Ok(()), Ok(()), Ok(())]).unwrap_err(),
        "keybinding 4[1] has no keystroke"
    );
}

#[test]
fn bindings_are_checked_in_order_blank_or_unloadable() {
    let keys = vec!["cmd-s".to_string(), "cmd-?".to_string(), " ".to_string()];
    let loaded = vec![Ok(()), Err("unknown key".to_string()), Ok(())];
    assert_eq!(
        check_keybindings(2, &keys, &loaded).unwrap_err(),
        "keybinding 2[1] invalid keystroke: unknown key"
    );
    let keys = vec![" ".to_string(), "cmd-?".to_string()];
    let loaded = vec![Ok(()), Err("unknown key".to_string())];
    assert_eq!(check_keybindings(2, &keys, &loaded).unwrap_err(), "keybinding 2[0] has no keystroke");
}
