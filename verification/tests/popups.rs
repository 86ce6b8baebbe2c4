use solid_gpui::popups::{CloseStep, PopupRecord, PopupRegistry};
use solid_gpui::popups::{reconcile_action, reposition_outcome, ReconcileAction};
use CloseStep::{Fail, Release};

fn popup(id: u32, owner: u32, activated: bool) -> PopupRecord {
    PopupRecord {
        id,
        owner,
        epoch: 1,
        anchor_node: 10,
        open_request: id * 100,
        activated,
        awaiting_open: false,
    }
}

fn registry() -> PopupRegistry {
    // Surface 1 owns popups 2 and 4; popup 2 owns 3 and 6; popup 3 owns 5.
    let mut r = PopupRegistry::new();
    for p in [popup(2, 1, true), popup(3, 2, true), popup(4, 1, true), popup(5, 3, false), popup(6, 2, true)] {
        r.insert(p);
    }
    r
}

#[test]
fn closing_a_popup_closes_what_it_owns_first() {
    let r = registry();
    assert_eq!(
        r.close_plan(2),
        vec![Fail(6), Release(6), Fail(3), Fail(5), Release(5), Release(3), Release(2)]
    );
    assert_eq!(r.close_plan(4), vec![Release(4)]);
    assert_eq!(
        r.close_plan(1),
        vec![
            Fail(4),
            Release(4),
            Fail(2),
            Fail(6),
            Release(6),
            Fail(3),
            Fail(5),
            Release(5),
            Release(3),
            Release(2),
            Release(1)
        ]
    );
}

#[test]
fn popup_admission_is_bounded() {
    let mut r = PopupRegistry::new();
    assert!(r.admit_open(true).is_ok());
    assert_eq!(
        r.admit_open(false).unwrap_err(),
        "popup anchor must be a mounted View or Pressable"
    );
    for id in 2..34 {
        r.insert(popup(id, 1, false));
    }
    assert_eq!(r.admit_open(true).unwrap_err(), "at most 32 system popovers may be open");
}

#[test]
fn activation_dismisses_popups_outside_the_active_family() {
    let r = registry();
    assert_eq!(r.family(5), vec![5, 3, 2, 1]);
    assert_eq!(r.family(1), vec![1]);
    assert_eq!(r.dismissals(Some(5)), vec![6, 4]);
    assert_eq!(r.dismissals(Some(1)), vec![6, 4, 3, 2]);
    assert_eq!(r.dismissals(None), vec![6, 4, 3, 2]);
}

#[test]
fn escape_and_input_routing_follow_ownership() {
    let mut r = registry();
    assert_eq!(r.escape_target(1), Some(4));
    assert_eq!(r.escape_target(2), Some(6));
    assert_eq!(r.escape_target(5), Some(5));
    assert_eq!(r.escape_target(9), None);
    assert!(r.listens(1) && r.listens(5));
    assert!(!r.listens(9));
    assert_eq!(r.owned_newest_first(2), vec![6, 3]);
    assert_eq!(r.close_target(2, 1, 300), Some(3));
    assert_eq!(r.close_target(2, 2, 300), None);
    r.release(3);
    assert_eq!(r.close_plan(2), vec![Fail(6), Release(6), Release(2)]);
    assert_eq!(r.escape_target(2), Some(6));
}

#[test]
fn reconciling_a_popup_follows_its_owner() {
    assert_eq!(reconcile_action(false, false, false, false, false), ReconcileAction::Close);
    assert_eq!(
        reconcile_action(true, false, true, true, true),
        ReconcileAction::Fail("popup anchor is no longer visible".to_string())
    );
    assert_eq!(
        reconcile_action(true, true, false, true, true),
        ReconcileAction::Fail("popup owner is unavailable".to_string())
    );
    assert_eq!(reconcile_action(true, true, true, true, false), ReconcileAction::Skip);
    assert_eq!(reconcile_action(true, true, true, false, true), ReconcileAction::Reposition);
    assert_eq!(reconcile_action(true, true, true, false, false), ReconcileAction::Open);
    assert!(reposition_outcome(true).is_ok());
    assert_eq!(reposition_outcome(false).unwrap_err(), "native popup reposition failed");
}

#[test]
fn closing_a_popup_releases_and_retires_its_subtree() {
    let mut r = registry();
    let mut ids = solid_gpui::host::SurfaceIds::new();
    for id in 1..=6 {
        ids.open(id);
    }
    let failed = r.close(&mut ids, 2);
    assert_eq!(failed, vec![6, 3, 5]);
    let mut left: Vec<u32> = r.popups.iter().map(|p| p.id).collect();
    left.sort();
    assert_eq!(left, vec![4]);
    assert_eq!(ids.retired_surface_ids, vec![6, 5, 3, 2]);
    let mut open = ids.surfaces.clone();
    open.sort();
    assert_eq!(open, vec![1, 4]);
}
