use solid_gpui::rows::{
    check_list_children, check_panel_children, check_row_index, relocated_anchor, row_splice, RowSplice,
};

fn apply(old: &[u32], new: &[u32], r: RowSplice) -> Vec<u32> {
    let mut out = old[..r.start].to_vec();
    out.extend_from_slice(&new[r.start..r.start + r.inserted]);
    out.extend_from_slice(&old[r.end..]);
    out
}

#[test]
fn appended_messages_splice_after_the_kept_rows() {
    let old = vec![1, 2, 3];
    let new = vec![1, 2, 3, 4, 5];
    let r = row_splice(&old, &new);
    assert_eq!(r, RowSplice { start: 3, end: 3, inserted: 2 });
    assert_eq!(apply(&old, &new, r), new);
}

#[test]
fn a_replaced_middle_row_keeps_prefix_and_suffix() {
    let old = vec![1, 2, 3, 4];
    let new = vec![1, 9, 8, 4];
    let r = row_splice(&old, &new);
    assert_eq!(r, RowSplice { start: 1, end: 3, inserted: 2 });
    assert_eq!(apply(&old, &new, r), new);
}

#[test]
fn prefix_and_suffix_never_overlap() {
    let old = vec![7, 7];
    let new = vec![7, 7, 7];
    let r = row_splice(&old, &new);
    assert_eq!(r, RowSplice { start: 2, end: 2, inserted: 1 });
    assert_eq!(apply(&old, &new, r), new);
    let r = row_splice(&new, &old);
    assert_eq!(r, RowSplice { start: 2, end: 3, inserted: 0 });
    assert_eq!(apply(&new, &old, r), old);
    let r = row_splice(&vec![], &vec![]);
    assert_eq!(r, RowSplice { start: 0, end: 0, inserted: 0 });
}

#[test]
fn the_anchor_row_follows_its_id() {
    let old = vec![10, 20, 30];
    let new = vec![5, 10, 30, 20];
    assert_eq!(relocated_anchor(&old, &new, false, 1), Some(3));
    assert_eq!(relocated_anchor(&old, &new, true, 1), None);
    assert_eq!(relocated_anchor(&old, &new, false, 3), None);
    assert_eq!(relocated_anchor(&old, &vec![30], false, 0), None);
}

#[test]
fn virtual_list_children_and_row_indices() {
    assert!(check_list_children(3, None).is_ok());
    assert!(check_list_children(3, Some(3)).is_ok());
    assert!(check_list_children(1_000_000, None).is_ok());
    for (count, extents) in [(3, Some(2)), (1_000_001, None)] {
        assert_eq!(
            check_list_children(count, extents).unwrap_err(),
            "itemSizes must contain one extent per child (at most 1000000)"
        );
    }
    assert!(check_row_index(2, 3).is_ok());
    assert_eq!(check_row_index(3, 3).unwrap_err(), "item index outside committed children");
}

#[test]
fn resizable_groups_hold_one_size_per_panel() {
    assert!(check_panel_children(128, None).is_ok());
    assert!(check_panel_children(2, Some(2)).is_ok());
    let msg = "sizes must contain one extent per panel, with at most 128 panels";
    assert_eq!(check_panel_children(129, None).unwrap_err(), msg);
    assert_eq!(check_panel_children(2, Some(3)).unwrap_err(), msg);
}
