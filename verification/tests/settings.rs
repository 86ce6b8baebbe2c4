use solid_gpui::settings::{check_committed_selection, CommittedPage};
use solid_gpui::settings::{
    applies_selection, check_selected_group, check_settings_pages, unique_names, valid_name,
    validate_item_content, validate_page, validate_selection_names, yes, SettingGroupProps,
    SettingPageProps, SettingsChange, SettingsSelection,
};

fn page(name: &str) -> SettingPageProps {
    SettingPageProps {
        name: name.to_string(),
        title: name.to_uppercase(),
        description: None,
        default_open: false,
        resettable: yes(),
    }
}

fn group(name: &str) -> SettingGroupProps {
    SettingGroupProps { name: name.to_string(), title: None, description: None }
}

fn selection(page: &str, group: Option<&str>) -> SettingsSelection {
    SettingsSelection { page: page.to_string(), group: group.map(str::to_string) }
}

#[test]
fn setting_names_take_one_to_256_bytes() {
    assert!(valid_name("general").is_ok());
    assert_eq!(valid_name("").unwrap_err(), "setting names must contain 1 to 256 bytes");
    assert!(valid_name(&"a".repeat(256)).is_ok());
    assert!(valid_name(&"a".repeat(257)).is_err());
    assert!(valid_name(&"é".repeat(129)).is_err());
}

#[test]
fn names_are_unique_and_the_first_problem_is_reported() {
    let names = |v: &[&str]| v.iter().map(|s| s.to_string()).collect::<Vec<_>>();
    assert!(unique_names(&names(&["a", "b"])).is_ok());
    assert_eq!(unique_names(&names(&["a", "b", "a"])).unwrap_err(), "duplicate setting name: a");
    assert_eq!(
        unique_names(&names(&["a", "", "a"])).unwrap_err(),
        "setting names must contain 1 to 256 bytes"
    );
}

#[test]
fn selections_address_committed_pages_and_groups() {
    let pages = vec![page("general"), page("advanced")];
    assert_eq!(check_settings_pages(&None, &pages), Ok(None));
    assert_eq!(check_settings_pages(&Some(selection("advanced", None)), &pages), Ok(None));
    assert_eq!(check_settings_pages(&Some(selection("advanced", Some("net"))), &pages), Ok(Some(1)));
    assert_eq!(
        check_settings_pages(&Some(selection("missing", None)), &pages).unwrap_err(),
        "selection.page must address a committed page"
    );
    let duplicated = vec![page("general"), page("general")];
    assert_eq!(
        check_settings_pages(&None, &duplicated).unwrap_err(),
        "duplicate setting name: general"
    );
    let groups = vec![group("net"), group("proxy")];
    assert!(check_selected_group("proxy", &groups).is_ok());
    assert_eq!(
        check_selected_group("disk", &groups).unwrap_err(),
        "selection.group must address a committed group"
    );
}

#[test]
fn pages_items_and_selection_names_are_checked() {
    assert!(validate_page(&page("general"), &vec![group("a"), group("b")]).is_ok());
    assert_eq!(
        validate_page(&page("general"), &vec![group("a"), group("a")]).unwrap_err(),
        "duplicate setting name: a"
    );
    assert!(validate_page(&page(""), &vec![]).is_err());
    assert!(validate_item_content(1).is_ok());
    assert_eq!(
        validate_item_content(2).unwrap_err(),
        "SettingItem requires exactly one SettingField"
    );
    assert!(validate_selection_names(&None).is_ok());
    assert!(validate_selection_names(&Some(selection("p", Some("")))).is_err());
}

#[test]
fn controlled_selection_waits_for_acknowledgement() {
    let old = Some(selection("general", None));
    let new = Some(selection("advanced", None));
    assert!(applies_selection(3, &old, Some(3), &new, Some(3)));
    assert!(!applies_selection(3, &old, Some(2), &new, Some(2)));
    assert!(applies_selection(3, &old, None, &new, None));
    assert!(!applies_selection(0, &old, None, &old, None));
    assert!(applies_selection(1, &old, Some(0), &old, Some(1)));
    assert!(!applies_selection(0, &old, None, &None, None));
    let change = SettingsChange::next(selection("general", None), 4).unwrap();
    assert_eq!(change.edit_seq, 5);
    assert!(SettingsChange::next(selection("general", None), u32::MAX).is_none());
}

#[test]
fn commanded_selections_must_address_committed_pages_and_groups() {
    let pages = vec![
        CommittedPage { key: "general".to_string(), groups: vec!["appearance".to_string()] },
        CommittedPage { key: "network".to_string(), groups: vec![] },
    ];
    let sel = |page: &str, group: Option<&str>| SettingsSelection {
        page: page.to_string(),
        group: group.map(str::to_string),
    };
    assert!(check_committed_selection(&pages, &sel("general", None)).is_ok());
    assert!(check_committed_selection(&pages, &sel("general", Some("appearance"))).is_ok());
    assert!(check_committed_selection(&pages, &sel("network", None)).is_ok());
    for bad in [sel("network", Some("appearance")), sel("missing", None), sel("general", Some("x"))] {
        assert_eq!(
            check_committed_selection(&pages, &bad).unwrap_err(),
            "selection does not address a committed page/group"
        );
    }
}
