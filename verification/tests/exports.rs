use solid_gpui::exports::{
    check_exports, client_type, numbered_list, resolve_in, same_bytes, ModuleExports, ModuleKey,
};

fn module(components: &[&str], commands: &[&str], types: &[(&str, &str)]) -> ModuleExports {
    ModuleExports {
        components: components.iter().map(|s| s.to_string()).collect(),
        commands: commands.iter().map(|s| s.to_string()).collect(),
        types: types.iter().map(|(n, d)| (n.to_string(), d.to_string())).collect(),
    }
}

#[test]
fn modules_with_distinct_exports_share_one_contract() {
    let modules = vec![
        module(&["Chart"], &["load"], &[("Point", "type Point = { x: number };")]),
        module(&["Table"], &["save"], &[("Point", "type Point = { x: number };")]),
    ];
    assert!(check_exports(&modules).is_ok());
    assert!(check_exports(&vec![]).is_ok());
}

#[test]
fn repeated_exports_and_conflicting_types_are_reported_in_order() {
    let twice = vec![module(&["Chart"], &[], &[]), module(&["Chart"], &["Chart"], &[])];
    assert_eq!(check_exports(&twice).unwrap_err(), "duplicate native export Chart");
    // A component and a command may share a name: they are exported apart.
    let apart = vec![module(&["open"], &[], &[]), module(&[], &["open"], &[])];
    assert!(check_exports(&apart).is_ok());
    let commands = vec![module(&[], &["load"], &[]), module(&["X"], &["load"], &[])];
    assert_eq!(check_exports(&commands).unwrap_err(), "duplicate native command load");
    let types = vec![
        module(&[], &[], &[("Point", "type Point = number;")]),
        module(&[], &[], &[("Point", "type Point = string;")]),
    ];
    assert_eq!(check_exports(&types).unwrap_err(), "conflicting native type Point");
}

#[test]
fn the_combined_client_joins_the_module_clients() {
    assert_eq!(client_type(0), "{}");
    assert_eq!(client_type(1), "NativeClient0");
    assert_eq!(client_type(3), "NativeClient0 & NativeClient1 & NativeClient2");
    assert_eq!(numbered_list(2, "...useNative", "()", ","), "...useNative0(),...useNative1()");
    assert_eq!(numbered_list(0, "...createClient", "(root)", ","), "");
    assert_eq!(numbered_list(11, "c", "", ",").split(',').last(), Some("c10"));
}

#[test]
fn references_resolve_only_against_the_exact_contract() {
    let a = ModuleKey { id: [1; 16], digest: [2; 32], component_count: 3 };
    assert_eq!(a.resolve(&[1; 16], &[2; 32], 1, 1), Some(0));
    assert_eq!(a.resolve(&[1; 16], &[2; 32], 3, 1), Some(2));
    assert_eq!(a.resolve(&[1; 16], &[2; 32], 4, 1), None);
    assert_eq!(a.resolve(&[1; 16], &[2; 32], 0, 1), None);
    assert_eq!(a.resolve(&[1; 16], &[2; 32], 1, 2), None);
    assert_eq!(a.resolve(&[1; 16], &[3; 32], 1, 1), None);
    assert_eq!(a.resolve(&[9; 16], &[2; 32], 1, 1), None);
    let b = ModuleKey { id: [5; 16], digest: [6; 32], component_count: 1 };
    let modules = vec![a, b];
    assert_eq!(resolve_in(&modules, &[5; 16], &[6; 32], 1, 1), Some((1, 0)));
    assert_eq!(resolve_in(&modules, &[5; 16], &[6; 32], 2, 1), None);
    assert!(same_bytes(b"abc", b"abc"));
    assert!(!same_bytes(b"abc", b"abd"));
    assert!(!same_bytes(b"ab", b"abc"));
}
