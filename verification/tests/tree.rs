use solid_gpui::tree::{check_reveal, expansion_to_apply, tree_keys};
use solid_gpui::tree::{
    applies_selected_key, loaded, validate_tree, BranchRequests, TreeExpansion,
    TreeLoadCompletion, TreeNode,
};

fn node(key: &str, children: Vec<TreeNode>) -> TreeNode {
    TreeNode {
        key: key.to_string(),
        label: key.to_uppercase(),
        icon: None,
        disabled: false,
        expanded: None,
        has_children: !children.is_empty(),
        children_loaded: loaded(),
        children,
    }
}

fn chain(depth: usize) -> TreeNode {
    let mut n = node(&format!("n{depth}"), vec![]);
    for d in (0..depth).rev() {
        n = node(&format!("n{d}"), vec![n]);
    }
    n
}

#[test]
fn tree_keys_are_unique_nonempty_and_selected_keys_exist() {
    let nodes = vec![node("a", vec![node("b", vec![])]), node("c", vec![])];
    assert!(validate_tree(&nodes, &None).is_ok());
    assert!(validate_tree(&nodes, &Some("b".to_string())).is_ok());
    assert_eq!(
        validate_tree(&nodes, &Some("z".to_string())).unwrap_err(),
        "tree selectedKey must exist in nodes"
    );
    let duplicate = vec![node("a", vec![node("a", vec![])])];
    assert_eq!(
        validate_tree(&duplicate, &None).unwrap_err(),
        "tree requires at most 100000 nonempty, globally unique keys"
    );
    assert!(validate_tree(&vec![node("", vec![])], &None).is_err());
}

#[test]
fn unloaded_nodes_must_announce_children() {
    let mut lazy = node("lazy", vec![]);
    lazy.children_loaded = false;
    assert_eq!(
        validate_tree(&vec![lazy], &None).unwrap_err(),
        "an unloaded node requires hasChildren"
    );
    let mut branch = node("branch", vec![]);
    branch.children_loaded = false;
    branch.has_children = true;
    assert!(validate_tree(&vec![branch], &None).is_ok());
}

#[test]
fn tree_depth_is_bounded() {
    assert!(validate_tree(&vec![chain(47)], &None).is_ok());
    assert_eq!(
        validate_tree(&vec![chain(48)], &None).unwrap_err(),
        "tree depth may not exceed 48"
    );
}

#[test]
fn the_first_problem_in_document_order_is_reported() {
    let mut lazy = node("lazy", vec![]);
    lazy.children_loaded = false;
    let nodes = vec![node("a", vec![lazy]), node("a", vec![])];
    assert_eq!(
        validate_tree(&nodes, &None).unwrap_err(),
        "an unloaded node requires hasChildren"
    );
}

#[test]
fn tree_node_count_is_bounded() {
    let many: Vec<TreeNode> = (0..100_001).map(|i| node(&i.to_string(), vec![])).collect();
    assert_eq!(
        validate_tree(&many, &None).unwrap_err(),
        "tree requires at most 100000 nonempty, globally unique keys"
    );
}

#[test]
fn branch_requests_are_answered_once() {
    let mut requests = BranchRequests::new();
    assert!(requests.request("a", false, true, 3).is_none());
    assert!(requests.request("a", true, false, 3).is_none());
    let first = requests.request("a", true, true, 3).unwrap();
    assert_eq!((first.key.as_str(), first.request_id, first.data_revision), ("a", 1, 3));
    assert!(requests.request("a", true, true, 3).is_none());
    let second = requests.request("b", true, true, 4).unwrap();
    assert_eq!(second.request_id, 2);
    let stale = TreeLoadCompletion { key: "a".to_string(), request_id: 2 };
    assert_eq!(
        requests.finish(&stale).unwrap_err(),
        "tree response does not match the outstanding branch request"
    );
    let answer = TreeLoadCompletion { key: "a".to_string(), request_id: 1 };
    assert!(requests.finish(&answer).is_ok());
    assert!(requests.finish(&answer).is_err());
    assert_eq!(requests.request("a", true, true, 5).unwrap().request_id, 3);
    let expansion = TreeExpansion { key: "b".to_string(), expanded: true };
    assert!(expansion.expanded);
}

#[test]
fn controlled_tree_selection_waits_for_acknowledgement() {
    let a = Some("a".to_string());
    let b = Some("b".to_string());
    assert!(applies_selected_key(2, &a, 2, &b, 2));
    assert!(!applies_selected_key(2, &a, 1, &b, 1));
    assert!(applies_selected_key(5, &None, 0, &b, 0));
    assert!(!applies_selected_key(0, &a, 0, &a, 0));
}

#[test]
fn tree_keys_list_every_node_in_document_order() {
    let nodes = vec![node("a", vec![node("b", vec![node("c", vec![])])]), node("d", vec![])];
    assert_eq!(tree_keys(&nodes), vec!["a", "b", "c", "d"]);
    assert!(tree_keys(&vec![]).is_empty());
    let keys = tree_keys(&nodes);
    assert!(check_reveal(&keys, "c").is_ok());
    assert_eq!(check_reveal(&keys, "z").unwrap_err(), "tree key does not exist");
}

#[test]
fn requests_for_vanished_branches_are_forgotten() {
    let mut requests = BranchRequests::new();
    assert!(requests.request("a", true, true, 1).is_some());
    assert!(requests.request("b", true, true, 1).is_some());
    assert!(requests.request("c", true, true, 1).is_some());
    requests.retain_live(&vec!["c".to_string(), "a".to_string()]);
    assert_eq!(requests.request_seq, 3);
    let kept: Vec<(&str, u32)> = requests.pending.iter().map(|(k, id)| (k.as_str(), *id)).collect();
    assert_eq!(kept, vec![("a", 1), ("c", 3)]);
    // The forgotten branch can be requested again, under a new number.
    let again = requests.request("b", true, true, 2).unwrap();
    assert_eq!(again.request_id, 4);
}

#[test]
fn stated_expansion_wins_only_when_new_or_changed() {
    assert_eq!(expansion_to_apply(false, None, Some(true)), Some(true));
    assert_eq!(expansion_to_apply(true, None, Some(false)), Some(false));
    assert_eq!(expansion_to_apply(true, Some(Some(true)), Some(true)), None);
    assert_eq!(expansion_to_apply(true, Some(None), Some(true)), Some(true));
    assert_eq!(expansion_to_apply(true, Some(Some(false)), Some(true)), Some(true));
    assert_eq!(expansion_to_apply(false, None, None), None);
}

#[test]
fn answering_a_request_restores_the_outstanding_set() {
    let mut requests = BranchRequests::new();
    requests.request("a", true, true, 0).unwrap();
    let before: Vec<(String, u32)> = requests.pending.clone();
    let q = requests.request("b", true, true, 0).unwrap();
    assert!(requests
        .finish(&TreeLoadCompletion { key: q.key.clone(), request_id: q.request_id })
        .is_ok());
    assert_eq!(requests.pending, before);
}
