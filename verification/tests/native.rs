use solid_gpui::text::split_whitespace;
use solid_gpui::native::{view_command_index, ChildSummary, ComponentContract};
use solid_gpui::native::{
    emit_answer_accepted, pascal, property_bytes, write_types, ControlledBinding, ElementContext, Event,
    EventDefinition, EventSink, ExtensionError, ExtensionField, ExtensionProperties,
    ExtensionValue, Guard, NativeChildren, MAX_SAFE_INTEGER,
};

fn names(v: &[&str]) -> Vec<String> {
    v.iter().map(|s| s.to_string()).collect()
}

fn sink(ids: &[u32]) -> EventSink {
    EventSink { subscriptions: ids.to_vec() }
}

#[test]
fn events_emit_only_to_subscribed_listeners() {
    let event = Event::with_events(sink(&[2]), 1, names(&["change", "searchChange"]));
    assert!(!event.is_subscribed());
    let mut encoded = 0;
    assert!(event
        .emit(|| {
            encoded += 1;
            b"{}".to_vec()
        })
        .is_none());
    assert_eq!(encoded, 0, "an unheard value is not encoded");
    let search = event.related("searchChange");
    assert_eq!(search.id, 2);
    assert!(search.is_subscribed());
    let frame = search.emit(|| b"\"query\"".to_vec()).expect("subscribed event emits");
    assert_eq!(frame.event_id, 2);
    assert_eq!(
        frame.fields,
        vec![ExtensionField { id: 1, value: ExtensionValue::Bytes(b"\"query\"".to_vec()) }]
    );
}

#[test]
fn retired_and_unsubscribed_routes_are_dropped() {
    assert!(emit_answer_accepted(&Ok(())));
    assert!(emit_answer_accepted(&Err(ExtensionError::EventRouteRetired { event_id: 1 })));
    assert!(emit_answer_accepted(&Err(ExtensionError::EventNotSubscribed { event_id: 1 })));
    assert!(!emit_answer_accepted(&Err(ExtensionError::InvalidProperties {
        node_id: 4,
        reason: "bad".to_string(),
    })));
}

#[test]
fn slots_follow_their_declaration_order() {
    let plain = NativeChildren::new(&[]);
    assert_eq!(plain.content().group, None);
    let slotted = NativeChildren::new(&["header", "footer"]);
    assert_eq!(slotted.content().group, Some(0));
    assert_eq!(slotted.slot("header").group, Some(1));
    assert_eq!(slotted.slot("footer").group, Some(2));
}

#[test]
fn element_context_resolves_events_and_content() {
    let cx = ElementContext {
        node_id: 7,
        sink: sink(&[1, 2]),
        event_ids: names(&["reset", "select"]),
        content: NativeChildren::new(&["titleSuffix"]),
    };
    assert_eq!(cx.id(), 7);
    assert_eq!(cx.content().group, Some(0));
    assert_eq!(cx.slot("titleSuffix").group, Some(1));
    let select = cx.event("select");
    assert_eq!(select.id, 2);
    assert!(select.is_subscribed());
    assert_eq!(EventDefinition::new("reset").name, "reset");
    let binding = ControlledBinding {
        value_prop: "selection",
        event_id: 1,
        sequence_field: "editSeq",
        ack_prop: "ackEditSeq",
    };
    assert_eq!(binding.event_id, 1);
}

#[test]
fn native_props_are_one_json_byte_field() {
    let good = ExtensionProperties {
        fields: vec![ExtensionField { id: 1, value: ExtensionValue::Bytes(b"{}".to_vec()) }],
        event_ids: vec![],
    };
    assert_eq!(property_bytes(&good), Ok(&b"{}"[..]));
    let wrong_id = ExtensionProperties {
        fields: vec![ExtensionField { id: 2, value: ExtensionValue::Bytes(b"{}".to_vec()) }],
        event_ids: vec![],
    };
    assert_eq!(
        property_bytes(&wrong_id),
        Err("native props require one typed JSON byte field".to_string())
    );
    let empty = ExtensionProperties { fields: vec![], event_ids: vec![] };
    assert!(property_bytes(&empty).is_err());
}

#[test]
fn integers_stay_within_javascript_precision() {
    assert_eq!(MAX_SAFE_INTEGER, 9_007_199_254_740_991);
    assert!(Guard.serialize_i64(9_007_199_254_740_991).is_ok());
    assert!(Guard.serialize_i64(-9_007_199_254_740_991).is_ok());
    assert_eq!(
        Guard.serialize_i64(9_007_199_254_740_992),
        Err("integer exceeds JavaScript's exact JSON range".to_string())
    );
    assert!(Guard.serialize_i64(-9_007_199_254_740_992).is_err());
    assert!(Guard.serialize_u64(9_007_199_254_740_991).is_ok());
    assert!(Guard.serialize_u64(u64::MAX).is_err());
    assert!(Guard.serialize_i128(i128::MIN).is_err());
    assert!(Guard.serialize_u128(0).is_ok());
}

#[test]
fn event_props_are_pascal_cased() {
    assert_eq!(pascal("change"), "Change");
    assert_eq!(pascal("searchChange"), "SearchChange");
    assert_eq!(pascal(""), "");
    assert_eq!(pascal("ß"), "SS");
    assert_eq!(pascal("1st"), "1st");
}

#[test]
fn type_declarations_are_exported_in_order() {
    let mut out = String::from("// header\n");
    write_types(&mut out, &names(&["type A = string;", "type B = number;"]));
    assert_eq!(out, "// header\nexport type A = string;\nexport type B = number;\n");
}

#[test]
fn whitespace_splits_words() {
    assert_eq!(split_whitespace("  a bc\u{3000}d \n"), vec!["a", "bc", "d"]);
    assert!(split_whitespace(" \t ").is_empty());
    assert!(split_whitespace("").is_empty());
}

fn props_with(event_ids: Vec<u32>) -> ExtensionProperties {
    ExtensionProperties {
        fields: vec![ExtensionField { id: 1, value: ExtensionValue::Bytes(b"{}".to_vec()) }],
        event_ids,
    }
}

fn children(views: Vec<bool>, element_types: Vec<Option<u64>>) -> ChildSummary {
    ChildSummary { count: views.len(), views, element_types }
}

fn children_reason(r: Result<(), ExtensionError>) -> String {
    match r {
        Err(ExtensionError::InvalidChildren { node_id: 7, reason }) => reason,
        other => panic!("expected a children error, got {other:?}"),
    }
}

fn props_reason(r: Result<(), ExtensionError>) -> String {
    match r {
        Err(ExtensionError::InvalidProperties { node_id: 7, reason }) => reason,
        other => panic!("expected a properties error, got {other:?}"),
    }
}

#[test]
fn nodes_are_checked_against_their_component_in_order() {
    let leaf = ComponentContract { slots: &[], accepts_children: false, child_type: None, event_count: 2 };
    let ok = || Ok(());
    assert!(leaf.validate(7, &props_with(vec![1, 2]), &children(vec![], vec![]), ok(), ok()).is_ok());
    assert_eq!(
        children_reason(leaf.validate(7, &props_with(vec![]), &children(vec![true], vec![None]), ok(), ok())),
        "retained native view does not accept JS children"
    );
    let slotted = ComponentContract { slots: &["empty"], accepts_children: true, child_type: None, event_count: 1 };
    assert!(slotted.validate(7, &props_with(vec![]), &children(vec![true, true], vec![None, None]), ok(), ok()).is_ok());
    for kids in [children(vec![true], vec![None]), children(vec![true, false], vec![None, None])] {
        assert_eq!(
            children_reason(slotted.validate(7, &props_with(vec![]), &kids, ok(), ok())),
            "native slots require one ordered View group per declared slot and default content"
        );
    }
    let compound = ComponentContract { slots: &[], accepts_children: true, child_type: Some(3), event_count: 0 };
    assert!(compound.validate(7, &props_with(vec![]), &children(vec![true], vec![Some(3)]), ok(), ok()).is_ok());
    assert_eq!(
        children_reason(compound.validate(7, &props_with(vec![]), &children(vec![true, true], vec![Some(3), None]), ok(), ok())),
        "this compound component requires children of its declared native type"
    );
    let no_field = ExtensionProperties { fields: vec![], event_ids: vec![] };
    assert_eq!(
        props_reason(leaf.validate(7, &no_field, &children(vec![], vec![]), ok(), ok())),
        "native props require one typed JSON byte field"
    );
    assert_eq!(
        props_reason(leaf.validate(7, &props_with(vec![]), &children(vec![], vec![]), Err("bad json".into()), ok())),
        "bad json"
    );
    assert_eq!(
        children_reason(leaf.validate(7, &props_with(vec![]), &children(vec![], vec![]), ok(), Err("no pages".into()))),
        "no pages"
    );
    for ids in [vec![0], vec![1, 3]] {
        assert_eq!(
            props_reason(leaf.validate(7, &props_with(ids), &children(vec![], vec![]), ok(), ok())),
            "unknown native event"
        );
    }
}

#[test]
fn view_commands_are_numbered_from_one() {
    assert_eq!(view_command_index(1, 3), Ok(0));
    assert_eq!(view_command_index(3, 3), Ok(2));
    assert_eq!(view_command_index(4, 3).unwrap_err(), "unknown native view command");
    assert_eq!(view_command_index(0, 3).unwrap_err(), "unknown native view command");
}

#[test]
fn event_tables_put_the_primary_event_first_then_sort_by_name() {
    use_table();
}

fn use_table() {
    let others = names(&["submit", "answerChange", "complete"]);
    assert_eq!(
        solid_gpui::native::event_table(Some("change"), &others),
        names(&["change", "answerChange", "complete", "submit"])
    );
    assert_eq!(
        solid_gpui::native::event_table(None, &others),
        names(&["answerChange", "complete", "submit"])
    );
    assert_eq!(solid_gpui::native::sorted_names(&names(&["b", "B", "a", "ä"])), names(&["B", "a", "b", "ä"]));
    assert!(solid_gpui::native::sorted_names(&vec![]).is_empty());
}
