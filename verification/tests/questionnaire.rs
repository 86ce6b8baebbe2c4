use solid_gpui::questionnaire::{
    answers_to_port, check_initial_item, decode_item_children, ItemChildProps, QuestionnaireFocusChoice, QuestionnaireSetChoiceDisabled,
    QuestionnaireSetItemDisabled,
    question_shape_errors, valid_name, valid_optional_text, valid_text, validate_item_shape,
    QuestionnaireAnswer, QuestionnaireChoiceProps, QuestionnaireInputProps,
    QuestionnaireItemProps, QuestionnaireItemShape, QuestionnaireProps, QuestionnaireSetAnswer,
    QuestionnaireSetExternalError, QuestionnaireSetInputValue, MAX_CHOICES_PER_ITEM,
    MAX_INPUT_TEXT_BYTES, MAX_ITEMS, MAX_TEXT_BYTES,
};

fn item(name: &str) -> QuestionnaireItemProps {
    QuestionnaireItemProps {
        name: name.into(),
        accessibility_label: format!("{name} label"),
        ..Default::default()
    }
}
fn choice(value: &str) -> QuestionnaireChoiceProps {
    QuestionnaireChoiceProps {
        value: value.into(),
        accessibility_label: format!("{value} label"),
        ..Default::default()
    }
}
fn shape<'a>(
    props: &'a QuestionnaireItemProps,
    choices: &'a [QuestionnaireChoiceProps],
    input: Option<&'a QuestionnaireInputProps>,
) -> QuestionnaireItemShape<'a> {
    QuestionnaireItemShape::new(props, choices.iter().collect(), input)
}

#[test]
fn duplicate_names_and_choices_are_rejected_before_publication() {
    let duplicate_names = vec![item("same"), item("same")];
    let shapes: Vec<_> = duplicate_names
        .into_iter()
        .map(|item| (item, Vec::new(), None))
        .collect();
    assert_eq!(
        question_shape_errors(&shapes).unwrap_err(),
        "duplicate question name `same`"
    );

    let duplicate_choices = vec![(item("q"), vec![choice("a"), choice("a")], None)];
    assert_eq!(
        question_shape_errors(&duplicate_choices).unwrap_err(),
        "duplicate choice value `a` in question `q`"
    );

    let single_choice_multiple_defaults = vec![(
        item("q"),
        vec![
            QuestionnaireChoiceProps {
                default_selected: true,
                ..choice("a")
            },
            QuestionnaireChoiceProps {
                default_selected: true,
                ..choice("b")
            },
        ],
        None,
    )];
    assert_eq!(
        question_shape_errors(&single_choice_multiple_defaults).unwrap_err(),
        "single-choice question `q` has more than one defaultSelected"
    );
}

#[test]
fn multiple_choice_items_admit_any_number_of_defaults() {
    let multiple_defaults = vec![(
        QuestionnaireItemProps {
            multiple: true,
            ..item("q")
        },
        vec![
            QuestionnaireChoiceProps {
                default_selected: true,
                ..choice("a")
            },
            QuestionnaireChoiceProps {
                default_selected: true,
                ..choice("b")
            },
        ],
        None,
    )];
    assert!(question_shape_errors(&multiple_defaults).is_ok());
}

#[test]
fn response_budget_bounds_the_whole_schema() {
    let label = "x".repeat(4000);
    let mut shapes = Vec::new();
    for index in 0..64 {
        shapes.push((
            QuestionnaireItemProps {
                accessibility_label: label.clone(),
                ..item(&index.to_string())
            },
            Vec::new(),
            None,
        ));
    }
    assert!(shapes.len() <= MAX_ITEMS);
    assert!(question_shape_errors(&shapes).is_err());
}

#[test]
fn answers_port_only_across_meaning_preserving_edits() {
    let input = QuestionnaireInputProps::default();
    let base_props = item("q");
    let base_choices = [choice("a"), choice("b")];
    let base = shape(&base_props, &base_choices, Some(&input));

    let relabeled_props = QuestionnaireItemProps {
        accessibility_label: "New title".into(),
        ..item("q")
    };
    let relabeled = shape(&relabeled_props, &base_choices, Some(&input));
    assert!(base.answer_compatible(&relabeled));

    let required_props = QuestionnaireItemProps {
        required: true,
        ..item("q")
    };
    let required = shape(&required_props, &base_choices, Some(&input));
    assert!(!base.answer_compatible(&required));

    let revalued_choices = [choice("a"), choice("c")];
    let revalued = shape(&base_props, &revalued_choices, Some(&input));
    assert!(!base.answer_compatible(&revalued));

    let inputless = shape(&base_props, &base_choices, None);
    assert!(!base.answer_compatible(&inputless));
}

#[test]
fn bounded_answers_and_text_reject_oversized_payloads() {
    let oversized = QuestionnaireAnswer {
        freeform: Some("x".repeat(MAX_INPUT_TEXT_BYTES + 1)),
        choices: Vec::new(),
    };
    assert!(oversized.validate().is_err());

    let too_many = QuestionnaireAnswer {
        freeform: None,
        choices: (0..=MAX_CHOICES_PER_ITEM).map(|i| i.to_string()).collect(),
    };
    assert!(too_many.validate().is_err());

    let valid = QuestionnaireAnswer {
        freeform: Some("draft".into()),
        choices: vec!["a".into()],
    };
    assert!(valid.validate().is_ok());

    let oversized_label = QuestionnaireItemProps {
        accessibility_label: "x".repeat(MAX_TEXT_BYTES + 1),
        ..item("q")
    };
    assert!(oversized_label.validate().is_err());
}

#[test]
fn names_and_texts_report_their_bounds() {
    assert_eq!(valid_name(" \t").unwrap_err(), "names must not be empty");
    assert_eq!(
        valid_name(&"n".repeat(257)).unwrap_err(),
        "names may contain at most 256 bytes"
    );
    assert!(valid_name(&"é".repeat(128)).is_ok());
    assert!(valid_name(&"é".repeat(129)).is_err());
    assert_eq!(
        valid_text("accessibilityLabel", "").unwrap_err(),
        "accessibilityLabel must not be empty"
    );
    assert_eq!(
        valid_optional_text("message", &"m".repeat(4097)).unwrap_err(),
        "message may contain at most 4096 bytes"
    );
    assert!(valid_optional_text("message", "").is_ok());
    let answer = QuestionnaireAnswer {
        choices: vec!["".into()],
        freeform: None,
    };
    assert_eq!(
        answer.validate().unwrap_err(),
        "answer choice values must be valid names"
    );
}

#[test]
fn commands_validate_their_payloads() {
    let set = QuestionnaireSetAnswer {
        item: "q".into(),
        answer: QuestionnaireAnswer::default(),
    };
    assert!(set.validate().is_ok());
    let bad = QuestionnaireSetInputValue {
        item: "q".into(),
        value: "v".repeat(MAX_INPUT_TEXT_BYTES + 1),
    };
    assert_eq!(
        bad.validate().unwrap_err(),
        "value may contain at most 8192 bytes"
    );
    let error = QuestionnaireSetExternalError {
        item: " ".into(),
        message: "m".into(),
    };
    assert_eq!(error.validate().unwrap_err(), "names must not be empty");
    let props = QuestionnaireProps {
        skip_label: Some("s".repeat(4097)),
        ..QuestionnaireProps::default()
    };
    assert_eq!(
        props.validate().unwrap_err(),
        "skipLabel may contain at most 4096 bytes"
    );
    let input = QuestionnaireInputProps {
        accessibility_label: "free".into(),
        default_value: Some("d".repeat(MAX_INPUT_TEXT_BYTES + 1)),
        ..Default::default()
    };
    assert_eq!(
        input.validate().unwrap_err(),
        "defaultValue may contain at most 8192 bytes"
    );
}

#[test]
fn item_shapes_and_schema_limits() {
    let props = item("q");
    let a = choice("a");
    let dup = choice("a");
    assert_eq!(
        validate_item_shape(&props, &[&a, &dup], None).unwrap_err(),
        "duplicate choice value `a` in question `q`"
    );
    let b = QuestionnaireChoiceProps {
        default_selected: true,
        ..choice("b")
    };
    let c = QuestionnaireChoiceProps {
        default_selected: true,
        ..choice("c")
    };
    assert!(validate_item_shape(&props, &[&a, &b], None).is_ok());
    assert!(validate_item_shape(&props, &[&b, &c], None).is_err());
    let too_many: Vec<_> = (0..=MAX_ITEMS)
        .map(|i| (item(&format!("q{i}")), Vec::new(), None))
        .collect();
    assert_eq!(
        question_shape_errors(&too_many).unwrap_err(),
        "a questionnaire supports at most 256 questions"
    );
    let choices: Vec<_> = (0..=MAX_CHOICES_PER_ITEM)
        .map(|i| choice(&format!("c{i}")))
        .collect();
    assert_eq!(
        question_shape_errors(&[(item("q"), choices, None)]).unwrap_err(),
        "a question supports at most 128 choices"
    );
    let with_input = vec![(
        item("q"),
        vec![choice("a")],
        Some(QuestionnaireInputProps {
            accessibility_label: "other".into(),
            ..Default::default()
        }),
    )];
    assert!(question_shape_errors(&with_input).is_ok());
}

#[test]
fn item_children_split_into_choices_and_one_input() {
    let input = QuestionnaireInputProps {
        accessibility_label: "other".into(),
        ..Default::default()
    };
    let (choices, found) = decode_item_children(
        true,
        vec![
            Ok(ItemChildProps::Choice(choice("a"))),
            Ok(ItemChildProps::Input(input.clone())),
            Ok(ItemChildProps::Choice(choice("b"))),
        ],
    )
    .unwrap();
    assert_eq!(choices, vec![choice("a"), choice("b")]);
    assert_eq!(found, Some(input.clone()));
    assert_eq!(
        decode_item_children(false, vec![]).unwrap_err(),
        "QuestionnaireItem requires QuestionnaireChoice and QuestionnaireInput children"
    );
    assert_eq!(
        decode_item_children(
            true,
            vec![
                Ok(ItemChildProps::Input(input.clone())),
                Ok(ItemChildProps::Input(input.clone())),
                Err("expected native child props".into()),
            ]
        )
        .unwrap_err(),
        "QuestionnaireItem accepts at most one QuestionnaireInput"
    );
    assert_eq!(
        decode_item_children(true, vec![Err("bad json".into()), Ok(ItemChildProps::Input(input))])
            .unwrap_err(),
        "bad json"
    );
    let many = (0..=MAX_CHOICES_PER_ITEM)
        .map(|i| Ok(ItemChildProps::Choice(choice(&format!("c{i}")))))
        .collect();
    assert_eq!(
        decode_item_children(true, many).unwrap_err(),
        "a question supports at most 128 choices"
    );
}

#[test]
fn command_targets_are_valid_names() {
    let ok = QuestionnaireSetItemDisabled { item: "q1".into(), disabled: true };
    assert!(ok.validate().is_ok());
    let bad = QuestionnaireSetItemDisabled { item: "".into(), disabled: true };
    assert!(bad.validate().is_err());
    let choice_target = QuestionnaireSetChoiceDisabled {
        item: "q1".into(),
        value: "".into(),
        disabled: false,
    };
    assert!(choice_target.validate().is_err());
    let focus = QuestionnaireFocusChoice { item: "q1".into(), value: "a".into() };
    assert!(focus.validate().is_ok());
}

#[test]
fn a_schema_edit_ports_answers_by_name_and_shape() {
    let choices = [choice("a"), choice("b")];
    let other_choices = [choice("a"), choice("z")];
    let (p, q, r) = (item("p"), item("q"), item("r"));
    let required_q = QuestionnaireItemProps { required: true, ..item("q") };
    let old = vec![shape(&p, &choices, None), shape(&q, &choices, None), shape(&r, &choices, None)];
    let new = vec![
        shape(&required_q, &choices, None),
        shape(&p, &choices, None),
        shape(&q, &choices, None),
        shape(&r, &other_choices, None),
    ];
    // `q` is matched against its first occurrence in the new schema, which is required.
    assert_eq!(answers_to_port(&old, &new), vec![true, false, false]);
    assert!(answers_to_port(&old, &vec![]).iter().all(|ported| !ported));
    assert!(answers_to_port(&vec![], &new).is_empty());
}

#[test]
fn the_initial_item_names_a_committed_question() {
    let items = vec![item("a"), item("b")];
    assert!(check_initial_item(&items, &None).is_ok());
    assert!(check_initial_item(&items, &Some("b".to_string())).is_ok());
    assert_eq!(
        check_initial_item(&items, &Some("c".to_string())).unwrap_err(),
        "initialItem must address a committed question"
    );
    assert!(check_initial_item(&vec![], &Some("a".to_string())).is_err());
}
