use solid_gpui::components::{
    items, stream_fade_motion, CellAlign, Color, FocusTrapProps, OrdinalScaleRequest,
    Orientation, OtpInputProps, PlotLabelSide, PopupAnchor, ScrollAxis, ScrollShadowProps,
    ScrollableProps, ScrollbarVisibility, SidebarCollapse, StreamFadeMotion, TextStreamFadeConfig,
    TextViewProps, ThemeMode, MAX_ITEMS,
};
use solid_gpui::components::{check_axis_labels, check_dash_count, check_plot_work};
use solid_gpui::components::{check_sankey_size, check_stack_shape, otp_value_applies, check_font_family, text_update, RichTextFormat, TextUpdate};

#[test]
fn colors_accept_only_hex_rgb_and_rgba() {
    assert_eq!(Color::parse("#1a2B3c".to_string()).unwrap().as_str(), "#1a2B3c");
    assert!(Color::parse("#1a2b3c4d".to_string()).is_ok());
    for bad in ["1a2b3c", "#1a2b3", "#1a2b3c4", "#1a2g3c", "#1a2b3c4d5", "", "#ééé"] {
        assert_eq!(
            Color::parse(bad.to_string()).unwrap_err(),
            "color must be #RRGGBB or #RRGGBBAA"
        );
    }
}

#[test]
fn defaults_match_the_declared_props() {
    assert_eq!(Orientation::default(), Orientation::Horizontal);
    assert_eq!(PopupAnchor::default(), PopupAnchor::TopLeft);
    assert_eq!(CellAlign::default(), CellAlign::Left);
    assert_eq!(PlotLabelSide::default(), PlotLabelSide::End);
    assert_eq!(SidebarCollapse::default(), SidebarCollapse::Icon);
    assert_eq!(ThemeMode::default(), ThemeMode::System);
    assert!(ThemeMode::System.follows_system());
    assert!(!ThemeMode::Dark.follows_system());
    assert!(!FocusTrapProps::default().auto_focus);
    let text = TextViewProps::default();
    assert!(text.text.is_empty() && text.stream_fade.is_none() && text.max_lines.is_none());
}

#[test]
fn scroll_shadow_viewport_follows_its_axis() {
    let shadow = ScrollShadowProps::default();
    assert_eq!(shadow.fade_size, 24);
    let viewport = shadow.viewport();
    assert_eq!(viewport.axis, ScrollAxis::Vertical);
    assert_eq!(viewport.scrollbar_visibility, ScrollbarVisibility::Always);
    assert!(!viewport.hide_scrollbar && !viewport.contain_scroll);
    let horizontal = ScrollShadowProps { axis: Orientation::Horizontal, ..ScrollShadowProps::default() };
    assert_eq!(horizontal.viewport().axis, ScrollAxis::Horizontal);
}

#[test]
fn contained_scrolling_masks_the_scrolling_axes() {
    let base = ScrollableProps::default();
    assert_eq!(base.masks(), (false, false));
    let contained = ScrollableProps { contain_scroll: true, ..base };
    assert_eq!(contained.masks(), (true, false));
    let both = ScrollableProps { axis: ScrollAxis::Both, ..contained };
    assert_eq!(both.masks(), (true, true));
    let horizontal = ScrollableProps { axis: ScrollAxis::Horizontal, ..contained };
    assert_eq!(horizontal.masks(), (false, true));
}

#[test]
fn stream_fade_settings_map_to_motion_policies() {
    assert_eq!(stream_fade_motion(None), StreamFadeMotion::Keep);
    assert_eq!(stream_fade_motion(Some(TextStreamFadeConfig::Enabled(false))), StreamFadeMotion::Off);
    assert_eq!(stream_fade_motion(Some(TextStreamFadeConfig::Enabled(true))), StreamFadeMotion::Theme);
    assert_eq!(
        stream_fade_motion(Some(TextStreamFadeConfig::Timing { duration_ms: 200, stagger_ms: 40 })),
        StreamFadeMotion::Explicit { duration_ms: 200, stagger_ms: 40 }
    );
}

#[test]
fn otp_props_bound_length_groups_and_value() {
    assert!(OtpInputProps::default().validate().is_ok());
    let mut p = OtpInputProps::default();
    p.length = 0;
    assert_eq!(p.validate().unwrap_err(), "OTP length must be 1..64 and groups 1..length");
    p.length = 65;
    assert!(p.validate().is_err());
    p.length = 4;
    p.groups = 5;
    assert!(p.validate().is_err());
    p.groups = 2;
    p.value = Some("1234".to_string());
    assert!(p.validate().is_ok());
    p.value = Some("12345".to_string());
    assert_eq!(p.validate().unwrap_err(), "OTP value must contain at most length ASCII digits");
    p.value = Some("12a".to_string());
    assert!(p.validate().is_err());
    p.value = None;
    p.default_value = "٣".to_string();
    assert!(p.validate().is_err());
}

#[test]
fn ordinal_requests_are_bounded() {
    assert_eq!(MAX_ITEMS, 16_384);
    assert!(items(16_384).is_ok());
    assert_eq!(items(16_385).unwrap_err(), "plot work exceeds 16384 items");
    let small = OrdinalScaleRequest {
        domain: vec!["a".into(), "b".into()],
        range: vec!["x".into()],
        values: vec!["a".into(), "c".into()],
        unknown: None,
    };
    assert!(small.check_bounds().is_ok());
    let wide = OrdinalScaleRequest {
        domain: vec![String::new(); 200],
        range: vec![],
        values: vec![String::new(); 100],
        unknown: Some("?".into()),
    };
    assert_eq!(wide.check_bounds().unwrap_err(), "plot work exceeds 16384 items");
}

fn text_props(fade: Option<TextStreamFadeConfig>) -> TextViewProps {
    TextViewProps { text: "hi".to_string(), stream_fade: fade, ..TextViewProps::default() }
}

#[test]
fn stream_fade_timing_is_bounded_like_other_motion_timing() {
    assert!(text_props(Some(TextStreamFadeConfig::Timing { duration_ms: 60001, stagger_ms: 0 }))
        .validate()
        .is_err());
    assert!(text_props(Some(TextStreamFadeConfig::Timing { duration_ms: 100, stagger_ms: 60001 }))
        .validate()
        .is_err());
    assert!(text_props(Some(TextStreamFadeConfig::Timing { duration_ms: 350, stagger_ms: 30 }))
        .validate()
        .is_ok());
    assert!(
        text_props(Some(TextStreamFadeConfig::Enabled(false))).validate().is_ok(),
        "an explicit disable needs no timing and is always valid"
    );
}

#[test]
fn text_props_reject_front_matter_outside_markdown_and_bad_line_limits() {
    let mut p = text_props(None);
    p.frontmatter = true;
    p.format = RichTextFormat::Html;
    assert_eq!(p.validate().unwrap_err(), "frontmatter requires Markdown format");
    p.format = RichTextFormat::Markdown;
    assert!(p.validate().is_ok());
    p.max_lines = Some(0);
    assert_eq!(p.validate().unwrap_err(), "maxLines must be 1..100000");
    p.max_lines = Some(100001);
    assert_eq!(p.validate().unwrap_err(), "maxLines must be 1..100000");
    p.max_lines = Some(100000);
    assert!(p.validate().is_ok());
    let p = text_props(Some(TextStreamFadeConfig::Timing { duration_ms: 60001, stagger_ms: 0 }));
    assert_eq!(
        p.validate().unwrap_err(),
        "stream fade duration and stagger must not exceed 60000 ms"
    );
}

#[test]
fn text_updates_stream_appended_suffixes_and_replace_the_rest() {
    let md = RichTextFormat::Markdown;
    assert!(matches!(text_update("héllo", md, "héllo", md), TextUpdate::Keep));
    match text_update("héllo", md, "héllo wörld", md) {
        TextUpdate::Append(suffix) => assert_eq!(suffix, " wörld"),
        _ => panic!("expected an append"),
    }
    assert!(matches!(text_update("hello", md, "help", md), TextUpdate::Replace));
    assert!(matches!(text_update("hello", md, "hello!", RichTextFormat::Html), TextUpdate::Replace));
    assert!(matches!(text_update("hello", md, "hello", RichTextFormat::Html), TextUpdate::Replace));
}

#[test]
fn theme_font_families_are_short_printable_names() {
    let msg = "fontFamily must be a non-empty font name of at most 256 bytes";
    assert!(check_font_family(&None).is_ok());
    assert!(check_font_family(&Some("Inter".to_string())).is_ok());
    assert!(check_font_family(&Some("é".repeat(128))).is_ok());
    assert_eq!(check_font_family(&Some("é".repeat(129))).unwrap_err(), msg);
    assert_eq!(check_font_family(&Some(String::new())).unwrap_err(), msg);
    assert_eq!(check_font_family(&Some("In\u{7}ter".to_string())).unwrap_err(), msg);
}

#[test]
fn otp_fields_follow_acknowledged_controlled_values() {
    let v = Some("123".to_string());
    assert!(otp_value_applies(false, &v, 0, 5, ""));
    assert!(!otp_value_applies(true, &v, 4, 5, ""));
    assert!(otp_value_applies(true, &v, 5, 5, "12"));
    assert!(!otp_value_applies(true, &v, 5, 5, "123"));
    assert!(!otp_value_applies(false, &None, 9, 0, ""));
    let mut props = OtpInputProps::default();
    assert!(props.check_focus().is_ok());
    props.disabled = true;
    assert_eq!(props.check_focus().unwrap_err(), "disabled OTP cannot be focused");
}

#[test]
fn stack_requests_bound_series_cells_and_keys() {
    let keys = |n: usize| (0..n).map(|i| format!("k{i}")).collect::<Vec<_>>();
    assert!(check_stack_shape(10, &keys(3)).is_ok());
    assert_eq!(check_stack_shape(16_385, &keys(1)).unwrap_err(), "plot work exceeds 16384 items");
    assert_eq!(check_stack_shape(1, &keys(33)).unwrap_err(), "stack supports at most 32 series");
    assert_eq!(check_stack_shape(1000, &keys(17)).unwrap_err(), "plot work exceeds 16384 items");
    assert!(check_stack_shape(512, &keys(32)).is_ok());
    let dup = vec!["a".to_string(), "b".to_string(), "a".to_string()];
    assert_eq!(check_stack_shape(2, &dup).unwrap_err(), "stack keys must be unique");
}

#[test]
fn sankey_layouts_are_bounded() {
    assert!(check_sankey_size(512, 4096, 32).is_ok());
    let msg = "Sankey supports at most 512 nodes, 4096 links and 32 iterations";
    assert_eq!(check_sankey_size(513, 0, 0).unwrap_err(), msg);
    assert_eq!(check_sankey_size(0, 4097, 0).unwrap_err(), msg);
    assert_eq!(check_sankey_size(0, 0, 33).unwrap_err(), msg);
}

#[test]
fn plots_bound_their_primitives_and_work() {
    assert!(check_plot_work(&vec![Ok(10), Ok(16_374)]).is_ok());
    assert_eq!(
        check_plot_work(&vec![Ok(10), Ok(16_375), Err("late".to_string())]).unwrap_err(),
        "plot work exceeds 16384 items"
    );
    assert_eq!(
        check_plot_work(&vec![Ok(1), Err("plot font size must be between 1 and 256".to_string())])
            .unwrap_err(),
        "plot font size must be between 1 and 256"
    );
    assert_eq!(
        check_plot_work(&vec![Ok(0); 257]).unwrap_err(),
        "a Plot supports at most 256 primitives"
    );
    assert_eq!(check_plot_work(&vec![Ok(usize::MAX)]).unwrap_err(), "plot work exceeds 16384 items");
    assert_eq!(check_axis_labels(true, 3, false, 0), Ok(5));
    assert_eq!(
        check_axis_labels(true, 0, false, 1).unwrap_err(),
        "axis labels require their axis coordinate"
    );
    assert!(check_dash_count(32).is_ok());
    assert_eq!(check_dash_count(33).unwrap_err(), "dash supports at most 32 lengths");
}
