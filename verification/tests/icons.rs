use solid_gpui::icons::{
    check_icon_catalog, check_svg_elements, svg_outline, valid_name, ApplicationIconAssets,
    AssetRoute, IconColorMode, IconResource, SvgOutline,
};
use solid_gpui::icons::{icon_slot_path, BundledIcon};

/// The whole icon check: the outline, the sizes of the view box and of
/// the root, then the elements.
fn validate_svg(bytes: &[u8]) -> Result<(), String> {
    let outline = svg_outline(bytes)?;
    check_sizes(&outline)?;
    check_svg_elements(&outline)
}

fn root_attribute<'a>(outline: &'a SvgOutline, key: &str) -> Option<&'a str> {
    outline.root.attributes.iter().find(|(n, _)| n == key).map(|(_, v)| v.as_str())
}

fn check_sizes(outline: &SvgOutline) -> Result<(), String> {
    let view_box = root_attribute(outline, "viewBox")
        .unwrap_or_default()
        .split(|c: char| c.is_whitespace() || c == ',')
        .filter(|s| !s.is_empty())
        .map(str::parse::<f32>)
        .collect::<Result<Vec<_>, _>>()
        .map_err(|_| "invalid SVG viewBox")?;
    if view_box.len() != 4
        || view_box.iter().any(|v| !v.is_finite())
        || view_box[2] <= 0.
        || view_box[3] <= 0.
        || view_box[2] > 4096.
        || view_box[3] > 4096.
    {
        return Err("SVG viewBox dimensions must be in (0, 4096]".into());
    }
    for key in ["width", "height"] {
        if let Some(value) = root_attribute(outline, key) {
            let length = value
                .strip_suffix("px")
                .unwrap_or(value)
                .parse::<f32>()
                .map_err(|_| format!("invalid SVG {key}"))?;
            if !length.is_finite() || length <= 0. || length > 4096. {
                return Err(format!("SVG {key} must be in (0, 4096]"));
            }
        }
    }
    Ok(())
}

#[test]
fn icon_sizes_are_bounded() {
    assert_eq!(
        validate_svg(br#"<svg viewBox="0 0 5000 24"/>"#).unwrap_err(),
        "SVG viewBox dimensions must be in (0, 4096]"
    );
    assert_eq!(validate_svg(br#"<svg viewBox="0 0 x 24"/>"#).unwrap_err(), "invalid SVG viewBox");
    assert_eq!(
        validate_svg(br#"<svg viewBox="0 0 24 24" width="0px"/>"#).unwrap_err(),
        "SVG width must be in (0, 4096]"
    );
    assert!(validate_svg(br#"<svg viewBox="0 0 24 24" width="24px" height="24"/>"#).is_ok());
}

#[test]
fn distributed_svg_rejects_active_and_external_content() {
    assert!(
        validate_svg(
            br##"<svg viewBox="0 0 24 24"><path d="M0 0L24 24" stroke="currentColor"/></svg>"##
        )
        .is_ok()
    );
    for svg in [
        r#"<svg viewBox="0 0 24 24"><script/></svg>"#,
        r#"<svg viewBox="0 0 24 24"><path onclick="x()"/></svg>"#,
        r#"<svg viewBox="0 0 24 24"><image href="https://example.org/a"/></svg>"#,
    ] {
        assert!(validate_svg(svg.as_bytes()).is_err());
    }
}

#[test]
fn svg_outline_reports_each_failure() {
    assert_eq!(svg_outline(b"").unwrap_err(), "SVG must contain 1..=65536 bytes");
    assert_eq!(svg_outline(&[0xff, 0xfe]).unwrap_err(), "SVG must be UTF-8");
    assert!(svg_outline(b"<svg").unwrap_err().starts_with("invalid SVG XML: "));
    assert_eq!(
        svg_outline(b"<g viewBox=\"0 0 1 1\"/>").unwrap_err(),
        "SVG requires an svg root and viewBox"
    );
    assert_eq!(svg_outline(b"<svg/>").unwrap_err(), "SVG requires an svg root and viewBox");
    let big = vec![b' '; 65_537];
    assert!(svg_outline(&big).is_err());
}

#[test]
fn svg_elements_report_the_first_problem() {
    let check = |s: &str| validate_svg(s.as_bytes());
    assert_eq!(
        check(r#"<svg viewBox="0 0 1 1"><script/></svg>"#).unwrap_err(),
        "unsupported SVG element: script"
    );
    assert_eq!(
        check(r#"<svg viewBox="0 0 1 1"><path onclick="x()"/></svg>"#).unwrap_err(),
        "unsupported SVG attribute: onclick"
    );
    assert_eq!(
        check(r#"<svg viewBox="0 0 1 1"><path fill="url(https://x)"/></svg>"#).unwrap_err(),
        "SVG external resources are forbidden"
    );
    assert!(check(r#"<svg viewBox="0 0 1 1"><path fill="url(#grad)"/></svg>"#).is_ok());
    assert!(check(r#"<svg viewBox="0 0 1 1"><path fill="url(#a b)"/></svg>"#).is_err());
    let many = format!("<svg viewBox=\"0 0 1 1\">{}</svg>", "<g/>".repeat(1024));
    assert_eq!(check(&many).unwrap_err(), "SVG exceeds 1024 elements");
    let enough = format!("<svg viewBox=\"0 0 1 1\">{}</svg>", "<g/>".repeat(1023));
    assert!(check(&enough).is_ok());
}

#[test]
fn icon_names_use_prefix_colon_name() {
    assert!(valid_name("app:play"));
    assert!(valid_name("my-app:play-2"));
    for bad in ["play", "app:", ":play", "a:b:c", "App:play", "app:pl ay", "app:é"] {
        assert!(!valid_name(bad), "{bad}");
    }
    assert!(!valid_name(&format!("a:{}", "b".repeat(127))));
    assert!(valid_name(&format!("a:{}", "b".repeat(126))));
}

const SVG: &[u8] = br#"<svg viewBox="0 0 1 1"/>"#;

fn icon(name: &'static str) -> IconResource {
    IconResource { name, svg: SVG, color_mode: IconColorMode::Monochrome }
}

#[test]
fn catalogs_are_validated_atomically() {
    let ok: Vec<Result<(), String>> = vec![Ok(()), Ok(())];
    assert!(check_icon_catalog(&[icon("a:x"), icon("a:y")], &vec![false, false], &ok).is_ok());
    assert_eq!(
        check_icon_catalog(&[], &vec![], &vec![]).unwrap_err(),
        "application icon catalog must contain 1..=256 icons"
    );
    assert_eq!(
        check_icon_catalog(&[icon("a:x"), icon("a:x")], &vec![false, false], &ok).unwrap_err(),
        "duplicate application icon: a:x"
    );
    assert_eq!(
        check_icon_catalog(&[icon("a:x"), icon("bad")], &vec![false, false], &ok).unwrap_err(),
        "invalid or reserved application icon name: bad"
    );
    assert_eq!(
        check_icon_catalog(&[icon("lucide:play")], &vec![true], &vec![Ok(())]).unwrap_err(),
        "invalid or reserved application icon name: lucide:play"
    );
    assert_eq!(
        check_icon_catalog(&[icon("a:x")], &vec![false], &vec![Err("SVG must be UTF-8".into())])
            .unwrap_err(),
        "icon a:x: SVG must be UTF-8"
    );
}

#[test]
fn asset_paths_route_to_their_source() {
    assert_eq!(ApplicationIconAssets::route("iconify/lucide/play.svg"), AssetRoute::Iconify);
    assert_eq!(
        ApplicationIconAssets::route("application-icons/app:play"),
        AssetRoute::Application("app:play")
    );
    assert_eq!(ApplicationIconAssets::route("icons/x.svg"), AssetRoute::Unknown);
}

#[test]
fn icon_slots_take_only_single_colour_icons() {
    let mono = "component icon slots require monochrome icons; use core Icon for original colors";
    let bundled = |monochrome: bool| {
        Some(BundledIcon { monochrome, cache_key: "iconify/mdi/home".to_string() })
    };
    assert_eq!(icon_slot_path("home", bundled(true), Some(true)).unwrap(), "iconify/mdi/home");
    assert_eq!(icon_slot_path("home", bundled(false), None).unwrap_err(), mono);
    assert_eq!(icon_slot_path("logo", None, Some(false)).unwrap(), "application-icons/logo");
    assert_eq!(icon_slot_path("logo", None, Some(true)).unwrap_err(), mono);
    assert_eq!(
        icon_slot_path("nope", None, None).unwrap_err(),
        "unknown application icon `nope`; use an installed Iconify name or explicit SVG"
    );
}

#[test]
fn installed_icons_are_listed_under_their_directory() {
    let names = vec!["alpha".to_string(), "beta".to_string(), "alps".to_string()];
    assert_eq!(
        ApplicationIconAssets::list_installed(&names, "application-icons/al"),
        vec!["application-icons/alpha", "application-icons/alps"]
    );
    assert_eq!(ApplicationIconAssets::list_installed(&names, "").len(), 3);
    assert!(ApplicationIconAssets::list_installed(&names, "iconify/").is_empty());
}
