//! Plain property types of the native components, with the checks that run
//! on them before a candidate tree is published.
use vstd::prelude::*;
use crate::text::{byte_len, bytes_at_most, chars_of, is_control, is_control_spec};

verus! {

broadcast use vstd::string::group_string_axioms;

/// An ASCII hexadecimal digit.
pub open spec fn hex_digit(c: char) -> bool {
    ('0' <= c <= '9') || ('a' <= c <= 'f') || ('A' <= c <= 'F')
}

/// `#RRGGBB` or `#RRGGBBAA`.
pub open spec fn color_text(s: Seq<char>) -> bool {
    &&& (s.len() == 7 || s.len() == 9)
    &&& s[0] == '#'
    &&& forall|i: int| 1 <= i < s.len() ==> hex_digit(#[trigger] s[i])
}

/// Whether every character of `chars` from `from` on is a hexadecimal digit.
fn hex_from(chars: &Vec<char>, from: usize) -> (r: bool)
    ensures
        r == (forall|i: int| from <= i < chars@.len() ==> hex_digit(#[trigger] chars@[i])),
{
    let mut i: usize = from;
    while i < chars.len()
        invariant
            from <= i,
            forall|j: int| from <= j < i && j < chars@.len() ==> hex_digit(#[trigger] chars@[j]),
        decreases chars@.len() - i,
    {
        let c = chars[i];
        if !(('0' <= c && c <= '9') || ('a' <= c && c <= 'f') || ('A' <= c && c <= 'F')) {
            assert(!hex_digit(chars@[i as int]));
            return false;
        }
        i = i + 1;
    }
    true
}

/// An sRGB color in `#RRGGBB` or `#RRGGBBAA` form.
#[derive(Debug)]
pub struct Color(String);

impl Color {
    /// The color's text.
    pub closed spec fn text(&self) -> Seq<char> {
        self.0@
    }

    #[verifier::type_invariant]
    closed spec fn well_formed(&self) -> bool {
        color_text(self.0@)
    }

    /// Accepts exactly the `#RRGGBB` and `#RRGGBBAA` forms.
    pub fn parse(value: String) -> (r: Result<Color, String>)
        ensures
            match r {
                Ok(c) => color_text(value@) && c.text() == value@,
                Err(m) => !color_text(value@) && m@ == "color must be #RRGGBB or #RRGGBBAA"@,
            },
    {
        let chars = chars_of(value.as_str());
        let n = chars.len();
        let ok = (n == 7 || n == 9) && chars[0] == '#' && hex_from(&chars, 1);
        if ok {
            Ok(Color(value))
        } else {
            Err(String::from_str("color must be #RRGGBB or #RRGGBBAA"))
        }
    }

    /// The color's text.
    pub fn as_str(&self) -> (r: &str)
        ensures
            r@ == self.text(),
            color_text(r@),
    {
        proof {
            use_type_invariant(self);
        }
        self.0.as_str()
    }
}

#[derive(Clone, Copy, Debug, PartialEq, Eq, Structural)]
pub enum Orientation {
    Horizontal,
    Vertical,
}

impl Default for Orientation {
    fn default() -> (r: Self)
        ensures
            r == Orientation::Horizontal,
    {
        Orientation::Horizontal
    }
}

#[derive(Clone, Copy, Debug, PartialEq, Eq, Structural)]
pub enum AlertVariant {
    Default,
    Info,
    Success,
    Warning,
    Error,
}

impl Default for AlertVariant {
    fn default() -> (r: Self)
        ensures
            r == AlertVariant::Default,
    {
        AlertVariant::Default
    }
}

#[derive(Clone, Copy, Debug, PartialEq, Eq, Structural)]
pub enum GroupBoxVariant {
    Normal,
    Fill,
    Outline,
}

impl Default for GroupBoxVariant {
    fn default() -> (r: Self)
        ensures
            r == GroupBoxVariant::Normal,
    {
        GroupBoxVariant::Normal
    }
}

#[derive(Clone, Copy, Debug, PartialEq, Eq, Structural)]
pub enum TagVariant {
    Primary,
    Secondary,
    Danger,
    Success,
    Warning,
    Info,
}

impl Default for TagVariant {
    fn default() -> (r: Self)
        ensures
            r == TagVariant::Primary,
    {
        TagVariant::Primary
    }
}

/// Where a popup attaches to its trigger.
#[derive(Clone, Copy, Debug, PartialEq, Eq, Structural)]
pub enum PopupAnchor {
    TopLeft,
    TopCenter,
    TopRight,
    BottomLeft,
    BottomCenter,
    BottomRight,
    LeftCenter,
    RightCenter,
}

impl Default for PopupAnchor {
    fn default() -> (r: Self)
        ensures
            r == PopupAnchor::TopLeft,
    {
        PopupAnchor::TopLeft
    }
}

#[derive(Clone, Copy, Debug, PartialEq, Eq, Structural)]
pub enum PopupMouseButton {
    Left,
    Right,
    Middle,
}

impl Default for PopupMouseButton {
    fn default() -> (r: Self)
        ensures
            r == PopupMouseButton::Left,
    {
        PopupMouseButton::Left
    }
}

#[derive(Clone, Copy, Debug, PartialEq, Eq, Structural)]
pub enum SidebarSide {
    Left,
    Right,
}

impl Default for SidebarSide {
    fn default() -> (r: Self)
        ensures
            r == SidebarSide::Left,
    {
        SidebarSide::Left
    }
}

#[derive(Clone, Copy, Debug, PartialEq, Eq, Structural)]
pub enum SidebarCollapse {
    Icon,
    Offcanvas,
    /// The sidebar never collapses (`"none"` on the wire).
    Never,
}

impl Default for SidebarCollapse {
    fn default() -> (r: Self)
        ensures
            r == SidebarCollapse::Icon,
    {
        SidebarCollapse::Icon
    }
}

#[derive(Clone, Copy, Debug, PartialEq, Eq, Structural)]
pub enum CellAlign {
    Left,
    Center,
    Right,
}

impl Default for CellAlign {
    fn default() -> (r: Self)
        ensures
            r == CellAlign::Left,
    {
        CellAlign::Left
    }
}

#[derive(Clone, Copy, Debug, PartialEq, Eq, Structural)]
pub enum PlotTextAlign {
    Left,
    Center,
    Right,
}

impl Default for PlotTextAlign {
    fn default() -> (r: Self)
        ensures
            r == PlotTextAlign::Left,
    {
        PlotTextAlign::Left
    }
}

#[derive(Clone, Copy, Debug, PartialEq, Eq, Structural)]
pub enum PlotLabelSide {
    Start,
    End,
}

impl Default for PlotLabelSide {
    fn default() -> (r: Self)
        ensures
            r == PlotLabelSide::End,
    {
        PlotLabelSide::End
    }
}

#[derive(Clone, Copy, Debug, PartialEq, Eq, Structural)]
pub enum PlotCrossDirection {
    Vertical,
    Horizontal,
    Both,
}

impl Default for PlotCrossDirection {
    fn default() -> (r: Self)
        ensures
            r == PlotCrossDirection::Vertical,
    {
        PlotCrossDirection::Vertical
    }
}

/// One row of a plot tooltip.
#[derive(Debug)]
pub struct PlotTooltipRow {
    pub color: Color,
    pub label: String,
    pub value: String,
}

/// The most work items a plot request may ask for.
pub const MAX_ITEMS: usize = 16_384;

/// Refuses plot work above `MAX_ITEMS` items.
pub fn items(n: usize) -> (r: Result<(), String>)
    ensures
        match r {
            Ok(()) => n <= MAX_ITEMS,
            Err(m) => n > MAX_ITEMS && m@ == "plot work exceeds 16384 items"@,
        },
{
    if n <= MAX_ITEMS {
        Ok(())
    } else {
        Err(String::from_str("plot work exceeds 16384 items"))
    }
}

/// A request to map values through an ordinal scale from `domain` to `range`.
#[derive(Debug)]
pub struct OrdinalScaleRequest {
    pub domain: Vec<String>,
    pub range: Vec<String>,
    pub values: Vec<String>,
    pub unknown: Option<String>,
}

/// The product of two counts, capped at `usize::MAX`.
pub open spec fn saturating_product(a: usize, b: usize) -> int {
    if a * b > usize::MAX {
        usize::MAX as int
    } else {
        a * b
    }
}

/// Whether an ordinal request stays within the work bound: each list, and
/// the lookups of every value in the domain, at most `MAX_ITEMS`.
pub open spec fn ordinal_within_bounds(p: &OrdinalScaleRequest) -> bool {
    &&& p.range@.len() <= MAX_ITEMS
    &&& p.domain@.len() <= MAX_ITEMS
    &&& p.values@.len() <= MAX_ITEMS
    &&& saturating_product(p.domain@.len() as usize, p.values@.len() as usize) <= MAX_ITEMS
}

impl OrdinalScaleRequest {
    /// Refuses a request whose lists or lookups exceed the work bound.
    pub fn check_bounds(&self) -> (r: Result<(), String>)
        ensures
            match r {
                Ok(()) => ordinal_within_bounds(self),
                Err(m) => !ordinal_within_bounds(self) && m@ == "plot work exceeds 16384 items"@,
            },
    {
        items(self.range.len())?;
        items(self.domain.len())?;
        items(self.values.len())?;
        let d = self.domain.len();
        let v = self.values.len();
        let product = match d.checked_mul(v) {
            Some(p) => p,
            None => usize::MAX,
        };
        items(product)
    }
}

/// Whether no key occurs twice.
pub open spec fn keys_unique(keys: Seq<Seq<char>>) -> bool {
    forall|i: int, j: int| 0 <= i < j < keys.len() ==> keys[i] != keys[j]
}

/// Whether a stacking request stays within its bounds: at most
/// `MAX_ITEMS` rows, at most 32 series, at most `MAX_ITEMS` cells, and
/// unique series keys.
pub open spec fn stack_shape_ok(rows: usize, keys: Seq<Seq<char>>) -> bool {
    &&& rows <= MAX_ITEMS
    &&& keys.len() <= 32
    &&& rows * keys.len() <= MAX_ITEMS
    &&& keys_unique(keys)
}

/// The shape checks of a stacking request with `rows` rows and the series
/// `keys`, in order: the rows, the number of series, the cells, and the
/// uniqueness of the keys. The values themselves are checked with the
/// numbers.
pub fn check_stack_shape(rows: usize, keys: &Vec<String>) -> (r: Result<(), String>)
    ensures
        match r {
            Ok(()) => stack_shape_ok(rows, crate::native::texts(keys@)),
            Err(m) => !stack_shape_ok(rows, crate::native::texts(keys@)) && (if rows > MAX_ITEMS {
                m@ == "plot work exceeds 16384 items"@
            } else if keys@.len() > 32 {
                m@ == "stack supports at most 32 series"@
            } else if rows * keys@.len() > MAX_ITEMS {
                m@ == "plot work exceeds 16384 items"@
            } else {
                m@ == "stack keys must be unique"@
            }),
        },
{
    let ghost k = crate::native::texts(keys@);
    items(rows)?;
    if keys.len() > 32 {
        return Err(String::from_str("stack supports at most 32 series"));
    }
    assert(rows * keys@.len() <= 16_384 * 32) by (nonlinear_arith)
        requires
            rows <= 16_384,
            keys@.len() <= 32,
    ;
    items(rows * keys.len())?;
    let mut i: usize = 0;
    while i < keys.len()
        invariant
            i <= keys@.len(),
            rows <= MAX_ITEMS && keys@.len() <= 32 && rows * keys@.len() <= MAX_ITEMS,
            k == crate::native::texts(keys@),
            forall|a: int, b: int| 0 <= a < b < keys@.len() && a < i ==> k[a] != k[b],
        decreases keys@.len() - i,
    {
        let mut j: usize = i + 1;
        while j < keys.len()
            invariant
                i < j <= keys@.len(),
                rows <= MAX_ITEMS && keys@.len() <= 32 && rows * keys@.len() <= MAX_ITEMS,
                k == crate::native::texts(keys@),
                forall|a: int, b: int| 0 <= a < b < keys@.len() && a < i ==> k[a] != k[b],
                forall|b: int| i < b < j ==> k[i as int] != k[b],
            decreases keys@.len() - j,
        {
            if crate::text::same_text(keys[i].as_str(), keys[j].as_str()) {
                assert(k[i as int] == k[j as int]);
                assert(!keys_unique(k));
                return Err(String::from_str("stack keys must be unique"));
            }
            j = j + 1;
        }
        i = i + 1;
    }
    Ok(())
}

/// A Sankey layout request lays out at most 512 nodes and 4096 links in at
/// most 32 iterations.
pub fn check_sankey_size(node_count: usize, link_count: usize, iterations: usize) -> (r: Result<
    (),
    String,
>)
    ensures
        match r {
            Ok(()) => node_count <= 512 && link_count <= 4096 && iterations <= 32,
            Err(m) => !(node_count <= 512 && link_count <= 4096 && iterations <= 32) && m@
                == "Sankey supports at most 512 nodes, 4096 links and 32 iterations"@,
        },
{
    if node_count > 512 || link_count > 4096 || iterations > 32 {
        return Err(String::from_str("Sankey supports at most 512 nodes, 4096 links and 32 iterations"));
    }
    Ok(())
}

/// The first problem of a plot's primitives, after `total` work items:
/// a primitive's own failure, or the running work passing `MAX_ITEMS`.
/// `ps[i]` is primitive `i`'s validation: its work items, or why it failed.
pub open spec fn plot_work_problem(ps: Seq<Result<usize, String>>, total: nat) -> Option<Seq<char>>
    decreases ps.len(),
{
    if ps.len() == 0 {
        None
    } else {
        match ps[0] {
            Err(m) => Some(m@),
            Ok(n) => if total + n > MAX_ITEMS {
                Some("plot work exceeds 16384 items"@)
            } else {
                plot_work_problem(ps.drop_first(), total + n as nat)
            },
        }
    }
}

/// Checks a plot: at most 256 primitives, each valid, and at most
/// `MAX_ITEMS` work items over all of them, counted in order.
pub fn check_plot_work(primitives: &Vec<Result<usize, String>>) -> (r: Result<(), String>)
    ensures
        match r {
            Ok(()) => primitives@.len() <= 256 && plot_work_problem(primitives@, 0) is None,
            Err(m) => if primitives@.len() > 256 {
                m@ == "a Plot supports at most 256 primitives"@
            } else {
                plot_work_problem(primitives@, 0) == Some(m@)
            },
        },
{
    if primitives.len() > 256 {
        return Err(String::from_str("a Plot supports at most 256 primitives"));
    }
    let ghost all = primitives@;
    let mut total: usize = 0;
    let mut i: usize = 0;
    proof {
        assert(all.skip(0) =~= all);
    }
    while i < primitives.len()
        invariant
            i <= all.len(),
            all == primitives@,
            all.len() <= 256,
            total <= MAX_ITEMS,
            plot_work_problem(all, 0) == plot_work_problem(all.skip(i as int), total as nat),
        decreases all.len() - i,
    {
        proof {
            assert(all.skip(i as int)[0] == all[i as int]);
            assert(all.skip(i as int).drop_first() =~= all.skip(i + 1));
        }
        match &primitives[i] {
            Err(m) => {
                return Err(String::from_str(m.as_str()));
            },
            Ok(n) => {
                if *n > MAX_ITEMS - total {
                    return Err(String::from_str("plot work exceeds 16384 items"));
                }
                total = total + *n;
            },
        }
        i = i + 1;
    }
    Ok(())
}

/// The label rule of a plot axis, after its coordinates are checked:
/// labels need the coordinate of their axis. An axis is worth its labels
/// and two lines of work.
pub fn check_axis_labels(has_x: bool, x_labels: usize, has_y: bool, y_labels: usize) -> (r: Result<
    usize,
    String,
>)
    requires
        x_labels + y_labels + 2 <= usize::MAX,
    ensures
        match r {
            Ok(n) => (has_x || x_labels == 0) && (has_y || y_labels == 0) && n == x_labels + y_labels + 2,
            Err(m) => !((has_x || x_labels == 0) && (has_y || y_labels == 0)) && m@
                == "axis labels require their axis coordinate"@,
        },
{
    if (!has_x && x_labels != 0) || (!has_y && y_labels != 0) {
        return Err(String::from_str("axis labels require their axis coordinate"));
    }
    Ok(x_labels + y_labels + 2)
}

/// A grid's dash pattern has at most 32 lengths.
pub fn check_dash_count(lengths: usize) -> (r: Result<(), String>)
    ensures
        match r {
            Ok(()) => lengths <= 32,
            Err(m) => lengths > 32 && m@ == "dash supports at most 32 lengths"@,
        },
{
    if lengths > 32 {
        return Err(String::from_str("dash supports at most 32 lengths"));
    }
    Ok(())
}

#[derive(Clone, Copy, Debug, PartialEq, Eq, Structural)]
pub enum RichTextFormat {
    Markdown,
    Html,
}

impl Default for RichTextFormat {
    fn default() -> (r: Self)
        ensures
            r == RichTextFormat::Markdown,
    {
        RichTextFormat::Markdown
    }
}

#[derive(Clone, Copy, Debug, PartialEq, Eq, Structural)]
pub enum TextSelectionFormat {
    Plain,
    Source,
}

impl Default for TextSelectionFormat {
    fn default() -> (r: Self)
        ensures
            r == TextSelectionFormat::Plain,
    {
        TextSelectionFormat::Plain
    }
}

/// Streamed-text fade policy of a text view: on with the theme timing, off,
/// or an explicit duration with an optional word-by-word stagger.
#[derive(Clone, Copy, Debug, PartialEq, Eq, Structural)]
pub enum TextStreamFadeConfig {
    Enabled(bool),
    Timing { duration_ms: u32, stagger_ms: u32 },
}

/// The motion policy that a props value installs.
#[derive(Clone, Copy, Debug, PartialEq, Eq, Structural)]
pub enum StreamFadeMotion {
    /// The retained view keeps its own policy.
    Keep,
    /// Zero durations: nothing fades.
    Off,
    /// The theme's timing along an ease-out curve.
    Theme,
    /// The given fade and stagger, in milliseconds.
    Explicit { duration_ms: u32, stagger_ms: u32 },
}

/// The motion policy for a fade setting. Omitted leaves the retained
/// policy alone; explicit disabling installs zero durations.
pub fn stream_fade_motion(fade: Option<TextStreamFadeConfig>) -> (r: StreamFadeMotion)
    ensures
        r == match fade {
            None => StreamFadeMotion::Keep,
            Some(TextStreamFadeConfig::Enabled(false)) => StreamFadeMotion::Off,
            Some(TextStreamFadeConfig::Enabled(true)) => StreamFadeMotion::Theme,
            Some(TextStreamFadeConfig::Timing { duration_ms, stagger_ms }) =>
                StreamFadeMotion::Explicit { duration_ms, stagger_ms },
        },
{
    match fade {
        None => StreamFadeMotion::Keep,
        Some(TextStreamFadeConfig::Enabled(false)) => StreamFadeMotion::Off,
        Some(TextStreamFadeConfig::Enabled(true)) => StreamFadeMotion::Theme,
        Some(TextStreamFadeConfig::Timing { duration_ms, stagger_ms }) =>
            StreamFadeMotion::Explicit { duration_ms, stagger_ms },
    }
}

#[derive(Debug)]
pub struct TextViewProps {
    pub text: String,
    pub format: RichTextFormat,
    pub selectable: bool,
    pub scrollable: bool,
    pub selection_format: TextSelectionFormat,
    pub max_lines: Option<usize>,
    pub mdx: bool,
    pub frontmatter: bool,
    pub stream_fade: Option<TextStreamFadeConfig>,
}

impl Default for TextViewProps {
    fn default() -> (r: Self)
        ensures
            r.text@.len() == 0,
            r.format == RichTextFormat::Markdown,
            !r.selectable,
            !r.scrollable,
            r.selection_format == TextSelectionFormat::Plain,
            r.max_lines is None,
            !r.mdx,
            !r.frontmatter,
            r.stream_fade is None,
    {
        TextViewProps {
            text: String::new(),
            format: RichTextFormat::Markdown,
            selectable: false,
            scrollable: false,
            selection_format: TextSelectionFormat::Plain,
            max_lines: None,
            mdx: false,
            frontmatter: false,
            stream_fade: None,
        }
    }
}

/// Whether a fade setting times its motion within a minute.
pub open spec fn fade_timing_ok(fade: Option<TextStreamFadeConfig>) -> bool {
    match fade {
        Some(TextStreamFadeConfig::Timing { duration_ms, stagger_ms }) => duration_ms <= 60000
            && stagger_ms <= 60000,
        _ => true,
    }
}

impl TextViewProps {
    /// Front matter needs Markdown, `max_lines` is 1 to 100000, and an
    /// explicit fade lasts at most a minute, its stagger too.
    pub fn validate(&self) -> (r: Result<(), String>)
        ensures
            match r {
                Ok(()) => !(self.frontmatter && self.format != RichTextFormat::Markdown)
                    && (self.max_lines matches Some(n) ==> 1 <= n <= 100000)
                    && fade_timing_ok(self.stream_fade),
                Err(m) => if self.frontmatter && self.format != RichTextFormat::Markdown {
                    m@ == "frontmatter requires Markdown format"@
                } else if self.max_lines matches Some(n) && (n == 0 || n > 100000) {
                    m@ == "maxLines must be 1..100000"@
                } else {
                    !fade_timing_ok(self.stream_fade)
                        && m@ == "stream fade duration and stagger must not exceed 60000 ms"@
                },
            },
    {
        if self.frontmatter && self.format != RichTextFormat::Markdown {
            return Err(String::from_str("frontmatter requires Markdown format"));
        }
        if let Some(n) = self.max_lines {
            if n == 0 || n > 100000 {
                return Err(String::from_str("maxLines must be 1..100000"));
            }
        }
        if let Some(TextStreamFadeConfig::Timing { duration_ms, stagger_ms }) = self.stream_fade {
            if duration_ms > 60000 || stagger_ms > 60000 {
                return Err(String::from_str("stream fade duration and stagger must not exceed 60000 ms"));
            }
        }
        Ok(())
    }
}

/// How a text view's content follows new props.
#[derive(Debug)]
pub enum TextUpdate {
    /// Text and format are unchanged.
    Keep,
    /// The new text extends the old one in the same format: the suffix is
    /// streamed in.
    Append(String),
    /// Anything else replaces the content.
    Replace,
}

/// The content update from `old` text and format to `new` ones.
pub fn text_update(
    old_text: &str,
    old_format: RichTextFormat,
    new_text: &str,
    new_format: RichTextFormat,
) -> (r: TextUpdate)
    ensures
        match r {
            TextUpdate::Keep => new_text@ == old_text@ && new_format == old_format,
            TextUpdate::Append(suffix) => !(new_text@ == old_text@ && new_format == old_format)
                && new_format == old_format && old_text@.len() <= new_text@.len()
                && new_text@.subrange(0, old_text@.len() as int) == old_text@
                && suffix@ == new_text@.subrange(old_text@.len() as int, new_text@.len() as int),
            TextUpdate::Replace => !(new_text@ == old_text@ && new_format == old_format) && !(
            new_format == old_format && old_text@.len() <= new_text@.len() && new_text@.subrange(
                0,
                old_text@.len() as int,
            ) == old_text@),
        },
{
    let same_text = crate::text::same_text(old_text, new_text);
    if same_text && old_format == new_format {
        return TextUpdate::Keep;
    }
    let n = new_text.unicode_len();
    let m = old_text.unicode_len();
    if old_format == new_format && m <= n && crate::text::same_text(new_text.substring_char(0, m), old_text) {
        TextUpdate::Append(String::from_str(new_text.substring_char(m, n)))
    } else {
        TextUpdate::Replace
    }
}

#[derive(Clone, Copy, Debug, PartialEq, Eq, Structural)]
pub enum ScrollAxis {
    Horizontal,
    Vertical,
    Both,
}

impl Default for ScrollAxis {
    fn default() -> (r: Self)
        ensures
            r == ScrollAxis::Vertical,
    {
        ScrollAxis::Vertical
    }
}

#[derive(Clone, Copy, Debug, PartialEq, Eq, Structural)]
pub enum ScrollbarVisibility {
    Scrolling,
    Hover,
    Always,
}

impl Default for ScrollbarVisibility {
    fn default() -> (r: Self)
        ensures
            r == ScrollbarVisibility::Scrolling,
    {
        ScrollbarVisibility::Scrolling
    }
}

/// The rows that a virtual list shows, from `start` up to `end`.
#[derive(Clone, Copy, Debug, PartialEq, Eq, Structural)]
pub struct VisibleRange {
    pub start: usize,
    pub end: usize,
}

#[derive(Clone, Copy, Debug, PartialEq, Eq, Structural)]
pub struct ScrollableProps {
    pub axis: ScrollAxis,
    pub hide_scrollbar: bool,
    pub scrollbar_visibility: ScrollbarVisibility,
    pub contain_scroll: bool,
}

impl Default for ScrollableProps {
    fn default() -> (r: Self)
        ensures
            r == (ScrollableProps {
                axis: ScrollAxis::Vertical,
                hide_scrollbar: false,
                scrollbar_visibility: ScrollbarVisibility::Scrolling,
                contain_scroll: false,
            }),
    {
        ScrollableProps {
            axis: ScrollAxis::Vertical,
            hide_scrollbar: false,
            scrollbar_visibility: ScrollbarVisibility::Scrolling,
            contain_scroll: false,
        }
    }
}

impl ScrollableProps {
    /// Which scroll-containment masks the viewport adds: the vertical one
    /// unless scrolling is only horizontal, the horizontal one unless it is
    /// only vertical, both only when containment is asked for.
    pub fn masks(&self) -> (r: (bool, bool))
        ensures
            r.0 == (self.contain_scroll && self.axis != ScrollAxis::Horizontal),
            r.1 == (self.contain_scroll && self.axis != ScrollAxis::Vertical),
    {
        let vertical = self.contain_scroll && self.axis != ScrollAxis::Horizontal;
        let horizontal = self.contain_scroll && self.axis != ScrollAxis::Vertical;
        (vertical, horizontal)
    }
}

/// A scroll viewport that fades its content near each edge.
#[derive(Debug)]
pub struct ScrollShadowProps {
    pub axis: Orientation,
    /// Match the surrounding surface; the theme background when absent.
    pub color: Option<Color>,
    /// Largest fade extent in pixels.
    pub fade_size: u16,
    pub scrollbar_visibility: ScrollbarVisibility,
}

impl Default for ScrollShadowProps {
    fn default() -> (r: Self)
        ensures
            r.axis == Orientation::Vertical,
            r.color is None,
            r.fade_size == 24,
            r.scrollbar_visibility == ScrollbarVisibility::Always,
    {
        ScrollShadowProps {
            axis: Orientation::Vertical,
            color: None,
            fade_size: 24,
            scrollbar_visibility: ScrollbarVisibility::Always,
        }
    }
}

impl ScrollShadowProps {
    /// The plain scroll viewport beneath the shadow: along the shadow's
    /// axis, with its scrollbar visibility, otherwise the defaults.
    pub fn viewport(&self) -> (r: ScrollableProps)
        ensures
            r.axis == (if self.axis == Orientation::Horizontal {
                ScrollAxis::Horizontal
            } else {
                ScrollAxis::Vertical
            }),
            r.scrollbar_visibility == self.scrollbar_visibility,
            !r.hide_scrollbar,
            !r.contain_scroll,
    {
        let base = ScrollableProps::default();
        ScrollableProps {
            axis: if self.axis == Orientation::Horizontal {
                ScrollAxis::Horizontal
            } else {
                ScrollAxis::Vertical
            },
            scrollbar_visibility: self.scrollbar_visibility,
            ..base
        }
    }
}

#[derive(Clone, Copy, Debug, PartialEq, Eq, Structural)]
pub struct FocusTrapProps {
    pub auto_focus: bool,
}

impl Default for FocusTrapProps {
    fn default() -> (r: Self)
        ensures
            !r.auto_focus,
    {
        FocusTrapProps { auto_focus: false }
    }
}

#[derive(Clone, Copy, Debug, PartialEq, Eq, Structural)]
pub enum ThemeMode {
    Light,
    Dark,
    System,
}

impl Default for ThemeMode {
    fn default() -> (r: Self)
        ensures
            r == ThemeMode::System,
    {
        ThemeMode::System
    }
}

impl ThemeMode {
    /// Whether the window's system appearance decides light or dark.
    pub fn follows_system(self) -> (r: bool)
        ensures
            r == (self == ThemeMode::System),
    {
        match self {
            ThemeMode::System => true,
            _ => false,
        }
    }
}

/// The selected theme mode and whether the effective theme is dark.
#[derive(Clone, Copy, Debug, PartialEq, Eq, Structural)]
pub struct ThemeState {
    pub mode: ThemeMode,
    pub dark: bool,
}

/// A font name an application theme may set: nonempty, at most 256 UTF-8
/// bytes, without control characters.
pub open spec fn font_family_ok(s: Seq<char>) -> bool {
    &&& s.len() > 0
    &&& byte_len(s) <= 256
    &&& forall|i: int| 0 <= i < s.len() ==> !is_control_spec(#[trigger] s[i])
}

/// The font family of an application theme, when it sets one.
pub fn check_font_family(font_family: &Option<String>) -> (r: Result<(), String>)
    ensures
        match r {
            Ok(()) => font_family matches Some(f) ==> font_family_ok(f@),
            Err(m) => (font_family matches Some(f) && !font_family_ok(f@))
                && m@ == "fontFamily must be a non-empty font name of at most 256 bytes"@,
        },
{
    if let Some(f) = font_family {
        let cs = chars_of(f.as_str());
        let mut ok = cs.len() > 0 && bytes_at_most(f.as_str(), 256);
        let mut i: usize = 0;
        while ok && i < cs.len()
            invariant
                cs@ == f@,
                i <= cs@.len(),
                ok ==> cs@.len() > 0 && byte_len(f@) <= 256,
                ok ==> forall|j: int| 0 <= j < i ==> !is_control_spec(#[trigger] cs@[j]),
                !ok ==> !font_family_ok(f@),
            decreases cs@.len() - i,
        {
            if is_control(cs[i]) {
                ok = false;
            }
            i = i + 1;
        }
        if !ok {
            return Err(String::from_str("fontFamily must be a non-empty font name of at most 256 bytes"));
        }
    }
    Ok(())
}

#[derive(Clone, Copy, Debug, PartialEq, Eq, Structural)]
pub enum SliderScale {
    Linear,
    Logarithmic,
}

impl Default for SliderScale {
    fn default() -> (r: Self)
        ensures
            r == SliderScale::Linear,
    {
        SliderScale::Linear
    }
}

/// A one-time-password input of `length` digits shown in `groups` groups.
#[derive(Debug)]
pub struct OtpInputProps {
    pub length: usize,
    pub value: Option<String>,
    pub default_value: String,
    pub ack_edit_seq: u32,
    pub groups: usize,
    pub masked: bool,
    pub disabled: bool,
}

impl Default for OtpInputProps {
    fn default() -> (r: Self)
        ensures
            r.length == 6,
            r.value is None,
            r.default_value@.len() == 0,
            r.ack_edit_seq == 0,
            r.groups == 2,
            !r.masked,
            !r.disabled,
    {
        OtpInputProps {
            length: 6,
            value: None,
            default_value: String::new(),
            ack_edit_seq: 0,
            groups: 2,
            masked: false,
            disabled: false,
        }
    }
}

/// Every character is an ASCII digit.
pub open spec fn ascii_digits(s: Seq<char>) -> bool {
    forall|i: int| 0 <= i < s.len() ==> '0' <= #[trigger] s[i] <= '9'
}

/// The OTP value shown: the controlled value, else the default.
pub open spec fn otp_value(p: &OtpInputProps) -> Seq<char> {
    match p.value {
        Some(v) => v@,
        None => p.default_value@,
    }
}

impl OtpInputProps {
    /// Length 1..=64, groups 1..=length, and a value of at most `length`
    /// ASCII digits.
    pub fn validate(&self) -> (r: Result<(), String>)
        ensures
            match r {
                Ok(()) => 1 <= self.length <= 64 && 1 <= self.groups <= self.length
                    && ascii_digits(otp_value(self)) && otp_value(self).len() <= self.length,
                Err(m) => if !(1 <= self.length <= 64 && 1 <= self.groups <= self.length) {
                    m@ == "OTP length must be 1..64 and groups 1..length"@
                } else {
                    !(ascii_digits(otp_value(self)) && otp_value(self).len() <= self.length)
                        && m@ == "OTP value must contain at most length ASCII digits"@
                },
            },
    {
        if self.length < 1 || self.length > 64 || self.groups == 0 || self.groups > self.length {
            return Err(String::from_str("OTP length must be 1..64 and groups 1..length"));
        }
        let value = match &self.value {
            Some(v) => v.as_str(),
            None => self.default_value.as_str(),
        };
        let chars = chars_of(value);
        if chars.len() > self.length {
            return Err(String::from_str("OTP value must contain at most length ASCII digits"));
        }
        let mut i: usize = 0;
        while i < chars.len()
            invariant
                i <= chars@.len(),
                chars@ == otp_value(self),
                chars@.len() <= self.length,
                1 <= self.length <= 64 && 1 <= self.groups <= self.length,
                forall|j: int| 0 <= j < i ==> '0' <= #[trigger] chars@[j] <= '9',
            decreases chars@.len() - i,
        {
            if chars[i] < '0' || chars[i] > '9' {
                assert(!('0' <= chars@[i as int] <= '9'));
                assert(!ascii_digits(otp_value(self)));
                return Err(String::from_str("OTP value must contain at most length ASCII digits"));
            }
            i = i + 1;
        }
        Ok(())
    }
}

impl OtpInputProps {
    /// A `focus` command reaches only an enabled field.
    pub fn check_focus(&self) -> (r: Result<(), String>)
        ensures
            match r {
                Ok(()) => !self.disabled,
                Err(m) => self.disabled && m@ == "disabled OTP cannot be focused"@,
            },
    {
        if self.disabled {
            return Err(String::from_str("disabled OTP cannot be focused"));
        }
        Ok(())
    }
}

/// Whether an update writes the controlled `value` into an OTP field that
/// shows `shown`: a value is given, controlled mode begins with it (the
/// previous props had none) or the props acknowledge every edit the view
/// reported, and the field shows something else.
pub fn otp_value_applies(
    was_controlled: bool,
    value: &Option<String>,
    ack_edit_seq: u32,
    edit_seq: u32,
    shown: &str,
) -> (r: bool)
    ensures
        r == (value matches Some(v) && (!was_controlled || ack_edit_seq >= edit_seq) && v@
            != shown@),
{
    match value {
        Some(v) => (!was_controlled || ack_edit_seq >= edit_seq) && !crate::text::same_text(
            v.as_str(),
            shown,
        ),
        None => false,
    }
}

} // verus!
