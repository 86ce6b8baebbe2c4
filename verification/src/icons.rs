//! Bounded, application-owned SVG icons: their names, the small SVG subset
//! that distributed icons may use, and the rules of an icon catalog.
use vstd::prelude::*;
use crate::native::texts;
use crate::text::{chars_of, join2, join3, same_chars, same_text};

verus! {

broadcast use vstd::string::group_string_axioms;

/// Monochrome icons inherit text color; original SVGs keep their colors.
#[derive(Clone, Copy, Debug, PartialEq, Eq, Structural)]
pub enum IconColorMode {
    Monochrome,
    Original,
}

/// One embedded SVG icon under a `prefix:name` name.
#[derive(Clone, Copy, Debug)]
pub struct IconResource {
    pub name: &'static str,
    pub svg: &'static [u8],
    pub color_mode: IconColorMode,
}

/// The asset source that serves installed application icons.
#[derive(Clone, Copy, Debug)]
pub struct ApplicationIconAssets;

/// A character allowed in either part of an icon name.
pub open spec fn icon_name_char(c: char) -> bool {
    ('a' <= c <= 'z') || ('0' <= c <= '9') || c == '-'
}

/// `prefix:name`: two nonempty parts of lowercase letters, digits and
/// hyphens around one colon, at most 128 bytes in all.
pub open spec fn icon_name_ok(s: Seq<char>) -> bool {
    &&& s.len() <= 128
    &&& exists|k: int|
        0 < k < s.len() - 1 && #[trigger] s[k] == ':' && forall|i: int|
            0 <= i < s.len() && i != k ==> icon_name_char(#[trigger] s[i])
}

pub fn valid_name(name: &str) -> (r: bool)
    ensures
        r == icon_name_ok(name@),
{
    let s = chars_of(name);
    let n = s.len();
    if n > 128 {
        return false;
    }
    let mut colon: Option<usize> = None;
    let mut i: usize = 0;
    while i < n
        invariant
            n == s@.len(),
            s@ == name@,
            i <= n,
            match colon {
                None => forall|j: int| 0 <= j < i ==> icon_name_char(#[trigger] s@[j]),
                Some(k) => k < i && s@[k as int] == ':' && forall|j: int|
                    0 <= j < i && j != k ==> icon_name_char(#[trigger] s@[j]),
            },
        decreases n - i,
    {
        let c = s[i];
        if c == ':' {
            if colon.is_some() {
                proof {
                    let k = colon.unwrap() as int;
                    assert forall|k2: int| 0 < k2 < s@.len() - 1 && #[trigger] s@[k2] == ':'
                        implies !(forall|j: int|
                        0 <= j < s@.len() && j != k2 ==> icon_name_char(#[trigger] s@[j])) by {
                        if k2 != k {
                            assert(!icon_name_char(s@[k]));
                        } else {
                            assert(!icon_name_char(s@[i as int]));
                        }
                    }
                }
                return false;
            }
            colon = Some(i);
        } else if !(('a' <= c && c <= 'z') || ('0' <= c && c <= '9') || c == '-') {
            proof {
                assert forall|k2: int| 0 < k2 < s@.len() - 1 && #[trigger] s@[k2] == ':'
                    implies !(forall|j: int|
                    0 <= j < s@.len() && j != k2 ==> icon_name_char(#[trigger] s@[j])) by {
                    assert(k2 != i);
                    assert(!icon_name_char(s@[i as int]));
                }
            }
            return false;
        }
        i = i + 1;
    }
    match colon {
        None => {
            proof {
                assert forall|k2: int| 0 < k2 < s@.len() - 1 && #[trigger] s@[k2] == ':'
                    implies false by {
                    assert(icon_name_char(s@[k2]));
                }
            }
            false
        },
        Some(k) => {
            if k == 0 || k + 1 >= n {
                proof {
                    assert forall|k2: int| 0 < k2 < s@.len() - 1 && #[trigger] s@[k2] == ':'
                        implies !(forall|j: int|
                        0 <= j < s@.len() && j != k2 ==> icon_name_char(#[trigger] s@[j])) by {
                        assert(k2 != k);
                        assert(!icon_name_char(s@[k as int]));
                    }
                }
                false
            } else {
                assert(s@[k as int] == ':');
                true
            }
        },
    }
}

/// One node of a parsed SVG document: whether it is an element, its local
/// tag name, and its attributes (local name and value) in document order.
#[derive(Debug)]
pub struct SvgNode {
    pub element: bool,
    pub tag: String,
    pub attributes: Vec<(String, String)>,
}

/// The parts of a parsed SVG document that the icon rules read: the root
/// element and every node of the document in document order.
#[derive(Debug)]
pub struct SvgOutline {
    pub root: SvgNode,
    pub nodes: Vec<SvgNode>,
}

pub type AttributeView = (Seq<char>, Seq<char>);

pub type NodeView = (bool, Seq<char>, Seq<AttributeView>);

pub type OutlineView = (NodeView, Seq<NodeView>);

pub open spec fn attributes_view(a: Seq<(String, String)>) -> Seq<AttributeView> {
    a.map_values(|p: (String, String)| (p.0@, p.1@))
}

pub open spec fn node_view(n: SvgNode) -> NodeView {
    (n.element, n.tag@, attributes_view(n.attributes@))
}

pub open spec fn outline_view(o: SvgOutline) -> OutlineView {
    (node_view(o.root), o.nodes@.map_values(|n: SvgNode| node_view(n)))
}

pub open spec fn outline_result(r: Result<SvgOutline, String>) -> Result<OutlineView, Seq<char>> {
    match r {
        Ok(o) => Ok(outline_view(o)),
        Err(m) => Err(m@),
    }
}

/// The outline of an XML text as `roxmltree` parses it, or the parse
/// error's message.
pub uninterp spec fn xml_outline(text: Seq<char>) -> Result<OutlineView, Seq<char>>;

/// Parses `text` with `roxmltree::Document::parse` and reads off its root
/// element and its descendants. The outline is named `xml_outline` and
/// depends on the text alone; nothing more is claimed of it.
#[verifier::external_body]
fn parse_outline(text: &str) -> (r: Result<SvgOutline, String>)
    ensures
        outline_result(r) == xml_outline(text@),
{
    let doc = roxmltree::Document::parse(text).map_err(|e| e.to_string())?;
    let node = |n: roxmltree::Node| SvgNode {
        element: n.is_element(),
        tag: n.tag_name().name().to_string(),
        attributes: n.attributes().map(|a| (a.name().to_string(), a.value().to_string())).collect(),
    };
    Ok(SvgOutline { root: node(doc.root_element()), nodes: doc.descendants().map(node).collect() })
}

/// `std::str::from_utf8`: the text of `bytes` when they are valid UTF-8.
#[verifier::external_body]
fn utf8_text(bytes: &[u8]) -> (r: Option<&str>)
    ensures
        r is Some <==> vstd::utf8::valid_utf8(bytes@),
        r matches Some(s) ==> s@ == vstd::utf8::decode_utf8(bytes@),
{
    std::str::from_utf8(bytes).ok()
}

/// Whether an attribute list names `key`.
pub open spec fn has_attribute(attributes: Seq<AttributeView>, key: Seq<char>) -> bool {
    exists|i: int| 0 <= i < attributes.len() && (#[trigger] attributes[i]).0 == key
}

/// What the outline's checks say before the size of the view box is read:
/// the byte bounds, UTF-8, well-formed XML, and an `svg` root with a
/// `viewBox`.
pub open spec fn svg_outline_spec(bytes: Seq<u8>) -> Result<OutlineView, Seq<char>> {
    if bytes.len() == 0 || bytes.len() > 65_536 {
        Err("SVG must contain 1..=65536 bytes"@)
    } else if !vstd::utf8::valid_utf8(bytes) {
        Err("SVG must be UTF-8"@)
    } else {
        match xml_outline(vstd::utf8::decode_utf8(bytes)) {
            Err(m) => Err("invalid SVG XML: "@ + m),
            Ok(o) => if o.0.1 != "svg"@ || !has_attribute(o.0.2, "viewBox"@) {
                Err("SVG requires an svg root and viewBox"@)
            } else {
                Ok(o)
            },
        }
    }
}

/// The position of attribute `key` in a list.
fn find_attribute(attributes: &Vec<(String, String)>, key: &str) -> (r: Option<usize>)
    ensures
        match r {
            Some(i) => i < attributes@.len() && attributes@[i as int].0@ == key@,
            None => !has_attribute(attributes_view(attributes@), key@),
        },
{
    let mut i: usize = 0;
    while i < attributes.len()
        invariant
            i <= attributes@.len(),
            forall|j: int| 0 <= j < i ==> (#[trigger] attributes_view(attributes@)[j]).0 != key@,
        decreases attributes@.len() - i,
    {
        if same_text(attributes[i].0.as_str(), key) {
            return Some(i);
        }
        i = i + 1;
    }
    None
}

/// Reads a distributed icon's SVG up to its root: 1 to 65536 bytes of
/// UTF-8 XML whose root is an `svg` element with a `viewBox`. The sizes in
/// the view box and the root's width and height are read next, from the
/// outline, before `check_svg_elements`.
pub fn svg_outline(bytes: &[u8]) -> (r: Result<SvgOutline, String>)
    ensures
        outline_result(r) == svg_outline_spec(bytes@),
{
    if bytes.len() == 0 || bytes.len() > 65_536 {
        return Err(String::from_str("SVG must contain 1..=65536 bytes"));
    }
    let text = match utf8_text(bytes) {
        Some(t) => t,
        None => return Err(String::from_str("SVG must be UTF-8")),
    };
    let outline = match parse_outline(text) {
        Ok(o) => o,
        Err(m) => return Err(join2("invalid SVG XML: ", m.as_str())),
    };
    let is_svg = same_text(outline.root.tag.as_str(), "svg");
    let view_box = find_attribute(&outline.root.attributes, "viewBox");
    if !is_svg || view_box.is_none() {
        proof {
            if let Some(i) = view_box {
                assert(attributes_view(outline.root.attributes@)[i as int].0 == "viewBox"@);
            }
        }
        return Err(String::from_str("SVG requires an svg root and viewBox"));
    }
    proof {
        let i = view_box.unwrap() as int;
        assert(attributes_view(outline.root.attributes@)[i].0 == "viewBox"@);
    }
    Ok(outline)
}

/// The elements distributed icons may use.
pub open spec fn allowed_element(tag: Seq<char>) -> bool {
    ||| tag == "svg"@
    ||| tag == "g"@
    ||| tag == "path"@
    ||| tag == "circle"@
    ||| tag == "ellipse"@
    ||| tag == "rect"@
    ||| tag == "line"@
    ||| tag == "polyline"@
    ||| tag == "polygon"@
    ||| tag == "title"@
    ||| tag == "desc"@
    ||| tag == "defs"@
    ||| tag == "linearGradient"@
    ||| tag == "radialGradient"@
    ||| tag == "stop"@
    ||| tag == "clipPath"@
}

fn is_allowed_element(tag: &str) -> (r: bool)
    ensures
        r == allowed_element(tag@),
{
    same_text(tag, "svg") || same_text(tag, "g") || same_text(tag, "path") || same_text(
        tag,
        "circle",
    ) || same_text(tag, "ellipse") || same_text(tag, "rect") || same_text(tag, "line")
        || same_text(tag, "polyline") || same_text(tag, "polygon") || same_text(tag, "title")
        || same_text(tag, "desc") || same_text(tag, "defs") || same_text(tag, "linearGradient")
        || same_text(tag, "radialGradient") || same_text(tag, "stop") || same_text(
        tag,
        "clipPath",
    )
}

/// The attributes distributed icons may use.
pub open spec fn allowed_attribute(name: Seq<char>) -> bool {
    ||| name == "viewBox"@
    ||| name == "width"@
    ||| name == "height"@
    ||| name == "x"@
    ||| name == "y"@
    ||| name == "x1"@
    ||| name == "y1"@
    ||| name == "x2"@
    ||| name == "y2"@
    ||| name == "cx"@
    ||| name == "cy"@
    ||| name == "r"@
    ||| name == "rx"@
    ||| name == "ry"@
    ||| name == "d"@
    ||| name == "points"@
    ||| name == "fill"@
    ||| name == "stroke"@
    ||| name == "stroke-width"@
    ||| name == "stroke-linecap"@
    ||| name == "stroke-linejoin"@
    ||| name == "stroke-miterlimit"@
    ||| name == "stroke-dasharray"@
    ||| name == "stroke-dashoffset"@
    ||| name == "fill-rule"@
    ||| name == "clip-rule"@
    ||| name == "opacity"@
    ||| name == "fill-opacity"@
    ||| name == "stroke-opacity"@
    ||| name == "transform"@
    ||| name == "id"@
    ||| name == "offset"@
    ||| name == "stop-color"@
    ||| name == "stop-opacity"@
    ||| name == "gradientUnits"@
    ||| name == "gradientTransform"@
    ||| name == "clip-path"@
}

fn is_allowed_attribute(name: &str) -> (r: bool)
    ensures
        r == allowed_attribute(name@),
{
    same_text(name, "viewBox") || same_text(name, "width") || same_text(name, "height")
        || same_text(name, "x") || same_text(name, "y") || same_text(name, "x1") || same_text(
        name,
        "y1",
    ) || same_text(name, "x2") || same_text(name, "y2") || same_text(name, "cx") || same_text(
        name,
        "cy",
    ) || same_text(name, "r") || same_text(name, "rx") || same_text(name, "ry") || same_text(
        name,
        "d",
    ) || same_text(name, "points") || same_text(name, "fill") || same_text(name, "stroke")
        || same_text(name, "stroke-width") || same_text(name, "stroke-linecap") || same_text(
        name,
        "stroke-linejoin",
    ) || same_text(name, "stroke-miterlimit") || same_text(name, "stroke-dasharray")
        || same_text(name, "stroke-dashoffset") || same_text(name, "fill-rule") || same_text(
        name,
        "clip-rule",
    ) || same_text(name, "opacity") || same_text(name, "fill-opacity") || same_text(
        name,
        "stroke-opacity",
    ) || same_text(name, "transform") || same_text(name, "id") || same_text(name, "offset")
        || same_text(name, "stop-color") || same_text(name, "stop-opacity") || same_text(
        name,
        "gradientUnits",
    ) || same_text(name, "gradientTransform") || same_text(name, "clip-path")
}

/// Whether `pat` occurs in `s`.
pub open spec fn occurs_in(s: Seq<char>, pat: Seq<char>) -> bool {
    exists|i: int| 0 <= i <= s.len() - pat.len() && #[trigger] s.subrange(i, i + pat.len()) == pat
}

/// A value that reaches outside the document: a `url(` reference that is
/// not a plain same-document `url(#id)`.
pub open spec fn external_reference(v: Seq<char>) -> bool {
    &&& occurs_in(v, "url("@)
    &&& !({
        &&& v.len() >= 5 && v.subrange(0, 5) == "url(#"@
        &&& v.last() == ')'
        &&& forall|i: int|
            0 <= i < v.len() ==> #[trigger] v[i] != '"' && v[i] != '\'' && v[i] != ' ' && v[i]
                != '\n'
    })
}

/// Whether `pat` occurs in `s` at `at`.
fn matches_at(s: &Vec<char>, pat: &Vec<char>, at: usize) -> (r: bool)
    requires
        at + pat@.len() <= s@.len(),
    ensures
        r == (s@.subrange(at as int, at + pat@.len()) == pat@),
{
    let total = s.len();
    let mut j: usize = 0;
    while j < pat.len()
        invariant
            total == s@.len(),
            at + pat@.len() <= s@.len(),
            j <= pat@.len(),
            forall|k: int| 0 <= k < j ==> s@[at + k] == pat@[k],
        decreases pat@.len() - j,
    {
        assert(at + j < s@.len());
        if s[at + j] != pat[j] {
            assert(s@.subrange(at as int, at + pat@.len())[j as int] != pat@[j as int]);
            return false;
        }
        j = j + 1;
    }
    assert(s@.subrange(at as int, at + pat@.len()) =~= pat@);
    true
}

fn occurs(s: &Vec<char>, pat: &Vec<char>) -> (r: bool)
    ensures
        r == occurs_in(s@, pat@),
{
    if pat.len() > s.len() {
        return false;
    }
    let last = s.len() - pat.len();
    let mut i: usize = 0;
    while i <= last
        invariant
            last == s@.len() - pat@.len(),
            i <= last,
            forall|k: int| 0 <= k < i ==> #[trigger] s@.subrange(k, k + pat@.len()) != pat@,
        decreases last - i,
    {
        if matches_at(s, pat, i) {
            return true;
        }
        if i == last {
            return false;
        }
        i = i + 1;
    }
    false
}

fn is_external_reference(value: &str) -> (r: bool)
    ensures
        r == external_reference(value@),
{
    proof {
        reveal_strlit("url(");
        reveal_strlit("url(#");
    }
    let v = chars_of(value);
    let pat = chars_of("url(");
    if !occurs(&v, &pat) {
        return false;
    }
    let same_document = chars_of("url(#");
    let n = v.len();
    if n < 5 {
        return true;
    }
    if !matches_at(&v, &same_document, 0) {
        assert(v@.subrange(0, 5) != "url(#"@);
        return true;
    }
    if v[n - 1] != ')' {
        assert(v@.last() != ')');
        return true;
    }
    let mut i: usize = 0;
    while i < n
        invariant
            n == v@.len(),
            v@ == value@,
            occurs_in(v@, "url("@),
            i <= n,
            forall|k: int|
                0 <= k < i ==> #[trigger] v@[k] != '"' && v@[k] != '\'' && v@[k] != ' ' && v@[k]
                    != '\n',
        decreases n - i,
    {
        let c = v[i];
        if c == '"' || c == '\'' || c == ' ' || c == '\n' {
            assert(!(v@[i as int] != '"' && v@[i as int] != '\'' && v@[i as int] != ' '
                && v@[i as int] != '\n'));
            return true;
        }
        i = i + 1;
    }
    false
}

/// The first problem of an element's attributes: a name outside the
/// subset, or a value that reaches outside the document.
pub open spec fn attributes_problem(attributes: Seq<AttributeView>) -> Option<Seq<char>>
    decreases attributes.len(),
{
    if attributes.len() == 0 {
        None
    } else {
        match attributes_problem(attributes.drop_last()) {
            Some(m) => Some(m),
            None => {
                let a = attributes.last();
                if !allowed_attribute(a.0) {
                    Some("unsupported SVG attribute: "@ + a.0)
                } else if external_reference(a.1) {
                    Some("SVG external resources are forbidden"@)
                } else {
                    None
                }
            },
        }
    }
}

/// The number of elements among nodes.
pub open spec fn element_count(nodes: Seq<NodeView>) -> nat
    decreases nodes.len(),
{
    if nodes.len() == 0 {
        0
    } else {
        element_count(nodes.drop_last()) + if nodes.last().0 {
            1nat
        } else {
            0nat
        }
    }
}

/// The first problem among the elements of a document, in document order:
/// more than 1024 elements, an element outside the subset, or a problem of
/// its attributes. Other nodes are not read.
pub open spec fn elements_problem(nodes: Seq<NodeView>) -> Option<Seq<char>>
    decreases nodes.len(),
{
    if nodes.len() == 0 {
        None
    } else {
        match elements_problem(nodes.drop_last()) {
            Some(m) => Some(m),
            None => {
                let n = nodes.last();
                if !n.0 {
                    None
                } else if element_count(nodes) > 1024 {
                    Some("SVG exceeds 1024 elements"@)
                } else if !allowed_element(n.1) {
                    Some("unsupported SVG element: "@ + n.1)
                } else {
                    attributes_problem(n.2)
                }
            },
        }
    }
}

proof fn lemma_attributes_problem_persists(a: Seq<AttributeView>, k: int)
    requires
        0 <= k <= a.len(),
        attributes_problem(a.take(k)) is Some,
    ensures
        attributes_problem(a) == attributes_problem(a.take(k)),
    decreases a.len() - k,
{
    if k < a.len() {
        assert(a.take(k + 1).drop_last() =~= a.take(k));
        lemma_attributes_problem_persists(a, k + 1);
    } else {
        assert(a.take(k) =~= a);
    }
}

proof fn lemma_elements_problem_persists(a: Seq<NodeView>, k: int)
    requires
        0 <= k <= a.len(),
        elements_problem(a.take(k)) is Some,
    ensures
        elements_problem(a) == elements_problem(a.take(k)),
    decreases a.len() - k,
{
    if k < a.len() {
        assert(a.take(k + 1).drop_last() =~= a.take(k));
        lemma_elements_problem_persists(a, k + 1);
    } else {
        assert(a.take(k) =~= a);
    }
}

fn check_attributes(attributes: &Vec<(String, String)>) -> (r: Result<(), String>)
    ensures
        match r {
            Ok(()) => attributes_problem(attributes_view(attributes@)) is None,
            Err(m) => attributes_problem(attributes_view(attributes@)) == Some(m@),
        },
{
    let ghost all = attributes_view(attributes@);
    let mut i: usize = 0;
    while i < attributes.len()
        invariant
            i <= attributes@.len(),
            all == attributes_view(attributes@),
            attributes_problem(all.take(i as int)) is None,
        decreases attributes@.len() - i,
    {
        proof {
            assert(all.take(i as int + 1).drop_last() =~= all.take(i as int));
            assert(all.take(i as int + 1).last() == all[i as int]);
        }
        let name = attributes[i].0.as_str();
        if !is_allowed_attribute(name) {
            proof {
                lemma_attributes_problem_persists(all, i as int + 1);
            }
            return Err(join2("unsupported SVG attribute: ", name));
        }
        if is_external_reference(attributes[i].1.as_str()) {
            proof {
                lemma_attributes_problem_persists(all, i as int + 1);
            }
            return Err(String::from_str("SVG external resources are forbidden"));
        }
        i = i + 1;
    }
    assert(all.take(attributes@.len() as int) =~= all);
    Ok(())
}

/// Checks every element of a parsed icon against the distributed subset.
pub fn check_svg_elements(outline: &SvgOutline) -> (r: Result<(), String>)
    ensures
        match r {
            Ok(()) => elements_problem(outline_view(*outline).1) is None,
            Err(m) => elements_problem(outline_view(*outline).1) == Some(m@),
        },
{
    let ghost all = outline_view(*outline).1;
    let nodes = &outline.nodes;
    let mut count: usize = 0;
    let mut i: usize = 0;
    while i < nodes.len()
        invariant
            i <= nodes@.len(),
            all == outline_view(*outline).1,
            nodes@ == outline.nodes@,
            all == nodes@.map_values(|n: SvgNode| node_view(n)),
            elements_problem(all.take(i as int)) is None,
            count == element_count(all.take(i as int)),
            count <= 1024,
        decreases nodes@.len() - i,
    {
        proof {
            assert(all.take(i as int + 1).drop_last() =~= all.take(i as int));
            assert(all.take(i as int + 1).last() == all[i as int]);
            assert(all[i as int] == node_view(nodes@[i as int]));
        }
        let node = &nodes[i];
        if node.element {
            if count == 1024 {
                proof {
                    lemma_elements_problem_persists(all, i as int + 1);
                }
                return Err(String::from_str("SVG exceeds 1024 elements"));
            }
            count = count + 1;
            proof {
                assert(element_count(all.take(i as int + 1)) == count);
                assert(elements_problem(all.take(i as int)) is None);
            }
            if !is_allowed_element(node.tag.as_str()) {
                proof {
                    assert(elements_problem(all.take(i as int + 1)) == Some("unsupported SVG element: "@ + node.tag@));
                    lemma_elements_problem_persists(all, i as int + 1);
                }
                return Err(join2("unsupported SVG element: ", node.tag.as_str()));
            }
            let checked = check_attributes(&node.attributes);
            if let Err(m) = checked {
                proof {
                    lemma_elements_problem_persists(all, i as int + 1);
                }
                return Err(m);
            }
        }
        i = i + 1;
    }
    assert(all.take(nodes@.len() as int) =~= all);
    Ok(())
}

/// The first problem of an icon catalog, read in order.
pub open spec fn icon_problem(
    names: Seq<Seq<char>>,
    reserved: Seq<bool>,
    svg: Seq<Option<Seq<char>>>,
) -> Option<Seq<char>>
    decreases names.len(),
{
    if names.len() == 0 {
        None
    } else {
        let k = names.len() - 1;
        match icon_problem(names.drop_last(), reserved, svg) {
            Some(m) => Some(m),
            None => {
                let name = names[k];
                if !icon_name_ok(name) || reserved[k] {
                    Some("invalid or reserved application icon name: "@ + name)
                } else if svg[k] is Some {
                    Some("icon "@ + name + ": "@ + svg[k].unwrap())
                } else if names.drop_last().contains(name) {
                    Some("duplicate application icon: "@ + name)
                } else {
                    None
                }
            },
        }
    }
}

pub open spec fn icon_names(icons: Seq<IconResource>) -> Seq<Seq<char>> {
    icons.map_values(|i: IconResource| i.name@)
}

pub open spec fn check_messages(results: Seq<Result<(), String>>) -> Seq<Option<Seq<char>>> {
    results.map_values(|r: Result<(), String>| match r {
        Ok(()) => None,
        Err(m) => Some(m@),
    })
}

/// The outcome of validating a catalog, given for each icon whether its
/// name is reserved by the bundled icon set and what checking its SVG gave.
pub open spec fn catalog_problem(
    icons: Seq<IconResource>,
    reserved: Seq<bool>,
    svg: Seq<Result<(), String>>,
) -> Option<Seq<char>> {
    if icons.len() == 0 || icons.len() > 256 {
        Some("application icon catalog must contain 1..=256 icons"@)
    } else {
        icon_problem(icon_names(icons), reserved, check_messages(svg))
    }
}

proof fn lemma_icon_problem_persists(
    names: Seq<Seq<char>>,
    reserved: Seq<bool>,
    svg: Seq<Option<Seq<char>>>,
    k: int,
)
    requires
        0 <= k <= names.len(),
        icon_problem(names.take(k), reserved, svg) is Some,
    ensures
        icon_problem(names, reserved, svg) == icon_problem(names.take(k), reserved, svg),
    decreases names.len() - k,
{
    if k < names.len() {
        assert(names.take(k + 1).drop_last() =~= names.take(k));
        lemma_icon_problem_persists(names, reserved, svg, k + 1);
    } else {
        assert(names.take(k) =~= names);
    }
}

/// The position of an icon before `end` named `name`.
fn earlier_name(icons: &[IconResource], end: usize, name: &str) -> (r: Option<usize>)
    requires
        end <= icons@.len(),
    ensures
        match r {
            Some(j) => j < end && icons@[j as int].name@ == name@,
            None => forall|k: int| 0 <= k < end ==> #[trigger] icon_names(icons@)[k] != name@,
        },
{
    let mut j: usize = 0;
    while j < end
        invariant
            end <= icons@.len(),
            j <= end,
            forall|k: int| 0 <= k < j ==> #[trigger] icon_names(icons@)[k] != name@,
        decreases end - j,
    {
        if same_text(icons[j].name, name) {
            return Some(j);
        }
        j = j + 1;
    }
    None
}

proof fn lemma_icons_accepted(
    names: Seq<Seq<char>>,
    reserved: Seq<bool>,
    svg: Seq<Option<Seq<char>>>,
)
    requires
        icon_problem(names, reserved, svg) is None,
    ensures
        forall|i: int|
            0 <= i < names.len() ==> icon_name_ok(#[trigger] names[i]) && !reserved[i] && svg[i] is None,
        forall|i: int, j: int| 0 <= i < j < names.len() ==> #[trigger] names[i] != #[trigger] names[j],
    decreases names.len(),
{
    if names.len() > 0 {
        let earlier = names.drop_last();
        lemma_icons_accepted(earlier, reserved, svg);
        assert forall|i: int| 0 <= i < names.len() implies icon_name_ok(#[trigger] names[i])
            && !reserved[i] && svg[i] is None by {
            if i < names.len() - 1 {
                assert(names[i] == earlier[i]);
            }
        }
        assert forall|i: int, j: int| 0 <= i < j < names.len() implies #[trigger] names[i] != #[trigger] names[j] by {
            if j < names.len() - 1 {
                assert(names[i] == earlier[i] && names[j] == earlier[j]);
            } else {
                assert(earlier[i] == names[i]);
                assert(earlier.contains(names[i]));
            }
        }
    }
}

/// An accepted catalog holds 1 to 256 icons with valid, unreserved and
/// distinct names, each with an SVG that passed its checks.
pub proof fn law_accepted_catalog(icons: Seq<IconResource>, reserved: Seq<bool>, svg: Seq<Result<(), String>>)
    requires
        catalog_problem(icons, reserved, svg) is None,
    ensures
        1 <= icons.len() <= 256,
        forall|i: int|
            0 <= i < icons.len() ==> icon_name_ok((#[trigger] icons[i]).name@) && !reserved[i]
                && check_messages(svg)[i] is None,
        forall|i: int, j: int| 0 <= i < j < icons.len() ==> (#[trigger] icons[i]).name@ != (#[trigger] icons[j]).name@,
{
    let names = icon_names(icons);
    lemma_icons_accepted(names, reserved, check_messages(svg));
    assert forall|i: int| 0 <= i < icons.len() implies icon_name_ok((#[trigger] icons[i]).name@)
        && !reserved[i] && check_messages(svg)[i] is None by {
        assert(names[i] == icons[i].name@);
    }
    assert forall|i: int, j: int| 0 <= i < j < icons.len() implies (#[trigger] icons[i]).name@
        != (#[trigger] icons[j]).name@ by {
        assert(names[i] == icons[i].name@ && names[j] == icons[j].name@);
    }
}

/// Validates a complete icon catalog before it is installed: 1 to 256
/// icons, each with a valid `prefix:name` name that the bundled icon set
/// does not reserve, an SVG that passed its checks, and a name not used by
/// an earlier icon. `reserved[i]` and `svg[i]` are what the bundled set and
/// the SVG check said of icon `i`.
pub fn check_icon_catalog(
    icons: &[IconResource],
    reserved: &Vec<bool>,
    svg: &Vec<Result<(), String>>,
) -> (r: Result<(), String>)
    requires
        reserved@.len() == icons@.len(),
        svg@.len() == icons@.len(),
    ensures
        match r {
            Ok(()) => catalog_problem(icons@, reserved@, svg@) is None,
            Err(m) => catalog_problem(icons@, reserved@, svg@) == Some(m@),
        },
{
    if icons.len() == 0 || icons.len() > 256 {
        return Err(String::from_str("application icon catalog must contain 1..=256 icons"));
    }
    let ghost names = icon_names(icons@);
    let ghost msgs = check_messages(svg@);
    let mut i: usize = 0;
    while i < icons.len()
        invariant
            i <= icons@.len(),
            1 <= icons@.len() <= 256,
            names == icon_names(icons@),
            msgs == check_messages(svg@),
            reserved@.len() == icons@.len(),
            svg@.len() == icons@.len(),
            icon_problem(names.take(i as int), reserved@, msgs) is None,
        decreases icons@.len() - i,
    {
        let name = icons[i].name;
        proof {
            assert(names.take(i as int + 1).drop_last() =~= names.take(i as int));
            assert(names.take(i as int + 1)[i as int] == name@);
            assert(names.take(i as int + 1).len() - 1 == i);
        }
        if !valid_name(name) || reserved[i] {
            proof {
                lemma_icon_problem_persists(names, reserved@, msgs, i as int + 1);
            }
            return Err(join2("invalid or reserved application icon name: ", name));
        }
        if let Err(e) = &svg[i] {
            proof {
                assert(msgs[i as int] == Some(e@));
                lemma_icon_problem_persists(names, reserved@, msgs, i as int + 1);
            }
            let mut m = join2("icon ", name);
            m.append(": ");
            m.append(e.as_str());
            return Err(m);
        }
        assert(msgs[i as int] is None);
        if let Some(j) = earlier_name(icons, i, name) {
            proof {
                assert(names.take(i as int)[j as int] == name@);
                lemma_icon_problem_persists(names, reserved@, msgs, i as int + 1);
            }
            return Err(join2("duplicate application icon: ", name));
        }
        proof {
            assert forall|k: int| 0 <= k < i implies #[trigger] names.take(i as int)[k] != name@ by {
                assert(names.take(i as int)[k] == names[k]);
            }
        }
        i = i + 1;
    }
    assert(names.take(icons@.len() as int) =~= names);
    Ok(())
}

/// Where an asset path is served from.
#[derive(Clone, Copy, Debug, PartialEq, Eq)]
pub enum AssetRoute<'a> {
    /// The bundled icon set serves paths under `iconify/`.
    Iconify,
    /// An installed application icon, by name.
    Application(&'a str),
    /// No icon lives there.
    Unknown,
}

impl ApplicationIconAssets {
    /// Routes an asset path: `iconify/…` to the bundled set,
    /// `application-icons/<name>` to the installed icon `<name>`.
    pub fn route(path: &str) -> (r: AssetRoute)
        ensures
            match r {
                AssetRoute::Iconify => path@.len() >= 8 && path@.subrange(0, 8) == "iconify/"@,
                AssetRoute::Application(name) => !(path@.len() >= 8 && path@.subrange(0, 8)
                    == "iconify/"@) && path@.len() >= 18 && path@.subrange(0, 18)
                    == "application-icons/"@ && name@ == path@.subrange(18, path@.len() as int),
                AssetRoute::Unknown => !(path@.len() >= 8 && path@.subrange(0, 8) == "iconify/"@)
                    && !(path@.len() >= 18 && path@.subrange(0, 18) == "application-icons/"@),
            },
    {
        proof {
            reveal_strlit("iconify/");
            reveal_strlit("application-icons/");
        }
        let n = path.unicode_len();
        if n >= 8 && same_text(path.substring_char(0, 8), "iconify/") {
            return AssetRoute::Iconify;
        }
        if n >= 18 && same_text(path.substring_char(0, 18), "application-icons/") {
            return AssetRoute::Application(path.substring_char(18, n));
        }
        AssetRoute::Unknown
    }
}

/// What the bundled icon set knows of a name: whether the icon is drawn
/// in one colour, and the key it is cached under.
#[derive(Debug)]
pub struct BundledIcon {
    pub monochrome: bool,
    pub cache_key: String,
}

pub open spec fn monochrome_message() -> Seq<char> {
    "component icon slots require monochrome icons; use core Icon for original colors"@
}

/// The asset path of an icon in a component's icon slot, which draws in
/// the component's colour. A bundled icon is looked up first, then an
/// installed one; `installed_keeps_colors` tells, for an installed icon of
/// that name, whether it keeps its own colours.
pub fn icon_slot_path(
    name: &str,
    bundled: Option<BundledIcon>,
    installed_keeps_colors: Option<bool>,
) -> (r: Result<String, String>)
    ensures
        match bundled {
            Some(b) => if b.monochrome {
                r matches Ok(p) && p@ == b.cache_key@
            } else {
                r matches Err(m) && m@ == monochrome_message()
            },
            None => match installed_keeps_colors {
                Some(false) => r matches Ok(p) && p@ == "application-icons/"@ + name@,
                Some(true) => r matches Err(m) && m@ == monochrome_message(),
                None => r matches Err(m) && m@ == "unknown application icon `"@ + name@
                    + "`; use an installed Iconify name or explicit SVG"@,
            },
        },
{
    let mono = "component icon slots require monochrome icons; use core Icon for original colors";
    match bundled {
        Some(b) => {
            if b.monochrome {
                Ok(b.cache_key)
            } else {
                Err(String::from_str(mono))
            }
        },
        None => match installed_keeps_colors {
            Some(false) => Ok(join2("application-icons/", name)),
            Some(true) => Err(String::from_str(mono)),
            None => Err(join3(
                "unknown application icon `",
                name,
                "`; use an installed Iconify name or explicit SVG",
            )),
        },
    }
}

/// The asset keys of the installed icons `names` that lie under `path`,
/// in the order of `names`.
pub open spec fn listed_icons(names: Seq<Seq<char>>, path: Seq<char>) -> Seq<Seq<char>> {
    names.map_values(|n: Seq<char>| "application-icons/"@ + n).filter(
        |k: Seq<char>| path.is_prefix_of(k),
    )
}

impl ApplicationIconAssets {
    /// The listing of installed icons under an asset directory `path`:
    /// `application-icons/<name>` for each installed name, kept when it
    /// starts with `path`. `names` are the installed names in catalog order.
    pub fn list_installed(names: &Vec<String>, path: &str) -> (r: Vec<String>)
        ensures
            texts(r@) == listed_icons(texts(names@), path@),
    {
        let ghost all = texts(names@);
        let ghost keys = all.map_values(|n: Seq<char>| "application-icons/"@ + n);
        let plen = path.unicode_len();
        let mut out: Vec<String> = Vec::new();
        let mut i: usize = 0;
        while i < names.len()
            invariant
                i <= names@.len(),
                all == texts(names@),
                keys == all.map_values(|n: Seq<char>| "application-icons/"@ + n),
                plen == path@.len(),
                texts(out@) == keys.take(i as int).filter(|k: Seq<char>| path@.is_prefix_of(k)),
            decreases names@.len() - i,
        {
            let key = join2("application-icons/", names[i].as_str());
            let ghost prev = texts(out@);
            proof {
                reveal(Seq::filter);
                assert(keys.take(i + 1).drop_last() =~= keys.take(i as int));
                assert(keys[i as int] == key@);
                assert(keys.take(i + 1).last() == key@);
            }
            let n = key.as_str().unicode_len();
            let under = plen <= n && same_text(key.as_str().substring_char(0, plen), path);
            proof {
                assert(under == path@.is_prefix_of(key@));
            }
            if under {
                out.push(key);
                proof {
                    assert(texts(out@) =~= prev.push(key@));
                }
            }
            i = i + 1;
        }
        proof {
            assert(keys.take(names@.len() as int) =~= keys);
        }
        out
    }
}

/// The presentation and geometry attributes a distributed icon may carry.
pub open spec fn icon_attribute_names() -> Set<Seq<char>> {
    set![
        "viewBox"@,
        "width"@,
        "height"@,
        "x"@,
        "y"@,
        "x1"@,
        "y1"@,
        "x2"@,
        "y2"@,
        "cx"@,
        "cy"@,
        "r"@,
        "rx"@,
        "ry"@,
        "d"@,
        "points"@,
        "fill"@,
        "stroke"@,
        "stroke-width"@,
        "stroke-linecap"@,
        "stroke-linejoin"@,
        "stroke-miterlimit"@,
        "stroke-dasharray"@,
        "stroke-dashoffset"@,
        "fill-rule"@,
        "clip-rule"@,
        "opacity"@,
        "fill-opacity"@,
        "stroke-opacity"@,
        "transform"@,
        "id"@,
        "offset"@,
        "stop-color"@,
        "stop-opacity"@,
        "gradientUnits"@,
        "gradientTransform"@,
        "clip-path"@,
    ]
}

proof fn lemma_attributes_pass(attrs: Seq<AttributeView>)
    requires
        forall|i: int|
            0 <= i < attrs.len() ==> icon_attribute_names().contains(#[trigger] attrs[i].0)
                && !external_reference(attrs[i].1),
    ensures
        attributes_problem(attrs) is None,
    decreases attrs.len(),
{
    if attrs.len() > 0 {
        lemma_attributes_pass(attrs.drop_last());
        assert(attrs.last() == attrs[attrs.len() - 1]);
    }
}

proof fn lemma_attributes_refused(attrs: Seq<AttributeView>, i: int)
    requires
        0 <= i < attrs.len(),
        !allowed_attribute(attrs[i].0),
    ensures
        attributes_problem(attrs) is Some,
    decreases attrs.len(),
{
    if i < attrs.len() - 1 {
        lemma_attributes_refused(attrs.drop_last(), i);
    }
}

/// The attributes an icon may use are exactly the icon attribute names:
/// a list whose names are all among them and whose values stay inside
/// the document has no problem (`stroke-width="2"` passes), and a list with
/// any other name has one.
pub proof fn law_icon_attributes(attrs: Seq<AttributeView>)
    ensures
        forall|n: Seq<char>| #[trigger] allowed_attribute(n) <==> icon_attribute_names().contains(n),
        (forall|i: int|
            0 <= i < attrs.len() ==> icon_attribute_names().contains(#[trigger] attrs[i].0)
                && !external_reference(attrs[i].1)) ==> attributes_problem(attrs) is None,
        (exists|i: int| 0 <= i < attrs.len() && !icon_attribute_names().contains(#[trigger] attrs[i].0))
            ==> attributes_problem(attrs) is Some,
{
    assert forall|n: Seq<char>| #[trigger] allowed_attribute(n) <==> icon_attribute_names().contains(n) by {
    }
    if forall|i: int|
        0 <= i < attrs.len() ==> icon_attribute_names().contains(#[trigger] attrs[i].0)
            && !external_reference(attrs[i].1) {
        lemma_attributes_pass(attrs);
    }
    if exists|i: int| 0 <= i < attrs.len() && !icon_attribute_names().contains(#[trigger] attrs[i].0) {
        let i = choose|i: int| 0 <= i < attrs.len() && !icon_attribute_names().contains(#[trigger] attrs[i].0);
        lemma_attributes_refused(attrs, i);
    }
}

} // verus!
