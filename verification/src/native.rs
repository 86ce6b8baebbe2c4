//! Native components: event endpoints, declared slots, the JSON number guard
//! and the names that the generated TypeScript contract uses.
use vstd::prelude::*;
use vstd::string::StrSliceExecFns;
use crate::text::same_text;

verus! {

broadcast use vstd::string::group_string_axioms;

/// Whether `name` is declared among `names`.
pub open spec fn declares(names: Seq<Seq<char>>, name: Seq<char>) -> bool {
    exists|i: int| 0 <= i < names.len() && #[trigger] names[i] == name
}

/// `i` is the first place where `name` is declared among `names`.
pub open spec fn first_position(names: Seq<Seq<char>>, name: Seq<char>, i: int) -> bool {
    &&& 0 <= i < names.len()
    &&& names[i] == name
    &&& forall|j: int| 0 <= j < i ==> #[trigger] names[j] != name
}

/// The texts of a list of owned strings.
pub open spec fn texts(v: Seq<String>) -> Seq<Seq<char>> {
    v.map_values(|s: String| s@)
}

/// The texts of a list of string slices.
pub open spec fn slices(v: Seq<&str>) -> Seq<Seq<char>> {
    v.map_values(|s: &str| s@)
}

/// A copy of a list of names.
pub fn copy_names(names: &Vec<String>) -> (r: Vec<String>)
    ensures
        texts(r@) == texts(names@),
{
    let mut v: Vec<String> = Vec::new();
    let mut i: usize = 0;
    while i < names.len()
        invariant
            i <= names@.len(),
            v@.len() == i,
            texts(v@) == texts(names@.take(i as int)),
        decreases names@.len() - i,
    {
        let c = String::from_str(names[i].as_str());
        assert(c@ == names@[i as int]@);
        proof {
            assert forall|j: int| 0 <= j < i + 1 implies
                #[trigger] texts(v@.push(c))[j] == texts(names@.take(i + 1))[j] by {
                assert(v@.push(c).len() == i + 1);
                assert(texts(v@.push(c))[j] == v@.push(c)[j]@);
                assert(texts(names@.take(i + 1))[j] == names@[j]@);
                if j < i {
                    assert(texts(v@)[j] == texts(names@.take(i as int))[j]);
                    assert(texts(v@)[j] == v@[j]@);
                }
            }
            assert(texts(v@.push(c)) =~= texts(names@.take(i + 1)));
        }
        v.push(c);
        i = i + 1;
    }
    assert(names@.take(names@.len() as int) =~= names@);
    v
}

/// First place of `name` among `names`.
pub fn position_in(names: &Vec<String>, name: &str) -> (r: Option<usize>)
    ensures
        match r {
            Some(i) => first_position(texts(names@), name@, i as int),
            None => !declares(texts(names@), name@),
        },
{
    let mut i: usize = 0;
    while i < names.len()
        invariant
            i <= names@.len(),
            forall|j: int| 0 <= j < i ==> #[trigger] texts(names@)[j] != name@,
        decreases names@.len() - i,
    {
        if same_text(names[i].as_str(), name) {
            return Some(i);
        }
        i = i + 1;
    }
    None
}

/// First place of `name` among declared slot names.
pub fn slot_position(slots: &[&str], name: &str) -> (r: Option<usize>)
    ensures
        match r {
            Some(i) => first_position(slices(slots@), name@, i as int),
            None => !declares(slices(slots@), name@),
        },
{
    let mut i: usize = 0;
    while i < slots.len()
        invariant
            i <= slots@.len(),
            forall|j: int| 0 <= j < i ==> #[trigger] slices(slots@)[j] != name@,
        decreases slots@.len() - i,
    {
        if same_text(slots[i], name) {
            return Some(i);
        }
        i = i + 1;
    }
    None
}

/// The delivery endpoint of one mounted node: the event ids that a
/// JavaScript listener is currently attached to.
#[derive(Clone, Debug)]
pub struct EventSink {
    pub subscriptions: Vec<u32>,
}

impl EventSink {
    /// A second handle on the same subscriptions.
    pub fn duplicate(&self) -> (r: EventSink)
        ensures
            r.subscriptions@ == self.subscriptions@,
    {
        let mut v: Vec<u32> = Vec::new();
        let mut i: usize = 0;
        while i < self.subscriptions.len()
            invariant
                i <= self.subscriptions@.len(),
                v@ == self.subscriptions@.take(i as int),
            decreases self.subscriptions@.len() - i,
        {
            v.push(self.subscriptions[i]);
            i = i + 1;
            assert(v@ =~= self.subscriptions@.take(i as int));
        }
        assert(v@ =~= self.subscriptions@);
        EventSink { subscriptions: v }
    }

    /// Whether a listener is attached to event `id`.
    pub fn is_subscribed(&self, id: u32) -> (r: bool)
        ensures
            r == self.subscriptions@.contains(id),
    {
        let mut i: usize = 0;
        while i < self.subscriptions.len()
            invariant
                i <= self.subscriptions@.len(),
                forall|j: int| 0 <= j < i ==> self.subscriptions@[j] != id,
            decreases self.subscriptions@.len() - i,
        {
            if self.subscriptions[i] == id {
                return true;
            }
            i = i + 1;
        }
        false
    }
}

/// A value carried by one field of an extension message.
#[derive(Clone, Debug, PartialEq, Eq)]
pub enum ExtensionValue {
    Bytes(Vec<u8>),
}

/// One numbered field of an extension message.
#[derive(Clone, Debug, PartialEq, Eq)]
pub struct ExtensionField {
    pub id: u32,
    pub value: ExtensionValue,
}

/// The properties that a host node carries for a native component: its
/// fields and the event ids that JavaScript listens to.
#[derive(Clone, Debug)]
pub struct ExtensionProperties {
    pub fields: Vec<ExtensionField>,
    pub event_ids: Vec<u32>,
}

/// What an event endpoint hands to its sink: the event id and one field,
/// numbered 1, holding the JSON payload.
#[derive(Clone, Debug)]
pub struct EventFrame {
    pub event_id: u32,
    pub fields: Vec<ExtensionField>,
}

/// Why the sink refused an event or a node was rejected.
#[derive(Clone, Debug)]
pub enum ExtensionError {
    EventRouteRetired { event_id: u32 },
    EventNotSubscribed { event_id: u32 },
    InvalidChildren { node_id: u32, reason: String },
    InvalidProperties { node_id: u32, reason: String },
}

/// A typed event endpoint of a native component. Its id names the event in
/// the component's event table (`event_table`): the event at place `k` of
/// the table has id `k + 1`.
#[derive(Clone, Debug)]
pub struct Event {
    pub sink: EventSink,
    pub id: u32,
    pub names: Vec<String>,
}

/// The frame that carries `payload` as event `id`.
pub open spec fn frame_of(id: u32, payload: Seq<u8>) -> (u32, Seq<(u32, Seq<u8>)>) {
    (id, seq![(1u32, payload)])
}

/// The id and the fields of a frame, as plain values.
pub open spec fn frame_view(f: EventFrame) -> (u32, Seq<(u32, Seq<u8>)>) {
    (f.event_id, f.fields@.map_values(|x: ExtensionField| match x.value {
        ExtensionValue::Bytes(b) => (x.id, b@),
    }))
}

impl Event {
    /// An endpoint for event `id` over `sink`, in a component whose events
    /// are `names`, in id order.
    pub fn with_events(sink: EventSink, id: u32, names: Vec<String>) -> (r: Event)
        ensures
            r.sink == sink,
            r.id == id,
            r.names == names,
    {
        Event { sink, id, names }
    }

    /// Whether JavaScript listens to this event.
    pub fn is_subscribed(&self) -> (r: bool)
        ensures
            r == self.sink.subscriptions@.contains(self.id),
    {
        self.sink.is_subscribed(self.id)
    }

    /// The endpoint of another event of the same component, found by name.
    pub fn related(&self, name: &str) -> (r: Event)
        requires
            declares(texts(self.names@), name@),
            self.names@.len() < u32::MAX,
        ensures
            r.sink.subscriptions@ == self.sink.subscriptions@,
            texts(r.names@) == texts(self.names@),
            first_position(texts(self.names@), name@, r.id - 1),
    {
        let i = position_in(&self.names, name).unwrap();
        Event { sink: self.sink.duplicate(), id: (i + 1) as u32, names: copy_names(&self.names) }
    }

    /// The frame that delivers a value of this event, or `None` when no
    /// listener is attached and the value is dropped. `encode` yields the
    /// value's JSON bytes; it runs only for a subscribed event, after the
    /// check, so an unheard value is never encoded.
    pub fn emit<F: FnOnce() -> Vec<u8>>(&self, encode: F) -> (r: Option<EventFrame>)
        requires
            call_requires(encode, ()),
        ensures
            match r {
                Some(f) => self.sink.subscriptions@.contains(self.id) && exists|b: Vec<u8>|
                    #[trigger] call_ensures(encode, (), b) && frame_view(f) == frame_of(self.id, b@),
                None => !self.sink.subscriptions@.contains(self.id),
            },
    {
        if !self.is_subscribed() {
            return None;
        }
        let payload = encode();
        let ghost bytes = payload;
        let fields = vec![ExtensionField { id: 1, value: ExtensionValue::Bytes(payload) }];
        let f = EventFrame { event_id: self.id, fields };
        proof {
            assert(frame_view(f).1 =~= frame_of(self.id, bytes@).1);
        }
        Some(f)
    }
}

/// Whether the sink's answer to an emitted frame keeps the component's
/// contract: delivery, a retired route or an unsubscribed event (neither has
/// a consumer, and the value is dropped). Any other refusal breaks the
/// contract, and the emitting host stops with a panic.
pub fn emit_answer_accepted(answer: &Result<(), ExtensionError>) -> (r: bool)
    ensures
        r == match answer {
            Ok(()) => true,
            Err(ExtensionError::EventRouteRetired { .. }) => true,
            Err(ExtensionError::EventNotSubscribed { .. }) => true,
            Err(_) => false,
        },
{
    match answer {
        Ok(()) => true,
        Err(ExtensionError::EventRouteRetired { .. }) => true,
        Err(ExtensionError::EventNotSubscribed { .. }) => true,
        Err(_) => false,
    }
}

/// A group of child content: `None` for all children of a node without
/// slots, `Some(0)` for the default content beside slots, `Some(k + 1)` for
/// the slot declared `k`-th.
#[derive(Clone, Copy, Debug, PartialEq, Eq)]
pub struct ExtensionContent {
    pub group: Option<usize>,
}

/// The children of a native component, grouped by its declared slots.
#[derive(Clone, Debug)]
pub struct NativeChildren {
    pub slots: &'static [&'static str],
}

impl NativeChildren {
    pub fn new(slots: &'static [&'static str]) -> (r: NativeChildren)
        ensures
            r.slots@ == slots@,
    {
        NativeChildren { slots }
    }

    /// The default content: group 0 when slots are declared, else all children.
    pub fn content(&self) -> (r: ExtensionContent)
        ensures
            r.group == (if self.slots@.len() == 0 { None } else { Some(0usize) }),
    {
        if self.slots.len() == 0 {
            ExtensionContent { group: None }
        } else {
            ExtensionContent { group: Some(0) }
        }
    }

    /// The content of a declared slot.
    pub fn slot(&self, name: &str) -> (r: ExtensionContent)
        requires
            declares(slices(self.slots@), name@),
            self.slots@.len() < usize::MAX,
        ensures
            r.group matches Some(g) && first_position(slices(self.slots@), name@, g - 1),
    {
        let index = slot_position(self.slots, name).unwrap();
        ExtensionContent { group: Some(index + 1) }
    }
}

/// What a render function of a native element sees: its node, its event
/// endpoints and its grouped children.
#[derive(Clone, Debug)]
pub struct ElementContext {
    pub node_id: u32,
    pub sink: EventSink,
    pub event_ids: Vec<String>,
    pub content: NativeChildren,
}

impl ElementContext {
    /// The element id under which the node renders.
    pub fn id(&self) -> (r: u64)
        ensures
            r == self.node_id,
    {
        self.node_id as u64
    }

    pub fn slot(&self, name: &str) -> (r: ExtensionContent)
        requires
            declares(slices(self.content.slots@), name@),
            self.content.slots@.len() < usize::MAX,
        ensures
            r.group matches Some(g) && first_position(slices(self.content.slots@), name@, g - 1),
    {
        self.content.slot(name)
    }

    pub fn content(&self) -> (r: ExtensionContent)
        ensures
            r.group == (if self.content.slots@.len() == 0 { None } else { Some(0usize) }),
    {
        self.content.content()
    }

    /// The endpoint of a declared event of this element.
    pub fn event(&self, name: &str) -> (r: Event)
        requires
            declares(texts(self.event_ids@), name@),
            self.event_ids@.len() < u32::MAX,
        ensures
            r.sink.subscriptions@ == self.sink.subscriptions@,
            texts(r.names@) == texts(self.event_ids@),
            first_position(texts(self.event_ids@), name@, r.id - 1),
    {
        let i = position_in(&self.event_ids, name).unwrap();
        Event::with_events(self.sink.duplicate(), (i + 1) as u32, copy_names(&self.event_ids))
    }
}

/// An event that a native component declares, by name.
#[derive(Clone, Copy, Debug)]
pub struct EventDefinition {
    pub name: &'static str,
}

impl EventDefinition {
    pub fn new(name: &'static str) -> (r: EventDefinition)
        ensures
            r.name@ == name@,
    {
        EventDefinition { name }
    }
}

/// How a controlled component binds its value prop to the event that
/// reports changes, and to the prop that acknowledges them.
#[derive(Clone, Copy, Debug)]
pub struct ControlledBinding {
    pub value_prop: &'static str,
    pub event_id: u32,
    pub sequence_field: &'static str,
    pub ack_prop: &'static str,
}

/// The bytes a value carries.
pub open spec fn value_bytes(v: ExtensionValue) -> Seq<u8> {
    match v {
        ExtensionValue::Bytes(b) => b@,
    }
}

/// The JSON bytes of native props: exactly one field, numbered 1, of bytes.
pub fn property_bytes(props: &ExtensionProperties) -> (r: Result<&[u8], String>)
    ensures
        match r {
            Ok(b) => props.fields@.len() == 1 && props.fields@[0].id == 1
                && b@ == value_bytes(props.fields@[0].value),
            Err(m) => !(props.fields@.len() == 1 && props.fields@[0].id == 1)
                && m@ == "native props require one typed JSON byte field"@,
        },
{
    if props.fields.len() == 1 && props.fields[0].id == 1 {
        match &props.fields[0].value {
            ExtensionValue::Bytes(b) => Ok(b.as_slice()),
        }
    } else {
        Err(String::from_str("native props require one typed JSON byte field"))
    }
}

/// What a host node's children look like to a native component: how many
/// there are, whether each is a View, and the native type each child
/// element renders, if any (native types are numbered).
#[derive(Clone, Debug)]
pub struct ChildSummary {
    pub count: usize,
    pub views: Vec<bool>,
    pub element_types: Vec<Option<u64>>,
}

/// The rules a native component sets for its nodes: declared slots,
/// whether it takes JavaScript children, the native type its children must
/// render, and how many events it declares.
#[derive(Clone, Copy, Debug)]
pub struct ComponentContract {
    pub slots: &'static [&'static str],
    pub accepts_children: bool,
    pub child_type: Option<u64>,
    pub event_count: usize,
}

pub open spec fn refuses_children(c: ComponentContract, k: ChildSummary) -> bool {
    c.slots@.len() == 0 && !c.accepts_children && k.count != 0
}

pub open spec fn misgroups_slots(c: ComponentContract, k: ChildSummary) -> bool {
    c.slots@.len() != 0 && (k.count != c.slots@.len() + 1 || exists|i: int|
        0 <= i < k.views@.len() && !#[trigger] k.views@[i])
}

pub open spec fn mistypes_children(c: ComponentContract, k: ChildSummary) -> bool {
    c.child_type matches Some(t) && exists|i: int|
        0 <= i < k.element_types@.len() && #[trigger] k.element_types@[i] != Some(t)
}

pub open spec fn has_props_field(p: ExtensionProperties) -> bool {
    p.fields@.len() == 1 && p.fields@[0].id == 1
}

pub open spec fn unknown_event(c: ComponentContract, p: ExtensionProperties) -> bool {
    exists|i: int| 0 <= i < p.event_ids@.len() && (#[trigger] p.event_ids@[i] == 0 || p.event_ids@[i] > c.event_count)
}

pub open spec fn children_error(e: ExtensionError, node_id: u32, reason: Seq<char>) -> bool {
    e matches ExtensionError::InvalidChildren { node_id: n, reason: r } && n == node_id && r@ == reason
}

pub open spec fn properties_error(e: ExtensionError, node_id: u32, reason: Seq<char>) -> bool {
    e matches ExtensionError::InvalidProperties { node_id: n, reason: r } && n == node_id && r@ == reason
}

impl ComponentContract {
    /// Checks a node against the component before it is published, in
    /// order: children where none are taken; slot groups that are not one
    /// View per slot plus the default content; children of another native
    /// type; properties that are not one JSON byte field; props that do not
    /// decode (`decoded`, the outcome of decoding those bytes); children the
    /// component's own rules refuse (`composed`, the outcome of those rules
    /// on the decoded props); and event ids the component does not declare.
    pub fn validate(
        &self,
        node_id: u32,
        props: &ExtensionProperties,
        children: &ChildSummary,
        decoded: Result<(), String>,
        composed: Result<(), String>,
    ) -> (r: Result<(), ExtensionError>)
        ensures
            match r {
                Ok(()) => !refuses_children(*self, *children) && !misgroups_slots(*self, *children)
                    && !mistypes_children(*self, *children) && has_props_field(*props)
                    && decoded is Ok && composed is Ok && !unknown_event(*self, *props),
                Err(e) => if refuses_children(*self, *children) {
                    children_error(e, node_id, "retained native view does not accept JS children"@)
                } else if misgroups_slots(*self, *children) {
                    children_error(
                        e,
                        node_id,
                        "native slots require one ordered View group per declared slot and default content"@,
                    )
                } else if mistypes_children(*self, *children) {
                    children_error(
                        e,
                        node_id,
                        "this compound component requires children of its declared native type"@,
                    )
                } else if !has_props_field(*props) {
                    properties_error(e, node_id, "native props require one typed JSON byte field"@)
                } else if decoded is Err {
                    properties_error(e, node_id, decoded->Err_0@)
                } else if composed is Err {
                    children_error(e, node_id, composed->Err_0@)
                } else {
                    unknown_event(*self, *props) && properties_error(e, node_id, "unknown native event"@)
                },
            },
    {
        if self.slots.len() == 0 && !self.accepts_children && children.count != 0 {
            return Err(ExtensionError::InvalidChildren {
                node_id,
                reason: String::from_str("retained native view does not accept JS children"),
            });
        }
        if self.slots.len() != 0 {
            let mut grouped = self.slots.len() < usize::MAX && children.count == self.slots.len() + 1;
            let mut i: usize = 0;
            while grouped && i < children.views.len()
                invariant
                    i <= children.views@.len(),
                    grouped ==> children.count == self.slots@.len() + 1,
                    grouped ==> forall|j: int| 0 <= j < i ==> #[trigger] children.views@[j],
                    !grouped ==> misgroups_slots(*self, *children),
                    self.slots@.len() != 0,
                decreases children.views@.len() - i,
            {
                if !children.views[i] {
                    grouped = false;
                }
                i = i + 1;
            }
            if !grouped {
                return Err(ExtensionError::InvalidChildren {
                    node_id,
                    reason: String::from_str(
                        "native slots require one ordered View group per declared slot and default content",
                    ),
                });
            }
        }
        if let Some(t) = self.child_type {
            let mut i: usize = 0;
            while i < children.element_types.len()
                invariant
                    i <= children.element_types@.len(),
                    self.child_type == Some(t),
                    !refuses_children(*self, *children),
                    !misgroups_slots(*self, *children),
                    forall|j: int| 0 <= j < i ==> #[trigger] children.element_types@[j] == Some(t),
                decreases children.element_types@.len() - i,
            {
                let same = match children.element_types[i] {
                    Some(a) => a == t,
                    None => false,
                };
                if !same {
                    assert(children.element_types@[i as int] != Some(t));
                    return Err(ExtensionError::InvalidChildren {
                        node_id,
                        reason: String::from_str(
                            "this compound component requires children of its declared native type",
                        ),
                    });
                }
                i = i + 1;
            }
        }
        if let Err(reason) = property_bytes(props) {
            return Err(ExtensionError::InvalidProperties { node_id, reason });
        }
        if let Err(reason) = decoded {
            return Err(ExtensionError::InvalidProperties { node_id, reason });
        }
        if let Err(reason) = composed {
            return Err(ExtensionError::InvalidChildren { node_id, reason });
        }
        let mut i: usize = 0;
        while i < props.event_ids.len()
            invariant
                i <= props.event_ids@.len(),
                !refuses_children(*self, *children),
                !misgroups_slots(*self, *children),
                !mistypes_children(*self, *children),
                has_props_field(*props),
                decoded is Ok && composed is Ok,
                forall|j: int| 0 <= j < i ==> !(#[trigger] props.event_ids@[j] == 0 || props.event_ids@[j] > self.event_count),
            decreases props.event_ids@.len() - i,
        {
            let id = props.event_ids[i];
            if id == 0 || id as usize > self.event_count {
                assert(props.event_ids@[i as int] == 0 || props.event_ids@[i as int] > self.event_count);
                return Err(ExtensionError::InvalidProperties {
                    node_id,
                    reason: String::from_str("unknown native event"),
                });
            }
            i = i + 1;
        }
        Ok(())
    }
}

/// The command of a retained view that an invocation names: ids count from
/// 1, and id 0 wraps around to the largest number.
pub fn view_command_index(id: u32, count: usize) -> (r: Result<usize, String>)
    ensures
        match r {
            Ok(i) => i == crate::exports::entry_index(id) && i < count,
            Err(m) => crate::exports::entry_index(id) >= count && m@ == "unknown native view command"@,
        },
{
    let index: usize = if id == 0 {
        u32::MAX as usize
    } else {
        (id - 1) as usize
    };
    if index < count {
        Ok(index)
    } else {
        Err(String::from_str("unknown native view command"))
    }
}

/// Whether no name occurs twice.
pub open spec fn distinct_names(names: Seq<Seq<char>>) -> bool {
    forall|a: int, b: int| 0 <= a < b < names.len() ==> names[a] != names[b]
}

/// Whether names are in strictly increasing lexicographic order.
pub open spec fn strictly_sorted(names: Seq<Seq<char>>) -> bool {
    forall|a: int, b: int| 0 <= a < b < names.len() ==> crate::keys::lex_lt(names[a], names[b])
}

/// The names of `names`, sorted.
pub fn sorted_names(names: &Vec<String>) -> (r: Vec<String>)
    requires
        distinct_names(texts(names@)),
    ensures
        r@.len() == names@.len(),
        strictly_sorted(texts(r@)),
        forall|x: Seq<char>| texts(r@).contains(x) <==> texts(names@).contains(x),
{
    let ghost all = texts(names@);
    let mut out: Vec<String> = Vec::new();
    let mut i: usize = 0;
    while i < names.len()
        invariant
            i <= names@.len(),
            all == texts(names@),
            distinct_names(all),
            out@.len() == i,
            strictly_sorted(texts(out@)),
            forall|x: Seq<char>| texts(out@).contains(x) <==> all.take(i as int).contains(x),
        decreases names@.len() - i,
    {
        let key = crate::text::chars_of(names[i].as_str());
        let ghost k = key@;
        let ghost before = texts(out@);
        proof {
            crate::keys::lemma_lex_irreflexive(k);
            assert(!before.contains(k)) by {
                if before.contains(k) {
                    assert(all.take(i as int).contains(k));
                    let q = choose|q: int| 0 <= q < i && all.take(i as int)[q] == k;
                    assert(all[q] == all[i as int]);
                }
            }
        }
        let mut j: usize = 0;
        while j < out.len() && crate::keys::compare(&crate::text::chars_of(out[j].as_str()), &key)
            == crate::keys::KeyOrder::Less
            invariant
                j <= out@.len(),
                before == texts(out@),
                k == key@,
                forall|q: int| 0 <= q < j ==> crate::keys::lex_lt(#[trigger] before[q], k),
            decreases out@.len() - j,
        {
            j = j + 1;
        }
        proof {
            if j < out@.len() {
                assert(before[j as int] != k) by {
                    if before[j as int] == k {
                        assert(before.contains(k));
                    }
                }
                crate::keys::lemma_lex_total(before[j as int], k);
                assert(crate::keys::lex_lt(k, before[j as int]));
            }
        }
        proof {
            assert forall|q: int| j <= q < before.len() implies crate::keys::lex_lt(k, #[trigger] before[q]) by {
                if q > j {
                    crate::keys::lemma_lex_transitive(k, before[j as int], before[q]);
                }
            }
        }
        out.insert(j, String::from_str(names[i].as_str()));
        proof {
            let now = texts(out@);
            assert(now =~= before.insert(j as int, k));
            assert forall|a: int, b: int| 0 <= a < b < now.len() implies crate::keys::lex_lt(
                #[trigger] now[a],
                #[trigger] now[b],
            ) by {
                if a < j && b < j {
                    assert(now[a] == before[a] && now[b] == before[b]);
                } else if a < j && b == j {
                    assert(now[a] == before[a]);
                } else if a < j && b > j {
                    assert(now[a] == before[a] && now[b] == before[b - 1]);
                    crate::keys::lemma_lex_transitive(before[a], k, before[b - 1]);
                } else if a == j {
                    assert(now[b] == before[b - 1]);
                } else {
                    assert(now[a] == before[a - 1] && now[b] == before[b - 1]);
                }
            }
            let t = all.take(i + 1);
            assert(t =~= all.take(i as int).push(k));
            assert forall|x: Seq<char>| #[trigger] now.contains(x) implies t.contains(x) by {
                let q = choose|q: int| 0 <= q < now.len() && now[q] == x;
                if q == j {
                    assert(t[i as int] == x);
                } else {
                    let bq = if q < j { q } else { q - 1 };
                    assert(before[bq] == x);
                    assert(before.contains(x));
                    assert(all.take(i as int).contains(x));
                    let w = choose|w: int| 0 <= w < i && all.take(i as int)[w] == x;
                    assert(t[w] == x);
                }
            }
            assert forall|x: Seq<char>| #[trigger] t.contains(x) implies now.contains(x) by {
                let q = choose|q: int| 0 <= q < t.len() && t[q] == x;
                if q == i {
                    assert(now[j as int] == x);
                } else {
                    assert(all.take(i as int)[q] == x);
                    assert(all.take(i as int).contains(x));
                    assert(before.contains(x));
                    let w = choose|w: int| 0 <= w < before.len() && before[w] == x;
                    if w < j {
                        assert(now[w] == x);
                    } else {
                        assert(now[w + 1] == x);
                    }
                }
            }
        }
        i = i + 1;
    }
    proof {
        assert(all.take(all.len() as int) =~= all);
    }
    out
}

/// A component's event table, in id order: a view's primary event first,
/// when it has one, then the other events sorted by name. No name may occur
/// twice.
pub fn event_table(primary: Option<&str>, others: &Vec<String>) -> (r: Vec<String>)
    requires
        distinct_names(texts(others@)),
        primary matches Some(p) ==> !texts(others@).contains(p@),
    ensures
        ({
            let rest = match primary {
                Some(_) => texts(r@).drop_first(),
                None => texts(r@),
            };
            &&& r@.len() == others@.len() + (if primary is Some { 1int } else { 0int })
            &&& primary matches Some(p) ==> texts(r@)[0] == p@
            &&& strictly_sorted(rest)
            &&& forall|x: Seq<char>| rest.contains(x) <==> texts(others@).contains(x)
        }),
{
    let sorted = sorted_names(others);
    match primary {
        None => sorted,
        Some(p) => {
            let mut out: Vec<String> = Vec::new();
            out.push(String::from_str(p));
            let mut k: usize = 0;
            while k < sorted.len()
                invariant
                    k <= sorted@.len(),
                    out@.len() == k + 1,
                    out@[0]@ == p@,
                    texts(out@).drop_first() == texts(sorted@).take(k as int),
                decreases sorted@.len() - k,
            {
                let ghost prev = texts(out@);
                out.push(String::from_str(sorted[k].as_str()));
                proof {
                    assert(texts(out@) =~= prev.push(sorted@[k as int]@));
                    assert(texts(sorted@).take(k + 1) =~= texts(sorted@).take(k as int).push(
                        sorted@[k as int]@,
                    ));
                    assert(texts(out@).drop_first() =~= prev.drop_first().push(sorted@[k as int]@));
                }
                k = k + 1;
            }
            proof {
                assert(texts(sorted@).take(sorted@.len() as int) =~= texts(sorted@));
            }
            out
        },
    }
}

/// The largest integer that a JavaScript number holds exactly.
pub const MAX_SAFE_INTEGER: u64 = 9_007_199_254_740_991;

/// Checks that every integer of a native value survives a trip through a
/// JavaScript number.
#[derive(Clone, Copy, Debug)]
pub struct Guard;

/// Whether a signed integer is exactly representable in JavaScript.
pub open spec fn signed_fits(v: int) -> bool {
    -(MAX_SAFE_INTEGER as int) <= v <= MAX_SAFE_INTEGER as int
}

impl Guard {
    pub fn serialize_i128(self, v: i128) -> (r: Result<(), String>)
        ensures
            match r {
                Ok(()) => signed_fits(v as int),
                Err(m) => !signed_fits(v as int)
                    && m@ == "integer exceeds JavaScript's exact JSON range"@,
            },
    {
        if v < -9_007_199_254_740_991i128 || v > 9_007_199_254_740_991i128 {
            Err(String::from_str("integer exceeds JavaScript's exact JSON range"))
        } else {
            Ok(())
        }
    }

    pub fn serialize_u128(self, v: u128) -> (r: Result<(), String>)
        ensures
            match r {
                Ok(()) => v <= MAX_SAFE_INTEGER,
                Err(m) => v > MAX_SAFE_INTEGER
                    && m@ == "integer exceeds JavaScript's exact JSON range"@,
            },
    {
        if v > 9_007_199_254_740_991u128 {
            Err(String::from_str("integer exceeds JavaScript's exact JSON range"))
        } else {
            Ok(())
        }
    }

    pub fn serialize_i64(self, v: i64) -> (r: Result<(), String>)
        ensures
            match r {
                Ok(()) => signed_fits(v as int),
                Err(m) => !signed_fits(v as int)
                    && m@ == "integer exceeds JavaScript's exact JSON range"@,
            },
    {
        self.serialize_i128(v as i128)
    }

    pub fn serialize_u64(self, v: u64) -> (r: Result<(), String>)
        ensures
            match r {
                Ok(()) => v <= MAX_SAFE_INTEGER,
                Err(m) => v > MAX_SAFE_INTEGER
                    && m@ == "integer exceeds JavaScript's exact JSON range"@,
            },
    {
        self.serialize_u128(v as u128)
    }
}

/// The characters of Unicode's uppercase mapping of `c`.
pub uninterp spec fn uppercase_mapping(c: char) -> Seq<char>;

/// `char::to_uppercase`, collected. Its result is named `uppercase_mapping`;
/// std documents that an ASCII lowercase letter maps to its uppercase letter
/// and that a character without a mapping yields itself, which holds of
/// every other ASCII character.
#[verifier::external_body]
fn uppercase(c: char) -> (r: String)
    ensures
        r@ == uppercase_mapping(c),
        'a' <= c <= 'z' ==> r@ == seq![((c as u32) - 32) as char],
        (c as u32) < 128 && !('a' <= c <= 'z') ==> r@ == seq![c],
{
    c.to_uppercase().collect::<String>()
}

/// The event prop name's stem: the first character of `value` uppercased.
pub open spec fn pascal_spec(value: Seq<char>) -> Seq<char> {
    if value.len() == 0 {
        Seq::empty()
    } else {
        uppercase_mapping(value[0]) + value.drop_first()
    }
}

pub fn pascal(value: &str) -> (r: String)
    ensures
        r@ == pascal_spec(value@),
        value@.len() > 0 && 'a' <= value@[0] <= 'z' ==> r@ == seq![((value@[0] as u32) - 32) as char]
            + value@.drop_first(),
        value@.len() > 0 && (value@[0] as u32) < 128 && !('a' <= value@[0] <= 'z') ==> r@ == value@,
        value@.len() == 0 ==> r@.len() == 0,
{
    let n = value.unicode_len();
    if n == 0 {
        return String::new();
    }
    let mut out = uppercase(value.get_char(0));
    let rest = value.substring_char(1, n);
    out.append(rest);
    proof {
        assert(rest@ =~= value@.drop_first());
        if (value@[0] as u32) < 128 && !('a' <= value@[0] <= 'z') {
            assert(seq![value@[0]] + value@.drop_first() =~= value@);
        }
    }
    out
}

/// `output` followed by one `export` line per type declaration, in order.
pub open spec fn exported(output: Seq<char>, declarations: Seq<String>) -> Seq<char>
    decreases declarations.len(),
{
    if declarations.len() == 0 {
        output
    } else {
        exported(output, declarations.drop_last()) + "export "@
            + declarations.last()@ + "\n"@
    }
}

/// Appends each declaration to `output` as an exported line.
pub fn write_types(output: &mut String, declarations: &Vec<String>)
    ensures
        final(output)@ == exported(old(output)@, declarations@),
{
    let mut i: usize = 0;
    while i < declarations.len()
        invariant
            i <= declarations@.len(),
            output@ == exported(old(output)@, declarations@.take(i as int)),
        decreases declarations@.len() - i,
    {
        output.append("export ");
        output.append(declarations[i].as_str());
        output.append("\n");
        proof {
            assert(declarations@.take(i + 1).drop_last() =~= declarations@.take(i as int));
        }
        i = i + 1;
    }
    proof {
        assert(declarations@.take(declarations@.len() as int) =~= declarations@);
    }
}

} // verus!
