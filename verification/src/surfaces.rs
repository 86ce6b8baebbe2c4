//! Decisions of the host's surface registry that do not need a window: the
//! close-confirmation protocol of a surface, the checks that renderer
//! commands pass, and the checks of a replacement generation.
use vstd::prelude::*;
use crate::host::CommandAdmission;
use crate::host::decimal_spec;
use crate::text::{blank_spec, chars_of, is_blank, join2, parse_usize, parse_usize_spec, same_chars, same_text};

verus! {

broadcast use vstd::string::group_string_axioms;

/// Whether closing a surface's window needs JavaScript's confirmation.
#[derive(Clone, Copy, Debug, PartialEq, Eq, Structural)]
pub enum ClosePolicy {
    Allow,
    RequireConfirmation,
}

/// What the host does when the platform asks to close a surface's window.
#[derive(Clone, Copy, Debug, PartialEq, Eq, Structural)]
pub enum CloseDecision {
    /// The window closes.
    Close,
    /// The window stays open; a confirmation is already outstanding, or no
    /// request number is left.
    Keep,
    /// The window stays open and JavaScript is asked to confirm request `id`.
    Ask(u32),
}

/// The close-confirmation state of one surface.
#[derive(Clone, Copy, Debug, PartialEq, Eq, Structural)]
pub struct SurfaceClose {
    pub close_policy: ClosePolicy,
    pub pending_close_request: Option<u32>,
    pub next_close_request: u32,
}

impl SurfaceClose {
    /// A pending request is numbered below the next request number.
    pub open spec fn well_formed(&self) -> bool {
        self.pending_close_request matches Some(p) ==> p < self.next_close_request
    }

    /// The state and decision after the platform asks to close the window.
    pub open spec fn requested(self, transport_terminated: bool) -> (SurfaceClose, CloseDecision) {
        if transport_terminated || self.close_policy == ClosePolicy::Allow {
            (self, CloseDecision::Close)
        } else if self.pending_close_request is Some || self.next_close_request == u32::MAX {
            (self, CloseDecision::Keep)
        } else {
            (
                SurfaceClose {
                    pending_close_request: Some(self.next_close_request),
                    next_close_request: (self.next_close_request + 1) as u32,
                    ..self
                },
                CloseDecision::Ask(self.next_close_request),
            )
        }
    }

    /// The state after JavaScript answers request `request_id`, and whether
    /// the window is removed.
    pub open spec fn resolved(self, request_id: u32, allow: bool) -> (SurfaceClose, bool) {
        if self.pending_close_request == Some(request_id) {
            (SurfaceClose { pending_close_request: None, ..self }, allow)
        } else {
            (self, false)
        }
    }

    /// A new surface closes freely; its first request will be number 1.
    pub fn new() -> (r: SurfaceClose)
        ensures
            r.well_formed(),
            r == (SurfaceClose {
                close_policy: ClosePolicy::Allow,
                pending_close_request: None,
                next_close_request: 1,
            }),
    {
        SurfaceClose {
            close_policy: ClosePolicy::Allow,
            pending_close_request: None,
            next_close_request: 1,
        }
    }

    /// Answers the platform's request to close the window. After the
    /// transport ended, or under `Allow`, the window closes. Otherwise at
    /// most one confirmation is outstanding: a new one takes the next request
    /// number, while one is pending (or the numbers ran out) the window stays.
    pub fn on_close_requested(&mut self, transport_terminated: bool) -> (r: CloseDecision)
        requires
            old(self).well_formed(),
        ensures
            final(self).well_formed(),
            (*final(self), r) == old(self).requested(transport_terminated),
    {
        if transport_terminated || self.close_policy == ClosePolicy::Allow {
            return CloseDecision::Close;
        }
        if self.pending_close_request.is_some() {
            return CloseDecision::Keep;
        }
        let id = self.next_close_request;
        match id.checked_add(1) {
            None => CloseDecision::Keep,
            Some(next) => {
                self.next_close_request = next;
                self.pending_close_request = Some(id);
                CloseDecision::Ask(id)
            },
        }
    }

    /// Installs a close policy. A change of policy drops the outstanding
    /// confirmation; setting the same policy again changes nothing.
    pub fn set_policy(&mut self, policy: ClosePolicy)
        requires
            old(self).well_formed(),
        ensures
            final(self).well_formed(),
            final(self).close_policy == policy,
            final(self).next_close_request == old(self).next_close_request,
            final(self).pending_close_request == if policy == old(self).close_policy {
                old(self).pending_close_request
            } else {
                None
            },
    {
        if self.close_policy != policy {
            self.pending_close_request = None;
            self.close_policy = policy;
        }
    }

    /// JavaScript's answer to confirmation `request_id`. An answer to the
    /// outstanding request retires it, and the window is removed when the
    /// answer allows it; any other answer is stale and changes nothing.
    /// Returns whether to remove the window.
    pub fn resolve(&mut self, request_id: u32, allow: bool) -> (remove: bool)
        requires
            old(self).well_formed(),
        ensures
            final(self).well_formed(),
            (*final(self), remove) == old(self).resolved(request_id, allow),
    {
        if self.pending_close_request != Some(request_id) {
            return false;
        }
        self.pending_close_request = None;
        allow
    }
}

/// The policy named by a `setClosePolicy` command sent to `node_id`.
pub fn parse_close_policy(node_id: u32, policy: &str) -> (r: Result<ClosePolicy, String>)
    ensures
        match r {
            Ok(p) => node_id == 1 && ((policy@ == "allow"@ && p == ClosePolicy::Allow) || (
            policy@ == "require-confirmation"@ && p == ClosePolicy::RequireConfirmation)),
            Err(m) => if node_id != 1 {
                m@ == "setClosePolicy requires the root container"@
            } else {
                policy@ != "allow"@ && policy@ != "require-confirmation"@ && m@
                    == "close policy is invalid"@
            },
        },
{
    if node_id != 1 {
        return Err(String::from_str("setClosePolicy requires the root container"));
    }
    if same_text(policy, "allow") {
        Ok(ClosePolicy::Allow)
    } else if same_text(policy, "require-confirmation") {
        Ok(ClosePolicy::RequireConfirmation)
    } else {
        Err(String::from_str("close policy is invalid"))
    }
}

/// A `resolveCloseRequest` command must address the root container.
pub fn check_resolve_target(node_id: u32) -> (r: Result<(), String>)
    ensures
        match r {
            Ok(()) => node_id == 1,
            Err(m) => node_id != 1 && m@ == "resolveCloseRequest requires the root container"@,
        },
{
    if node_id != 1 {
        Err(String::from_str("resolveCloseRequest requires the root container"))
    } else {
        Ok(())
    }
}

/// A confirmation is outstanding at most once: after a close attempt is
/// turned into request `id`, further attempts under the same policy keep
/// the window without asking again.
pub proof fn law_one_outstanding_confirmation(s: SurfaceClose, t: bool, id: u32)
    requires
        s.well_formed(),
        s.requested(t).1 == CloseDecision::Ask(id),
    ensures
        s.requested(t).0.well_formed(),
        s.requested(t).0.pending_close_request == Some(id),
        s.requested(t).0.requested(false).1 == CloseDecision::Keep,
{
}

/// An answer is taken once: after the outstanding request is answered, the
/// same answer again is stale, changes nothing and removes no window.
pub proof fn law_answer_retires_request(s: SurfaceClose, id: u32, allow: bool, again: bool)
    requires
        s.well_formed(),
        s.pending_close_request == Some(id),
    ensures
        s.resolved(id, allow).0.pending_close_request is None,
        s.resolved(id, allow).0.resolved(id, again) == (s.resolved(id, allow).0, false),
{
}

/// Request numbers are never reused: a request asked after request `id`
/// was answered is numbered above `id`.
pub proof fn law_request_numbers_increase(s: SurfaceClose, t: bool, id: u32, allow: bool, t2: bool, id2: u32)
    requires
        s.well_formed(),
        s.requested(t).1 == CloseDecision::Ask(id),
        s.requested(t).0.resolved(id, allow).0.requested(t2).1 == CloseDecision::Ask(id2),
    ensures
        id2 > id,
{
}

/// Where a decoded renderer message goes, given whether its surface was
/// retired: messages for retired surfaces are dropped, and a late snapshot
/// there is answered with the surface's closed event.
#[derive(Clone, Copy, Debug, PartialEq, Eq, Structural)]
pub enum PayloadRoute {
    Apply,
    Drop,
    DropAndReportClosed,
}

pub fn route_payload(retired: bool, is_snapshot: bool) -> (r: PayloadRoute)
    ensures
        r == if !retired {
            PayloadRoute::Apply
        } else if is_snapshot {
            PayloadRoute::DropAndReportClosed
        } else {
            PayloadRoute::Drop
        },
{
    if !retired {
        PayloadRoute::Apply
    } else if is_snapshot {
        PayloadRoute::DropAndReportClosed
    } else {
        PayloadRoute::Drop
    }
}

/// The admission a renderer command passes before it runs: a host profile
/// without keybinding support refuses `SetKeybindings`, the profile may
/// refuse a kind outright, and the surface must admit the command's
/// metadata. `Ok` runs the command; `Err` answers it with the reason.
pub fn admit_renderer_command(
    is_set_keybindings: bool,
    keybindings_supported: bool,
    profile_rejection: Option<&str>,
    admission: CommandAdmission,
) -> (r: Result<(), String>)
    ensures
        match r {
            Ok(()) => !(is_set_keybindings && !keybindings_supported) && profile_rejection is None
                && admission is Accepted,
            Err(m) => if is_set_keybindings && !keybindings_supported {
                m@ == "SetKeybindings is unavailable in this host profile"@
            } else {
                match profile_rejection {
                    Some(reason) => m@ == reason@,
                    None => admission == CommandAdmission::Rejected(m),
                }
            },
        },
{
    if is_set_keybindings && !keybindings_supported {
        return Err(String::from_str("SetKeybindings is unavailable in this host profile"));
    }
    if let Some(reason) = profile_rejection {
        return Err(String::from_str(reason));
    }
    match admission {
        CommandAdmission::Accepted => Ok(()),
        CommandAdmission::Rejected(reason) => Err(reason),
    }
}

/// The window kind named by an `openSurface` command.
#[derive(Clone, Copy, Debug, PartialEq, Eq, Structural)]
pub enum WindowKind {
    Normal,
    Floating,
    Dialog,
}

pub fn window_kind(kind: Option<u32>) -> (r: Result<WindowKind, String>)
    ensures
        match r {
            Ok(k) => k == match kind {
                None | Some(0) => WindowKind::Normal,
                Some(1) => WindowKind::Floating,
                _ => WindowKind::Dialog,
            } && (kind is None || kind->0 <= 2),
            Err(m) => kind matches Some(k) && k > 2 && m@ == "open-surface kind is invalid"@,
        },
{
    match kind {
        None | Some(0) => Ok(WindowKind::Normal),
        Some(1) => Ok(WindowKind::Floating),
        Some(2) => Ok(WindowKind::Dialog),
        _ => Err(String::from_str("open-surface kind is invalid")),
    }
}

/// Whether `ids` holds no id twice.
pub open spec fn distinct(ids: Seq<u32>) -> bool {
    forall|i: int, j: int| 0 <= i < j < ids.len() ==> ids[i] != ids[j]
}

/// The persistent surfaces: the open ones that are neither popups nor
/// retired.
pub open spec fn persistent(surfaces: Seq<u32>, popups: Seq<u32>, retired: Seq<u32>) -> Set<u32> {
    Set::new(|id: u32| surfaces.contains(id) && !popups.contains(id) && !retired.contains(id))
}

/// Whether `v` contains `x`.
pub fn contains_id(v: &Vec<u32>, x: u32) -> (r: bool)
    ensures
        r == v@.contains(x),
{
    let mut i: usize = 0;
    while i < v.len()
        invariant
            i <= v@.len(),
            forall|j: int| 0 <= j < i ==> v@[j] != x,
        decreases v@.len() - i,
    {
        if v[i] == x {
            return true;
        }
        i = i + 1;
    }
    false
}

/// A replacement generation must hold one snapshot for each persistent
/// surface and nothing else.
pub fn check_replacement_surfaces(
    snapshot_ids: &Vec<u32>,
    surfaces: &Vec<u32>,
    popups: &Vec<u32>,
    retired: &Vec<u32>,
) -> (r: Result<(), String>)
    ensures
        match r {
            Ok(()) => distinct(snapshot_ids@) && snapshot_ids@.to_set() == persistent(
                surfaces@,
                popups@,
                retired@,
            ),
            Err(m) => !(distinct(snapshot_ids@) && snapshot_ids@.to_set() == persistent(
                surfaces@,
                popups@,
                retired@,
            )) && m@ == "candidate must replace exactly the current persistent Surface set"@,
        },
{
    let ghost want = persistent(surfaces@, popups@, retired@);
    let mut i: usize = 0;
    while i < snapshot_ids.len()
        invariant
            i <= snapshot_ids@.len(),
            want == persistent(surfaces@, popups@, retired@),
            distinct(snapshot_ids@.take(i as int)),
            forall|j: int| 0 <= j < i ==> want.contains(#[trigger] snapshot_ids@[j]),
        decreases snapshot_ids@.len() - i,
    {
        let id = snapshot_ids[i];
        let mut k: usize = 0;
        while k < i
            invariant
                k <= i < snapshot_ids@.len(),
                id == snapshot_ids@[i as int],
                forall|j: int| 0 <= j < k ==> snapshot_ids@[j] != id,
            decreases i - k,
        {
            if snapshot_ids[k] == id {
                return Err(String::from_str("candidate must replace exactly the current persistent Surface set"));
            }
            k = k + 1;
        }
        if !contains_id(surfaces, id) || contains_id(popups, id) || contains_id(retired, id) {
            assert(!want.contains(snapshot_ids@[i as int]));
            return Err(String::from_str("candidate must replace exactly the current persistent Surface set"));
        }
        proof {
            assert forall|a: int, b: int| 0 <= a < b < i + 1 implies #[trigger] snapshot_ids@.take(i + 1)[a]
                != #[trigger] snapshot_ids@.take(i + 1)[b] by {
                if b < i {
                    assert(snapshot_ids@.take(i as int)[a] != snapshot_ids@.take(i as int)[b]);
                }
            }
        }
        i = i + 1;
    }
    assert(snapshot_ids@.take(snapshot_ids@.len() as int) =~= snapshot_ids@);
    let mut s: usize = 0;
    while s < surfaces.len()
        invariant
            s <= surfaces@.len(),
            want == persistent(surfaces@, popups@, retired@),
            distinct(snapshot_ids@),
            forall|j: int| 0 <= j < snapshot_ids@.len() ==> want.contains(#[trigger] snapshot_ids@[j]),
            forall|j: int|
                0 <= j < s && #[trigger] want.contains(surfaces@[j]) ==> snapshot_ids@.contains(
                    surfaces@[j],
                ),
        decreases surfaces@.len() - s,
    {
        let id = surfaces[s];
        if !contains_id(popups, id) && !contains_id(retired, id) && !contains_id(snapshot_ids, id) {
            assert(want.contains(id));
            assert(!snapshot_ids@.to_set().contains(id));
            return Err(String::from_str("candidate must replace exactly the current persistent Surface set"));
        }
        s = s + 1;
    }
    proof {
        assert forall|x: u32| #[trigger] want.contains(x) implies snapshot_ids@.to_set().contains(x) by {
            let j = choose|j: int| 0 <= j < surfaces@.len() && surfaces@[j] == x;
            assert(want.contains(surfaces@[j]));
        }
        assert forall|x: u32| #[trigger] snapshot_ids@.to_set().contains(x) implies want.contains(x) by {
            let j = choose|j: int| 0 <= j < snapshot_ids@.len() && snapshot_ids@[j] == x;
        }
        assert(snapshot_ids@.to_set() =~= want);
    }
    Ok(())
}

/// A window-level command must address the root container, node 1.
pub fn require_root(node_id: u32, command: &str) -> (r: Result<(), String>)
    ensures
        match r {
            Ok(()) => node_id == 1,
            Err(m) => node_id != 1 && m@ == command@ + " requires the root container"@,
        },
{
    if node_id != 1 {
        Err(join2(command, " requires the root container"))
    } else {
        Ok(())
    }
}

/// The message for a keybinding without a keystroke.
pub open spec fn keystroke_message(surface_id: nat, index: nat) -> Seq<char> {
    "keybinding "@ + decimal_spec(surface_id) + "["@ + decimal_spec(index) + "] has no keystroke"@
}

/// A keybinding names at least one keystroke: its text is not all white
/// space. `index` is its place in the surface's list.
pub fn check_keystroke(surface_id: u32, index: usize, keystrokes: &str) -> (r: Result<(), String>)
    ensures
        match r {
            Ok(()) => !blank_spec(keystrokes@),
            Err(m) => blank_spec(keystrokes@) && m@ == keystroke_message(
                surface_id as nat,
                index as nat,
            ),
        },
{
    if is_blank(keystrokes) {
        let mut m = join2("keybinding ", crate::host::decimal(surface_id).as_str());
        m.append("[");
        m.append(crate::host::decimal_usize(index).as_str());
        m.append("] has no keystroke");
        Err(m)
    } else {
        Ok(())
    }
}

/// What is wrong with binding `i` of a surface: no keystroke, or keystrokes
/// that the keymap could not load (`loaded[i]` is the outcome of loading
/// them, with the loader's error text).
pub open spec fn binding_problem(
    surface_id: u32,
    keystrokes: Seq<String>,
    loaded: Seq<Result<(), String>>,
    i: int,
) -> Option<Seq<char>> {
    if blank_spec(keystrokes[i]@) {
        Some(keystroke_message(surface_id as nat, i as nat))
    } else {
        match loaded[i] {
            Ok(()) => None,
            Err(e) => Some(
                "keybinding "@ + decimal_spec(surface_id as nat) + "["@ + decimal_spec(i as nat)
                    + "] invalid keystroke: "@ + e@,
            ),
        }
    }
}

/// The keybindings a surface sets, checked in order: the first binding
/// without a keystroke, or whose keystrokes did not load, is reported.
/// `keystrokes[i]` is binding `i`'s text and `loaded[i]` the outcome of
/// loading it into the keymap.
pub fn check_keybindings(
    surface_id: u32,
    keystrokes: &Vec<String>,
    loaded: &Vec<Result<(), String>>,
) -> (r: Result<(), String>)
    requires
        loaded@.len() == keystrokes@.len(),
    ensures
        match r {
            Ok(()) => forall|i: int|
                0 <= i < keystrokes@.len() ==> #[trigger] binding_problem(surface_id, keystrokes@, loaded@, i)
                    is None,
            Err(m) => exists|i: int|
                0 <= i < keystrokes@.len() && #[trigger] binding_problem(surface_id, keystrokes@, loaded@, i)
                    == Some(m@) && forall|j: int|
                    0 <= j < i ==> #[trigger] binding_problem(surface_id, keystrokes@, loaded@, j) is None,
        },
{
    let mut i: usize = 0;
    while i < keystrokes.len()
        invariant
            i <= keystrokes@.len(),
            loaded@.len() == keystrokes@.len(),
            forall|j: int| 0 <= j < i ==> #[trigger] binding_problem(surface_id, keystrokes@, loaded@, j) is None,
        decreases keystrokes@.len() - i,
    {
        match check_keystroke(surface_id, i, keystrokes[i].as_str()) {
            Ok(()) => {},
            Err(m) => {
                assert(binding_problem(surface_id, keystrokes@, loaded@, i as int) == Some(m@));
                return Err(m);
            },
        }
        if let Err(e) = &loaded[i] {
            let mut m = join2("keybinding ", crate::host::decimal(surface_id).as_str());
            m.append("[");
            m.append(crate::host::decimal_usize(i).as_str());
            m.append("] invalid keystroke: ");
            m.append(e.as_str());
            assert(binding_problem(surface_id, keystrokes@, loaded@, i as int) == Some(m@));
            return Err(m);
        }
        assert(binding_problem(surface_id, keystrokes@, loaded@, i as int) is None);
        i = i + 1;
    }
    Ok(())
}

/// The size of a window that an `openSurface` command asks for: 800 by 600
/// when it gives neither dimension.
pub fn surface_size(width: u32, height: u32) -> (r: (u32, u32))
    ensures
        r == if width == 0 && height == 0 {
            (800u32, 600u32)
        } else {
            (width, height)
        },
{
    if width == 0 && height == 0 {
        (800, 600)
    } else {
        (width, height)
    }
}

/// A `u32` in decimal, with an optional leading `+`.
pub open spec fn parse_u32_spec(s: Seq<char>) -> Option<u32> {
    match parse_usize_spec(s) {
        Some(v) => if v <= u32::MAX {
            Some(v as u32)
        } else {
            None
        },
        None => None,
    }
}

/// `k` is the first colon of `s`.
pub open spec fn first_colon(s: Seq<char>, k: int) -> bool {
    &&& 0 <= k < s.len()
    &&& s[k] == ':'
    &&& forall|j: int| 0 <= j < k ==> s[j] != ':'
}

/// The surface a notification tag `solid-gpui:<surface>:<rest>` names.
pub open spec fn tag_surface(t: Seq<char>) -> Option<u32> {
    if t.len() >= 11 && t.subrange(0, 11) == "solid-gpui:"@ {
        let rest = t.skip(11);
        if exists|k: int| first_colon(rest, k) {
            parse_u32_spec(rest.take(choose|k: int| first_colon(rest, k)))
        } else {
            None
        }
    } else {
        None
    }
}

/// The surface that a system notification's response belongs to.
pub fn notification_surface(tag: &str) -> (r: Option<u32>)
    ensures
        r == tag_surface(tag@),
{
    proof {
        reveal_strlit("solid-gpui:");
    }
    let t = chars_of(tag);
    let prefix = chars_of("solid-gpui:");
    let n = t.len();
    if n < 11 {
        return None;
    }
    let mut head: Vec<char> = Vec::new();
    let mut i: usize = 0;
    while i < 11
        invariant
            n == t@.len(),
            n >= 11,
            i <= 11,
            head@ == t@.subrange(0, i as int),
        decreases 11 - i,
    {
        head.push(t[i]);
        i = i + 1;
        assert(head@ =~= t@.subrange(0, i as int));
    }
    if !same_chars(&head, &prefix) {
        return None;
    }
    let ghost rest = t@.skip(11);
    let mut id: Vec<char> = Vec::new();
    let mut k: usize = 11;
    while k < n
        invariant
            n == t@.len(),
            t@ == tag@,
            t@.subrange(0, 11) == "solid-gpui:"@,
            11 <= k <= n,
            rest == t@.skip(11),
            id@ == rest.take(k - 11),
            forall|j: int| 0 <= j < k - 11 ==> rest[j] != ':',
        decreases n - k,
    {
        if t[k] == ':' {
            proof {
                assert(first_colon(rest, k - 11));
                assert forall|k2: int| first_colon(rest, k2) implies k2 == k - 11 by {
                    if k2 < k - 11 {
                        assert(rest[k2] != ':');
                    } else if k2 > k - 11 {
                        assert(rest[k - 11] != ':');
                    }
                }
            }
            let v = parse_usize(&id);
            return match v {
                Some(x) => if x <= 4294967295usize {
                    Some(x as u32)
                } else {
                    None
                },
                None => None,
            };
        }
        id.push(t[k]);
        k = k + 1;
        assert(id@ =~= rest.take(k - 11));
    }
    proof {
        assert forall|k2: int| !first_colon(rest, k2) by {
            if 0 <= k2 < rest.len() {
                assert(rest[k2] != ':');
            }
        }
    }
    None
}

/// Whether closing a window ends the application: nothing but popups and
/// retired surfaces remain, and the application is not kept alive.
pub fn quit_after_close(
    remaining: &Vec<u32>,
    popups: &Vec<u32>,
    retired: &Vec<u32>,
    keep_alive: bool,
) -> (r: bool)
    ensures
        r == ((forall|i: int|
            0 <= i < remaining@.len() ==> popups@.contains(#[trigger] remaining@[i])
                || retired@.contains(remaining@[i])) && !keep_alive),
{
    if keep_alive {
        return false;
    }
    let mut i: usize = 0;
    while i < remaining.len()
        invariant
            i <= remaining@.len(),
            forall|j: int|
                0 <= j < i ==> popups@.contains(#[trigger] remaining@[j]) || retired@.contains(remaining@[j]),
        decreases remaining@.len() - i,
    {
        let id = remaining[i];
        if !contains_id(popups, id) && !contains_id(retired, id) {
            return false;
        }
        i = i + 1;
    }
    true
}

/// Whether a closed surface announces its closing to JavaScript: only
/// while the transport is up, and only once the surface has an epoch.
pub fn announce_close(transport_terminated: bool, epoch: u32) -> (r: bool)
    ensures
        r == (!transport_terminated && epoch != 0),
{
    !transport_terminated && epoch != 0
}

/// Whether `ids` is strictly decreasing.
pub open spec fn descending(ids: Seq<u32>) -> bool {
    forall|i: int, j: int| 0 <= i < j < ids.len() ==> ids[i] > ids[j]
}

/// Whether `x` lies below `bound`; everything does when there is none.
pub open spec fn below(bound: Option<u32>, x: u32) -> bool {
    match bound {
        Some(b) => x < b,
        None => true,
    }
}

/// The largest id below `bound`.
fn largest_below(ids: &Vec<u32>, bound: Option<u32>) -> (r: Option<u32>)
    ensures
        match r {
            Some(c) => ids@.contains(c) && below(bound, c) && forall|i: int|
                0 <= i < ids@.len() && below(bound, #[trigger] ids@[i]) ==> ids@[i] <= c,
            None => forall|i: int| 0 <= i < ids@.len() ==> !below(bound, #[trigger] ids@[i]),
        },
{
    let mut best: Option<u32> = None;
    let mut i: usize = 0;
    while i < ids.len()
        invariant
            i <= ids@.len(),
            match best {
                Some(c) => ids@.contains(c) && below(bound, c) && forall|j: int|
                    0 <= j < i && below(bound, #[trigger] ids@[j]) ==> ids@[j] <= c,
                None => forall|j: int| 0 <= j < i ==> !below(bound, #[trigger] ids@[j]),
            },
        decreases ids@.len() - i,
    {
        let x = ids[i];
        let is_below = match bound {
            Some(b) => x < b,
            None => true,
        };
        if is_below {
            let better = match best {
                Some(c) => x > c,
                None => true,
            };
            if better {
                assert(ids@[i as int] == x);
                best = Some(x);
            }
        }
        i = i + 1;
    }
    best
}

/// The surfaces in the order they are closed when the transport ends:
/// newest first.
pub fn newest_first(ids: &Vec<u32>) -> (r: Vec<u32>)
    ensures
        descending(r@),
        forall|x: u32| r@.contains(x) <==> ids@.contains(x),
{
    let mut out: Vec<u32> = Vec::new();
    let mut bound: Option<u32> = None;
    loop
        invariant
            descending(out@),
            match bound {
                None => out@.len() == 0,
                Some(b) => out@.len() > 0 && out@.last() == b,
            },
            forall|c: u32| out@.contains(c) ==> ids@.contains(c),
            forall|c: u32| ids@.contains(c) && !below(bound, c) ==> out@.contains(c),
        decreases (match bound {
            Some(b) => b as int,
            None => u32::MAX as int + 1,
        }),
    {
        match largest_below(ids, bound) {
            None => {
                proof {
                    assert forall|c: u32| ids@.contains(c) implies out@.contains(c) by {
                        let i = choose|i: int| 0 <= i < ids@.len() && ids@[i] == c;
                        assert(!below(bound, ids@[i]));
                    }
                }
                return out;
            },
            Some(c) => {
                proof {
                    assert forall|i: int, j: int| 0 <= i < j < out@.push(c).len() implies out@.push(c)[i] > out@.push(c)[j] by {
                        if j == out@.len() {
                            assert(out@[i] >= out@.last());
                        }
                    }
                    assert forall|d: u32| ids@.contains(d) && d >= c implies #[trigger] out@.push(c).contains(d) by {
                        if d == c {
                            assert(out@.push(c)[out@.len() as int] == c);
                        } else {
                            let i = choose|i: int| 0 <= i < ids@.len() && ids@[i] == d;
                            assert(ids@[i] <= c || !below(bound, ids@[i]));
                            assert(out@.contains(d));
                            let k = choose|k: int| 0 <= k < out@.len() && out@[k] == d;
                            assert(out@.push(c)[k] == d);
                        }
                    }
                    assert forall|d: u32| #[trigger] out@.push(c).contains(d) implies ids@.contains(d) by {
                        let k = choose|k: int| 0 <= k < out@.push(c).len() && out@.push(c)[k] == d;
                        if k < out@.len() {
                            assert(out@.contains(out@[k]));
                        }
                    }
                }
                out.push(c);
                bound = Some(c);
            },
        }
    }
}

} // verus!
