//! System popovers as the host tracks them: which surface owns which popup,
//! in what order a popup and everything it owns close, which popups an
//! activation dismisses and which one Escape closes.
use vstd::prelude::*;
use crate::host::SurfaceIds;

verus! {

/// One open popup: its surface id, the surface that owns it, the owner's
/// epoch and anchor node when it was opened, the request that opened it,
/// whether its window was ever activated and whether the open request is
/// still waiting for its reply.
#[derive(Clone, Copy, Debug, PartialEq, Eq, Structural)]
pub struct PopupRecord {
    pub id: u32,
    pub owner: u32,
    pub epoch: u32,
    pub anchor_node: u32,
    pub open_request: u32,
    pub activated: bool,
    pub awaiting_open: bool,
}

/// The open popups of a host.
#[derive(Clone, Debug)]
pub struct PopupRegistry {
    pub popups: Vec<PopupRecord>,
}

/// Whether `v` contains `x`.
fn contains_id(v: &Vec<u32>, x: u32) -> (r: bool)
    ensures
        r == v@.contains(x),
{
    let mut i: usize = 0;
    while i < v.len()
        invariant
            i <= v@.len(),
            forall|j: int| 0 <= j < i ==> v@[j] != x,
        decreases v@.len() - i,
    {
        if v[i] == x {
            return true;
        }
        i = i + 1;
    }
    false
}

/// The most popups that may be open at once.
pub const MAX_POPUPS: usize = 32;

/// Whether `x` is the id of an open popup.
pub open spec fn is_popup(p: Seq<PopupRecord>, x: u32) -> bool {
    exists|i: int| 0 <= i < p.len() && (#[trigger] p[i]).id == x
}

/// The record of popup `x`.
pub open spec fn record_of(p: Seq<PopupRecord>, x: u32) -> PopupRecord
    recommends
        is_popup(p, x),
{
    p[choose|i: int| 0 <= i < p.len() && (#[trigger] p[i]).id == x]
}

/// Whether popup `x` is owned, directly or through other popups, by `root`.
pub open spec fn descends(p: Seq<PopupRecord>, root: u32, x: u32) -> bool
    decreases x,
{
    if is_popup(p, x) && record_of(p, x).owner < x {
        let o = record_of(p, x).owner;
        o == root || descends(p, root, o)
    } else {
        false
    }
}

/// `root` and everything it owns.
pub open spec fn subtree(p: Seq<PopupRecord>, root: u32) -> Set<u32> {
    Set::new(|x: u32| x == root || descends(p, root, x))
}

/// Whether popup `c` is owned directly by `owner`.
pub open spec fn child_of(p: Seq<PopupRecord>, owner: u32, c: u32) -> bool {
    is_popup(p, c) && record_of(p, c).owner == owner
}

/// Whether `ids` holds no id twice.
pub open spec fn distinct(ids: Seq<u32>) -> bool {
    forall|i: int, j: int| 0 <= i < j < ids.len() ==> ids[i] != ids[j]
}

/// Whether `ids` is strictly decreasing.
pub open spec fn descending(ids: Seq<u32>) -> bool {
    forall|i: int, j: int| 0 <= i < j < ids.len() ==> ids[i] > ids[j]
}

/// Closing in this order never closes an owner before a popup it owns.
pub open spec fn owners_last(p: Seq<PopupRecord>, ids: Seq<u32>) -> bool {
    forall|i: int, j: int| 0 <= i < j < ids.len() ==> !descends(p, ids[i], ids[j])
}

/// Closing popups newest first never closes an owner before a popup it
/// owns: an owner is always older than what it owns.
pub proof fn law_newest_first_closes_owners_last(p: Seq<PopupRecord>, ids: Seq<u32>)
    requires
        descending(ids),
    ensures
        owners_last(p, ids),
{
    assert forall|i: int, j: int| 0 <= i < j < ids.len() implies !descends(p, ids[i], ids[j]) by {
        if descends(p, ids[i], ids[j]) {
            lemma_descends_above(p, ids[i], ids[j]);
        }
    }
}

/// An owner sits below everything it owns.
pub proof fn lemma_descends_above(p: Seq<PopupRecord>, a: u32, x: u32)
    requires
        descends(p, a, x),
    ensures
        a < x,
    decreases x,
{
    let o = record_of(p, x).owner;
    if o != a {
        lemma_descends_above(p, a, o);
    }
}

/// Two owners of one popup own one another or are the same.
pub proof fn lemma_owners_comparable(p: Seq<PopupRecord>, a: u32, b: u32, x: u32)
    requires
        descends(p, a, x),
        descends(p, b, x),
    ensures
        a == b || descends(p, a, b) || descends(p, b, a),
    decreases x,
{
    let o = record_of(p, x).owner;
    if o != a && o != b {
        lemma_owners_comparable(p, a, b, o);
    }
}

/// The record found for an open popup is its own.
proof fn lemma_record(p: Seq<PopupRecord>, x: u32)
    requires
        is_popup(p, x),
        forall|i: int| 0 <= i < p.len() ==> (#[trigger] p[i]).owner < p[i].id,
    ensures
        record_of(p, x).id == x,
        record_of(p, x).owner < x,
{
    let i = choose|i: int| 0 <= i < p.len() && (#[trigger] p[i]).id == x;
    assert(p[i].owner < p[i].id);
}

/// What a child owns, its owner owns too.
proof fn lemma_child_subtree(p: Seq<PopupRecord>, id: u32, c: u32, x: u32)
    requires
        forall|i: int| 0 <= i < p.len() ==> (#[trigger] p[i]).owner < p[i].id,
        child_of(p, id, c),
        x == c || descends(p, c, x),
    ensures
        descends(p, id, x),
    decreases x,
{
    lemma_record(p, c);
    if x != c {
        let o = record_of(p, x).owner;
        if o != c {
            lemma_child_subtree(p, id, c, o);
        }
    }
}

/// Everything an owner owns sits under one of its direct children.
proof fn lemma_under_child(p: Seq<PopupRecord>, id: u32, x: u32) -> (c: u32)
    requires
        descends(p, id, x),
    ensures
        child_of(p, id, c),
        x == c || descends(p, c, x),
    decreases x,
{
    let o = record_of(p, x).owner;
    if o == id {
        x
    } else {
        let c = lemma_under_child(p, id, o);
        c
    }
}

/// Distinct children of one owner own disjoint sets of popups, and
/// nothing under one of them owns anything under another.
proof fn lemma_siblings_apart(p: Seq<PopupRecord>, id: u32, c1: u32, c2: u32, x: u32, y: u32)
    requires
        forall|i: int| 0 <= i < p.len() ==> (#[trigger] p[i]).owner < p[i].id,
        child_of(p, id, c1),
        child_of(p, id, c2),
        c1 != c2,
        x == c1 || descends(p, c1, x),
        y == c2 || descends(p, c2, y),
    ensures
        x != y,
        !descends(p, x, y),
{
    lemma_record(p, c1);
    lemma_record(p, c2);
    // A child of `id` owns no other child of `id`.
    assert forall|a: u32, b: u32| child_of(p, id, a) && child_of(p, id, b) && descends(p, a, b)
        implies false by {
        lemma_record(p, b);
        let o = record_of(p, b).owner;
        if o != a {
            lemma_descends_above(p, a, o);
            lemma_record(p, a);
        } else {
            lemma_record(p, a);
        }
    }
    if x != c1 {
        lemma_descends_above(p, c1, x);
    }
    if y != c2 {
        lemma_descends_above(p, c2, y);
    }
    if x == y {
        if x == c1 && y != c2 {
            assert(descends(p, c2, c1));
        } else if x != c1 && y == c2 {
            assert(descends(p, c1, c2));
        } else if x != c1 && y != c2 {
            lemma_owners_comparable(p, c1, c2, x);
        }
    }
    if descends(p, x, y) {
        if y == c2 {
            lemma_record(p, c2);
            let o = record_of(p, c2).owner;
            if o != x {
                lemma_descends_above(p, x, o);
            }
        } else {
            lemma_owners_comparable(p, c2, x, y);
            if x == c2 {
                if x != c1 {
                    assert(descends(p, c1, c2));
                }
            } else if descends(p, x, c2) {
                let o = record_of(p, c2).owner;
                if o != x {
                    lemma_descends_above(p, x, o);
                }
            } else {
                // `c2` owns `x`, which `c1` owns or is.
                if x == c1 {
                    assert(descends(p, c2, c1));
                } else {
                    lemma_owners_comparable(p, c1, c2, x);
                }
            }
        }
    }
}

/// One step of closing a popup and what it owns.
#[derive(Clone, Copy, Debug, PartialEq, Eq, Structural)]
pub enum CloseStep {
    /// Refuse the popup's waiting open request: its owner was closed.
    Fail(u32),
    /// Release the popup and retire its surface id.
    Release(u32),
}

pub open spec fn step_id(st: CloseStep) -> u32 {
    match st {
        CloseStep::Fail(x) => x,
        CloseStep::Release(x) => x,
    }
}

/// Whether `x` sits under a newer child of some owner than `y` does.
pub open spec fn newer_branch(p: Seq<PopupRecord>, x: u32, y: u32) -> bool {
    exists|o: u32, d1: u32, d2: u32|
        #![trigger child_of(p, o, d1), child_of(p, o, d2)]
        child_of(p, o, d1) && child_of(p, o, d2) && d1 > d2 && subtree(p, d1).contains(x)
            && subtree(p, d2).contains(y)
}

/// Whether step `s` may come before step `t`: never about an older branch
/// than `t`; a failure comes before anything about what its popup owns,
/// and before that popup's release; a release comes after everything its
/// popup owns.
pub open spec fn step_before(p: Seq<PopupRecord>, s: CloseStep, t: CloseStep) -> bool {
    &&& !newer_branch(p, step_id(t), step_id(s))
    &&& (t matches CloseStep::Fail(x) ==> !descends(p, x, step_id(s)) && s != CloseStep::Release(x))
    &&& (s matches CloseStep::Release(x) ==> !descends(p, x, step_id(t)) && t != CloseStep::Fail(x))
}

pub open spec fn steps_ordered(p: Seq<PopupRecord>, steps: Seq<CloseStep>) -> bool {
    forall|i: int, j: int| 0 <= i < j < steps.len() ==> step_before(p, #[trigger] steps[i], #[trigger] steps[j])
}

pub open spec fn distinct_steps(steps: Seq<CloseStep>) -> bool {
    forall|i: int, j: int| 0 <= i < j < steps.len() ==> steps[i] != steps[j]
}

/// The steps of closing popup `root`: it and everything it owns are
/// released, everything it owns is failed first.
pub open spec fn plan_steps(p: Seq<PopupRecord>, root: u32, st: CloseStep) -> bool {
    match st {
        CloseStep::Fail(x) => descends(p, root, x),
        CloseStep::Release(x) => subtree(p, root).contains(x),
    }
}

/// The steps of the block that closes child `c` of the popup being closed:
/// the failure of `c` and the steps of closing `c`.
pub open spec fn block_step(p: Seq<PopupRecord>, c: u32, st: CloseStep) -> bool {
    st == CloseStep::Fail(c) || plan_steps(p, c, st)
}

/// A plan for closing `root`: exactly its steps, each once, in an order
/// that keeps every constraint, ending with the release of `root`.
pub open spec fn plan_ok(p: Seq<PopupRecord>, root: u32, steps: Seq<CloseStep>) -> bool {
    &&& distinct_steps(steps)
    &&& steps_ordered(p, steps)
    &&& forall|st: CloseStep| #[trigger] steps.contains(st) <==> plan_steps(p, root, st)
    &&& steps.len() > 0 && steps.last() == CloseStep::Release(root)
}

/// What a popup owns through a popup it owns, it owns.
proof fn lemma_descends_trans(p: Seq<PopupRecord>, a: u32, b: u32, z: u32)
    requires
        descends(p, a, b),
        descends(p, b, z),
    ensures
        descends(p, a, z),
    decreases z,
{
    let o = record_of(p, z).owner;
    if o != b {
        lemma_descends_trans(p, a, b, o);
    }
}

/// `z` in the subtree of `a` and of `b`: `a` and `b` are one, or one owns
/// the other.
proof fn lemma_subtrees_nested(p: Seq<PopupRecord>, a: u32, b: u32, z: u32)
    requires
        subtree(p, a).contains(z),
        subtree(p, b).contains(z),
    ensures
        a == b || descends(p, a, b) || descends(p, b, a),
{
    if z != a && z != b {
        lemma_owners_comparable(p, a, b, z);
    }
}

/// Within one subtree no branch is newer than its root.
proof fn lemma_no_branch_within(p: Seq<PopupRecord>, w: u32, x: u32)
    requires
        forall|i: int| 0 <= i < p.len() ==> (#[trigger] p[i]).owner < p[i].id,
        subtree(p, w).contains(x),
    ensures
        !newer_branch(p, x, w),
        !newer_branch(p, w, x),
{
    assert forall|o: u32, d1: u32, d2: u32|
        child_of(p, o, d1) && child_of(p, o, d2) && d1 > d2 && (
        (subtree(p, d1).contains(x) && subtree(p, d2).contains(w)) || (subtree(p, d1).contains(w)
            && subtree(p, d2).contains(x))) implies false by {
        // `x` lies under `w`, so under whichever of `d1`, `d2` holds `w`.
        if subtree(p, d2).contains(w) && subtree(p, d1).contains(x) {
            if x != w {
                if w != d2 {
                    lemma_descends_trans(p, d2, w, x);
                }
            }
            lemma_siblings_apart(p, o, d1, d2, x, x);
        } else {
            if x != w {
                if w != d1 {
                    lemma_descends_trans(p, d1, w, x);
                }
            }
            lemma_siblings_apart(p, o, d1, d2, x, x);
        }
    }
}

/// Under distinct children `c1 > c2` of one owner, nothing under `c2` is
/// on a newer branch than anything under `c1`.
proof fn lemma_branch_order(p: Seq<PopupRecord>, id: u32, c1: u32, c2: u32, x: u32, y: u32)
    requires
        forall|i: int| 0 <= i < p.len() ==> (#[trigger] p[i]).owner < p[i].id,
        child_of(p, id, c1),
        child_of(p, id, c2),
        c1 > c2,
        subtree(p, c1).contains(x),
        subtree(p, c2).contains(y),
    ensures
        !newer_branch(p, y, x),
{
    lemma_record(p, c1);
    lemma_record(p, c2);
    assert forall|o: u32, d1: u32, d2: u32|
        child_of(p, o, d1) && child_of(p, o, d2) && d1 > d2 && subtree(p, d1).contains(y)
            && subtree(p, d2).contains(x) implies false by {
        lemma_record(p, d1);
        lemma_record(p, d2);
        lemma_subtrees_nested(p, d1, c2, y);
        if d1 == c2 {
            // Both are children of `id`, so `x` sits under `d2` and `c1`.
            if d2 != c1 {
                lemma_siblings_apart(p, id, d2, c1, x, x);
            }
        } else if descends(p, d1, c2) {
            // `id` lies under `d1`, and with it `x`.
            assert(descends(p, id, c1));
            if id != d1 {
                lemma_descends_trans(p, d1, id, c1);
            }
            if x != c1 {
                lemma_descends_trans(p, d1, c1, x);
            }
            lemma_siblings_apart(p, o, d1, d2, x, x);
        } else {
            // `d1` lies under `c2`, and so do `d2` and `x`.
            assert(descends(p, c2, d1));
            assert(descends(p, o, d2));
            if o != c2 {
                lemma_descends_trans(p, c2, o, d2);
            }
            if x != d2 {
                lemma_descends_trans(p, c2, d2, x);
            }
            lemma_siblings_apart(p, id, c1, c2, x, x);
        }
    }
}

/// The block of child `c` is `Fail(c)` followed by the plan of `c`, and it
/// keeps the constraints.
proof fn lemma_block(p: Seq<PopupRecord>, id: u32, c: u32, sub: Seq<CloseStep>)
    requires
        forall|i: int| 0 <= i < p.len() ==> (#[trigger] p[i]).owner < p[i].id,
        child_of(p, id, c),
        plan_ok(p, c, sub),
    ensures
        ({
            let b = seq![CloseStep::Fail(c)] + sub;
            &&& distinct_steps(b)
            &&& steps_ordered(p, b)
            &&& forall|st: CloseStep| #[trigger] b.contains(st) <==> block_step(p, c, st)
        }),
{
    let b = seq![CloseStep::Fail(c)] + sub;
    lemma_record(p, c);
    assert forall|i: int| 0 <= i < sub.len() implies sub[i] != CloseStep::Fail(c) by {
        assert(sub.contains(sub[i]));
        if sub[i] == CloseStep::Fail(c) {
            assert(descends(p, c, c));
            lemma_descends_above(p, c, c);
        }
    }
    assert forall|i: int, j: int| 0 <= i < j < b.len() implies b[i] != b[j] by {
        if i == 0 {
            assert(b[j] == sub[j - 1]);
        } else {
            assert(b[i] == sub[i - 1] && b[j] == sub[j - 1]);
        }
    }
    assert forall|i: int, j: int| 0 <= i < j < b.len() implies step_before(p, #[trigger] b[i], #[trigger] b[j]) by {
        if i == 0 {
            let t = sub[j - 1];
            assert(b[j] == t);
            assert(sub.contains(t));
            let y = step_id(t);
            assert(subtree(p, c).contains(y));
            lemma_no_branch_within(p, c, y);
            if let CloseStep::Fail(x) = t {
                // `x` lies strictly under `c`, so it owns nothing at or above `c`.
                if descends(p, x, c) {
                    lemma_descends_above(p, x, c);
                    lemma_descends_above(p, c, x);
                }
            }
        } else {
            assert(b[i] == sub[i - 1] && b[j] == sub[j - 1]);
        }
    }
    assert forall|st: CloseStep| #[trigger] b.contains(st) <==> block_step(p, c, st) by {
        if b.contains(st) {
            let i = choose|i: int| 0 <= i < b.len() && b[i] == st;
            if i > 0 {
                assert(sub[i - 1] == st);
                assert(sub.contains(st));
            }
        }
        if block_step(p, c, st) {
            if st == CloseStep::Fail(c) {
                assert(b[0] == st);
            } else {
                assert(sub.contains(st));
                let i = choose|i: int| 0 <= i < sub.len() && sub[i] == st;
                assert(b[i + 1] == st);
            }
        }
    }
}

/// Steps of an older sibling's block may follow those of a newer one.
proof fn lemma_blocks_ordered(p: Seq<PopupRecord>, id: u32, c1: u32, c2: u32, s: CloseStep, t: CloseStep)
    requires
        forall|i: int| 0 <= i < p.len() ==> (#[trigger] p[i]).owner < p[i].id,
        child_of(p, id, c1),
        child_of(p, id, c2),
        c1 > c2,
        block_step(p, c1, s),
        block_step(p, c2, t),
    ensures
        step_before(p, s, t),
{
    let x = step_id(s);
    let y = step_id(t);
    assert(subtree(p, c1).contains(x));
    assert(subtree(p, c2).contains(y));
    lemma_branch_order(p, id, c1, c2, x, y);
    lemma_siblings_apart(p, id, c1, c2, x, y);
    lemma_siblings_apart(p, id, c2, c1, y, x);
}

/// Appending an ordered block after an ordered run keeps the constraints.
proof fn lemma_concat_steps(p: Seq<PopupRecord>, a: Seq<CloseStep>, b: Seq<CloseStep>)
    requires
        distinct_steps(a),
        distinct_steps(b),
        steps_ordered(p, a),
        steps_ordered(p, b),
        forall|st: CloseStep| a.contains(st) ==> !#[trigger] b.contains(st),
        forall|i: int, j: int| 0 <= i < a.len() && 0 <= j < b.len() ==> step_before(p, #[trigger] a[i], #[trigger] b[j]),
    ensures
        distinct_steps(a + b),
        steps_ordered(p, a + b),
{
    let o = a + b;
    assert forall|i: int, j: int| 0 <= i < j < o.len() implies o[i] != o[j] by {
        if i < a.len() && j >= a.len() {
            assert(o[i] == a[i] && o[j] == b[j - a.len()]);
            assert(a.contains(a[i]));
            assert(b.contains(b[j - a.len()]));
        } else if i >= a.len() {
            assert(o[i] == b[i - a.len()] && o[j] == b[j - a.len()]);
        } else {
            assert(o[i] == a[i]);
            if j < a.len() {
                assert(o[j] == a[j]);
            }
        }
    }
    assert forall|i: int, j: int| 0 <= i < j < o.len() implies step_before(p, #[trigger] o[i], #[trigger] o[j]) by {
        if i < a.len() && j >= a.len() {
            assert(o[i] == a[i] && o[j] == b[j - a.len()]);
        } else if i >= a.len() {
            assert(o[i] == b[i - a.len()] && o[j] == b[j - a.len()]);
        } else {
            assert(o[i] == a[i] && o[j] == a[j]);
        }
    }
}

/// The blocks of all children, then the release of `id`, make a plan.
proof fn lemma_finish_plan(p: Seq<PopupRecord>, id: u32, kids: Seq<u32>, before: Seq<CloseStep>)
    requires
        forall|i: int| 0 <= i < p.len() ==> (#[trigger] p[i]).owner < p[i].id,
        forall|c: u32| kids.contains(c) <==> #[trigger] child_of(p, id, c),
        distinct_steps(before),
        steps_ordered(p, before),
        forall|st: CloseStep| #[trigger] before.contains(st) <==> exists|j: int|
            0 <= j < kids.len() && block_step(p, kids[j], st),
    ensures
        plan_ok(p, id, before.push(CloseStep::Release(id))),
{
    let o = before.push(CloseStep::Release(id));
    // Every step before the release is about something `id` owns.
    assert forall|st: CloseStep| before.contains(st) implies descends(p, id, #[trigger] step_id(st)) by {
        let j = choose|j: int| 0 <= j < kids.len() && block_step(p, kids[j], st);
        assert(kids.contains(kids[j]));
        lemma_child_subtree(p, id, kids[j], step_id(st));
    }
    assert forall|i: int, j: int| 0 <= i < j < o.len() implies o[i] != o[j] by {
        if j == before.len() {
            assert(before.contains(o[i]));
            assert(descends(p, id, step_id(o[i])));
            if o[i] == CloseStep::Release(id) {
                lemma_descends_above(p, id, id);
            }
        }
    }
    assert forall|i: int, j: int| 0 <= i < j < o.len() implies step_before(p, #[trigger] o[i], #[trigger] o[j]) by {
        if j == before.len() {
            let s = o[i];
            assert(before.contains(s));
            let x = step_id(s);
            assert(descends(p, id, x));
            lemma_no_branch_within(p, id, x);
            if let CloseStep::Release(r) = s {
                if descends(p, r, id) {
                    lemma_descends_above(p, r, id);
                    lemma_descends_above(p, id, r);
                }
            }
        } else {
            assert(o[i] == before[i] && o[j] == before[j]);
        }
    }
    assert forall|st: CloseStep| #[trigger] o.contains(st) <==> plan_steps(p, id, st) by {
        if o.contains(st) {
            let i = choose|i: int| 0 <= i < o.len() && o[i] == st;
            if i < before.len() {
                assert(before[i] == st);
                assert(before.contains(st));
                let j = choose|j: int| 0 <= j < kids.len() && block_step(p, kids[j], st);
                assert(kids.contains(kids[j]));
                lemma_child_subtree(p, id, kids[j], step_id(st));
            }
        }
        if plan_steps(p, id, st) {
            if st == CloseStep::Release(id) {
                assert(o[before.len() as int] == st);
            } else {
                let x = step_id(st);
                assert(descends(p, id, x));
                let c = lemma_under_child(p, id, x);
                assert(kids.contains(c));
                let j = choose|j: int| 0 <= j < kids.len() && kids[j] == c;
                if let CloseStep::Fail(f) = st {
                    if f != c {
                        assert(block_step(p, kids[j], st));
                    } else {
                        assert(block_step(p, kids[j], st));
                    }
                } else {
                    assert(block_step(p, kids[j], st));
                }
                assert(before.contains(st));
                let i = choose|i: int| 0 <= i < before.len() && before[i] == st;
                assert(o[i] == st);
            }
        }
    }
}

impl PopupRegistry {
    /// Popup ids are distinct and each popup was opened after its owner,
    /// so its id is above its owner's.
    pub open spec fn well_formed(&self) -> bool {
        let p = self.popups@;
        &&& forall|i: int, j: int| 0 <= i < j < p.len() ==> (#[trigger] p[i]).id != (#[trigger] p[j]).id
        &&& forall|i: int| 0 <= i < p.len() ==> (#[trigger] p[i]).owner < p[i].id
    }

    pub fn new() -> (r: PopupRegistry)
        ensures
            r.well_formed(),
            r.popups@.len() == 0,
    {
        PopupRegistry { popups: Vec::new() }
    }

    /// Whether another popup may open at a mounted anchor: at most 32 are
    /// open at once, and the anchor must be a mounted View or Pressable.
    pub fn admit_open(&self, anchor_is_view_or_pressable: bool) -> (r: Result<(), String>)
        ensures
            match r {
                Ok(()) => self.popups@.len() < MAX_POPUPS && anchor_is_view_or_pressable,
                Err(m) => if self.popups@.len() >= MAX_POPUPS {
                    m@ == "at most 32 system popovers may be open"@
                } else {
                    !anchor_is_view_or_pressable
                        && m@ == "popup anchor must be a mounted View or Pressable"@
                },
            },
    {
        if self.popups.len() >= MAX_POPUPS {
            Err(String::from_str("at most 32 system popovers may be open"))
        } else if !anchor_is_view_or_pressable {
            Err(String::from_str("popup anchor must be a mounted View or Pressable"))
        } else {
            Ok(())
        }
    }

    /// Records a popup opened under a freshly allocated id.
    pub fn insert(&mut self, record: PopupRecord)
        requires
            old(self).well_formed(),
            !is_popup(old(self).popups@, record.id),
            record.owner < record.id,
        ensures
            final(self).well_formed(),
            final(self).popups@ == old(self).popups@.push(record),
    {
        self.popups.push(record);
        proof {
            let p = self.popups@;
            assert forall|i: int, j: int| 0 <= i < j < p.len() implies (#[trigger] p[i]).id
                != (#[trigger] p[j]).id by {
                if j == p.len() - 1 {
                    assert(p[i] == old(self).popups@[i]);
                }
            }
        }
    }

    /// The position of popup `x`.
    fn position(&self, x: u32) -> (r: Option<usize>)
        ensures
            match r {
                Some(i) => i < self.popups@.len() && self.popups@[i as int].id == x,
                None => !is_popup(self.popups@, x),
            },
    {
        let mut i: usize = 0;
        while i < self.popups.len()
            invariant
                i <= self.popups@.len(),
                forall|j: int| 0 <= j < i ==> (#[trigger] self.popups@[j]).id != x,
            decreases self.popups@.len() - i,
        {
            if self.popups[i].id == x {
                return Some(i);
            }
            i = i + 1;
        }
        None
    }

    /// Removes popup `x`, if open, keeping the others in order.
    pub fn release(&mut self, x: u32)
        requires
            old(self).well_formed(),
        ensures
            final(self).well_formed(),
            !is_popup(final(self).popups@, x),
            forall|y: u32| y != x ==> (is_popup(final(self).popups@, y) <==> is_popup(old(self).popups@, y)),
            forall|i: int| 0 <= i < final(self).popups@.len() ==> old(self).popups@.contains(#[trigger] final(self).popups@[i]),
    {
        match self.position(x) {
            None => {},
            Some(k) => {
                let ghost before = self.popups@;
                self.popups.remove(k);
                proof {
                    let after = self.popups@;
                    assert(after =~= before.remove(k as int));
                    assert forall|i: int| 0 <= i < after.len() implies #[trigger] before.contains(after[i]) by {
                        if i < k {
                            assert(after[i] == before[i]);
                        } else {
                            assert(after[i] == before[i + 1]);
                        }
                    }
                    assert forall|i: int, j: int| 0 <= i < j < after.len() implies (#[trigger] after[i]).id
                        != (#[trigger] after[j]).id by {
                        let bi = if i < k { i } else { i + 1 };
                        let bj = if j < k { j } else { j + 1 };
                        assert(after[i] == before[bi]);
                        assert(after[j] == before[bj]);
                    }
                    assert forall|i: int| 0 <= i < after.len() implies (#[trigger] after[i]).owner < after[i].id by {
                        let bi = if i < k { i } else { i + 1 };
                        assert(after[i] == before[bi]);
                    }
                    if is_popup(after, x) {
                        let i = choose|i: int| 0 <= i < after.len() && (#[trigger] after[i]).id == x;
                        let bi = if i < k { i } else { i + 1 };
                        assert(after[i] == before[bi]);
                    }
                    assert forall|y: u32| y != x implies (is_popup(after, y) <==> is_popup(before, y)) by {
                        if is_popup(before, y) {
                            let i = choose|i: int| 0 <= i < before.len() && (#[trigger] before[i]).id == y;
                            assert(i != k);
                            let ai = if i < k { i } else { i - 1 };
                            assert(after[ai] == before[i]);
                        }
                        if is_popup(after, y) {
                            let i = choose|i: int| 0 <= i < after.len() && (#[trigger] after[i]).id == y;
                            let bi = if i < k { i } else { i + 1 };
                            assert(after[i] == before[bi]);
                        }
                    }
                }
            },
        }
    }

    /// The popup that a `closePopup` command addresses: one opened by
    /// request `request_id` of surface `owner` in `epoch`.
    pub fn close_target(&self, owner: u32, epoch: u32, request_id: u32) -> (r: Option<u32>)
        ensures
            match r {
                Some(x) => exists|i: int|
                    0 <= i < self.popups@.len() && (#[trigger] self.popups@[i]).id == x
                        && self.popups@[i].owner == owner && self.popups@[i].epoch == epoch
                        && self.popups@[i].open_request == request_id,
                None => forall|i: int|
                    0 <= i < self.popups@.len() ==> !((#[trigger] self.popups@[i]).owner == owner
                        && self.popups@[i].epoch == epoch && self.popups@[i].open_request
                        == request_id),
            },
    {
        let mut i: usize = 0;
        while i < self.popups.len()
            invariant
                i <= self.popups@.len(),
                forall|j: int|
                    0 <= j < i ==> !((#[trigger] self.popups@[j]).owner == owner
                        && self.popups@[j].epoch == epoch && self.popups@[j].open_request
                        == request_id),
            decreases self.popups@.len() - i,
        {
            let r = self.popups[i];
            if r.owner == owner && r.epoch == epoch && r.open_request == request_id {
                return Some(r.id);
            }
            i = i + 1;
        }
        None
    }

    /// Whether surface `x` routes pointer input to popup dismissal: it is a
    /// popup or owns one.
    pub fn listens(&self, x: u32) -> (r: bool)
        ensures
            r == (is_popup(self.popups@, x) || exists|i: int|
                0 <= i < self.popups@.len() && (#[trigger] self.popups@[i]).owner == x),
    {
        let mut i: usize = 0;
        while i < self.popups.len()
            invariant
                i <= self.popups@.len(),
                forall|j: int| 0 <= j < i ==> (#[trigger] self.popups@[j]).owner != x && self.popups@[j].id != x,
            decreases self.popups@.len() - i,
        {
            if self.popups[i].owner == x || self.popups[i].id == x {
                return true;
            }
            i = i + 1;
        }
        false
    }

    /// The popup that Escape on surface `x` closes: the newest popup that
    /// `x` owns, else `x` itself when it is a popup.
    pub fn escape_target(&self, x: u32) -> (r: Option<u32>)
        requires
            self.well_formed(),
        ensures
            match r {
                Some(t) => (child_of(self.popups@, x, t) && forall|c: u32| #[trigger] child_of(self.popups@, x, c) ==> c <= t)
                    || (t == x && is_popup(self.popups@, x) && forall|c: u32| !#[trigger] child_of(self.popups@, x, c)),
                None => !is_popup(self.popups@, x) && forall|c: u32| !#[trigger] child_of(self.popups@, x, c),
            },
    {
        match self.largest_child_below(x, None) {
            Some(c) => Some(c),
            None => {
                if self.position(x).is_some() {
                    Some(x)
                } else {
                    None
                }
            },
        }
    }

    /// The largest popup owned directly by `owner` below `bound`.
    fn largest_child_below(&self, owner: u32, bound: Option<u32>) -> (r: Option<u32>)
        requires
            self.well_formed(),
        ensures
            match r {
                Some(c) => child_of(self.popups@, owner, c) && (bound matches Some(b) ==> c < b)
                    && forall|d: u32|
                    #[trigger] child_of(self.popups@, owner, d) && (bound matches Some(b) ==> d < b)
                        ==> d <= c,
                None => forall|d: u32|
                    #[trigger] child_of(self.popups@, owner, d) ==> (bound matches Some(b) && d >= b),
            },
    {
        let ghost p = self.popups@;
        let mut best: Option<u32> = None;
        let mut i: usize = 0;
        while i < self.popups.len()
            invariant
                p == self.popups@,
                self.well_formed(),
                i <= p.len(),
                match best {
                    Some(c) => child_of(p, owner, c) && (bound matches Some(b) ==> c < b) && forall|j: int|
                        0 <= j < i && (#[trigger] p[j]).owner == owner && (bound matches Some(b) ==> p[j].id < b)
                            ==> p[j].id <= c,
                    None => forall|j: int|
                        0 <= j < i && (#[trigger] p[j]).owner == owner ==> (bound matches Some(b) && p[j].id >= b),
                },
            decreases p.len() - i,
        {
            let r = self.popups[i];
            let below = match bound {
                Some(b) => r.id < b,
                None => true,
            };
            if r.owner == owner && below {
                let better = match best {
                    Some(c) => r.id > c,
                    None => true,
                };
                if better {
                    proof {
                        assert(p[i as int] == r);
                        assert(record_of(p, r.id) == r) by {
                            let k = choose|k: int| 0 <= k < p.len() && (#[trigger] p[k]).id == r.id;
                            if k != i {
                                if k < i {
                                    assert(p[k].id != p[i as int].id);
                                } else {
                                    assert(p[i as int].id != p[k].id);
                                }
                            }
                        }
                    }
                    best = Some(r.id);
                }
            }
            i = i + 1;
        }
        proof {
            assert forall|d: u32| #[trigger] child_of(p, owner, d) implies (match best {
                Some(c) => (bound matches Some(b) ==> d < b) ==> d <= c,
                None => bound matches Some(b) && d >= b,
            }) by {
                let k = choose|k: int| 0 <= k < p.len() && (#[trigger] p[k]).id == d;
                assert(p[k] == record_of(p, d));
            }
        }
        best
    }

    /// The steps of closing popup `id`, as the host takes them: each popup
    /// that `id` owns, directly or not, is first failed (its open request, if
    /// still waiting, is refused because its owner closed) and later
    /// released, after everything it owns; the children of one owner go
    /// newest first, each with everything it owns; `id` is released last.
    pub fn close_plan(&self, id: u32) -> (r: Vec<CloseStep>)
        requires
            self.well_formed(),
        ensures
            plan_ok(self.popups@, id, r@),
        decreases u32::MAX - id,
    {
        let ghost p = self.popups@;
        let kids = self.owned_newest_first(id);
        let mut out: Vec<CloseStep> = Vec::new();
        let mut k: usize = 0;
        while k < kids.len()
            invariant
                p == self.popups@,
                self.well_formed(),
                k <= kids@.len(),
                descending(kids@),
                forall|c: u32| kids@.contains(c) <==> #[trigger] child_of(p, id, c),
                distinct_steps(out@),
                steps_ordered(p, out@),
                forall|st: CloseStep| #[trigger] out@.contains(st) <==> exists|j: int|
                    0 <= j < k && block_step(p, kids@[j], st),
            decreases kids@.len() - k,
        {
            let c = kids[k];
            proof {
                assert(kids@.contains(c));
                assert(child_of(p, id, c));
                lemma_record(p, c);
            }
            let mut sub = self.close_plan(c);
            let ghost a = out@;
            let ghost b = seq![CloseStep::Fail(c)] + sub@;
            proof {
                lemma_block(p, id, c, sub@);
                assert forall|st: CloseStep| #[trigger] a.contains(st) implies !b.contains(st) by {
                    let j = choose|j: int| 0 <= j < k && block_step(p, kids@[j], st);
                    assert(kids@.contains(kids@[j]));
                    assert(kids@[j] > c);
                    if b.contains(st) {
                        lemma_siblings_apart(p, id, kids@[j], c, step_id(st), step_id(st));
                    }
                }
                assert forall|i: int, j: int| 0 <= i < a.len() && 0 <= j < b.len() implies
                    step_before(p, #[trigger] a[i], #[trigger] b[j]) by {
                    assert(a.contains(a[i]));
                    let jj = choose|jj: int| 0 <= jj < k && block_step(p, kids@[jj], a[i]);
                    assert(kids@.contains(kids@[jj]));
                    assert(kids@[jj] > c);
                    assert(b.contains(b[j]));
                    lemma_blocks_ordered(p, id, kids@[jj], c, a[i], b[j]);
                }
            }
            out.push(CloseStep::Fail(c));
            out.append(&mut sub);
            proof {
                let o = out@;
                assert(o =~= a + b);
                lemma_concat_steps(p, a, b);
                assert forall|st: CloseStep| #[trigger] o.contains(st) <==> exists|j: int|
                    0 <= j < k + 1 && block_step(p, kids@[j], st) by {
                    if o.contains(st) {
                        let i = choose|i: int| 0 <= i < o.len() && o[i] == st;
                        if i >= a.len() {
                            assert(b[i - a.len()] == st);
                            assert(b.contains(st));
                            assert(block_step(p, kids@[k as int], st));
                        } else {
                            assert(a[i] == st);
                            assert(a.contains(st));
                        }
                    }
                    if exists|j: int| 0 <= j < k + 1 && block_step(p, kids@[j], st) {
                        let j = choose|j: int| 0 <= j < k + 1 && block_step(p, kids@[j], st);
                        if j == k {
                            assert(b.contains(st));
                            let i = choose|i: int| 0 <= i < b.len() && b[i] == st;
                            assert(o[a.len() + i] == st);
                        } else {
                            assert(a.contains(st));
                            let i = choose|i: int| 0 <= i < a.len() && a[i] == st;
                            assert(o[i] == st);
                        }
                    }
                }
            }
            k = k + 1;
        }
        let ghost before = out@;
        out.push(CloseStep::Release(id));
        proof {
            lemma_finish_plan(p, id, kids@, before);
            assert(out@ =~= before.push(CloseStep::Release(id)));
        }
        out
    }

    /// Surface `x`'s chain of owners, starting at `x`: each popup is
    /// followed by the surface that owns it, up to a surface that is not a
    /// popup.
    pub open spec fn owner_chain(&self, chain: Seq<u32>, x: u32) -> bool {
        let p = self.popups@;
        &&& chain.len() > 0
        &&& chain[0] == x
        &&& forall|i: int|
            0 <= i < chain.len() - 1 ==> is_popup(p, #[trigger] chain[i]) && chain[i + 1] == record_of(p, chain[i]).owner
        &&& !is_popup(p, chain.last())
    }

    /// The owner of popup `x`.
    fn owner_of(&self, x: u32) -> (r: Option<u32>)
        requires
            self.well_formed(),
        ensures
            match r {
                Some(o) => is_popup(self.popups@, x) && o == record_of(self.popups@, x).owner,
                None => !is_popup(self.popups@, x),
            },
    {
        match self.position(x) {
            None => None,
            Some(i) => {
                proof {
                    let p = self.popups@;
                    let k = choose|k: int| 0 <= k < p.len() && (#[trigger] p[k]).id == x;
                    if k != i {
                        if k < i {
                            assert(p[k].id != p[i as int].id);
                        } else {
                            assert(p[i as int].id != p[k].id);
                        }
                    }
                }
                Some(self.popups[i].owner)
            },
        }
    }

    /// The window family of the active surface: the surface and its owners.
    pub fn family(&self, active: u32) -> (r: Vec<u32>)
        requires
            self.well_formed(),
        ensures
            self.owner_chain(r@, active),
    {
        let ghost p = self.popups@;
        let mut out: Vec<u32> = Vec::new();
        out.push(active);
        let mut current = active;
        loop
            invariant
                p == self.popups@,
                self.well_formed(),
                out@.len() > 0,
                out@[0] == active,
                out@.last() == current,
                forall|i: int|
                    0 <= i < out@.len() - 1 ==> is_popup(p, #[trigger] out@[i]) && out@[i + 1] == record_of(p, out@[i]).owner,
            decreases current,
        {
            match self.owner_of(current) {
                None => {
                    return out;
                },
                Some(o) => {
                    proof {
                        lemma_record(p, current);
                    }
                    let ghost before = out@;
                    out.push(o);
                    proof {
                        assert forall|i: int| 0 <= i < out@.len() - 1 implies is_popup(p, #[trigger] out@[i])
                            && out@[i + 1] == record_of(p, out@[i]).owner by {
                            if i < before.len() - 1 {
                                assert(out@[i] == before[i]);
                                assert(out@[i + 1] == before[i + 1]);
                            } else {
                                assert(out@[i] == current);
                            }
                        }
                    }
                    current = o;
                },
            }
        }
    }

    /// The newest activated popup outside `family` below `bound`.
    fn largest_dismissable_below(&self, family: &Vec<u32>, bound: Option<u32>) -> (r: Option<u32>)
        requires
            self.well_formed(),
        ensures
            match r {
                Some(c) => self.dismissable(family@, c) && (bound matches Some(b) ==> c < b)
                    && forall|d: u32|
                    #[trigger] self.dismissable(family@, d) && (bound matches Some(b) ==> d < b) ==> d <= c,
                None => forall|d: u32|
                    #[trigger] self.dismissable(family@, d) ==> (bound matches Some(b) && d >= b),
            },
    {
        let ghost p = self.popups@;
        let mut best: Option<u32> = None;
        let mut i: usize = 0;
        while i < self.popups.len()
            invariant
                p == self.popups@,
                self.well_formed(),
                i <= p.len(),
                match best {
                    Some(c) => self.dismissable(family@, c) && (bound matches Some(b) ==> c < b) && forall|j: int|
                        0 <= j < i && (#[trigger] p[j]).activated && !family@.contains(p[j].id)
                            && (bound matches Some(b) ==> p[j].id < b) ==> p[j].id <= c,
                    None => forall|j: int|
                        0 <= j < i && (#[trigger] p[j]).activated && !family@.contains(p[j].id)
                            ==> (bound matches Some(b) && p[j].id >= b),
                },
            decreases p.len() - i,
        {
            let r = self.popups[i];
            let below = match bound {
                Some(b) => r.id < b,
                None => true,
            };
            if r.activated && below && !contains_id(family, r.id) {
                let better = match best {
                    Some(c) => r.id > c,
                    None => true,
                };
                if better {
                    proof {
                        assert(p[i as int] == r);
                        assert(record_of(p, r.id) == r) by {
                            let k = choose|k: int| 0 <= k < p.len() && (#[trigger] p[k]).id == r.id;
                            if k != i {
                                if k < i {
                                    assert(p[k].id != p[i as int].id);
                                } else {
                                    assert(p[i as int].id != p[k].id);
                                }
                            }
                        }
                    }
                    best = Some(r.id);
                }
            }
            i = i + 1;
        }
        proof {
            assert forall|d: u32| #[trigger] self.dismissable(family@, d) implies (match best {
                Some(c) => (bound matches Some(b) ==> d < b) ==> d <= c,
                None => bound matches Some(b) && d >= b,
            }) by {
                let k = choose|k: int| 0 <= k < p.len() && (#[trigger] p[k]).id == d;
                assert(p[k] == record_of(p, d));
            }
        }
        best
    }

    /// Whether popup `x` was activated and is outside `family`.
    pub open spec fn dismissable(&self, family: Seq<u32>, x: u32) -> bool {
        is_popup(self.popups@, x) && record_of(self.popups@, x).activated && !family.contains(x)
    }

    /// The popups an activation dismisses, newest first: every popup that
    /// was once activated and is outside the active surface's family (none
    /// is outside an empty family when no surface is active).
    pub fn dismissals(&self, active: Option<u32>) -> (r: Vec<u32>)
        requires
            self.well_formed(),
        ensures
            descending(r@),
            exists|family: Seq<u32>|
                (match active {
                    Some(a) => self.owner_chain(family, a),
                    None => family.len() == 0,
                }) && forall|c: u32| r@.contains(c) <==> #[trigger] self.dismissable(family, c),
    {
        let family = match active {
            Some(a) => self.family(a),
            None => Vec::new(),
        };
        let mut out: Vec<u32> = Vec::new();
        let mut bound: Option<u32> = None;
        loop
            invariant
                self.well_formed(),
                match active {
                    Some(a) => self.owner_chain(family@, a),
                    None => family@.len() == 0,
                },
                descending(out@),
                match bound {
                    None => out@.len() == 0,
                    Some(b) => out@.len() > 0 && out@.last() == b,
                },
                forall|c: u32| out@.contains(c) ==> #[trigger] self.dismissable(family@, c),
                forall|c: u32|
                    #[trigger] self.dismissable(family@, c) && (bound matches Some(b) && c >= b) ==> out@.contains(c),
            decreases (match bound {
                Some(b) => b as int,
                None => u32::MAX as int + 1,
            }),
        {
            match self.largest_dismissable_below(&family, bound) {
                None => {
                    return out;
                },
                Some(c) => {
                    proof {
                        assert forall|i: int, j: int| 0 <= i < j < out@.push(c).len() implies out@.push(c)[i] > out@.push(c)[j] by {
                            if j == out@.len() {
                                assert(out@[i] >= out@.last());
                            }
                        }
                        assert forall|d: u32| #[trigger] self.dismissable(family@, d) && d >= c implies out@.push(c).contains(d) by {
                            if d == c {
                                assert(out@.push(c)[out@.len() as int] == c);
                            } else {
                                assert(out@.contains(d));
                                let k = choose|k: int| 0 <= k < out@.len() && out@[k] == d;
                                assert(out@.push(c)[k] == d);
                            }
                        }
                        assert forall|d: u32| out@.push(c).contains(d) implies #[trigger] self.dismissable(family@, d) by {
                            let k = choose|k: int| 0 <= k < out@.push(c).len() && out@.push(c)[k] == d;
                            if k < out@.len() {
                                assert(out@.contains(out@[k]));
                            }
                        }
                    }
                    out.push(c);
                    bound = Some(c);
                },
            }
        }
    }

    /// The popups owned directly by `owner`, newest first.
    pub fn owned_newest_first(&self, owner: u32) -> (r: Vec<u32>)
        requires
            self.well_formed(),
        ensures
            descending(r@),
            forall|c: u32| r@.contains(c) <==> #[trigger] child_of(self.popups@, owner, c),
    {
        let mut out: Vec<u32> = Vec::new();
        let mut bound: Option<u32> = None;
        loop
            invariant
                self.well_formed(),
                descending(out@),
                match bound {
                    None => out@.len() == 0,
                    Some(b) => out@.len() > 0 && out@.last() == b,
                },
                forall|c: u32| out@.contains(c) ==> #[trigger] child_of(self.popups@, owner, c),
                forall|c: u32|
                    #[trigger] child_of(self.popups@, owner, c) && (bound matches Some(b) && c >= b) ==> out@.contains(c),
            decreases (match bound {
                Some(b) => b as int,
                None => u32::MAX as int + 1,
            }),
        {
            match self.largest_child_below(owner, bound) {
                None => {
                    return out;
                },
                Some(c) => {
                    proof {
                        assert forall|i: int, j: int| 0 <= i < j < out@.push(c).len() implies out@.push(c)[i] > out@.push(c)[j] by {
                            if j == out@.len() {
                                assert(out@[i] >= out@.last());
                            }
                        }
                        assert forall|d: u32| #[trigger] child_of(self.popups@, owner, d) && d >= c implies out@.push(c).contains(d) by {
                            if d == c {
                                assert(out@.push(c)[out@.len() as int] == c);
                            } else {
                                assert(out@.contains(d));
                                let k = choose|k: int| 0 <= k < out@.len() && out@[k] == d;
                                assert(out@.push(c)[k] == d);
                            }
                        }
                        assert forall|d: u32| out@.push(c).contains(d) implies #[trigger] child_of(self.popups@, owner, d) by {
                            let k = choose|k: int| 0 <= k < out@.push(c).len() && out@.push(c)[k] == d;
                            if k < out@.len() {
                                assert(out@.contains(out@[k]));
                            }
                        }
                    }
                    out.push(c);
                    bound = Some(c);
                },
            }
        }
    }
}

/// What reconciling an open popup with its owner's latest layout does.
#[derive(Debug, PartialEq, Eq)]
pub enum ReconcileAction {
    /// The owner surface is gone: close the popup without answering it.
    Close,
    /// Refuse the popup's open request, for the reason given.
    Fail(String),
    /// Nothing moved since the popup was placed.
    Skip,
    /// Move the popup's window to the new anchor.
    Reposition,
    /// Open the popup's window at the anchor.
    Open,
}

/// The step for one popup of an owner whose layout changed, in order: an
/// owner that is gone closes the popup; an anchor that is not visible in
/// the owner's current generation fails it; so does an owner window whose
/// geometry cannot be read; unchanged geometry leaves it alone; an open
/// popup window is moved, and otherwise the window is opened.
pub fn reconcile_action(
    owner_present: bool,
    anchor_current: bool,
    geometry_read: bool,
    geometry_unchanged: bool,
    window_open: bool,
) -> (r: ReconcileAction)
    ensures
        !owner_present ==> r == ReconcileAction::Close,
        owner_present && !anchor_current ==> (r matches ReconcileAction::Fail(m) && m@
            == "popup anchor is no longer visible"@),
        owner_present && anchor_current && !geometry_read ==> (r matches ReconcileAction::Fail(m)
            && m@ == "popup owner is unavailable"@),
        owner_present && anchor_current && geometry_read && geometry_unchanged ==> r
            == ReconcileAction::Skip,
        owner_present && anchor_current && geometry_read && !geometry_unchanged ==> r == (if window_open {
            ReconcileAction::Reposition
        } else {
            ReconcileAction::Open
        }),
{
    if !owner_present {
        ReconcileAction::Close
    } else if !anchor_current {
        ReconcileAction::Fail(String::from_str("popup anchor is no longer visible"))
    } else if !geometry_read {
        ReconcileAction::Fail(String::from_str("popup owner is unavailable"))
    } else if geometry_unchanged {
        ReconcileAction::Skip
    } else if window_open {
        ReconcileAction::Reposition
    } else {
        ReconcileAction::Open
    }
}

/// The answer to a popup after its window was asked to move: a refused
/// move fails the popup.
pub fn reposition_outcome(moved: bool) -> (r: Result<(), String>)
    ensures
        match r {
            Ok(()) => moved,
            Err(m) => !moved && m@ == "native popup reposition failed"@,
        },
{
    if moved {
        Ok(())
    } else {
        Err(String::from_str("native popup reposition failed"))
    }
}

impl PopupRegistry {
    /// Closes popup `id` and everything it owns, following its close plan:
    /// the open requests of the popups it owns are refused (returned in plan
    /// order), and every popup of the subtree is released and its surface id
    /// retired for good.
    pub fn close(&mut self, ids: &mut SurfaceIds, id: u32) -> (failed: Vec<u32>)
        requires
            old(self).well_formed(),
        ensures
            final(self).well_formed(),
            forall|y: u32| #[trigger] is_popup(final(self).popups@, y) <==> (is_popup(old(self).popups@, y)
                && !subtree(old(self).popups@, id).contains(y)),
            forall|y: u32| #[trigger] final(ids).retired_surface_ids@.contains(y) <==> (
            old(ids).retired_surface_ids@.contains(y) || subtree(old(self).popups@, id).contains(y)),
            forall|y: u32| #[trigger] final(ids).surfaces@.contains(y) <==> (old(ids).surfaces@.contains(y)
                && !subtree(old(self).popups@, id).contains(y)),
            final(ids).next_surface_id == old(ids).next_surface_id,
            forall|x: u32| #[trigger] failed@.contains(x) <==> descends(old(self).popups@, id, x),
    {
        let ghost p = self.popups@;
        let steps = self.close_plan(id);
        let mut failed: Vec<u32> = Vec::new();
        let mut k: usize = 0;
        while k < steps.len()
            invariant
                k <= steps@.len(),
                p == old(self).popups@,
                plan_ok(p, id, steps@),
                self.well_formed(),
                ids.next_surface_id == old(ids).next_surface_id,
                forall|y: u32| #[trigger] is_popup(self.popups@, y) <==> (is_popup(p, y)
                    && !steps@.take(k as int).contains(CloseStep::Release(y))),
                forall|y: u32| #[trigger] ids.retired_surface_ids@.contains(y) <==> (
                old(ids).retired_surface_ids@.contains(y) || steps@.take(k as int).contains(
                    CloseStep::Release(y),
                )),
                forall|y: u32| #[trigger] ids.surfaces@.contains(y) <==> (old(ids).surfaces@.contains(y)
                    && !steps@.take(k as int).contains(CloseStep::Release(y))),
                forall|x: u32| #[trigger] failed@.contains(x) <==> steps@.take(k as int).contains(
                    CloseStep::Fail(x),
                ),
            decreases steps@.len() - k,
        {
            let st = steps[k];
            let ghost before = steps@.take(k as int);
            proof {
                assert(steps@.take(k + 1) =~= before.push(st));
                assert forall|c: CloseStep| #[trigger] before.push(st).contains(c) <==> (before.contains(c)
                    || c == st) by {
                    if before.push(st).contains(c) {
                        let j = choose|j: int| 0 <= j < before.len() + 1 && before.push(st)[j] == c;
                        if j < before.len() {
                            assert(before[j] == c);
                        }
                    }
                    if before.contains(c) {
                        let j = choose|j: int| 0 <= j < before.len() && before[j] == c;
                        assert(before.push(st)[j] == c);
                    }
                    if c == st {
                        assert(before.push(st)[before.len() as int] == st);
                    }
                }
            }
            match st {
                CloseStep::Fail(x) => {
                    let ghost f0 = failed@;
                    failed.push(x);
                    proof {
                        assert forall|z: u32| #[trigger] failed@.contains(z) <==> (f0.contains(z) || z == x) by {
                            if failed@.contains(z) {
                                let j = choose|j: int| 0 <= j < failed@.len() && failed@[j] == z;
                                if j < f0.len() {
                                    assert(f0[j] == z);
                                }
                            }
                            if f0.contains(z) {
                                let j = choose|j: int| 0 <= j < f0.len() && f0[j] == z;
                                assert(failed@[j] == z);
                            }
                            if z == x {
                                assert(failed@[f0.len() as int] == x);
                            }
                        }
                    }
                },
                CloseStep::Release(x) => {
                    self.release(x);
                    let ghost r0 = ids.retired_surface_ids@;
                    ids.retire(x);
                    proof {
                        let r1 = ids.retired_surface_ids@;
                        assert forall|z: u32| #[trigger] r1.contains(z) <==> (r0.contains(z) || z == x) by {
                            if r1.contains(z) {
                                let j = choose|j: int| 0 <= j < r1.len() && r1[j] == z;
                                if j < r0.len() {
                                    assert(r0[j] == z);
                                }
                            }
                            if r0.contains(z) {
                                let j = choose|j: int| 0 <= j < r0.len() && r0[j] == z;
                                assert(r1[j] == z);
                            }
                            if z == x {
                                assert(r1[r0.len() as int] == x);
                            }
                        }
                    }
                },
            }
            k = k + 1;
        }
        proof {
            assert(steps@.take(steps@.len() as int) =~= steps@);
            assert forall|y: u32| steps@.contains(CloseStep::Release(y)) <==> #[trigger] subtree(p, id).contains(y) by {
                assert(plan_steps(p, id, CloseStep::Release(y)) == subtree(p, id).contains(y));
            }
            assert forall|x: u32| steps@.contains(CloseStep::Fail(x)) <==> #[trigger] descends(p, id, x) by {
                assert(plan_steps(p, id, CloseStep::Fail(x)) == descends(p, id, x));
            }
        }
        failed
    }
}

} // verus!
