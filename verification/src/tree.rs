//! A retained tree with stable node keys and explicit lazy-branch requests:
//! the bounds on the node forest and the bookkeeping of branch requests.
use vstd::prelude::*;
use crate::keys::KeySet;
use crate::text::{chars_of, same_text};
use crate::native::{declares, position_in, texts};

verus! {

broadcast use vstd::string::group_string_axioms;

/// One node of a tree view. A node with `has_children` but without
/// `children_loaded` is a lazy branch whose children JavaScript supplies on
/// request.
#[derive(Debug)]
pub struct TreeNode {
    pub key: String,
    pub label: String,
    pub icon: Option<String>,
    pub disabled: bool,
    pub expanded: Option<bool>,
    pub has_children: bool,
    pub children_loaded: bool,
    pub children: Vec<TreeNode>,
}

/// The default of `children_loaded`: children given inline are complete.
pub fn loaded() -> (r: bool)
    ensures
        r,
{
    true
}

/// Reported when the user expands or collapses a branch.
#[derive(Debug)]
pub struct TreeExpansion {
    pub key: String,
    pub expanded: bool,
}

/// Asks JavaScript for the children of a lazy branch.
#[derive(Debug)]
pub struct TreeLoadRequest {
    pub key: String,
    pub request_id: u32,
    pub data_revision: u32,
}

/// Answers the outstanding request for a branch.
#[derive(Debug)]
pub struct TreeLoadCompletion {
    pub key: String,
    pub request_id: u32,
}

/// The deepest level a node may sit at is `MAX_TREE_DEPTH - 1`.
pub const MAX_TREE_DEPTH: usize = 48;

/// The most nodes a tree may hold.
pub const MAX_TREE_NODES: usize = 100_000;

/// The nodes of a forest in document order (each node before its
/// children, siblings in order), each with its depth.
pub open spec fn flatten(nodes: Seq<TreeNode>, depth: nat) -> Seq<(TreeNode, nat)>
    decreases nodes, 1int,
{
    if nodes.len() == 0 {
        Seq::empty()
    } else {
        flatten(nodes.drop_last(), depth) + node_entries(nodes.last(), depth)
    }
}

/// A node followed by its descendants, in document order.
pub open spec fn node_entries(node: TreeNode, depth: nat) -> Seq<(TreeNode, nat)>
    decreases node, 0int,
{
    seq![(node, depth)] + flatten(node.children@, depth + 1)
}

/// The keys of a run of entries.
pub open spec fn keys_of(entries: Seq<(TreeNode, nat)>) -> Seq<Seq<char>> {
    entries.map_values(|e: (TreeNode, nat)| e.0.key@)
}

pub open spec fn key_message() -> Seq<char> {
    "tree requires at most 100000 nonempty, globally unique keys"@
}

pub open spec fn unloaded_message() -> Seq<char> {
    "an unloaded node requires hasChildren"@
}

pub open spec fn depth_message() -> Seq<char> {
    "tree depth may not exceed 48"@
}

/// What is wrong with the `i`-th entry, given the entries before it: an
/// empty, repeated or excess key; an unloaded node without children; or a
/// node so deep that its children would pass the depth limit.
pub open spec fn entry_problem(entries: Seq<(TreeNode, nat)>, i: int) -> Option<Seq<char>> {
    let node = entries[i].0;
    let depth = entries[i].1;
    if node.key@.len() == 0 || keys_of(entries.take(i)).contains(node.key@) || i
        >= MAX_TREE_NODES {
        Some(key_message())
    } else if !node.has_children && !node.children_loaded {
        Some(unloaded_message())
    } else if depth >= MAX_TREE_DEPTH {
        Some(depth_message())
    } else {
        None
    }
}

/// The problem of the first entry that has one.
pub open spec fn forest_problem(entries: Seq<(TreeNode, nat)>) -> Option<Seq<char>>
    decreases entries.len(),
{
    if entries.len() == 0 {
        None
    } else {
        match forest_problem(entries.drop_last()) {
            Some(m) => Some(m),
            None => entry_problem(entries, entries.len() - 1),
        }
    }
}

/// The outcome of checking a tree's nodes and its selected key.
pub open spec fn tree_problem(nodes: Seq<TreeNode>, selected_key: Option<Seq<char>>) -> Option<
    Seq<char>,
> {
    let entries = flatten(nodes, 0);
    match forest_problem(entries) {
        Some(m) => Some(m),
        None => match selected_key {
            Some(k) => if keys_of(entries).contains(k) {
                None
            } else {
                Some("tree selectedKey must exist in nodes"@)
            },
            None => None,
        },
    }
}

/// Flattening a concatenation concatenates the flattenings.
pub proof fn lemma_flatten_append(a: Seq<TreeNode>, b: Seq<TreeNode>, depth: nat)
    ensures
        flatten(a + b, depth) == flatten(a, depth) + flatten(b, depth),
    decreases b.len(),
{
    if b.len() == 0 {
        assert(a + b =~= a);
        assert(flatten(a, depth) + flatten(b, depth) =~= flatten(a, depth));
    } else {
        assert((a + b).drop_last() =~= a + b.drop_last());
        assert((a + b).last() == b.last());
        lemma_flatten_append(a, b.drop_last(), depth);
        assert(flatten(a + b, depth) =~= flatten(a, depth) + flatten(b, depth));
    }
}

/// Appending entries after a problem keeps that problem first; appending
/// entries without problems keeps a run free of them.
pub proof fn lemma_problem_extends(s: Seq<(TreeNode, nat)>, t: Seq<(TreeNode, nat)>)
    requires
        forest_problem(s) is Some,
    ensures
        forest_problem(s + t) == forest_problem(s),
    decreases t.len(),
{
    if t.len() == 0 {
        assert(s + t =~= s);
    } else {
        assert((s + t).drop_last() =~= s + t.drop_last());
        lemma_problem_extends(s, t.drop_last());
    }
}

/// The first entry's problem, when a run had none before it.
proof fn lemma_problem_at(s: Seq<(TreeNode, nat)>, e: (TreeNode, nat), t: Seq<(TreeNode, nat)>)
    requires
        forest_problem(s) is None,
        entry_problem(s.push(e), s.len() as int) is Some,
    ensures
        forest_problem(s.push(e) + t) == entry_problem(s.push(e), s.len() as int),
{
    assert(s.push(e).drop_last() =~= s);
    lemma_problem_extends(s.push(e), t);
}

/// Checks the nodes of one sibling list at `depth`, after the entries
/// `before` were checked without problems and their keys collected in `seen`.
fn check_nodes(
    nodes: &Vec<TreeNode>,
    depth: usize,
    seen: &mut KeySet,
    Ghost(before): Ghost<Seq<(TreeNode, nat)>>,
) -> (r: Result<(), String>)
    requires
        depth <= MAX_TREE_DEPTH,
        forest_problem(before) is None,
        old(seen).sorted(),
        old(seen).view() == keys_of(before).to_set(),
        old(seen).keys@.len() == before.len(),
    ensures
        ({
            let all = before + flatten(nodes@, depth as nat);
            match r {
                Ok(()) => forest_problem(all) is None && final(seen).sorted() && final(seen).view()
                    == keys_of(all).to_set() && final(seen).keys@.len() == all.len(),
                Err(m) => forest_problem(all) == Some(m@),
            }
        }),
    decreases nodes@,
{
    let ghost all = before + flatten(nodes@, depth as nat);
    let mut i: usize = 0;
    while i < nodes.len()
        invariant
            i <= nodes@.len(),
            depth <= MAX_TREE_DEPTH,
            all == before + flatten(nodes@, depth as nat),
            forest_problem(before + flatten(nodes@.take(i as int), depth as nat)) is None,
            seen.sorted(),
            seen.view() == keys_of(before + flatten(nodes@.take(i as int), depth as nat)).to_set(),
            seen.keys@.len() == (before + flatten(nodes@.take(i as int), depth as nat)).len(),
        decreases nodes@.len() - i,
    {
        let ghost cur = before + flatten(nodes@.take(i as int), depth as nat);
        let node = &nodes[i];
        let ghost e = (*node, depth as nat);
        let ghost rest = flatten(node.children@, depth as nat + 1) + flatten(
            nodes@.skip(i as int + 1),
            depth as nat,
        );
        proof {
            assert(nodes@.take(i as int + 1).drop_last() =~= nodes@.take(i as int));
            assert(nodes@.take(i as int + 1).last() == *node);
            assert(nodes@ =~= nodes@.take(i as int + 1) + nodes@.skip(i as int + 1));
            lemma_flatten_append(nodes@.take(i as int + 1), nodes@.skip(i as int + 1), depth as nat);
            assert(flatten(nodes@.take(i as int + 1), depth as nat) == flatten(
                nodes@.take(i as int),
                depth as nat,
            ) + node_entries(*node, depth as nat));
            assert(node_entries(*node, depth as nat) == seq![e] + flatten(
                node.children@,
                depth as nat + 1,
            ));
            assert(all =~= cur.push(e) + rest);
            assert(cur.push(e).take(cur.len() as int) =~= cur);
            assert(cur.push(e)[cur.len() as int] == e);
        }
        let key = chars_of(node.key.as_str());
        let dup = seen.contains(&key);
        proof {
            assert(keys_of(cur).to_set().contains(node.key@) == keys_of(cur).contains(node.key@));
            assert(keys_of(cur.push(e).take(cur.len() as int)) == keys_of(cur));
        }
        if node.key.unicode_len() == 0 || dup || seen.keys.len() >= MAX_TREE_NODES {
            proof {
                lemma_problem_at(cur, e, rest);
            }
            return Err(String::from_str("tree requires at most 100000 nonempty, globally unique keys"));
        }
        if !node.has_children && !node.children_loaded {
            proof {
                lemma_problem_at(cur, e, rest);
            }
            return Err(String::from_str("an unloaded node requires hasChildren"));
        }
        if depth >= MAX_TREE_DEPTH {
            proof {
                lemma_problem_at(cur, e, rest);
            }
            return Err(String::from_str("tree depth may not exceed 48"));
        }
        let ghost next = cur.push(e);
        proof {
            assert(next.drop_last() =~= cur);
            assert(forest_problem(next) is None);
        }
        seen.insert(key);
        proof {
            assert(keys_of(next) =~= keys_of(cur).push(node.key@));
            keys_of(cur).lemma_push_to_set_commute(node.key@);
            assert(decreases_to!(nodes@ => nodes@[i as int]));
        }
        let checked = check_nodes(&node.children, depth + 1, seen, Ghost(next));
        proof {
            assert(next + flatten(node.children@, depth as nat + 1) =~= before + flatten(
                nodes@.take(i as int + 1),
                depth as nat,
            ));
        }
        if let Err(m) = checked {
            proof {
                lemma_problem_extends(
                    before + flatten(nodes@.take(i as int + 1), depth as nat),
                    flatten(nodes@.skip(i as int + 1), depth as nat),
                );
                assert(all =~= before + flatten(nodes@.take(i as int + 1), depth as nat) + flatten(
                    nodes@.skip(i as int + 1),
                    depth as nat,
                ));
            }
            return Err(m);
        }
        i = i + 1;
    }
    proof {
        assert(nodes@.take(nodes@.len() as int) =~= nodes@);
    }
    Ok(())
}

/// Checks a tree's nodes and selected key. Keys are nonempty and unique
/// across the tree, at most 100000 of them; a node whose children are not
/// loaded must say it has children; no node sits deeper than level 47; and
/// a selected key must be one of the tree's keys. The first problem in
/// document order is reported.
pub fn validate_tree(nodes: &Vec<TreeNode>, selected_key: &Option<String>) -> (r: Result<
    (),
    String,
>)
    ensures
        ({
            let selected = match selected_key {
                Some(k) => Some(k@),
                None => None,
            };
            match r {
                Ok(()) => tree_problem(nodes@, selected) is None,
                Err(m) => tree_problem(nodes@, selected) == Some(m@),
            }
        }),
{
    let mut seen = KeySet::new();
    proof {
        assert(keys_of(Seq::empty()).to_set() =~= Set::<Seq<char>>::empty());
        assert(Seq::<(TreeNode, nat)>::empty() + flatten(nodes@, 0) =~= flatten(nodes@, 0));
    }
    check_nodes(nodes, 0, &mut seen, Ghost(Seq::empty()))?;
    if let Some(k) = selected_key {
        let key = chars_of(k.as_str());
        if !seen.contains(&key) {
            return Err(String::from_str("tree selectedKey must exist in nodes"));
        }
    }
    Ok(())
}

/// Without a first problem, no entry has one.
proof fn lemma_no_problem_anywhere(entries: Seq<(TreeNode, nat)>, i: int)
    requires
        forest_problem(entries) is None,
        0 <= i < entries.len(),
    ensures
        entry_problem(entries, i) is None,
    decreases entries.len(),
{
    if i < entries.len() - 1 {
        lemma_no_problem_anywhere(entries.drop_last(), i);
        assert(entries.drop_last().take(i) =~= entries.take(i));
        assert(entries.drop_last()[i] == entries[i]);
    }
}

/// A tree that passes validation has at most 100000 nodes, each with a
/// nonempty key used nowhere else in the tree, sitting above level 48, and
/// announcing children whenever they are not loaded; a selected key is
/// one of its keys.
pub proof fn law_accepted_tree_is_bounded(nodes: Seq<TreeNode>, selected: Option<Seq<char>>)
    requires
        tree_problem(nodes, selected) is None,
    ensures
        flatten(nodes, 0).len() <= MAX_TREE_NODES,
        forall|i: int|
            0 <= i < flatten(nodes, 0).len() ==> {
                let (n, d) = #[trigger] flatten(nodes, 0)[i];
                &&& n.key@.len() > 0
                &&& d < MAX_TREE_DEPTH
                &&& (n.has_children || n.children_loaded)
            },
        forall|i: int, j: int|
            0 <= i < j < flatten(nodes, 0).len() ==> (#[trigger] flatten(nodes, 0)[i]).0.key@
                != (#[trigger] flatten(nodes, 0)[j]).0.key@,
        selected matches Some(k) ==> keys_of(flatten(nodes, 0)).contains(k),
{
    let e = flatten(nodes, 0);
    assert forall|i: int| 0 <= i < e.len() implies {
        let (n, d) = #[trigger] e[i];
        &&& n.key@.len() > 0
        &&& d < MAX_TREE_DEPTH
        &&& (n.has_children || n.children_loaded)
    } by {
        lemma_no_problem_anywhere(e, i);
    }
    if e.len() > MAX_TREE_NODES {
        lemma_no_problem_anywhere(e, MAX_TREE_NODES as int);
    }
    assert forall|i: int, j: int| 0 <= i < j < e.len() implies (#[trigger] e[i]).0.key@
        != (#[trigger] e[j]).0.key@ by {
        lemma_no_problem_anywhere(e, j);
        assert(keys_of(e.take(j))[i] == e[i].0.key@);
    }
}

/// Whether an update of a controlled tree selects its new `selected_key`:
/// the key or the acknowledgement changed, and either a first selection
/// arrives or the props acknowledge every selection the view reported.
pub open spec fn selected_key_applies(
    edit_seq: u32,
    old_key: Option<Seq<char>>,
    old_ack: u32,
    key: Option<Seq<char>>,
    ack: u32,
) -> bool {
    &&& (key != old_key || ack != old_ack)
    &&& ((old_key is None && key is Some) || ack >= edit_seq)
}

pub open spec fn key_view(k: Option<String>) -> Option<Seq<char>> {
    match k {
        Some(s) => Some(s@),
        None => None,
    }
}

pub fn applies_selected_key(
    edit_seq: u32,
    old_key: &Option<String>,
    old_ack: u32,
    key: &Option<String>,
    ack: u32,
) -> (r: bool)
    ensures
        r == selected_key_applies(edit_seq, key_view(*old_key), old_ack, key_view(*key), ack),
{
    let same = match (key, old_key) {
        (None, None) => true,
        (Some(a), Some(b)) => same_text(a.as_str(), b.as_str()),
        _ => false,
    };
    (!same || ack != old_ack) && ((old_key.is_none() && key.is_some()) || ack >= edit_seq)
}

/// The branch requests a tree has sent and not yet seen answered, and the
/// number of the last request.
#[derive(Debug)]
pub struct BranchRequests {
    pub request_seq: u32,
    pub pending: Vec<(String, u32)>,
}

/// The outstanding requests as (key, request id) pairs.
pub open spec fn requests_view(p: Seq<(String, u32)>) -> Seq<(Seq<char>, u32)> {
    p.map_values(|e: (String, u32)| (e.0@, e.1))
}

/// Whether a request for `key` is outstanding.
pub open spec fn has_request(p: Seq<(Seq<char>, u32)>, key: Seq<char>) -> bool {
    exists|i: int| 0 <= i < p.len() && (#[trigger] p[i]).0 == key
}

impl BranchRequests {
    /// At most one outstanding request per branch, each numbered at most
    /// the last request number.
    pub open spec fn well_formed(&self) -> bool {
        let p = requests_view(self.pending@);
        &&& forall|i: int, j: int| 0 <= i < j < p.len() ==> (#[trigger] p[i]).0 != (#[trigger] p[j]).0
        &&& forall|i: int| 0 <= i < p.len() ==> 1 <= (#[trigger] p[i]).1 <= self.request_seq
    }

    pub fn new() -> (r: BranchRequests)
        ensures
            r.well_formed(),
            r.request_seq == 0,
            r.pending@.len() == 0,
    {
        BranchRequests { request_seq: 0, pending: Vec::new() }
    }

    /// The position of the outstanding request for `key`.
    fn find(&self, key: &str) -> (r: Option<usize>)
        ensures
            match r {
                Some(i) => i < self.pending@.len() && self.pending@[i as int].0@ == key@,
                None => !has_request(requests_view(self.pending@), key@),
            },
    {
        let mut i: usize = 0;
        while i < self.pending.len()
            invariant
                i <= self.pending@.len(),
                forall|j: int| 0 <= j < i ==> (#[trigger] requests_view(self.pending@)[j]).0 != key@,
            decreases self.pending@.len() - i,
        {
            if same_text(self.pending[i].0.as_str(), key) {
                return Some(i);
            }
            i = i + 1;
        }
        None
    }

    /// Asks for the children of branch `key` when it is an unloaded branch,
    /// no request for it is outstanding and JavaScript listens for requests.
    /// The request carries the next request number and the tree's data
    /// revision.
    pub fn request(
        &mut self,
        key: &str,
        unloaded: bool,
        subscribed: bool,
        data_revision: u32,
    ) -> (r: Option<TreeLoadRequest>)
        requires
            old(self).well_formed(),
            unloaded && subscribed && !has_request(requests_view(old(self).pending@), key@)
                ==> old(self).request_seq < u32::MAX,
        ensures
            final(self).well_formed(),
            if unloaded && subscribed && !has_request(requests_view(old(self).pending@), key@) {
                &&& r matches Some(q)
                &&& q.key@ == key@
                &&& q.request_id == old(self).request_seq + 1
                &&& q.data_revision == data_revision
                &&& final(self).request_seq == old(self).request_seq + 1
                &&& requests_view(final(self).pending@) == requests_view(old(self).pending@).push(
                    (key@, q.request_id),
                )
            } else {
                &&& r is None
                &&& final(self).request_seq == old(self).request_seq
                &&& requests_view(final(self).pending@) == requests_view(old(self).pending@)
            },
    {
        if !unloaded || !subscribed {
            return None;
        }
        if let Some(i) = self.find(key) {
            assert(requests_view(self.pending@)[i as int].0 == key@);
            return None;
        }
        let ghost before = requests_view(self.pending@);
        self.request_seq = self.request_seq + 1;
        let id = self.request_seq;
        self.pending.push((String::from_str(key), id));
        proof {
            assert(requests_view(self.pending@) =~= before.push((key@, id)));
            assert forall|i: int| 0 <= i < before.len() implies (#[trigger] before[i]).0 != key@ by {
                if before[i].0 == key@ {
                    assert(has_request(before, key@));
                }
            }
        }
        Some(TreeLoadRequest { key: String::from_str(key), request_id: id, data_revision })
    }

    /// Accepts the answer to the outstanding request it names and retires
    /// that request; any other answer is refused and changes nothing.
    pub fn finish(&mut self, completion: &TreeLoadCompletion) -> (r: Result<(), String>)
        requires
            old(self).well_formed(),
        ensures
            final(self).well_formed(),
            final(self).request_seq == old(self).request_seq,
            match r {
                Ok(()) => exists|i: int|
                    0 <= i < old(self).pending@.len()
                    && #[trigger] requests_view(old(self).pending@)[i] == (completion.key@, completion.request_id)
                    && requests_view(final(self).pending@) == requests_view(old(self).pending@).remove(i),
                Err(m) => !requests_view(old(self).pending@).contains((completion.key@, completion.request_id))
                    && requests_view(final(self).pending@) == requests_view(old(self).pending@)
                    && m@ == "tree response does not match the outstanding branch request"@,
            },
    {
        let ghost before = requests_view(self.pending@);
        match self.find(completion.key.as_str()) {
            Some(i) => {
                if self.pending[i].1 == completion.request_id {
                    self.pending.remove(i);
                    proof {
                        assert(requests_view(self.pending@) =~= before.remove(i as int));
                        assert(before[i as int] == (completion.key@, completion.request_id));
                    }
                    Ok(())
                } else {
                    proof {
                        if before.contains((completion.key@, completion.request_id)) {
                            let j = choose|j: int| 0 <= j < before.len() && before[j] == (completion.key@, completion.request_id);
                            assert(before[i as int].0 == completion.key@);
                            if j != i {
                                if j < i {
                                    assert(before[j].0 != before[i as int].0);
                                } else {
                                    assert(before[i as int].0 != before[j].0);
                                }
                            }
                        }
                    }
                    Err(String::from_str("tree response does not match the outstanding branch request"))
                }
            },
            None => {
                proof {
                    if before.contains((completion.key@, completion.request_id)) {
                        let j = choose|j: int| 0 <= j < before.len() && before[j] == (completion.key@, completion.request_id);
                        assert(has_request(before, completion.key@));
                    }
                }
                Err(String::from_str("tree response does not match the outstanding branch request"))
            },
        }
    }
}

/// The outstanding requests whose branch is among `live`, in order.
pub open spec fn live_requests(p: Seq<(Seq<char>, u32)>, live: Seq<Seq<char>>) -> Seq<(Seq<char>, u32)> {
    p.filter(|e: (Seq<char>, u32)| declares(live, e.0))
}

impl BranchRequests {
    /// After new nodes arrive, forgets the requests whose branch is no
    /// longer among the tree's keys `live`; the request number stays.
    pub fn retain_live(&mut self, live: &Vec<String>)
        requires
            old(self).well_formed(),
        ensures
            final(self).well_formed(),
            final(self).request_seq == old(self).request_seq,
            requests_view(final(self).pending@) == live_requests(
                requests_view(old(self).pending@),
                texts(live@),
            ),
    {
        let ghost before = requests_view(self.pending@);
        let ghost names = texts(live@);
        let mut kept: Vec<(String, u32)> = Vec::new();
        let mut i: usize = 0;
        while i < self.pending.len()
            invariant
                i <= self.pending@.len(),
                before == requests_view(self.pending@),
                names == texts(live@),
                self.well_formed(),
                requests_view(kept@) == live_requests(before.take(i as int), names),
                forall|k: int|
                    0 <= k < kept@.len() ==> exists|j: int|
                        0 <= j < i && #[trigger] requests_view(kept@)[k] == before[j],
                forall|a: int, b: int|
                    0 <= a < b < kept@.len() ==> (#[trigger] requests_view(kept@)[a]).0
                        != (#[trigger] requests_view(kept@)[b]).0,
            decreases self.pending@.len() - i,
        {
            let id = self.pending[i].1;
            let found = position_in(live, self.pending[i].0.as_str());
            let ghost old_kept = requests_view(kept@);
            let ghost e = before[i as int];
            proof {
                reveal(Seq::filter);
                assert(before.take(i + 1).drop_last() =~= before.take(i as int));
                assert(before.take(i + 1).last() == e);
            }
            if found.is_some() {
                let c = String::from_str(self.pending[i].0.as_str());
                kept.push((c, id));
                proof {
                    assert(declares(names, e.0)) by {
                        let q = found.unwrap() as int;
                        assert(names[q] == e.0);
                    }
                    assert(requests_view(kept@) =~= old_kept.push(e));
                    assert forall|a: int, b: int|
                        0 <= a < b < kept@.len() implies (#[trigger] requests_view(kept@)[a]).0
                        != (#[trigger] requests_view(kept@)[b]).0 by {
                        if b == kept@.len() - 1 {
                            let j = choose|j: int| 0 <= j < i && #[trigger] old_kept[a] == before[j];
                            assert(requests_view(kept@)[a] == old_kept[a]);
                            assert(before[j].0 != before[i as int].0);
                        } else {
                            assert(requests_view(kept@)[a] == old_kept[a]);
                            assert(requests_view(kept@)[b] == old_kept[b]);
                        }
                    }
                    assert forall|k: int| 0 <= k < kept@.len() implies exists|j: int|
                        0 <= j < i + 1 && #[trigger] requests_view(kept@)[k] == before[j] by {
                        if k == kept@.len() - 1 {
                            assert(requests_view(kept@)[k] == before[i as int]);
                        } else {
                            assert(requests_view(kept@)[k] == old_kept[k]);
                            let j = choose|j: int| 0 <= j < i && #[trigger] old_kept[k] == before[j];
                            assert(requests_view(kept@)[k] == before[j]);
                        }
                    }
                }
            } else {
                proof {
                    assert(!declares(names, e.0));
                }
            }
            i = i + 1;
        }
        proof {
            assert(before.take(before.len() as int) =~= before);
            assert forall|k: int| 0 <= k < requests_view(kept@).len() implies
                1 <= (#[trigger] requests_view(kept@)[k]).1 <= self.request_seq by {
                let j = choose|j: int| 0 <= j < i && #[trigger] requests_view(kept@)[k] == before[j];
                assert(before[j] == requests_view(self.pending@)[j]);
            }
        }
        self.pending = kept;
    }
}

/// The expansion that a reconciled node imposes on its row: a node that
/// states `expanded` imposes it when the row is new or the stated value
/// changed since the last nodes; otherwise the row keeps what the user did.
/// `previously` is the value the last nodes stated for the key, if the key
/// was there.
pub fn expansion_to_apply(
    existed: bool,
    previously: Option<Option<bool>>,
    stated: Option<bool>,
) -> (r: Option<bool>)
    ensures
        r == (if stated is Some && (!existed || previously is None || previously
            != Some(stated)) {
            stated
        } else {
            None
        }),
{
    match stated {
        Some(e) => {
            let changed = match previously {
                None => true,
                Some(p) => p != stated,
            };
            if !existed || changed {
                Some(e)
            } else {
                None
            }
        },
        None => None,
    }
}

/// Appends the keys of `nodes` and their descendants, in document order.
fn collect_keys(nodes: &Vec<TreeNode>, Ghost(depth): Ghost<nat>, out: &mut Vec<String>)
    ensures
        texts(final(out)@) == texts(old(out)@) + keys_of(flatten(nodes@, depth)),
    decreases nodes@,
{
    let mut i: usize = 0;
    while i < nodes.len()
        invariant
            i <= nodes@.len(),
            texts(out@) == texts(old(out)@) + keys_of(flatten(nodes@.take(i as int), depth)),
        decreases nodes@.len() - i,
    {
        let node = &nodes[i];
        let ghost prev = texts(out@);
        proof {
            assert(nodes@.take(i as int + 1).drop_last() =~= nodes@.take(i as int));
            assert(nodes@.take(i as int + 1).last() == *node);
            assert(decreases_to!(nodes@ => nodes@[i as int]));
        }
        out.push(String::from_str(node.key.as_str()));
        proof {
            assert(texts(out@) =~= prev.push(node.key@));
        }
        let ghost mid = texts(out@);
        collect_keys(&node.children, Ghost(depth + 1), out);
        proof {
            let f = flatten(nodes@.take(i as int), depth);
            let g = flatten(node.children@, depth + 1);
            assert(flatten(nodes@.take(i as int + 1), depth) == f + node_entries(*node, depth));
            assert(node_entries(*node, depth) == seq![(*node, depth)] + g);
            assert(keys_of(f + (seq![(*node, depth)] + g)) =~= keys_of(f).push(node.key@) + keys_of(g));
            assert(texts(out@) =~= texts(old(out)@) + keys_of(flatten(nodes@.take(i as int + 1), depth)));
        }
        i = i + 1;
    }
    assert(nodes@.take(nodes@.len() as int) =~= nodes@);
}

/// The keys of every node of a forest, in document order.
pub fn tree_keys(nodes: &Vec<TreeNode>) -> (r: Vec<String>)
    ensures
        texts(r@) == keys_of(flatten(nodes@, 0)),
{
    let mut out: Vec<String> = Vec::new();
    collect_keys(nodes, Ghost(0), &mut out);
    assert(texts(Seq::<String>::empty()) + keys_of(flatten(nodes@, 0)) =~= keys_of(flatten(nodes@, 0)));
    out
}

/// The target of a `reveal` command: a key of the tree.
pub fn check_reveal(keys: &Vec<String>, key: &str) -> (r: Result<(), String>)
    ensures
        match r {
            Ok(()) => declares(texts(keys@), key@),
            Err(m) => !declares(texts(keys@), key@) && m@ == "tree key does not exist"@,
        },
{
    match position_in(keys, key) {
        Some(i) => {
            assert(texts(keys@)[i as int] == key@);
            Ok(())
        },
        None => Err(String::from_str("tree key does not exist")),
    }
}

/// A branch answer is accepted once: after its request is retired, the
/// same answer is refused.
pub proof fn law_completion_accepted_once(
    before: Seq<(Seq<char>, u32)>,
    i: int,
    key: Seq<char>,
    request_id: u32,
)
    requires
        forall|a: int, b: int| 0 <= a < b < before.len() ==> (#[trigger] before[a]).0 != (#[trigger] before[b]).0,
        0 <= i < before.len(),
        before[i] == (key, request_id),
    ensures
        !before.remove(i).contains((key, request_id)),
{
    let after = before.remove(i);
    if after.contains((key, request_id)) {
        let j = choose|j: int| 0 <= j < after.len() && after[j] == (key, request_id);
        if j < i {
            assert(after[j] == before[j]);
        } else {
            assert(after[j] == before[j + 1]);
        }
    }
}

/// Answering a request undoes it: when a branch without an outstanding
/// request is asked for and that request is then answered, the outstanding
/// requests are what they were before.
pub proof fn law_answer_undoes_request(
    before: Seq<(Seq<char>, u32)>,
    key: Seq<char>,
    request_id: u32,
    i: int,
)
    requires
        !has_request(before, key),
        0 <= i < before.len() + 1,
        before.push((key, request_id))[i] == (key, request_id),
    ensures
        before.push((key, request_id)).remove(i) == before,
{
    if i < before.len() {
        assert(before[i].0 == key);
        assert(has_request(before, key));
    }
    assert(before.push((key, request_id)).remove(i) =~= before);
}

} // verus!
