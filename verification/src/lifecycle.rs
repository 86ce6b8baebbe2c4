//! Application lifetime and acknowledged activation delivery, independent of
//! windows.
//!
//! Activations (launch, reopen, opened URLs) wait until the renderer has
//! configured a generation, are replayed to every new generation until the
//! renderer acknowledges them, and retire only after that acknowledgement.
use vstd::prelude::*;
use crate::text::{byte_len, bytes_at_most, chars_of, is_control, is_control_spec, owned, same_text};

verus! {

broadcast use vstd::string::group_string_axioms;

/// At most this many activations wait for acknowledgement.
pub const MAX_PENDING_ACTIVATIONS: usize = 32;
/// At most this many URLs travel with one activation.
pub const MAX_ACTIVATION_URLS: usize = 64;
/// At most this many bytes make one activation URL.
pub const MAX_ACTIVATION_URL_BYTES: usize = 4096;

/// One activation of the application, with its delivery state.
#[derive(Debug)]
pub struct Activation {
    pub sequence: u32,
    pub reason: &'static str,
    pub urls: Vec<String>,
    sent_epoch: u32,
}

/// What an activation holds, as plain values.
pub struct ActivationView {
    pub sequence: u32,
    pub reason: Seq<char>,
    pub urls: Seq<Seq<char>>,
    pub sent_epoch: u32,
}

impl Activation {
    pub closed spec fn sent_epoch_spec(&self) -> u32 {
        self.sent_epoch
    }

    pub closed spec fn urls_view(&self) -> Seq<Seq<char>> {
        self.urls@.map_values(|u: String| u@)
    }

    pub closed spec fn model(&self) -> ActivationView {
        ActivationView {
            sequence: self.sequence,
            reason: self.reason@,
            urls: self.urls_view(),
            sent_epoch: self.sent_epoch_spec(),
        }
    }

    /// Whether delivering this activation brings the application window to
    /// the front: every activation but the launch does.
    pub fn raises_window(&self) -> (r: bool)
        ensures
            r == (self.model().reason != "launch"@),
    {
        !crate::text::same_text(self.reason, "launch")
    }

    /// A copy with the same sequence, reason, URLs and delivery state.
    pub fn duplicate(&self) -> (r: Activation)
        ensures
            r.model() == self.model(),
    {
        let mut urls: Vec<String> = Vec::new();
        let mut i: usize = 0;
        while i < self.urls.len()
            invariant
                i <= self.urls@.len(),
                urls@.len() == i,
                forall|j: int| 0 <= j < i ==> (#[trigger] urls@[j])@ == self.urls@[j]@,
            decreases self.urls@.len() - i,
        {
            urls.push(self.urls[i].clone());
            i = i + 1;
        }
        let r = Activation {
            sequence: self.sequence,
            reason: self.reason,
            urls,
            sent_epoch: self.sent_epoch,
        };
        assert(r.urls_view() =~= self.urls_view());
        r
    }
}

/// The three reasons an application is activated.
pub open spec fn known_reason(reason: Seq<char>) -> bool {
    reason == "launch"@ || reason == "reopen"@ || reason == "open-urls"@
}

/// A URL is nonempty, at most 4096 bytes, and free of control characters.
pub open spec fn safe_url(url: Seq<char>) -> bool {
    &&& url.len() > 0
    &&& byte_len(url) <= MAX_ACTIVATION_URL_BYTES
    &&& forall|i: int| 0 <= i < url.len() ==> !is_control_spec(#[trigger] url[i])
}

/// The activations `enqueue` accepts: a known reason, URLs exactly when the
/// reason is `open-urls`, at most 64 of them, each safe.
pub open spec fn valid_activation(reason: Seq<char>, urls: Seq<Seq<char>>) -> bool {
    &&& known_reason(reason)
    &&& (reason == "open-urls"@) == (urls.len() > 0)
    &&& urls.len() <= MAX_ACTIVATION_URLS
    &&& forall|i: int| 0 <= i < urls.len() ==> safe_url(#[trigger] urls[i])
}

/// The activations of `queue` with sequence greater than `acknowledged`, in order.
pub open spec fn unacknowledged(queue: Seq<ActivationView>, acknowledged: u32) -> Seq<
    ActivationView,
> {
    queue.filter(|a: ActivationView| a.sequence > acknowledged)
}

/// The activations of `queue` not yet sent in generation `epoch`, in order.
pub open spec fn unsent(queue: Seq<ActivationView>, epoch: u32) -> Seq<ActivationView> {
    queue.filter(|a: ActivationView| a.sent_epoch != epoch)
}

/// What `pending` hands out: nothing before the first generation, then the
/// activations not yet sent in the current generation, oldest first.
pub open spec fn deliverable(v: LifecycleView) -> Seq<ActivationView> {
    if v.epoch == 0 {
        Seq::<ActivationView>::empty()
    } else {
        unsent(v.queue, v.epoch)
    }
}

/// Sequences strictly increase along the queue.
pub open spec fn increasing(queue: Seq<ActivationView>) -> bool {
    forall|i: int, j: int|
        0 <= i < j < queue.len() ==> (#[trigger] queue[i]).sequence < (#[trigger] queue[j]).sequence
}

/// Activation delivery state of one application.
pub struct ApplicationLifecycle {
    pub epoch: u32,
    pub keep_alive: bool,
    pub next_sequence: u32,
    pub acknowledged: u32,
    pub sent_sequence: u32,
    pub pending: Vec<Activation>,
}

/// What the delivery state holds, as plain values.
pub struct LifecycleView {
    pub epoch: u32,
    pub keep_alive: bool,
    pub next_sequence: u32,
    pub acknowledged: u32,
    pub sent_sequence: u32,
    pub queue: Seq<ActivationView>,
}

/// The invariant of the delivery state: sequences were issued in order,
/// every queued activation is unacknowledged, valid and not sent in a future
/// generation, and at most 32 activations wait.
pub open spec fn state_wf(v: LifecycleView) -> bool {
    &&& v.next_sequence >= 1
        &&& v.acknowledged <= v.sent_sequence
        &&& v.sent_sequence < v.next_sequence
        &&& v.queue.len() <= MAX_PENDING_ACTIVATIONS
        &&& increasing(v.queue)
        &&& forall|i: int|
            0 <= i < v.queue.len() ==> {
                &&& v.acknowledged < (#[trigger] v.queue[i]).sequence
                &&& v.queue[i].sequence < v.next_sequence
                &&& v.queue[i].sent_epoch <= v.epoch
                &&& valid_activation(v.queue[i].reason, v.queue[i].urls)
            }
}

impl ApplicationLifecycle {
    pub open spec fn view_of(&self) -> LifecycleView {
        LifecycleView {
            epoch: self.epoch,
            keep_alive: self.keep_alive,
            next_sequence: self.next_sequence,
            acknowledged: self.acknowledged,
            sent_sequence: self.sent_sequence,
            queue: self.pending@.map_values(|a: Activation| a.model()),
        }
    }

    /// The internal invariant, see `state_wf`.
    pub open spec fn wf(&self) -> bool {
        state_wf(self.view_of())
    }

    /// A fresh state: no generation yet, and the launch activation queued.
    pub fn new() -> (s: ApplicationLifecycle)
        ensures
            s.wf(),
            s.view_of().epoch == 0,
            !s.view_of().keep_alive,
            s.view_of().acknowledged == 0,
            s.view_of().sent_sequence == 0,
            s.view_of().next_sequence == 2,
            s.view_of().queue.len() == 1,
            s.view_of().queue[0].sequence == 1,
            s.view_of().queue[0].reason == "launch"@,
            s.view_of().queue[0].urls.len() == 0,
            s.view_of().queue[0].sent_epoch == 0,
    {
        let mut state = ApplicationLifecycle {
            epoch: 0,
            keep_alive: false,
            next_sequence: 1,
            acknowledged: 0,
            sent_sequence: 0,
            pending: Vec::new(),
        };
        proof {
            reveal_strlit("launch");
            reveal_strlit("open-urls");
            assert("launch"@.len() == 6);
            assert("open-urls"@.len() == 9);
            assert("launch"@ != "open-urls"@);
            assert(known_reason("launch"@));
            assert(state.view_of().queue =~= Seq::<ActivationView>::empty());
            assert(valid_activation("launch"@, Seq::<Seq<char>>::empty()));
        }
        let r = state.enqueue("launch", Vec::new());
        assert(r is Ok);
        state
    }

    /// Checks the request part of an activation.
    fn valid_request(reason: &'static str, urls: &Vec<String>) -> (r: bool)
        ensures
            r == valid_activation(reason@, urls@.map_values(|u: String| u@)),
    {
        let ghost uv = urls@.map_values(|u: String| u@);
        let open_urls = same_text(reason, "open-urls");
        let known = same_text(reason, "launch") || same_text(reason, "reopen") || open_urls;
        if !known || open_urls == (urls.len() == 0) || urls.len() > MAX_ACTIVATION_URLS {
            return false;
        }
        let mut i: usize = 0;
        while i < urls.len()
            invariant
                i <= urls@.len(),
                uv == urls@.map_values(|u: String| u@),
                forall|j: int| 0 <= j < i ==> safe_url(#[trigger] uv[j]),
            decreases urls@.len() - i,
        {
            if !Self::safe_url_exec(&urls[i]) {
                assert(!safe_url(uv[i as int]));
                return false;
            }
            i = i + 1;
        }
        true
    }

    fn safe_url_exec(url: &String) -> (r: bool)
        ensures
            r == safe_url(url@),
    {
        let s = url.as_str();
        let cs = chars_of(s);
        if cs.len() == 0 || !bytes_at_most(s, MAX_ACTIVATION_URL_BYTES) {
            return false;
        }
        let mut i: usize = 0;
        while i < cs.len()
            invariant
                cs@ == url@,
                i <= cs@.len(),
                forall|j: int| 0 <= j < i ==> !is_control_spec(#[trigger] cs@[j]),
            decreases cs@.len() - i,
        {
            if is_control(cs[i]) {
                return false;
            }
            i = i + 1;
        }
        proof {
            crate::text::lemma_byte_len_bounds(url@);
        }
        true
    }

    /// Queues an activation.
    ///
    /// Fails, leaving the state unchanged, when the reason is unknown, URLs
    /// are present for any reason but `open-urls` (or missing for it), more
    /// than 64 URLs are given or one is unsafe; when 32 activations already
    /// wait; or when the sequence space is exhausted.
    pub fn enqueue(&mut self, reason: &'static str, urls: Vec<String>) -> (r: Result<(), String>)
        requires
            old(self).wf(),
        ensures
            final(self).wf(),
            !valid_activation(reason@, urls@.map_values(|u: String| u@)) ==> {
                &&& r is Err
                &&& r->Err_0@
                    == "activation requires at most 64 safe URLs of at most 4096 bytes"@
                &&& final(self).view_of() == old(self).view_of()
            },
            valid_activation(reason@, urls@.map_values(|u: String| u@))
                && old(self).view_of().queue.len() >= MAX_PENDING_ACTIVATIONS ==> {
                &&& r is Err
                &&& r->Err_0@ == "application activation queue is full"@
                &&& final(self).view_of() == old(self).view_of()
            },
            valid_activation(reason@, urls@.map_values(|u: String| u@))
                && old(self).view_of().queue.len() < MAX_PENDING_ACTIVATIONS
                && old(self).view_of().next_sequence == u32::MAX ==> {
                &&& r is Err
                &&& r->Err_0@ == "application activation sequence exhausted"@
                &&& final(self).view_of() == old(self).view_of()
            },
            r is Ok <==> {
                &&& valid_activation(reason@, urls@.map_values(|u: String| u@))
                &&& old(self).view_of().queue.len() < MAX_PENDING_ACTIVATIONS
                &&& old(self).view_of().next_sequence < u32::MAX
            },
            r is Ok ==> {
                let o = old(self).view_of();
                let n = final(self).view_of();
                &&& n.queue == o.queue.push(
                    ActivationView {
                        sequence: o.next_sequence,
                        reason: reason@,
                        urls: urls@.map_values(|u: String| u@),
                        sent_epoch: 0,
                    },
                )
                &&& n.next_sequence == o.next_sequence + 1
                &&& n.epoch == o.epoch
                &&& n.keep_alive == o.keep_alive
                &&& n.acknowledged == o.acknowledged
                &&& n.sent_sequence == o.sent_sequence
            },
    {
        if !Self::valid_request(reason, &urls) {
            return Err(owned("activation requires at most 64 safe URLs of at most 4096 bytes"));
        }
        if self.pending.len() >= MAX_PENDING_ACTIVATIONS {
            return Err(owned("application activation queue is full"));
        }
        if self.next_sequence == u32::MAX {
            return Err(owned("application activation sequence exhausted"));
        }
        let next = self.next_sequence + 1;
        let ghost old_queue = self.view_of().queue;
        let activation = Activation { sequence: self.next_sequence, reason, urls, sent_epoch: 0 };
        self.pending.push(activation);
        self.next_sequence = next;
        proof {
            assert(self.view_of().queue =~= old_queue.push(activation.model()));
        }
        Ok(())
    }

    /// Applies a renderer generation's configuration.
    ///
    /// A generation older than the current one is ignored (`Ok(false)`). A
    /// zero generation, or an acknowledgement beyond what was sent or behind
    /// the previous acknowledgement, is an error. Otherwise the generation,
    /// keep-alive flag and acknowledgement are recorded, every activation up
    /// to the acknowledgement retires, and the answer is `quit`.
    pub fn configure(&mut self, epoch: u32, keep_alive: bool, quit: bool, acknowledged: u32) -> (r:
        Result<bool, String>)
        requires
            old(self).wf(),
        ensures
            final(self).wf(),
            epoch < old(self).view_of().epoch ==> {
                &&& r == Ok::<bool, String>(false)
                &&& final(self).view_of() == old(self).view_of()
            },
            epoch >= old(self).view_of().epoch && (epoch == 0 || acknowledged
                > old(self).view_of().sent_sequence || acknowledged
                < old(self).view_of().acknowledged) ==> {
                &&& r is Err
                &&& r->Err_0@ == "invalid application generation or activation acknowledgement"@
                &&& final(self).view_of() == old(self).view_of()
            },
            epoch >= old(self).view_of().epoch && epoch != 0 && acknowledged
                <= old(self).view_of().sent_sequence && acknowledged
                >= old(self).view_of().acknowledged ==> {
                let o = old(self).view_of();
                let n = final(self).view_of();
                &&& r == Ok::<bool, String>(quit)
                &&& n.epoch == epoch
                &&& n.keep_alive == keep_alive
                &&& n.acknowledged == acknowledged
                &&& n.queue == unacknowledged(o.queue, acknowledged)
                &&& n.next_sequence == o.next_sequence
                &&& n.sent_sequence == o.sent_sequence
            },
    {
        if epoch < self.epoch {
            return Ok(false);
        }
        if epoch == 0 || acknowledged > self.sent_sequence || acknowledged < self.acknowledged {
            return Err(owned("invalid application generation or activation acknowledgement"));
        }
        let ghost o = self.view_of();
        self.epoch = epoch;
        self.keep_alive = keep_alive;
        self.acknowledged = acknowledged;
        let mut old_pending: Vec<Activation> = Vec::new();
        std::mem::swap(&mut old_pending, &mut self.pending);
        let mut kept: Vec<Activation> = Vec::new();
        let mut i: usize = 0;
        let ghost p = |a: ActivationView| a.sequence > acknowledged;
        let ghost om = old_pending@.map_values(|a: Activation| a.model());
        assert(om == o.queue);
        while i < old_pending.len()
            invariant
                i <= old_pending@.len(),
                om == old_pending@.map_values(|a: Activation| a.model()),
                p == (|a: ActivationView| a.sequence > acknowledged),
                kept@.map_values(|a: Activation| a.model()) == om.take(i as int).filter(p),
            decreases old_pending@.len() - i,
        {
            let ghost before = kept@.map_values(|a: Activation| a.model());
            proof {
                assert(om.take(i as int + 1) =~= om.take(i as int).push(om[i as int]));
                om.take(i as int).lemma_filter_push(om[i as int], p);
            }
            if old_pending[i].sequence > acknowledged {
                let a = old_pending[i].duplicate();
                kept.push(a);
                proof {
                    assert(om[i as int] == old_pending@[i as int].model());
                    assert(p(om[i as int]));
                    assert(kept@.map_values(|a: Activation| a.model()) =~= before.push(om[i as int]));
                    assert(om.take(i as int + 1).filter(p) == before.push(om[i as int]));
                }
            } else {
                proof {
                    assert(om[i as int] == old_pending@[i as int].model());
                    assert(!p(om[i as int]));
                    assert(kept@.map_values(|a: Activation| a.model()) =~= before);
                    assert(om.take(i as int + 1).filter(p) == before);
                }
            }
            i = i + 1;
        }
        proof {
            assert(om.take(old_pending@.len() as int) =~= om);
        }
        self.pending = kept;
        proof {
            let n = self.view_of();
            assert(n.queue == om.filter(p));
            assert forall|x: int| 0 <= x < n.queue.len() implies {
                &&& acknowledged < (#[trigger] n.queue[x]).sequence
                &&& n.queue[x].sequence < n.next_sequence
                &&& n.queue[x].sent_epoch <= n.epoch
                &&& valid_activation(n.queue[x].reason, n.queue[x].urls)
            } by {
                om.lemma_filter_pred(p, x);
                assert(om.filter(p).contains(n.queue[x]));
                om.lemma_filter_contains_rev(p, n.queue[x]);
                let k = choose|k: int| 0 <= k < om.len() && om[k] == n.queue[x];
                assert(o.queue[k] == n.queue[x]);
            }
            Self::lemma_filter_increasing(om, p);
        }
        Ok(quit)
    }

    /// The activations the renderer still has to receive in the current
    /// generation, oldest first. Nothing is delivered before the first
    /// generation is configured.
    pub fn pending(&self) -> (r: Vec<Activation>)
        requires
            self.wf(),
        ensures
            r@.map_values(|a: Activation| a.model()) == deliverable(self.view_of()),
    {
        let mut out: Vec<Activation> = Vec::new();
        if self.epoch == 0 {
            assert(out@.map_values(|a: Activation| a.model()) =~= Seq::<ActivationView>::empty());
            return out;
        }
        let ghost q = self.view_of().queue;
        let ghost epoch = self.epoch;
        let ghost p = |a: ActivationView| a.sent_epoch != epoch;
        let mut i: usize = 0;
        while i < self.pending.len()
            invariant
                i <= self.pending@.len(),
                q == self.pending@.map_values(|a: Activation| a.model()),
                epoch == self.epoch,
                p == (|a: ActivationView| a.sent_epoch != epoch),
                out@.map_values(|a: Activation| a.model()) == q.take(i as int).filter(p),
            decreases self.pending@.len() - i,
        {
            let ghost before = out@.map_values(|a: Activation| a.model());
            proof {
                assert(q.take(i as int + 1) =~= q.take(i as int).push(q[i as int]));
                q.take(i as int).lemma_filter_push(q[i as int], p);
                assert(q[i as int] == self.pending@[i as int].model());
            }
            if self.pending[i].sent_epoch != self.epoch {
                let a = self.pending[i].duplicate();
                out.push(a);
                proof {
                    assert(out@.map_values(|a: Activation| a.model()) =~= before.push(q[i as int]));
                }
            } else {
                proof {
                    assert(out@.map_values(|a: Activation| a.model()) =~= before);
                }
            }
            i = i + 1;
        }
        assert(q.take(i as int) =~= q);
        out
    }

    /// Records that the activation with this sequence was handed to the
    /// renderer in the current generation. Unknown sequences are ignored.
    pub fn sent(&mut self, sequence: u32)
        requires
            old(self).wf(),
        ensures
            final(self).wf(),
            forall|i: int|
                0 <= i < old(self).view_of().queue.len() && (#[trigger] old(self).view_of().queue[i]).sequence
                    == sequence ==> {
                    let o = old(self).view_of();
                    let n = final(self).view_of();
                    &&& n.queue == o.queue.update(
                        i,
                        ActivationView { sent_epoch: o.epoch, ..o.queue[i] },
                    )
                    &&& n.sent_sequence == (if o.sent_sequence >= sequence {
                        o.sent_sequence
                    } else {
                        sequence
                    })
                    &&& n.epoch == o.epoch
                    &&& n.keep_alive == o.keep_alive
                    &&& n.acknowledged == o.acknowledged
                    &&& n.next_sequence == o.next_sequence
                },
            (forall|i: int|
                0 <= i < old(self).view_of().queue.len() ==> (#[trigger] old(self).view_of().queue[i]).sequence
                    != sequence) ==> final(self).view_of() == old(self).view_of(),
    {
        let ghost o = self.view_of();
        let mut i: usize = 0;
        while i < self.pending.len()
            invariant
                i <= self.pending@.len(),
                self.view_of() == o,
                o == old(self).view_of(),
                self.wf(),
                forall|j: int| 0 <= j < i ==> (#[trigger] o.queue[j]).sequence != sequence,
            decreases self.pending@.len() - i,
        {
            if self.pending[i].sequence == sequence {
                proof {
                    assert forall|k: int|
                        0 <= k < o.queue.len() && (#[trigger] o.queue[k]).sequence == sequence implies k
                        == i by {
                        if k < i {
                            assert(o.queue[k].sequence < o.queue[i as int].sequence);
                        } else if k > i {
                            assert(o.queue[i as int].sequence < o.queue[k].sequence);
                        }
                    }
                }
                let epoch = self.epoch;
                let mut a = self.pending.remove(i);
                a.sent_epoch = epoch;
                self.pending.insert(i, a);
                if self.sent_sequence < sequence {
                    self.sent_sequence = sequence;
                }
                proof {
                    let n = self.view_of();
                    assert(n.queue =~= o.queue.update(
                        i as int,
                        ActivationView { sent_epoch: o.epoch, ..o.queue[i as int] },
                    ));
                }
                return;
            }
            i = i + 1;
        }
    }

    proof fn lemma_filter_increasing(q: Seq<ActivationView>, p: spec_fn(ActivationView) -> bool)
        requires
            increasing(q),
        ensures
            increasing(q.filter(p)),
            q.filter(p).len() <= q.len(),
        decreases q.len(),
    {
        reveal(Seq::filter);
        if q.len() > 0 {
            Self::lemma_filter_increasing(q.drop_last(), p);
            assert forall|i: int, j: int|
                0 <= i < j < q.filter(p).len() implies (#[trigger] q.filter(p)[i]).sequence
                < (#[trigger] q.filter(p)[j]).sequence by {
                let f = q.drop_last().filter(p);
                if p(q.last()) && j == q.filter(p).len() - 1 {
                    assert(f.contains(f[i]));
                    q.drop_last().lemma_filter_contains_rev(p, f[i]);
                    let k = choose|k: int| 0 <= k < q.drop_last().len() && q.drop_last()[k] == f[i];
                    assert(q.filter(p)[i] == f[i]);
                    assert(q[k] == f[i]);
                    assert(q[q.len() - 1] == q.last());
                } else {
                    assert(q.filter(p)[i] == f[i]);
                    assert(q.filter(p)[j] == f[j]);
                }
            }
        }
    }
}

impl Default for ApplicationLifecycle {
    /// Same as `ApplicationLifecycle::new`.
    fn default() -> (s: Self)
        ensures
            s.wf(),
            s.view_of().epoch == 0,
            !s.view_of().keep_alive,
            s.view_of().acknowledged == 0,
            s.view_of().sent_sequence == 0,
            s.view_of().next_sequence == 2,
            s.view_of().queue.len() == 1,
            s.view_of().queue[0].sequence == 1,
            s.view_of().queue[0].reason == "launch"@,
            s.view_of().queue[0].urls.len() == 0,
            s.view_of().queue[0].sent_epoch == 0,
    {
        ApplicationLifecycle::new()
    }
}

/// Nothing is delivered before the renderer configures its first generation:
/// in generation 0 the activations to deliver are none, whatever waits.
pub proof fn law_nothing_delivered_before_ready(v: LifecycleView)
    requires
        state_wf(v),
        v.epoch == 0,
    ensures
        deliverable(v).len() == 0,
{
}

/// A reload replays: once a newer generation is configured, every waiting
/// activation is delivered again, even those sent to the previous generation.
pub proof fn law_reload_replays_unacknowledged(v: LifecycleView, epoch: u32)
    requires
        state_wf(v),
        epoch > v.epoch,
    ensures
        deliverable(LifecycleView { epoch, ..v }) == v.queue,
    decreases v.queue.len(),
{
    let p = |a: ActivationView| a.sent_epoch != epoch;
    lemma_filter_all(v.queue, p);
}

proof fn lemma_filter_all(q: Seq<ActivationView>, p: spec_fn(ActivationView) -> bool)
    requires
        forall|i: int| 0 <= i < q.len() ==> p(#[trigger] q[i]),
    ensures
        q.filter(p) == q,
    decreases q.len(),
{
    reveal(Seq::filter);
    if q.len() > 0 {
        lemma_filter_all(q.drop_last(), p);
        assert(q.drop_last().push(q.last()) =~= q);
    }
}

/// An activation sent in the current generation is not delivered again in
/// that generation.
pub proof fn law_sent_not_redelivered(v: LifecycleView, i: int)
    requires
        state_wf(v),
        0 <= i < v.queue.len(),
    ensures
        !unsent(v.queue.update(i, ActivationView { sent_epoch: v.epoch, ..v.queue[i] }), v.epoch)
            .contains(v.queue[i]),
{
    let q = v.queue.update(i, ActivationView { sent_epoch: v.epoch, ..v.queue[i] });
    let p = |a: ActivationView| a.sent_epoch != v.epoch;
    if q.filter(p).contains(v.queue[i]) {
        q.lemma_filter_contains_rev(p, v.queue[i]);
        let k = choose|k: int| 0 <= k < q.len() && q[k] == v.queue[i];
        if k != i {
            assert(q[k] == v.queue[k]);
            if k < i {
                assert(v.queue[k].sequence < v.queue[i].sequence);
            } else {
                assert(v.queue[i].sequence < v.queue[k].sequence);
            }
        }
        let j = choose|j: int| 0 <= j < q.filter(p).len() && q.filter(p)[j] == v.queue[i];
        q.lemma_filter_pred(p, j);
    }
}

/// Acknowledgement retires exactly the activations up to it: what stays has a
/// later sequence, and every activation with a later sequence stays.
pub proof fn law_acknowledgement_retires(q: Seq<ActivationView>, acknowledged: u32)
    ensures
        forall|j: int|
            0 <= j < unacknowledged(q, acknowledged).len() ==> (#[trigger] unacknowledged(
                q,
                acknowledged,
            )[j]).sequence > acknowledged,
        forall|i: int|
            0 <= i < q.len() && (#[trigger] q[i]).sequence > acknowledged ==> unacknowledged(
                q,
                acknowledged,
            ).contains(q[i]),
{
    let p = |a: ActivationView| a.sequence > acknowledged;
    assert forall|j: int|
        0 <= j < unacknowledged(q, acknowledged).len() implies (#[trigger] unacknowledged(
        q,
        acknowledged,
    )[j]).sequence > acknowledged by {
        q.lemma_filter_pred(p, j);
    }
    assert forall|i: int|
        0 <= i < q.len() && (#[trigger] q[i]).sequence > acknowledged implies unacknowledged(
        q,
        acknowledged,
    ).contains(q[i]) by {
        q.lemma_filter_contains(p, i);
    }
}

/// Which URLs an activation may carry: exactly the nonempty ones of at most
/// 4096 UTF-8 bytes with no control character (code points 0 to 31 and 127
/// to 159). Every other character, `?`, `#` and `&` among them, is
/// accepted, so two accepted URLs joined within the byte bound are accepted
/// too.
pub proof fn law_safe_urls(u: Seq<char>, v: Seq<char>)
    ensures
        safe_url(u) <==> (u.len() > 0 && byte_len(u) <= 4096 && forall|i: int|
            0 <= i < u.len() ==> (#[trigger] u[i] as u32) >= 0x20 && !(0x7f <= (u[i] as u32) <= 0x9f)),
        safe_url(u) && safe_url(v) && byte_len(u + v) <= 4096 ==> safe_url(u + v),
{
    if safe_url(u) && safe_url(v) && byte_len(u + v) <= 4096 {
        assert forall|i: int| 0 <= i < (u + v).len() implies !is_control_spec(#[trigger] (u + v)[i]) by {
            if i < u.len() {
                assert((u + v)[i] == u[i]);
            } else {
                assert((u + v)[i] == v[i - u.len()]);
            }
        }
    }
}

} // verus!
