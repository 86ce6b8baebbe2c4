//! The budget of one foreground turn of the commit pump: a ready stream of
//! renderer commits is drained in bounded slices so that input, layout and
//! painting are never starved.
use vstd::prelude::*;

verus! {

/// Most messages delivered in one turn.
pub const MAX_MESSAGES_PER_TURN: usize = 16;

/// Payload bytes after which a turn ends.
pub const MAX_BYTES_PER_TURN: usize = 1024 * 1024;

/// What one turn of the pump has delivered so far.
#[derive(Clone, Copy, Debug, PartialEq, Eq, Structural)]
pub struct TurnBudget {
    pub messages_in_turn: usize,
    pub bytes_in_turn: usize,
}

impl TurnBudget {
    /// Whether the turn has used up its budget.
    pub open spec fn exhausted(&self) -> bool {
        self.messages_in_turn >= MAX_MESSAGES_PER_TURN || self.bytes_in_turn >= MAX_BYTES_PER_TURN
    }

    /// A turn never holds more than its message budget.
    pub open spec fn well_formed(&self) -> bool {
        self.messages_in_turn <= MAX_MESSAGES_PER_TURN
    }

    pub fn new() -> (r: TurnBudget)
        ensures
            r.well_formed(),
            r == (TurnBudget { messages_in_turn: 0, bytes_in_turn: 0 }),
    {
        TurnBudget { messages_in_turn: 0, bytes_in_turn: 0 }
    }

    /// Called before the pump polls its channel. When the turn's budget is
    /// used up, a new turn starts and the pump yields to the executor
    /// (returns `true`); otherwise it polls.
    pub fn should_yield(&mut self) -> (r: bool)
        requires
            old(self).well_formed(),
        ensures
            final(self).well_formed(),
            r == old(self).exhausted(),
            r ==> *final(self) == TurnBudget::new_spec(),
            !r ==> *final(self) == *old(self),
    {
        if self.messages_in_turn >= MAX_MESSAGES_PER_TURN || self.bytes_in_turn >= MAX_BYTES_PER_TURN {
            self.messages_in_turn = 0;
            self.bytes_in_turn = 0;
            true
        } else {
            false
        }
    }

    pub open spec fn new_spec() -> TurnBudget {
        TurnBudget { messages_in_turn: 0, bytes_in_turn: 0 }
    }

    /// Counts a message the poll delivered: a payload of `payload_len`
    /// bytes, or `None` for an end-of-stream or transport message. A large
    /// payload is delivered whole; the turn ends after it.
    pub fn delivered(&mut self, payload_len: Option<usize>)
        requires
            old(self).well_formed(),
            !old(self).exhausted(),
            payload_len matches Some(n) ==> n <= usize::MAX - MAX_BYTES_PER_TURN,
        ensures
            final(self).well_formed(),
            final(self).messages_in_turn == old(self).messages_in_turn + 1,
            final(self).bytes_in_turn == old(self).bytes_in_turn + match payload_len {
                Some(n) => n as int,
                None => 0,
            },
    {
        self.messages_in_turn = self.messages_in_turn + 1;
        if let Some(n) = payload_len {
            self.bytes_in_turn = self.bytes_in_turn + n;
        }
    }

    /// The channel had nothing ready, or ended: the next message starts a
    /// new turn.
    pub fn idle(&mut self)
        ensures
            *final(self) == TurnBudget::new_spec(),
    {
        self.messages_in_turn = 0;
        self.bytes_in_turn = 0;
    }
}

/// A turn delivers at most its message budget: whenever the pump is
/// allowed to poll, fewer than 16 messages and less than 1 MiB of payload
/// have been delivered in the turn.
pub proof fn law_turn_is_bounded(b: TurnBudget)
    requires
        b.well_formed(),
        !b.exhausted(),
    ensures
        b.messages_in_turn < MAX_MESSAGES_PER_TURN,
        b.bytes_in_turn < MAX_BYTES_PER_TURN,
{
}

/// The counts of a fresh turn after the messages `sizes` were delivered:
/// how many, and their payload bytes (a message without payload counts 0).
pub open spec fn turn_after(sizes: Seq<nat>) -> (nat, nat)
    decreases sizes.len(),
{
    if sizes.len() == 0 {
        (0, 0)
    } else {
        let c = turn_after(sizes.drop_last());
        (c.0 + 1, c.1 + sizes.last())
    }
}

/// Whether a turn with these counts yields before its next poll.
pub open spec fn turn_spent(c: (nat, nat)) -> bool {
    c.0 >= MAX_MESSAGES_PER_TURN || c.1 >= MAX_BYTES_PER_TURN
}

/// The counts grow with every message: a turn that is spent stays spent
/// as more messages are counted.
proof fn lemma_turn_after_grows(sizes: Seq<nat>, i: int)
    requires
        0 <= i <= sizes.len(),
    ensures
        turn_after(sizes.take(i)).0 == i,
        turn_after(sizes.take(i)).1 <= turn_after(sizes).1,
    decreases sizes.len(),
{
    if i < sizes.len() {
        lemma_turn_after_grows(sizes.drop_last(), i);
        assert(sizes.drop_last().take(i) =~= sizes.take(i));
    } else {
        assert(sizes.take(i) =~= sizes);
        lemma_turn_count(sizes);
    }
}

proof fn lemma_turn_count(sizes: Seq<nat>)
    ensures
        turn_after(sizes).0 == sizes.len(),
    decreases sizes.len(),
{
    if sizes.len() > 0 {
        lemma_turn_count(sizes.drop_last());
    }
}

/// A ready stream is delivered in order until the turn is spent, and then
/// the pump yields once before delivering more: from a fresh turn, sixteen
/// messages, or fewer whose payloads reach 1 MiB only with the last one,
/// are all delivered without a yield between them, and the turn is spent
/// after the last of them. After the yield the turn starts afresh
/// (`should_yield`), so what follows, a termination message included, is
/// delivered in the next turn.
pub proof fn law_turn_yields_after_its_budget(sizes: Seq<nat>)
    requires
        0 < sizes.len() <= MAX_MESSAGES_PER_TURN,
        turn_after(sizes.drop_last()).1 < MAX_BYTES_PER_TURN,
        sizes.len() == MAX_MESSAGES_PER_TURN || turn_after(sizes).1 >= MAX_BYTES_PER_TURN,
    ensures
        forall|i: int| 0 <= i < sizes.len() ==> !turn_spent(#[trigger] turn_after(sizes.take(i))),
        turn_spent(turn_after(sizes)),
        forall|b: TurnBudget|
            b.messages_in_turn == turn_after(sizes).0 && b.bytes_in_turn == turn_after(sizes).1
                ==> #[trigger] b.exhausted(),
{
    let n = sizes.len() as int;
    assert forall|i: int| 0 <= i < n implies !turn_spent(#[trigger] turn_after(sizes.take(i))) by {
        lemma_turn_after_grows(sizes.drop_last(), i);
        assert(sizes.drop_last().take(i) =~= sizes.take(i));
    }
    lemma_turn_count(sizes);
}

} // verus!
