//! Causal broadcast: operations carry their sender's vector clock, and a
//! receiver delivers a message only once everything that causally precedes
//! it has been delivered; early messages wait in a buffer.

use vstd::prelude::*;

use crate::maps::count_of;
use crate::vector_clock::{ReplicaId, VectorClock};

verus! {

/// A broadcast operation with the sender and the sender's clock at sending.
#[derive(Clone, Debug, PartialEq, Eq)]
pub struct Message<Op> {
    pub from: ReplicaId,
    pub clock: VectorClock,
    pub op: Op,
}

/// One replica of the causal-broadcast layer.
#[derive(Clone, Debug)]
pub struct CausalProcess<Op> {
    id: ReplicaId,
    clock: VectorClock,
    pending: Vec<Message<Op>>,
}

/// A message from `from` stamped `stamp` can be delivered at a process whose
/// clock is `clock`: it is the next message from `from`, and everything it
/// depends on from the other replicas has been delivered.
pub open spec fn deliverable_spec(clock: Map<u64, u64>, from: u64, stamp: Map<u64, u64>) -> bool {
    &&& count_of(stamp, from) == count_of(clock, from) + 1
    &&& forall|k: u64| k != from ==> #[trigger] count_of(stamp, k) <= count_of(clock, k)
}

/// The first position at or after `i` whose message is deliverable.
pub open spec fn first_from<Op>(clock: Map<u64, u64>, pending: Seq<Message<Op>>, i: int) -> Option<int>
    decreases pending.len() - i,
{
    if i < 0 || i >= pending.len() {
        None
    } else if deliverable_spec(clock, pending[i].from.0, pending[i].clock@) {
        Some(i)
    } else {
        first_from(clock, pending, i + 1)
    }
}

/// The clock after delivering a message from `from`.
pub open spec fn advance(clock: Map<u64, u64>, from: u64) -> Map<u64, u64> {
    clock.insert(from, (count_of(clock, from) + 1) as u64)
}

/// Delivering, again and again, the first deliverable buffered message:
/// the final clock, the messages still buffered, and the delivered
/// operations in delivery order.
pub open spec fn drain<Op>(clock: Map<u64, u64>, pending: Seq<Message<Op>>) -> (Map<u64, u64>, Seq<Message<Op>>, Seq<Op>)
    decreases pending.len(),
{
    match first_from(clock, pending, 0) {
        Some(i) => if 0 <= i < pending.len() {
            let m = pending[i];
            let r = drain(advance(clock, m.from.0), pending.remove(i));
            (r.0, r.1, seq![m.op] + r.2)
        } else {
            (clock, pending, Seq::empty())
        },
        None => (clock, pending, Seq::empty()),
    }
}

impl<Op> Message<Op> {
    /// A copy of this message.
    pub fn duplicate(&self) -> (m: Message<Op>)
        where Op: Clone,
        ensures
            m.from == self.from,
            m.clock@ == self.clock@,
            vstd::pervasive::cloned(self.op, m.op),
    {
        Message { from: self.from, clock: self.clock.copy_clock(), op: self.op.clone() }
    }
}

impl<Op> CausalProcess<Op> {
    /// The replica this process runs at.
    pub closed spec fn owner(&self) -> ReplicaId {
        self.id
    }

    /// The clock of delivered events.
    pub closed spec fn clock_view(&self) -> Map<u64, u64> {
        self.clock@
    }

    /// The buffered messages, in arrival order.
    pub closed spec fn buffer(&self) -> Seq<Message<Op>> {
        self.pending@
    }

    /// A process at replica `id` that has delivered nothing.
    pub fn new(id: ReplicaId) -> (p: CausalProcess<Op>)
        ensures
            p.owner() == id,
            p.clock_view() == Map::<u64, u64>::empty(),
            p.buffer() == Seq::<Message<Op>>::empty(),
    {
        CausalProcess { id, clock: VectorClock::new(), pending: Vec::new() }
    }

    /// The replica this process runs at.
    pub fn id(&self) -> (r: ReplicaId)
        ensures
            r == self.owner(),
    {
        self.id
    }

    /// The clock of delivered events.
    pub fn clock(&self) -> (c: &VectorClock)
        ensures
            c@ == self.clock_view(),
    {
        &self.clock
    }

    /// Stamp a local operation for broadcast, counting it as an event of this
    /// replica.
    pub fn broadcast(&mut self, op: Op) -> (m: Message<Op>)
        requires
            count_of(old(self).clock_view(), old(self).owner().0) < u64::MAX,
        ensures
            final(self).owner() == old(self).owner(),
            final(self).buffer() == old(self).buffer(),
            final(self).clock_view() == advance(old(self).clock_view(), old(self).owner().0),
            m.from == old(self).owner(),
            m.clock@ == final(self).clock_view(),
            m.op == op,
    {
        self.clock.increment(self.id);
        Message { from: self.id, clock: self.clock.copy_clock(), op }
    }

    /// Buffer `msg`, then deliver every buffered message that has become
    /// deliverable, each time the first such one in arrival order. Returns
    /// the delivered operations in delivery order.
    pub fn receive(&mut self, msg: Message<Op>) -> (ops: Vec<Op>)
        ensures
            final(self).owner() == old(self).owner(),
            (final(self).clock_view(), final(self).buffer(), ops@)
                == drain(old(self).clock_view(), old(self).buffer().push(msg)),
    {
        self.pending.push(msg);
        let ghost goal = drain(self.clock@, self.pending@);
        let mut delivered: Vec<Op> = Vec::new();
        loop
            invariant
                self.id == old(self).id,
                goal == drain(old(self).clock_view(), old(self).buffer().push(msg)),
                (drain(self.clock@, self.pending@).0, drain(self.clock@, self.pending@).1,
                    delivered@ + drain(self.clock@, self.pending@).2) == goal,
            decreases self.pending@.len(),
        {
            let mut idx: usize = 0;
            while idx < self.pending.len() && !self.deliverable(&self.pending[idx])
                invariant
                    idx <= self.pending@.len(),
                    first_from(self.clock@, self.pending@, 0) == first_from(self.clock@, self.pending@, idx as int),
                decreases self.pending@.len() - idx,
            {
                idx += 1;
            }
            if idx == self.pending.len() {
                proof {
                    assert(first_from(self.clock@, self.pending@, 0) is None);
                    assert(drain(self.clock@, self.pending@) == (self.clock@, self.pending@, Seq::<Op>::empty()));
                    assert(delivered@ + Seq::<Op>::empty() =~= delivered@);
                }
                return delivered;
            }
            let ghost before_clock = self.clock@;
            let ghost before_pending = self.pending@;
            let m = self.pending.remove(idx);
            proof {
                assert(first_from(before_clock, before_pending, 0) == Some(idx as int));
                assert(deliverable_spec(before_clock, m.from.0, m.clock@));
            }
            self.clock.increment(m.from);
            let ghost op = m.op;
            delivered.push(m.op);
            proof {
                let r = drain(self.clock@, self.pending@);
                assert(drain(before_clock, before_pending) == (r.0, r.1, seq![op] + r.2));
                assert(delivered@ + r.2 =~= delivered@.drop_last() + (seq![op] + r.2));
            }
        }
    }

    /// The number of buffered messages.
    pub fn buffered(&self) -> (n: usize)
        ensures
            n == self.buffer().len(),
    {
        self.pending.len()
    }

    fn deliverable(&self, msg: &Message<Op>) -> (b: bool)
        ensures
            b == deliverable_spec(self.clock@, msg.from.0, msg.clock@),
    {
        let own = self.clock.get(msg.from);
        if own == u64::MAX || msg.clock.get(msg.from) != own + 1 {
            return false;
        }
        let entries = msg.clock.iter();
        let mut i: usize = 0;
        while i < entries.len()
            invariant
                i <= entries@.len(),
                forall|j: int| 0 <= j < entries@.len() ==> #[trigger] msg.clock@.contains_key(entries@[j].0.0)
                    && msg.clock@[entries@[j].0.0] == entries@[j].1,
                forall|k: u64| #[trigger] msg.clock@.contains_key(k) ==> exists|j: int| 0 <= j < entries@.len() && entries@[j].0.0 == k,
                forall|j: int| 0 <= j < i ==> entries@[j].0.0 == msg.from.0 || count_of(msg.clock@, #[trigger] entries@[j].0.0) <= count_of(self.clock@, entries@[j].0.0),
            decreases entries.len() - i,
        {
            let (k, c) = entries[i];
            if k.0 != msg.from.0 && c > self.clock.get(k) {
                proof {
                    assert(count_of(msg.clock@, k.0) > count_of(self.clock@, k.0));
                }
                return false;
            }
            i += 1;
        }
        proof {
            assert forall|k: u64| k != msg.from.0 implies #[trigger] count_of(msg.clock@, k) <= count_of(self.clock@, k) by {
                if msg.clock@.contains_key(k) {
                    let j = choose|j: int| 0 <= j < entries@.len() && entries@[j].0.0 == k;
                    assert(count_of(msg.clock@, entries@[j].0.0) <= count_of(self.clock@, entries@[j].0.0));
                }
            }
        }
        true
    }
}

/// The in-flight messages of a simulated network, each addressed to one
/// replica.
#[derive(Clone, Debug)]
pub struct Network<Op> {
    inflight: Vec<(ReplicaId, Message<Op>)>,
}

impl<Op> View for Network<Op> {
    type V = Seq<(ReplicaId, Message<Op>)>;

    /// The in-flight messages with their addressees, oldest first.
    closed spec fn view(&self) -> Seq<(ReplicaId, Message<Op>)> {
        self.inflight@
    }
}

impl<Op> Default for Network<Op> {
    /// A network with nothing in flight.
    fn default() -> (n: Network<Op>)
        ensures
            n@ == Seq::<(ReplicaId, Message<Op>)>::empty(),
    {
        Network { inflight: Vec::new() }
    }
}

impl<Op> Network<Op> {
    /// A network with nothing in flight.
    pub fn new() -> (n: Network<Op>)
        ensures
            n@ == Seq::<(ReplicaId, Message<Op>)>::empty(),
    {
        Network { inflight: Vec::new() }
    }

    /// `true` iff nothing is in flight.
    pub fn is_empty(&self) -> (b: bool)
        ensures
            b == (self@.len() == 0),
    {
        self.inflight.len() == 0
    }

    /// The number of in-flight messages.
    pub fn len(&self) -> (n: usize)
        ensures
            n == self@.len(),
    {
        self.inflight.len()
    }

    /// Put a copy of `msg` in flight to each of `targets`, in order.
    pub fn broadcast(&mut self, targets: Vec<ReplicaId>, msg: Message<Op>)
        where Op: Clone,
        ensures
            final(self)@.len() == old(self)@.len() + targets@.len(),
            forall|i: int| 0 <= i < old(self)@.len() ==> #[trigger] final(self)@[i] == old(self)@[i],
            forall|i: int| 0 <= i < targets@.len() ==> {
                let e = #[trigger] final(self)@[old(self)@.len() + i];
                &&& e.0 == targets@[i]
                &&& e.1.from == msg.from
                &&& e.1.clock@ == msg.clock@
                &&& vstd::pervasive::cloned(msg.op, e.1.op)
            },
    {
        let mut i: usize = 0;
        while i < targets.len()
            invariant
                i <= targets@.len(),
                self@.len() == old(self)@.len() + i,
                forall|j: int| 0 <= j < old(self)@.len() ==> #[trigger] self@[j] == old(self)@[j],
                forall|j: int| 0 <= j < i ==> {
                    let e = #[trigger] self@[old(self)@.len() + j];
                    &&& e.0 == targets@[j]
                    &&& e.1.from == msg.from
                    &&& e.1.clock@ == msg.clock@
                    &&& vstd::pervasive::cloned(msg.op, e.1.op)
                },
            decreases targets.len() - i,
        {
            self.inflight.push((targets[i], msg.duplicate()));
            i += 1;
        }
    }

    /// Take out the in-flight message at position `index` modulo the number
    /// in flight; `None` when nothing is in flight.
    pub fn take(&mut self, index: usize) -> (r: Option<(ReplicaId, Message<Op>)>)
        ensures
            old(self)@.len() == 0 ==> r is None && final(self)@ == old(self)@,
            old(self)@.len() > 0 ==> r == Some(old(self)@[(index as int) % (old(self)@.len() as int)])
                && final(self)@ == old(self)@.remove((index as int) % (old(self)@.len() as int)),
    {
        if self.inflight.len() == 0 {
            None
        } else {
            let n = self.inflight.len();
            Some(self.inflight.remove(index % n))
        }
    }
}

proof fn lemma_first_from_none<Op>(clock: Map<u64, u64>, pending: Seq<Message<Op>>, i: int)
    requires
        0 <= i,
        first_from(clock, pending, i) is None,
    ensures
        forall|j: int| i <= j < pending.len() ==> !deliverable_spec(clock, #[trigger] pending[j].from.0, pending[j].clock@),
    decreases pending.len() - i,
{
    if i < pending.len() {
        lemma_first_from_none(clock, pending, i + 1);
    }
}

proof fn lemma_first_from_in_range<Op>(clock: Map<u64, u64>, pending: Seq<Message<Op>>, i: int)
    ensures
        first_from(clock, pending, i) matches Some(j) ==> i <= j < pending.len()
            && deliverable_spec(clock, pending[j].from.0, pending[j].clock@),
    decreases pending.len() - i,
{
    if 0 <= i < pending.len() {
        lemma_first_from_in_range(clock, pending, i + 1);
    }
}

/// Once a receive has delivered all it can, no buffered message is
/// deliverable: nothing is left waiting that could go; and every received
/// message is either delivered or still buffered.
pub proof fn lemma_drain_quiescent<Op>(clock: Map<u64, u64>, pending: Seq<Message<Op>>)
    ensures
        forall|j: int| 0 <= j < drain(clock, pending).1.len() ==>
            !deliverable_spec(drain(clock, pending).0, #[trigger] drain(clock, pending).1[j].from.0, drain(clock, pending).1[j].clock@),
        drain(clock, pending).1.len() + drain(clock, pending).2.len() == pending.len(),
    decreases pending.len(),
{
    lemma_first_from_in_range(clock, pending, 0);
    match first_from(clock, pending, 0) {
        Some(i) => {
            let m = pending[i];
            lemma_drain_quiescent(advance(clock, m.from.0), pending.remove(i));
        },
        None => {
            lemma_first_from_none(clock, pending, 0);
        },
    }
}

/// Delivery only moves the clock forward.
pub proof fn lemma_drain_advances<Op>(clock: Map<u64, u64>, pending: Seq<Message<Op>>)
    ensures
        forall|k: u64| #[trigger] count_of(clock, k) <= count_of(drain(clock, pending).0, k),
    decreases pending.len(),
{
    lemma_first_from_in_range(clock, pending, 0);
    match first_from(clock, pending, 0) {
        Some(i) => {
            let m = pending[i];
            let c2 = advance(clock, m.from.0);
            lemma_drain_advances(c2, pending.remove(i));
            assert forall|k: u64| #[trigger] count_of(clock, k) <= count_of(drain(clock, pending).0, k) by {
                assert(count_of(clock, k) <= count_of(c2, k));
                assert(count_of(c2, k) <= count_of(drain(c2, pending.remove(i)).0, k));
            }
        },
        None => {},
    }
}

/// The deliveries `drain` makes, in order: each message with the clock at
/// the moment it is delivered.
pub open spec fn deliveries<Op>(clock: Map<u64, u64>, pending: Seq<Message<Op>>) -> Seq<(Map<u64, u64>, Message<Op>)>
    decreases pending.len(),
{
    match first_from(clock, pending, 0) {
        Some(i) => if 0 <= i < pending.len() {
            let m = pending[i];
            seq![(clock, m)] + deliveries(advance(clock, m.from.0), pending.remove(i))
        } else {
            Seq::empty()
        },
        None => Seq::empty(),
    }
}

/// Delivery is causal: every message delivered is, at the moment it is
/// delivered, the next one from its sender (its stamp for the sender is one
/// past the receiver's count), and everything it depends on from every other
/// replica has been delivered (its stamp for each other replica is at most
/// the receiver's count). The operations come out in that delivery order,
/// each delivered message was received, the first delivery happens at the
/// starting clock, and each delivery counts one more event of its sender.
pub proof fn lemma_drain_is_causal<Op>(clock: Map<u64, u64>, pending: Seq<Message<Op>>)
    ensures
        deliveries(clock, pending).len() == drain(clock, pending).2.len(),
        forall|i: int| 0 <= i < deliveries(clock, pending).len()
            ==> #[trigger] deliveries(clock, pending)[i].1.op == drain(clock, pending).2[i],
        forall|i: int| 0 <= i < deliveries(clock, pending).len() ==> {
            let (c, m) = #[trigger] deliveries(clock, pending)[i];
            &&& pending.contains(m)
            &&& count_of(m.clock@, m.from.0) == count_of(c, m.from.0) + 1
            &&& forall|k: u64| k != m.from.0 ==> #[trigger] count_of(m.clock@, k) <= count_of(c, k)
        },
        deliveries(clock, pending).len() > 0 ==> deliveries(clock, pending)[0].0 == clock,
        forall|i: int| 0 <= i < deliveries(clock, pending).len() - 1 ==> {
            let (c, m) = #[trigger] deliveries(clock, pending)[i];
            deliveries(clock, pending)[i + 1].0 == c.insert(m.from.0, (count_of(c, m.from.0) + 1) as u64)
        },
    decreases pending.len(),
{
    lemma_first_from_in_range(clock, pending, 0);
    match first_from(clock, pending, 0) {
        Some(i) => {
            let m = pending[i];
            let c2 = advance(clock, m.from.0);
            let rest = pending.remove(i);
            lemma_drain_is_causal(c2, rest);
            let d = deliveries(clock, pending);
            let dr = deliveries(c2, rest);
            let ops = drain(clock, pending).2;
            let opr = drain(c2, rest).2;
            assert(d == seq![(clock, m)] + dr);
            assert(ops == seq![m.op] + opr);
            assert(pending.contains(m)) by {
                assert(pending[i] == m);
            }
            assert forall|j: int| 0 <= j < d.len() implies #[trigger] d[j].1.op == ops[j] by {
                if j > 0 {
                    assert(d[j] == dr[j - 1]);
                    assert(ops[j] == opr[j - 1]);
                }
            }
            assert forall|j: int| 0 <= j < d.len() implies {
                let (c, mm) = #[trigger] d[j];
                &&& pending.contains(mm)
                &&& count_of(mm.clock@, mm.from.0) == count_of(c, mm.from.0) + 1
                &&& forall|k: u64| k != mm.from.0 ==> #[trigger] count_of(mm.clock@, k) <= count_of(c, k)
            } by {
                if j > 0 {
                    assert(d[j] == dr[j - 1]);
                    let mm = dr[j - 1].1;
                    assert(rest.contains(mm));
                    let r = choose|r: int| 0 <= r < rest.len() && rest[r] == mm;
                    if r < i {
                        assert(pending[r] == mm);
                    } else {
                        assert(pending[r + 1] == mm);
                    }
                }
            }
            assert forall|j: int| 0 <= j < d.len() - 1 implies {
                let (c, mm) = #[trigger] d[j];
                d[j + 1].0 == c.insert(mm.from.0, (count_of(c, mm.from.0) + 1) as u64)
            } by {
                assert(d[j + 1] == dr[j]);
                if j > 0 {
                    assert(d[j] == dr[j - 1]);
                }
            }
        },
        None => {},
    }
}

} // verus!
