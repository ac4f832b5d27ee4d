//! The way of a command from the order system to a matching shard, and of its
//! reports back.
//!
//! Instruments are spread over shards by number. Each shard has two intake
//! queues: cancellations, amendments and forced closes overtake new orders.

use vstd::prelude::*;

use crate::exchange::{Command, ExecReport};
use crate::lockfree::{channel, rounded, Ring};
use crate::order::Order;
use crate::types::{InstrumentId, OrderId, Price, Qty, Side};

verus! {

/// How many new orders a shard takes before it starts over.
pub const NORMAL_BATCH: usize = 32;

/// The intake queues of one shard.
pub struct ShardQueues {
    high: Ring<Command>,
    normal: Ring<Command>,
}

/// What waits for a shard.
#[verifier::ext_equal]
pub struct IntakeView {
    pub high: Seq<Command>,
    pub normal: Seq<Command>,
}

impl View for ShardQueues {
    type V = IntakeView;

    closed spec fn view(&self) -> IntakeView {
        IntakeView { high: self.high@, normal: self.normal@ }
    }
}

impl IntakeView {
    /// The command that is taken next after `taken` new orders of a batch.
    pub open spec fn next(self, taken: nat) -> Option<Command> {
        if self.high.len() > 0 {
            Some(self.high[0])
        } else if self.normal.len() > 0 && taken < NORMAL_BATCH {
            Some(self.normal[0])
        } else {
            None
        }
    }
}

/// What a shard takes until the batch ends, when nothing new arrives.
pub open spec fn batch(waiting: IntakeView, taken: nat) -> Seq<Command>
    decreases waiting.high.len() + waiting.normal.len(),
{
    match waiting.next(taken) {
        None => Seq::empty(),
        Some(command) => if waiting.high.len() > 0 {
            seq![command] + batch(IntakeView { high: waiting.high.skip(1), ..waiting }, taken)
        } else {
            seq![command] + batch(
                IntakeView { normal: waiting.normal.skip(1), ..waiting },
                taken + 1,
            )
        },
    }
}

/// A batch is every cancellation, amendment and forced close that waits, and
/// after them the oldest new orders, as many as the batch has room for.
pub proof fn law_cancels_overtake_new_orders(waiting: IntakeView, taken: nat)
    requires
        taken <= NORMAL_BATCH,
    ensures
        batch(waiting, taken) == waiting.high + waiting.normal.take(
            if waiting.normal.len() <= NORMAL_BATCH - taken {
                waiting.normal.len() as int
            } else {
                NORMAL_BATCH - taken
            },
        ),
    decreases waiting.high.len() + waiting.normal.len(),
{
    let room = NORMAL_BATCH - taken;
    if waiting.high.len() > 0 {
        let rest = IntakeView { high: waiting.high.skip(1), ..waiting };
        law_cancels_overtake_new_orders(rest, taken);
        assert(waiting.high =~= seq![waiting.high[0]] + rest.high);
    } else if waiting.normal.len() > 0 && taken < NORMAL_BATCH {
        let rest = IntakeView { normal: waiting.normal.skip(1), ..waiting };
        law_cancels_overtake_new_orders(rest, taken + 1);
        assert(waiting.normal =~= seq![waiting.normal[0]] + rest.normal);
    }
}

impl ShardQueues {
    /// Room of each queue.
    pub closed spec fn bounds(self) -> (nat, nat) {
        (self.high.bound(), self.normal.bound())
    }

    /// The invariant of the queues.
    pub closed spec fn wf(self) -> bool {
        self.high.wf() && self.normal.wf()
    }

    /// Empty queues.
    pub fn new(capacity: usize) -> (r: ShardQueues)
        requires
            capacity <= usize::MAX / 2 + 1,
        ensures
            r.wf(),
            r@ == (IntakeView { high: Seq::empty(), normal: Seq::empty() }),
            rounded(capacity as nat, r.bounds().0),
            rounded(capacity as nat, r.bounds().1),
    {
        let r = ShardQueues { high: channel(capacity), normal: channel(capacity) };
        assert(r@ =~= (IntakeView { high: Seq::empty(), normal: Seq::empty() }));
        r
    }

    /// Queues a command; hands it back if its queue is full.
    pub fn submit(&mut self, command: Command) -> (r: Result<(), Command>)
        requires
            old(self).wf(),
        ensures
            final(self).wf(),
            final(self).bounds() == old(self).bounds(),
            ({
                let full = if command is New {
                    old(self)@.normal.len() == old(self).bounds().1
                } else {
                    old(self)@.high.len() == old(self).bounds().0
                };
                match r {
                    Ok(()) => !full && final(self)@ == if command is New {
                        IntakeView { normal: old(self)@.normal.push(command), ..old(self)@ }
                    } else {
                        IntakeView { high: old(self)@.high.push(command), ..old(self)@ }
                    },
                    Err(back) => full && back == command && final(self)@ == old(self)@,
                }
            }),
    {
        if command.is_high_priority() {
            self.high.push(command)
        } else {
            self.normal.push(command)
        }
    }

    /// Takes the next command: the high-priority queue is emptied before, and
    /// between, new orders, of which a batch has [`NORMAL_BATCH`] at most. `taken`
    /// counts them. `None` ends the batch.
    pub fn next(&mut self, taken: &mut usize) -> (r: Option<Command>)
        requires
            old(self).wf(),
        ensures
            final(self).wf(),
            final(self).bounds() == old(self).bounds(),
            r == old(self)@.next(*old(taken) as nat),
            if old(self)@.high.len() > 0 {
                &&& final(self)@ == (IntakeView { high: old(self)@.high.skip(1), ..old(self)@ })
                &&& *final(taken) == *old(taken)
            } else if r is Some {
                &&& final(self)@ == (IntakeView { normal: old(self)@.normal.skip(1), ..old(self)@ })
                &&& *final(taken) == *old(taken) + 1
            } else {
                &&& final(self)@ == old(self)@
                &&& *final(taken) == *old(taken)
            },
    {
        if let Some(command) = self.high.pop() {
            return Some(command);
        }
        if *taken >= NORMAL_BATCH {
            return None;
        }
        match self.normal.pop() {
            Some(command) => {
                *taken = *taken + 1;
                Some(command)
            },
            None => None,
        }
    }

    /// Whether nothing waits.
    pub fn is_empty(&self) -> (r: bool)
        ensures
            r == (self@.high.len() == 0 && self@.normal.len() == 0),
    {
        self.high.is_empty() && self.normal.is_empty()
    }
}

/// The order system's side of the intake: all shards.
pub struct OrderGateway {
    shards: Vec<ShardQueues>,
}

impl OrderGateway {
    /// What waits for each shard.
    pub closed spec fn waiting(self) -> Seq<IntakeView> {
        Seq::new(self.shards@.len(), |i: int| self.shards@[i]@)
    }

    /// Room of each shard's queues.
    pub closed spec fn bounds(self) -> Seq<(nat, nat)> {
        Seq::new(self.shards@.len(), |i: int| self.shards@[i].bounds())
    }

    /// The gateway's invariant: there is a shard.
    pub closed spec fn wf(self) -> bool {
        &&& self.shards@.len() > 0
        &&& forall|i: int| 0 <= i < self.shards@.len() ==> (#[trigger] self.shards@[i]).wf()
    }

    /// The shard of an instrument.
    pub open spec fn home(self, instrument: InstrumentId) -> int {
        (instrument.0 as int) % (self.waiting().len() as int)
    }

    /// A gateway to `shards` shards with queues for `capacity` commands.
    pub fn new(shards: usize, capacity: usize) -> (r: OrderGateway)
        requires
            shards > 0,
            capacity <= usize::MAX / 2 + 1,
        ensures
            r.wf(),
            r.waiting().len() == shards,
            r.bounds().len() == shards,
            forall|i: int|
                0 <= i < shards ==> #[trigger] r.waiting()[i] == (IntakeView {
                    high: Seq::empty(),
                    normal: Seq::empty(),
                }),
            forall|i: int|
                0 <= i < shards ==> rounded(capacity as nat, (#[trigger] r.bounds()[i]).0)
                    && rounded(capacity as nat, r.bounds()[i].1),
    {
        let mut list: Vec<ShardQueues> = Vec::new();
        let mut i: usize = 0;
        while i < shards
            invariant
                i <= shards,
                list@.len() == i,
                capacity <= usize::MAX / 2 + 1,
                forall|j: int|
                    0 <= j < i ==> {
                        &&& (#[trigger] list@[j]).wf()
                        &&& list@[j]@ == (IntakeView { high: Seq::empty(), normal: Seq::empty() })
                        &&& rounded(capacity as nat, list@[j].bounds().0)
                        &&& rounded(capacity as nat, list@[j].bounds().1)
                    },
            decreases shards - i,
        {
            list.push(ShardQueues::new(capacity));
            i += 1;
        }
        OrderGateway { shards: list }
    }

    /// The shard of an instrument.
    pub fn shard_of(&self, instrument: InstrumentId) -> (r: usize)
        requires
            self.wf(),
        ensures
            r == self.home(instrument),
            r < self.waiting().len(),
    {
        instrument.0 as usize % self.shards.len()
    }

    /// Routes a command to its shard. Hands it back if the queue there is full.
    pub fn submit(&mut self, command: Command) -> (r: Result<(), Command>)
        requires
            old(self).wf(),
        ensures
            final(self).wf(),
            final(self).bounds() == old(self).bounds(),
            ({
                let i = old(self).home(command.target());
                let before = old(self).waiting()[i];
                let full = if command is New {
                    before.normal.len() == old(self).bounds()[i].1
                } else {
                    before.high.len() == old(self).bounds()[i].0
                };
                match r {
                    Ok(()) => !full && final(self).waiting() == old(self).waiting().update(
                        i,
                        if command is New {
                            IntakeView { normal: before.normal.push(command), ..before }
                        } else {
                            IntakeView { high: before.high.push(command), ..before }
                        },
                    ),
                    Err(back) => full && back == command && final(self).waiting()
                        == old(self).waiting(),
                }
            }),
    {
        let i: usize = self.shard_of(command.instrument());
        let ghost before = self.shards@;
        let mut queues = self.shards.remove(i);
        let r = queues.submit(command);
        self.shards.insert(i, queues);
        proof {
            assert(self.shards@ =~= before.update(i as int, queues));
            assert(self.bounds() =~= old(self).bounds());
            assert forall|j: int| 0 <= j < self.shards@.len() implies (
            #[trigger] self.shards@[j]).wf() by {
                if j != i {
                    assert(before[j].wf());
                }
            }
            if r is Ok {
                assert(self.waiting() =~= old(self).waiting().update(i as int, queues@));
            } else {
                assert(self.waiting() =~= old(self).waiting());
            }
        }
        r
    }

    /// Takes the next command of one shard; see [`ShardQueues::next`].
    pub fn next(&mut self, shard: usize, taken: &mut usize) -> (r: Option<Command>)
        requires
            old(self).wf(),
            shard < old(self).waiting().len(),
        ensures
            final(self).wf(),
            final(self).bounds() == old(self).bounds(),
            r == old(self).waiting()[shard as int].next(*old(taken) as nat),
            ({
                let before = old(self).waiting()[shard as int];
                &&& final(self).waiting() == old(self).waiting().update(
                    shard as int,
                    if before.high.len() > 0 {
                        IntakeView { high: before.high.skip(1), ..before }
                    } else if r is Some {
                        IntakeView { normal: before.normal.skip(1), ..before }
                    } else {
                        before
                    },
                )
                &&& *final(taken) == *old(taken) + (if before.high.len() == 0 && r is Some {
                    1int
                } else {
                    0
                })
            }),
    {
        let ghost before = self.shards@;
        let mut queues = self.shards.remove(shard);
        let r = queues.next(taken);
        self.shards.insert(shard, queues);
        proof {
            assert(self.shards@ =~= before.update(shard as int, queues));
            assert(self.bounds() =~= old(self).bounds());
            assert forall|j: int| 0 <= j < self.shards@.len() implies (
            #[trigger] self.shards@[j]).wf() by {
                if j != shard {
                    assert(before[j].wf());
                }
            }
            assert(self.waiting() =~= old(self).waiting().update(shard as int, queues@));
        }
        r
    }

    /// Whether nothing waits for one shard.
    pub fn is_idle(&self, shard: usize) -> (r: bool)
        requires
            self.wf(),
            shard < self.waiting().len(),
        ensures
            r == (self.waiting()[shard as int].high.len() == 0 && self.waiting()[shard as int].normal.len()
                == 0),
    {
        self.shards[shard].is_empty()
    }

    /// Submits a new order.
    pub fn new_order(&mut self, order: Order) -> (r: Result<(), Command>)
        requires
            old(self).wf(),
        ensures
            final(self).wf(),
            final(self).bounds() == old(self).bounds(),
            ({
                let i = old(self).home(order.instrument);
                let before = old(self).waiting()[i];
                match r {
                    Ok(()) => final(self).waiting() == old(self).waiting().update(
                        i,
                        IntakeView { normal: before.normal.push(Command::New(order)), ..before },
                    ),
                    Err(back) => back == Command::New(order) && before.normal.len()
                        == old(self).bounds()[i].1 && final(self).waiting()
                        == old(self).waiting(),
                }
            }),
    {
        self.submit(Command::New(order))
    }

    /// Cancels a resting order.
    pub fn cancel(&mut self, instrument: InstrumentId, order_id: OrderId, cmd_id: u64) -> (r: Result<
        (),
        Command,
    >)
        requires
            old(self).wf(),
        ensures
            final(self).wf(),
            final(self).bounds() == old(self).bounds(),
            ({
                let command = Command::Cancel { instrument, order_id, cmd_id };
                let i = old(self).home(instrument);
                let before = old(self).waiting()[i];
                match r {
                    Ok(()) => final(self).waiting() == old(self).waiting().update(
                        i,
                        IntakeView { high: before.high.push(command), ..before },
                    ),
                    Err(back) => back == command && before.high.len() == old(self).bounds()[i].0
                        && final(self).waiting() == old(self).waiting(),
                }
            }),
    {
        self.submit(Command::Cancel { instrument, order_id, cmd_id })
    }

    /// Amends a resting order.
    pub fn modify(
        &mut self,
        instrument: InstrumentId,
        order_id: OrderId,
        new_price: Price,
        new_qty: Qty,
        cmd_id: u64,
    ) -> (r: Result<(), Command>)
        requires
            old(self).wf(),
        ensures
            final(self).wf(),
            final(self).bounds() == old(self).bounds(),
            ({
                let command = Command::Modify { instrument, order_id, new_price, new_qty, cmd_id };
                let i = old(self).home(instrument);
                let before = old(self).waiting()[i];
                match r {
                    Ok(()) => final(self).waiting() == old(self).waiting().update(
                        i,
                        IntakeView { high: before.high.push(command), ..before },
                    ),
                    Err(back) => back == command && before.high.len() == old(self).bounds()[i].0
                        && final(self).waiting() == old(self).waiting(),
                }
            }),
    {
        self.submit(Command::Modify { instrument, order_id, new_price, new_qty, cmd_id })
    }

    /// Force-closes a user on an instrument.
    pub fn force_close(
        &mut self,
        instrument: InstrumentId,
        user: u64,
        close_order_id: OrderId,
        close_side: Side,
        close_qty: Qty,
    ) -> (r: Result<(), Command>)
        requires
            old(self).wf(),
        ensures
            final(self).wf(),
            final(self).bounds() == old(self).bounds(),
            ({
                let command = Command::ForceClose {
                    instrument,
                    user,
                    close_order_id,
                    close_side,
                    close_qty,
                };
                let i = old(self).home(instrument);
                let before = old(self).waiting()[i];
                match r {
                    Ok(()) => final(self).waiting() == old(self).waiting().update(
                        i,
                        IntakeView { high: before.high.push(command), ..before },
                    ),
                    Err(back) => back == command && before.high.len() == old(self).bounds()[i].0
                        && final(self).waiting() == old(self).waiting(),
                }
            }),
    {
        self.submit(
            Command::ForceClose { instrument, user, close_order_id, close_side, close_qty },
        )
    }
}

/// The order system's side of the reports: all shards.
pub struct ResultSink {
    results: Vec<Ring<ExecReport>>,
}

/// Reports of several shards, one shard after the other.
pub open spec fn joined(queues: Seq<Seq<ExecReport>>) -> Seq<ExecReport>
    decreases queues.len(),
{
    if queues.len() == 0 {
        Seq::empty()
    } else {
        joined(queues.drop_last()) + queues.last()
    }
}

impl ResultSink {
    /// The reports that wait, by shard.
    pub closed spec fn pending(self) -> Seq<Seq<ExecReport>> {
        Seq::new(self.results@.len(), |i: int| self.results@[i]@)
    }

    /// Room of each shard's queue.
    pub closed spec fn bounds(self) -> Seq<nat> {
        Seq::new(self.results@.len(), |i: int| self.results@[i].bound())
    }

    /// The sink's invariant.
    pub closed spec fn wf(self) -> bool {
        forall|i: int| 0 <= i < self.results@.len() ==> (#[trigger] self.results@[i]).wf()
    }

    /// A sink for `shards` shards with queues for `capacity` reports.
    pub fn new(shards: usize, capacity: usize) -> (r: ResultSink)
        requires
            capacity <= usize::MAX / 2 + 1,
        ensures
            r.wf(),
            r.pending() == Seq::new(shards as nat, |i: int| Seq::<ExecReport>::empty()),
            r.bounds().len() == shards,
            forall|i: int| 0 <= i < shards ==> rounded(capacity as nat, #[trigger] r.bounds()[i]),
    {
        let mut list: Vec<Ring<ExecReport>> = Vec::new();
        let mut i: usize = 0;
        while i < shards
            invariant
                i <= shards,
                list@.len() == i,
                capacity <= usize::MAX / 2 + 1,
                forall|j: int|
                    0 <= j < i ==> {
                        &&& (#[trigger] list@[j]).wf()
                        &&& list@[j]@ == Seq::<ExecReport>::empty()
                        &&& rounded(capacity as nat, list@[j].bound())
                    },
            decreases shards - i,
        {
            list.push(channel(capacity));
            i += 1;
        }
        let r = ResultSink { results: list };
        assert(r.pending() =~= Seq::new(shards as nat, |i: int| Seq::<ExecReport>::empty()));
        r
    }

    /// Queues a report of one shard; hands it back if the queue is full.
    pub fn publish(&mut self, shard: usize, report: ExecReport) -> (r: Result<(), ExecReport>)
        requires
            old(self).wf(),
            shard < old(self).pending().len(),
        ensures
            final(self).wf(),
            final(self).bounds() == old(self).bounds(),
            ({
                let i = shard as int;
                let full = old(self).pending()[i].len() == old(self).bounds()[i];
                match r {
                    Ok(()) => !full && final(self).pending() == old(self).pending().update(
                        i,
                        old(self).pending()[i].push(report),
                    ),
                    Err(back) => full && back == report && final(self).pending()
                        == old(self).pending(),
                }
            }),
    {
        let ghost before = self.results@;
        let mut queue = self.results.remove(shard);
        let r = queue.push(report);
        self.results.insert(shard, queue);
        proof {
            assert(self.results@ =~= before.update(shard as int, queue));
            assert(self.bounds() =~= old(self).bounds());
            assert forall|j: int| 0 <= j < self.results@.len() implies (
            #[trigger] self.results@[j]).wf() by {
                if j != shard {
                    assert(before[j].wf());
                }
            }
            assert(self.pending() =~= old(self).pending().update(shard as int, queue@));
            if r is Err {
                assert(self.pending() =~= old(self).pending());
            }
        }
        r
    }

    /// Takes every report that waits, one shard after the other.
    pub fn poll(&mut self) -> (r: Vec<ExecReport>)
        requires
            old(self).wf(),
        ensures
            final(self).wf(),
            final(self).bounds() == old(self).bounds(),
            r@ == joined(old(self).pending()),
            final(self).pending() == Seq::new(
                old(self).pending().len(),
                |i: int| Seq::<ExecReport>::empty(),
            ),
    {
        let ghost all = self.pending();
        let mut out: Vec<ExecReport> = Vec::new();
        let n: usize = self.results.len();
        let mut i: usize = 0;
        assert(all.take(0) =~= Seq::<Seq<ExecReport>>::empty());
        while i < n
            invariant
                i <= n == self.results@.len(),
                all.len() == n,
                self.wf(),
                self.bounds() == old(self).bounds(),
                out@ == joined(all.take(i as int)),
                forall|j: int|
                    0 <= j < n ==> #[trigger] self.results@[j]@ == if j < i {
                        Seq::<ExecReport>::empty()
                    } else {
                        all[j]
                    },
            decreases n - i,
        {
            let ghost before = self.results@;
            let ghost head = out@;
            let mut queue = self.results.remove(i);
            assert(queue@ == all[i as int]);
            assert(head + all[i as int].take(0) =~= head);
            let ghost mut k: int = 0;
            let ghost bound = queue.bound();
            assert(all[i as int].skip(0) =~= all[i as int]);
            loop
                invariant_except_break
                    queue.wf(),
                    queue.bound() == bound,
                    0 <= k <= all[i as int].len(),
                    queue@ == all[i as int].skip(k),
                    out@ == head + all[i as int].take(k),
                ensures
                    queue.wf(),
                    queue.bound() == bound,
                    queue@ == Seq::<ExecReport>::empty(),
                    out@ == head + all[i as int],
                decreases queue@.len(),
            {
                match queue.pop() {
                    Some(report) => {
                        out.push(report);
                        proof {
                            assert(all[i as int].skip(k).skip(1) =~= all[i as int].skip(k + 1));
                            assert(all[i as int].take(k + 1) =~= all[i as int].take(k).push(report));
                            assert(out@ =~= head + all[i as int].take(k + 1));
                            k = k + 1;
                        }
                    },
                    None => {
                        proof {
                            assert(all[i as int].take(k) =~= all[i as int]);
                            assert(queue@ =~= Seq::<ExecReport>::empty());
                        }
                        break ;
                    },
                }
            }
            self.results.insert(i, queue);
            proof {
                assert(self.results@ =~= before.update(i as int, queue));
                assert(self.bounds() =~= old(self).bounds());
                assert forall|j: int| 0 <= j < self.results@.len() implies (
                #[trigger] self.results@[j]).wf() by {
                    if j != i {
                        assert(before[j].wf());
                    }
                }
                assert(all.take(i + 1).drop_last() =~= all.take(i as int));
                assert forall|j: int| 0 <= j < n implies #[trigger] self.results@[j]@ == if j < i
                    + 1 {
                    Seq::<ExecReport>::empty()
                } else {
                    all[j]
                } by {
                    if j != i {
                        assert(self.results@[j] == before[j]);
                    }
                }
            }
            i += 1;
        }
        assert(all.take(i as int) =~= all);
        assert(self.pending() =~= Seq::new(n as nat, |i: int| Seq::<ExecReport>::empty()));
        out
    }
}

/// How the number of parked shards changes.
#[derive(Clone, Copy, Debug, PartialEq, Eq, Structural)]
pub enum ParkedCount {
    Same,
    OneMore,
    OneLess,
}

/// A change as a number.
pub open spec fn change(count: ParkedCount) -> int {
    match count {
        ParkedCount::Same => 0,
        ParkedCount::OneMore => 1,
        ParkedCount::OneLess => -1,
    }
}

/// What a shard does in its next turn.
#[derive(Clone, Copy, Debug, PartialEq, Eq, Structural)]
pub enum ShardTurn {
    /// It was paused, and looks again later.
    Wait,
    /// It takes what waits for it.
    Work,
    /// It ends.
    Stop,
}

/// Whether a shard counts as parked.
#[derive(Clone, Copy, Debug, PartialEq, Eq, Structural)]
pub struct Parking {
    pub parked: bool,
}

impl Parking {
    /// The shard's share of the number of parked shards.
    pub open spec fn share(self) -> int {
        if self.parked {
            1
        } else {
            0
        }
    }

    /// Begins a turn: a shard that was paused parks, one that was started again
    /// leaves. A paused shard ends when the node stops.
    pub fn begin_turn(&mut self, started: bool, running: bool) -> (r: (ShardTurn, ParkedCount))
        ensures
            final(self).parked == !started,
            r.0 == if started {
                ShardTurn::Work
            } else if running {
                ShardTurn::Wait
            } else {
                ShardTurn::Stop
            },
            r.1 == if old(self).parked == !started {
                ParkedCount::Same
            } else if started {
                ParkedCount::OneLess
            } else {
                ParkedCount::OneMore
            },
            old(self).share() + change(r.1) == final(self).share(),
    {
        let count = if self.parked == !started {
            ParkedCount::Same
        } else if started {
            ParkedCount::OneLess
        } else {
            ParkedCount::OneMore
        };
        self.parked = !started;
        let turn = if started {
            ShardTurn::Work
        } else if running {
            ShardTurn::Wait
        } else {
            ShardTurn::Stop
        };
        (turn, count)
    }

    /// Ends the shard's run; a parked one leaves.
    pub fn end_run(&mut self) -> (r: ParkedCount)
        ensures
            !final(self).parked,
            r == if old(self).parked {
                ParkedCount::OneLess
            } else {
                ParkedCount::Same
            },
            old(self).share() + change(r) == final(self).share(),
    {
        let was = self.parked;
        self.parked = false;
        if was {
            ParkedCount::OneLess
        } else {
            ParkedCount::Same
        }
    }
}

/// Whether a shard that found nothing to do ends: the node stops and nothing
/// waits.
pub fn ends_idle(running: bool, waiting: bool) -> (r: bool)
    ensures
        r == (!running && !waiting),
{
    !running && !waiting
}

/// Whether a shard takes a snapshot: it has a place for one, and one was asked
/// for or the interval has passed.
pub fn snapshot_due(
    has_path: bool,
    requested: bool,
    snapshot_every: Option<u64>,
    elapsed: u64,
) -> (r: bool)
    ensures
        r == (has_path && (requested || (snapshot_every is Some && elapsed >= snapshot_every->0))),
{
    if !has_path {
        return false;
    }
    if requested {
        return true;
    }
    match snapshot_every {
        Some(every) => elapsed >= every,
        None => false,
    }
}

/// The configured instruments of one shard, in order.
pub open spec fn homed(instruments: Seq<InstrumentId>, shards: nat, shard: nat) -> Seq<InstrumentId> {
    instruments.filter(|i: InstrumentId| (i.0 as int) % (shards as int) == shard)
}

/// The configured instruments of one shard, whose books are created at start.
pub fn books_of(instruments: &Vec<InstrumentId>, shards: usize, shard: usize) -> (r: Vec<
    InstrumentId,
>)
    requires
        shards > 0,
    ensures
        r@ == homed(instruments@, shards as nat, shard as nat),
{
    let mut out: Vec<InstrumentId> = Vec::new();
    let mut i: usize = 0;
    let ghost f = |i: InstrumentId| (i.0 as int) % (shards as int) == shard;
    assert(instruments@.take(0).filter(f) =~= Seq::<InstrumentId>::empty()) by {
        reveal(Seq::filter);
    }
    while i < instruments.len()
        invariant
            i <= instruments@.len(),
            shards > 0,
            f == (|i: InstrumentId| (i.0 as int) % (shards as int) == shard),
            out@ == instruments@.take(i as int).filter(f),
        decreases instruments@.len() - i,
    {
        proof {
            reveal(Seq::filter);
            assert(instruments@.take(i + 1).drop_last() =~= instruments@.take(i as int));
        }
        if instruments[i].0 as usize % shards == shard {
            out.push(instruments[i]);
        }
        i += 1;
    }
    assert(instruments@.take(i as int) =~= instruments@);
    assert(homed(instruments@, shards as nat, shard as nat) =~= instruments@.filter(f));
    out
}

impl OrderGateway {
    /// An instrument has one shard, and the instruments go round the shards.
    pub proof fn law_instruments_go_round(&self, a: InstrumentId, b: InstrumentId)
        requires
            self.waiting().len() > 0,
        ensures
            0 <= self.home(a) < self.waiting().len(),
            a.0 < self.waiting().len() ==> self.home(a) == a.0,
            self.home(a) == self.home(b) <==> (a.0 - b.0) % (self.waiting().len() as int) == 0,
    {
        let n = self.waiting().len() as int;
        let (x, y) = (a.0 as int, b.0 as int);
        assert(0 <= x % n < n) by (nonlinear_arith)
            requires
                n > 0,
        ;
        if x < n {
            assert(x % n == x) by (nonlinear_arith)
                requires
                    0 <= x < n,
            ;
        }
        vstd::arithmetic::div_mod::lemma_mod_equivalence(x, y, n);
    }
}

} // verus!
