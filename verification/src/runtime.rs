//! What a node of a replication group decides: which requests are proposed,
//! which committed commands are applied, when the node is ready, how far its log
//! may be cut, and how the outbox is faring.

use std::collections::{HashMap, HashSet, VecDeque};

use vstd::prelude::*;

use crate::codec::{be, get_le, lemma_le_len, put_be};
use crate::exchange::Command;
use crate::metrics::Metrics;
use crate::sharding::{asset_category, category};
use crate::text::{chars_of, strip_prefix};
use crate::types::InstrumentId;
use crate::wire::{
    batch_payload, encode_raft_batch, instrument_of, RAFT_BATCH_MAX_COMMANDS, REPORT_LEN,
};

verus! {

broadcast use vstd::std_specs::hash::group_hash_axioms;

/// The newest commands that were committed, and where in the log: a command that
/// is sent again is recognised as long as it is among them.
pub struct CommittedIdWindow {
    indexes: HashMap<u64, u64>,
    insertion_order: VecDeque<u64>,
    max_ids: usize,
}

/// Ids and indexes, oldest first.
pub type Entries = Seq<(u64, u64)>;

/// The index of an id.
pub open spec fn index_of(entries: Entries, id: u64) -> Option<u64>
    decreases entries.len(),
{
    if entries.len() == 0 {
        None
    } else if entries.last().0 == id {
        Some(entries.last().1)
    } else {
        index_of(entries.drop_last(), id)
    }
}

/// The window after a command was committed: an id that is there keeps its index,
/// zero is no id, and beyond `max` entries the oldest one goes.
pub open spec fn remembered(entries: Entries, max: nat, id: u64, index: u64) -> Entries {
    if id == 0 || index_of(entries, id) is Some {
        entries
    } else {
        let more = entries.push((id, index));
        if more.len() > max {
            more.skip(1)
        } else {
            more
        }
    }
}

proof fn lemma_index_of(entries: Entries, id: u64)
    ensures
        index_of(entries, id) is Some <==> exists|i: int|
            0 <= i < entries.len() && (#[trigger] entries[i]).0 == id,
        index_of(entries, id) matches Some(index) ==> exists|i: int|
            0 <= i < entries.len() && #[trigger] entries[i] == (id, index),
    decreases entries.len(),
{
    if entries.len() > 0 {
        let rest = entries.drop_last();
        lemma_index_of(rest, id);
        assert(entries[entries.len() - 1] == entries.last());
        if entries.last().0 != id {
            if index_of(rest, id) is Some {
                let i = choose|i: int|
                    0 <= i < rest.len() && #[trigger] rest[i] == (id, index_of(rest, id)->0);
                assert(entries[i] == (id, index_of(rest, id)->0));
            }
            if exists|i: int| 0 <= i < entries.len() && (#[trigger] entries[i]).0 == id {
                let i = choose|i: int| 0 <= i < entries.len() && (#[trigger] entries[i]).0 == id;
                assert(rest[i].0 == id);
            }
        }
    }
}

proof fn lemma_skip_one(entries: Entries, id: u64)
    requires
        entries.len() > 0,
        entries[0].0 != id,
    ensures
        index_of(entries.skip(1), id) == index_of(entries, id),
    decreases entries.len(),
{
    if entries.len() == 1 {
        assert(entries.drop_last() =~= Entries::empty());
    } else {
        assert(entries.skip(1).drop_last() =~= entries.drop_last().skip(1));
        assert(entries.skip(1).last() == entries.last());
        lemma_skip_one(entries.drop_last(), id);
    }
}

/// A committed command is found again, at its first index; the other commands stay
/// as they are, but for the oldest one: where there was no more room, it is gone.
pub proof fn law_remembered_is_found(entries: Entries, max: nat, id: u64, index: u64)
    requires
        max >= 1,
        id != 0,
        entries.len() <= max,
        forall|i: int, j: int|
            0 <= i < j < entries.len() ==> (#[trigger] entries[i]).0 != (#[trigger] entries[j]).0,
    ensures
        ({
            let after = remembered(entries, max, id, index);
            &&& index_of(after, id) == Some(
                match index_of(entries, id) {
                    Some(first) => first,
                    None => index,
                },
            )
            &&& forall|other: u64|
                other != id && (entries.len() < max || entries[0].0 != other)
                    ==> #[trigger] index_of(after, other) == index_of(entries, other)
            &&& index_of(entries, id) is None && entries.len() == max ==> index_of(
                after,
                entries[0].0,
            ) is None && after.len() == max
        }),
{
    if index_of(entries, id) is None {
        let more = entries.push((id, index));
        assert(more.drop_last() =~= entries);
        if more.len() > max {
            assert(more.skip(1).last() == (id, index));
            assert forall|other: u64| other != id && entries[0].0 != other implies #[trigger] index_of(
                more.skip(1),
                other,
            ) == index_of(entries, other) by {
                assert(more[0] == entries[0]);
                lemma_skip_one(more, other);
            }
            lemma_index_of(entries, id);
            lemma_index_of(more.skip(1), entries[0].0);
            assert forall|i: int| 0 <= i < more.skip(1).len() implies (#[trigger] more.skip(1)[i]).0
                != entries[0].0 by {
                if i + 1 < entries.len() {
                    assert(more.skip(1)[i] == entries[i + 1]);
                }
            }
        }
    }
}

impl View for CommittedIdWindow {
    type V = Entries;

    closed spec fn view(&self) -> Entries {
        Seq::new(
            self.insertion_order@.len(),
            |i: int| (self.insertion_order@[i], self.indexes@[self.insertion_order@[i]]),
        )
    }
}

impl CommittedIdWindow {
    /// How many ids the window holds at most.
    pub closed spec fn capacity(self) -> nat {
        self.max_ids as nat
    }

    /// The window's invariant: no id occurs twice, the ids are those that have an
    /// index, and 0, which stands for no id, is not among them.
    pub closed spec fn wf(self) -> bool {
        let order = self.insertion_order@;
        &&& self.max_ids >= 1
        &&& order.len() <= self.max_ids
        &&& order.no_duplicates()
        &&& !order.contains(0)
        &&& forall|id: u64| #[trigger] self.indexes@.contains_key(id) <==> order.contains(id)
    }

    /// The window has room for at least one id, never holds more than it has room
    /// for, no id twice, and never the id 0.
    pub proof fn law_window_is_bounded(&self)
        requires
            self.wf(),
        ensures
            self.capacity() >= 1,
            self@.len() <= self.capacity(),
            index_of(self@, 0) is None,
            forall|i: int| 0 <= i < self@.len() ==> (#[trigger] self@[i]).0 != 0,
            forall|i: int, j: int|
                0 <= i < j < self@.len() ==> (#[trigger] self@[i]).0 != (#[trigger] self@[j]).0,
    {
        lemma_index_of(self@, 0);
        assert forall|i: int| 0 <= i < self@.len() implies (#[trigger] self@[i]).0 != 0 by {
            assert(self.insertion_order@.contains(self.insertion_order@[i]));
        }
    }

    /// An empty window with room for at least one id.
    pub fn new(max_ids: usize) -> (r: CommittedIdWindow)
        ensures
            r.wf(),
            r@ == Entries::empty(),
            r.capacity() == if max_ids == 0 {
                1
            } else {
                max_ids as nat
            },
    {
        let r = CommittedIdWindow {
            indexes: HashMap::new(),
            insertion_order: VecDeque::new(),
            max_ids: if max_ids == 0 {
                1
            } else {
                max_ids
            },
        };
        assert(r@ =~= Entries::empty());
        r
    }

    proof fn lemma_lookup(&self, id: u64)
        requires
            self.wf(),
        ensures
            index_of(self@, id) == if self.indexes@.contains_key(id) {
                Some(self.indexes@[id])
            } else {
                None
            },
    {
        lemma_index_of(self@, id);
        let order = self.insertion_order@;
        if self.indexes@.contains_key(id) {
            let i = choose|i: int| 0 <= i < order.len() && order[i] == id;
            assert(self@[i].0 == id);
            let j = choose|j: int|
                0 <= j < self@.len() && #[trigger] self@[j] == (id, index_of(self@, id)->0);
            assert(order[j] == id);
        } else if index_of(self@, id) is Some {
            let i = choose|i: int| 0 <= i < self@.len() && (#[trigger] self@[i]).0 == id;
            assert(order[i] == id);
        }
    }

    /// Where in the log a command was committed.
    pub fn get(&self, id: u64) -> (r: Option<u64>)
        requires
            self.wf(),
        ensures
            r == index_of(self@, id),
    {
        proof {
            self.lemma_lookup(id);
        }
        match self.indexes.get(&id) {
            Some(index) => Some(*index),
            None => None,
        }
    }

    /// Whether a command is among those remembered.
    pub fn contains(&self, id: u64) -> (r: bool)
        requires
            self.wf(),
        ensures
            r == (index_of(self@, id) is Some),
    {
        proof {
            self.lemma_lookup(id);
        }
        self.indexes.contains_key(&id)
    }

    /// Remembers where in the log a command was committed.
    pub fn remember(&mut self, id: u64, index: u64)
        requires
            old(self).wf(),
        ensures
            final(self).wf(),
            final(self).capacity() == old(self).capacity(),
            final(self)@ == remembered(old(self)@, old(self).capacity(), id, index),
    {
        if id == 0 || self.contains(id) {
            return;
        }
        let ghost before = self@;
        let ghost order = self.insertion_order@;
        let ghost map = self.indexes@;
        let full: bool = self.insertion_order.len() == self.max_ids;
        proof {
            self.lemma_lookup(id);
            assert(!order.contains(id));
        }
        if full {
            if let Some(expired) = self.insertion_order.pop_front() {
                proof {
                    assert(order[0] == expired);
                }
                self.indexes.remove(&expired);
            }
        }
        let ghost kept = self.insertion_order@;
        self.indexes.insert(id, index);
        self.insertion_order.push_back(id);
        proof {
            let now = self.insertion_order@;
            let from = if full {
                1int
            } else {
                0int
            };
            assert(kept =~= order.skip(from));
            assert(now =~= kept.push(id));
            assert forall|i: int, j: int|
                0 <= i < j < now.len() implies now[i] != now[j] by {
                if j == kept.len() {
                    assert(order.contains(order[i + from]));
                } else {
                    assert(order[i + from] != order[j + from]);
                }
            }
            assert forall|k: u64| #[trigger] self.indexes@.contains_key(k) <==> now.contains(k) by {
                if self.indexes@.contains_key(k) {
                    if k == id {
                        assert(now[kept.len() as int] == id);
                    } else {
                        assert(map.contains_key(k));
                        let i = choose|i: int| 0 <= i < order.len() && order[i] == k;
                        assert(i >= from);
                        assert(now[i - from] == k);
                    }
                }
                if now.contains(k) {
                    let i = choose|i: int| 0 <= i < now.len() && now[i] == k;
                    if i < kept.len() {
                        assert(order[i + from] == k);
                        assert(order.contains(k));
                        if full {
                            assert(order[0] != order[i + from]);
                        }
                    }
                }
            }
            let more = before.push((id, index));
            assert(self@ =~= more.skip(from)) by {
                assert forall|i: int| 0 <= i < self@.len() implies self@[i] == more.skip(from)[i] by {
                    if i < kept.len() {
                        assert(now[i] == order[i + from]);
                        assert(order.contains(order[i + from]));
                        assert(now[i] != id);
                        if full {
                            assert(order[0] != order[i + from]);
                        }
                    }
                }
            }
            assert(more.skip(0) =~= more);
        }
    }
}

/// A command that was just remembered is found where it was committed first.
pub proof fn law_first_commit_counts(entries: Entries, max: nat, id: u64, index: u64)
    requires
        max >= 1,
        id != 0,
    ensures
        index_of(remembered(entries, max, id, index), id) == match index_of(entries, id) {
            Some(first) => Some(first),
            None => Some(index),
        },
{
    if index_of(entries, id) is None {
        let now = remembered(entries, max, id, index);
        assert(now.last() == (id, index));
    }
}

/// What becomes of a request.
#[derive(Debug)]
pub enum ProposalStep {
    /// All its commands were committed before, the last of them here.
    Known(u64),
    /// It is proposed as this log entry.
    Propose(Vec<u8>),
    /// It cannot be a log entry.
    Dropped,
}

/// The greatest place at which one of the commands was committed, if any was.
pub open spec fn last_commit(entries: Entries, commands: Seq<Command>) -> Option<u64>
    decreases commands.len(),
{
    if commands.len() == 0 {
        None
    } else {
        let head = last_commit(entries, commands.drop_last());
        match index_of(entries, commands.last().ident()) {
            None => head,
            Some(index) => match head {
                Some(other) => Some(
                    if index >= other {
                        index
                    } else {
                        other
                    },
                ),
                None => Some(index),
            },
        }
    }
}

/// Every command has an id and was committed before.
pub open spec fn all_known(entries: Entries, commands: Seq<Command>) -> bool {
    forall|i: int|
        0 <= i < commands.len() ==> (#[trigger] commands[i]).ident() != 0 && index_of(
            entries,
            commands[i].ident(),
        ) is Some
}

/// Decides about a request: it is answered if all its commands were committed
/// before, and proposed as one log entry otherwise.
pub fn plan_proposal(window: &CommittedIdWindow, commands: &Vec<Command>) -> (r: ProposalStep)
    requires
        window.wf(),
    ensures
        match r {
            ProposalStep::Known(index) => all_known(window@, commands@) && index
                == match last_commit(window@, commands@) {
                Some(index) => index,
                None => 0,
            },
            ProposalStep::Propose(entry) => {
                &&& !all_known(window@, commands@)
                &&& 0 < commands@.len() <= RAFT_BATCH_MAX_COMMANDS
                &&& entry@ == batch_payload(commands@)
            },
            ProposalStep::Dropped => {
                &&& !all_known(window@, commands@)
                &&& commands@.len() > RAFT_BATCH_MAX_COMMANDS
            },
        },
{
    let mut last: Option<u64> = None;
    let mut known: bool = true;
    let mut i: usize = 0;
    assert(commands@.take(0) =~= Seq::<Command>::empty());
    while i < commands.len()
        invariant
            window.wf(),
            i <= commands@.len(),
            last == last_commit(window@, commands@.take(i as int)),
            known == all_known(window@, commands@.take(i as int)),
        decreases commands@.len() - i,
    {
        let ghost taken = commands@.take(i as int);
        let ghost more = commands@.take(i + 1);
        proof {
            assert(more.drop_last() =~= taken);
            assert(more.last() == commands@[i as int]);
            if all_known(window@, more) {
                assert forall|j: int| 0 <= j < taken.len() implies (#[trigger] taken[j]).ident()
                    != 0 && index_of(window@, taken[j].ident()) is Some by {
                    assert(more[j] == taken[j]);
                }
                assert(more[i as int] == commands@[i as int]);
            }
        }
        let id: u64 = commands[i].id();
        match window.get(id) {
            Some(index) => {
                last = match last {
                    Some(other) => Some(
                        if index >= other {
                            index
                        } else {
                            other
                        },
                    ),
                    None => Some(index),
                };
                if id == 0 {
                    known = false;
                }
            },
            None => {
                known = false;
            },
        }
        proof {
            if known {
                assert forall|j: int| 0 <= j < more.len() implies (#[trigger] more[j]).ident() != 0
                    && index_of(window@, more[j].ident()) is Some by {
                    if j < i {
                        assert(taken[j] == more[j]);
                    }
                }
            }
        }
        i += 1;
    }
    assert(commands@.take(i as int) =~= commands@);
    if known {
        return ProposalStep::Known(
            match last {
                Some(index) => index,
                None => 0,
            },
        );
    }
    match encode_raft_batch(commands) {
        Some(entry) => ProposalStep::Propose(entry),
        None => ProposalStep::Dropped,
    }
}

/// Where in the log the `k`-th of `proposed` entries stands that were appended
/// last.
pub fn proposal_index(last_index: u64, proposed: u64, k: u64) -> (r: u64)
    requires
        k < proposed <= last_index,
        last_index < u64::MAX,
    ensures
        r == last_index + 1 - proposed + k,
{
    last_index + 1 - proposed + k
}

/// The window after commands were committed at `index`.
pub open spec fn window_after(entries: Entries, max: nat, commands: Seq<Command>, index: u64) -> Entries
    decreases commands.len(),
{
    if commands.len() == 0 {
        entries
    } else {
        remembered(
            window_after(entries, max, commands.drop_last(), index),
            max,
            commands.last().ident(),
            index,
        )
    }
}

/// The committed commands that are applied: those that were not committed before
/// and that their instrument's log does not hold yet. `marks` says up to which
/// index each one's log goes.
pub open spec fn to_apply(
    entries: Entries,
    max: nat,
    commands: Seq<Command>,
    marks: Seq<u64>,
    index: u64,
) -> Seq<Command>
    decreases commands.len(),
{
    if commands.len() == 0 {
        Seq::empty()
    } else {
        let rest = commands.drop_last();
        let head = to_apply(entries, max, rest, marks, index);
        let command = commands.last();
        let id = command.ident();
        let duplicate = id != 0 && index_of(window_after(entries, max, rest, index), id) is Some;
        if !duplicate && marks[commands.len() - 1] < index {
            head.push(command)
        } else {
            head
        }
    }
}

/// Takes over a committed entry: which of its commands are applied.
pub fn take_committed(
    window: &mut CommittedIdWindow,
    commands: &Vec<Command>,
    marks: &Vec<u64>,
    index: u64,
) -> (r: Vec<Command>)
    requires
        old(window).wf(),
        marks@.len() == commands@.len(),
    ensures
        final(window).wf(),
        final(window).capacity() == old(window).capacity(),
        final(window)@ == window_after(old(window)@, old(window).capacity(), commands@, index),
        r@ == to_apply(old(window)@, old(window).capacity(), commands@, marks@, index),
{
    let ghost start = window@;
    let ghost max = window.capacity();
    let mut out: Vec<Command> = Vec::new();
    let mut i: usize = 0;
    assert(commands@.take(0) =~= Seq::<Command>::empty());
    while i < commands.len()
        invariant
            i <= commands@.len() == marks@.len(),
            window.wf(),
            window.capacity() == max,
            window@ == window_after(start, max, commands@.take(i as int), index),
            out@ == to_apply(start, max, commands@.take(i as int), marks@, index),
        decreases commands@.len() - i,
    {
        proof {
            assert(commands@.take(i + 1).drop_last() =~= commands@.take(i as int));
            assert(commands@.take(i + 1).last() == commands@[i as int]);
        }
        let id: u64 = commands[i].id();
        let duplicate: bool = id != 0 && window.contains(id);
        window.remember(id, index);
        if !duplicate && marks[i] < index {
            out.push(commands[i]);
        }
        i += 1;
    }
    assert(commands@.take(i as int) =~= commands@);
    out
}

/// The commands of a recovered entry that are applied: all of a batch, and of a
/// single command those that their log does not hold yet.
pub open spec fn to_recover(
    commands: Seq<Command>,
    marks: Seq<u64>,
    index: u64,
    is_batch: bool,
) -> Seq<Command>
    decreases commands.len(),
{
    if commands.len() == 0 {
        Seq::empty()
    } else {
        let head = to_recover(commands.drop_last(), marks, index, is_batch);
        if is_batch || marks[commands.len() - 1] < index {
            head.push(commands.last())
        } else {
            head
        }
    }
}

/// Takes over an entry that was committed before a restart: which of its commands
/// are applied. A batch that was applied is not applied again.
pub fn take_recovered(
    window: &mut CommittedIdWindow,
    commands: &Vec<Command>,
    marks: &Vec<u64>,
    index: u64,
    is_batch: bool,
    applied_batches: &HashSet<u64>,
) -> (r: Vec<Command>)
    requires
        old(window).wf(),
        marks@.len() == commands@.len(),
    ensures
        final(window).wf(),
        final(window).capacity() == old(window).capacity(),
        final(window)@ == window_after(old(window)@, old(window).capacity(), commands@, index),
        r@ == if is_batch && applied_batches@.contains(index) {
            Seq::empty()
        } else {
            to_recover(commands@, marks@, index, is_batch)
        },
{
    let ghost start = window@;
    let ghost max = window.capacity();
    let done: bool = is_batch && applied_batches.contains(&index);
    let mut out: Vec<Command> = Vec::new();
    let mut i: usize = 0;
    assert(commands@.take(0) =~= Seq::<Command>::empty());
    while i < commands.len()
        invariant
            i <= commands@.len() == marks@.len(),
            window.wf(),
            window.capacity() == max,
            window@ == window_after(start, max, commands@.take(i as int), index),
            out@ == if done {
                Seq::empty()
            } else {
                to_recover(commands@.take(i as int), marks@, index, is_batch)
            },
        decreases commands@.len() - i,
    {
        proof {
            assert(commands@.take(i + 1).drop_last() =~= commands@.take(i as int));
            assert(commands@.take(i + 1).last() == commands@[i as int]);
        }
        window.remember(commands[i].id(), index);
        if !done && (is_batch || marks[i] < index) {
            out.push(commands[i]);
        }
        i += 1;
    }
    assert(commands@.take(i as int) =~= commands@);
    out
}

/// A command that is committed a second time while it is remembered is not
/// applied again.
pub proof fn law_committed_once_applied_once(
    entries: Entries,
    max: nat,
    command: Command,
    marks: Seq<u64>,
    index: u64,
)
    requires
        command.ident() != 0,
        index_of(entries, command.ident()) is Some,
    ensures
        to_apply(entries, max, seq![command], marks, index) == Seq::<Command>::empty(),
{
    let one = seq![command];
    assert(one.drop_last() =~= Seq::<Command>::empty());
    assert(window_after(entries, max, one.drop_last(), index) == entries);
    assert(to_apply(entries, max, one.drop_last(), marks, index) =~= Seq::<Command>::empty());
}

/// The terms of committed entries: they never go back.
#[derive(Clone, Copy, Debug, PartialEq, Eq, Structural)]
pub struct Fence {
    pub term: u64,
}

impl Fence {
    /// Whether an entry of this term may be applied: an entry of an earlier term
    /// would come from a leader that is none any more.
    pub fn pass(&mut self, term: u64) -> (r: bool)
        ensures
            r == (term >= old(self).term),
            final(self).term == if r {
                term
            } else {
                old(self).term
            },
    {
        if term < self.term {
            return false;
        }
        self.term = term;
        true
    }
}

/// A node is ready: it knows a leader, has applied nearly all that is committed,
/// its logs are in order, and the outbox is short and being published.
pub open spec fn fit_to_serve(
    metrics: Metrics,
    leader_id: u64,
    max_apply_lag: u64,
    max_outbox_pending: u64,
) -> bool {
    &&& leader_id != 0
    &&& metrics.lag() <= max_apply_lag
    &&& metrics.asset_wal_errors == 0
    &&& metrics.execution_outbox_pending <= max_outbox_pending
    &&& metrics.execution_outbox_publish_healthy == 1
}

/// Whether a node is ready.
pub fn is_fit(
    metrics: &Metrics,
    leader_id: u64,
    max_apply_lag: u64,
    max_outbox_pending: u64,
) -> (r: bool)
    ensures
        r == fit_to_serve(*metrics, leader_id, max_apply_lag, max_outbox_pending),
{
    leader_id != 0 && metrics.raft_apply_lag() <= max_apply_lag && metrics.asset_wal_errors == 0
        && metrics.execution_outbox_pending <= max_outbox_pending
        && metrics.execution_outbox_publish_healthy == 1
}

/// How many of the committed entries, from the first one on, are applied.
pub open spec fn applied_run(committed: Seq<u64>, applied: Set<u64>) -> nat
    decreases committed.len(),
{
    if committed.len() == 0 || !applied.contains(committed[0]) {
        0
    } else {
        1 + applied_run(committed.skip(1), applied)
    }
}

/// Up to where the log may be cut: to the end of the committed entries that are
/// applied without a gap, and not at all if the first one is not.
pub open spec fn safe_cut(snapshot_index: u64, committed: Seq<u64>, applied: Set<u64>) -> u64 {
    let n = applied_run(committed, applied) as int;
    if n == 0 {
        snapshot_index
    } else {
        committed[n - 1]
    }
}

/// Up to where the log may be cut.
pub fn compaction_point(snapshot_index: u64, committed: &Vec<u64>, applied: &HashSet<u64>) -> (r:
    u64)
    ensures
        r == safe_cut(snapshot_index, committed@, applied@),
{
    let mut safe: u64 = snapshot_index;
    let mut i: usize = 0;
    assert(committed@.skip(0) =~= committed@);
    while i < committed.len() && applied.contains(&committed[i])
        invariant
            i <= committed@.len(),
            applied_run(committed@, applied@) == i + applied_run(
                committed@.skip(i as int),
                applied@,
            ),
            safe == if i == 0 {
                snapshot_index
            } else {
                committed@[i - 1]
            },
        decreases committed@.len() - i,
    {
        assert(committed@.skip(i as int).skip(1) =~= committed@.skip(i + 1));
        safe = committed[i];
        i += 1;
    }
    safe
}

proof fn lemma_applied_run(committed: Seq<u64>, applied: Set<u64>)
    ensures
        applied_run(committed, applied) <= committed.len(),
        forall|i: int|
            0 <= i < applied_run(committed, applied) ==> applied.contains(
                #[trigger] committed[i],
            ),
    decreases committed.len(),
{
    if committed.len() > 0 && applied.contains(committed[0]) {
        let rest = committed.skip(1);
        lemma_applied_run(rest, applied);
        assert forall|i: int| 0 <= i < applied_run(committed, applied) implies applied.contains(
            #[trigger] committed[i],
        ) by {
            if i > 0 {
                assert(rest[i - 1] == committed[i]);
            }
        }
    }
}

/// Every committed entry up to the cut is applied: none that recovery would need
/// is lost.
pub proof fn law_cut_loses_nothing(
    snapshot_index: u64,
    committed: Seq<u64>,
    applied: Set<u64>,
    i: int,
)
    requires
        forall|a: int, b: int|
            0 <= a < b < committed.len() ==> #[trigger] committed[a] < #[trigger] committed[b],
        forall|a: int| 0 <= a < committed.len() ==> #[trigger] committed[a] > snapshot_index,
        0 <= i < committed.len(),
        committed[i] <= safe_cut(snapshot_index, committed, applied),
    ensures
        applied.contains(committed[i]),
{
    lemma_applied_run(committed, applied);
    let n = applied_run(committed, applied) as int;
    if i >= n && n > 0 {
        assert(committed[n - 1] < committed[i]);
    }
}

/// Whether the log is to be cut: cutting is on, a second has passed since the
/// last look, and enough entries were applied since the last cut.
pub fn compaction_due(
    threshold: u64,
    millis_since_check: u64,
    applied_index: u64,
    snapshot_index: u64,
) -> (r: bool)
    ensures
        r == (threshold != 0 && millis_since_check >= 1000 && (if applied_index > snapshot_index {
            applied_index - snapshot_index
        } else {
            0
        }) >= threshold),
{
    let applied: u64 = if applied_index > snapshot_index {
        applied_index - snapshot_index
    } else {
        0
    };
    threshold != 0 && millis_since_check >= 1000 && applied >= threshold
}

/// The entries behind a cut.
pub open spec fn behind_cut(committed: Seq<u64>, cut: u64) -> Seq<u64> {
    committed.filter(|index: u64| index > cut)
}

/// Forgets the committed entries up to a cut.
pub fn forget_cut(committed: &Vec<u64>, cut: u64) -> (r: Vec<u64>)
    ensures
        r@ == behind_cut(committed@, cut),
{
    let mut out: Vec<u64> = Vec::new();
    let mut i: usize = 0;
    proof {
        reveal(Seq::filter);
    }
    assert(committed@.take(0) =~= Seq::<u64>::empty());
    while i < committed.len()
        invariant
            i <= committed@.len(),
            out@ == behind_cut(committed@.take(i as int), cut),
        decreases committed@.len() - i,
    {
        proof {
            reveal(Seq::filter);
            assert(committed@.take(i + 1).drop_last() =~= committed@.take(i as int));
        }
        if committed[i] > cut {
            out.push(committed[i]);
        }
        i += 1;
    }
    assert(committed@.take(i as int) =~= committed@);
    out
}

/// What became of a look at the outbox.
#[derive(Clone, Copy, Debug, PartialEq, Eq, Structural)]
pub enum PublishOutcome {
    /// This node does not lead, and so does not publish.
    Follower,
    /// Nothing was left to publish.
    Idle,
    /// So many records were published and acknowledged.
    Published { records: u64, elapsed_ns: u64 },
    /// The records were published, but that could not be recorded.
    CursorFailed { elapsed_ns: u64 },
    /// Not all records were taken.
    NotAcknowledged,
    /// The outbox could not be read.
    ReadFailed,
}

/// The metrics after a look at the outbox.
pub open spec fn noted_publish(m: Metrics, outcome: PublishOutcome) -> Metrics {
    match outcome {
        PublishOutcome::Follower | PublishOutcome::Idle => Metrics {
            execution_outbox_publish_healthy: 1,
            ..m
        },
        PublishOutcome::Published { records, elapsed_ns } => Metrics {
            execution_kafka_publish_ns_total: m.execution_kafka_publish_ns_total.wrapping_add(
                elapsed_ns,
            ),
            execution_kafka_publish_ns_max: crate::backpressure::greater(
                m.execution_kafka_publish_ns_max,
                elapsed_ns,
            ),
            execution_kafka_publish_samples: m.execution_kafka_publish_samples.wrapping_add(1),
            execution_outbox_published: m.execution_outbox_published.wrapping_add(records),
            execution_outbox_publish_healthy: 1,
            ..m
        },
        PublishOutcome::CursorFailed { elapsed_ns } => Metrics {
            execution_kafka_publish_ns_total: m.execution_kafka_publish_ns_total.wrapping_add(
                elapsed_ns,
            ),
            execution_kafka_publish_ns_max: crate::backpressure::greater(
                m.execution_kafka_publish_ns_max,
                elapsed_ns,
            ),
            execution_kafka_publish_samples: m.execution_kafka_publish_samples.wrapping_add(1),
            execution_outbox_publish_failures: m.execution_outbox_publish_failures.wrapping_add(1),
            execution_outbox_publish_healthy: 0,
            ..m
        },
        PublishOutcome::NotAcknowledged | PublishOutcome::ReadFailed => Metrics {
            execution_outbox_publish_failures: m.execution_outbox_publish_failures.wrapping_add(1),
            execution_outbox_publish_healthy: 0,
            ..m
        },
    }
}

fn note_elapsed(metrics: &mut Metrics, elapsed_ns: u64)
    ensures
        *final(metrics) == (Metrics {
            execution_kafka_publish_ns_total: old(
                metrics,
            ).execution_kafka_publish_ns_total.wrapping_add(elapsed_ns),
            execution_kafka_publish_ns_max: crate::backpressure::greater(
                old(metrics).execution_kafka_publish_ns_max,
                elapsed_ns,
            ),
            execution_kafka_publish_samples: old(
                metrics,
            ).execution_kafka_publish_samples.wrapping_add(1),
            ..*old(metrics)
        }),
{
    metrics.execution_kafka_publish_ns_total = metrics.execution_kafka_publish_ns_total.wrapping_add(
        elapsed_ns,
    );
    if elapsed_ns > metrics.execution_kafka_publish_ns_max {
        metrics.execution_kafka_publish_ns_max = elapsed_ns;
    }
    metrics.execution_kafka_publish_samples = metrics.execution_kafka_publish_samples.wrapping_add(
        1,
    );
}

/// Takes over what became of a look at the outbox.
pub fn note_publish(metrics: &mut Metrics, outcome: PublishOutcome)
    ensures
        *final(metrics) == noted_publish(*old(metrics), outcome),
{
    match outcome {
        PublishOutcome::Follower | PublishOutcome::Idle => {
            metrics.execution_outbox_publish_healthy = 1;
        },
        PublishOutcome::Published { records, elapsed_ns } => {
            note_elapsed(metrics, elapsed_ns);
            metrics.execution_outbox_published = metrics.execution_outbox_published.wrapping_add(
                records,
            );
            metrics.execution_outbox_publish_healthy = 1;
        },
        PublishOutcome::CursorFailed { elapsed_ns } => {
            note_elapsed(metrics, elapsed_ns);
            metrics.execution_outbox_publish_failures =
            metrics.execution_outbox_publish_failures.wrapping_add(1);
            metrics.execution_outbox_publish_healthy = 0;
        },
        PublishOutcome::NotAcknowledged | PublishOutcome::ReadFailed => {
            metrics.execution_outbox_publish_failures =
            metrics.execution_outbox_publish_failures.wrapping_add(1);
            metrics.execution_outbox_publish_healthy = 0;
        },
    }
}

/// A node whose outbox could not be published is not ready.
pub proof fn law_failing_outbox_is_not_ready(
    m: Metrics,
    outcome: PublishOutcome,
    leader_id: u64,
    max_apply_lag: u64,
    max_outbox_pending: u64,
)
    requires
        outcome is CursorFailed || outcome is NotAcknowledged || outcome is ReadFailed,
    ensures
        !fit_to_serve(noted_publish(m, outcome), leader_id, max_apply_lag, max_outbox_pending),
{
}

/// A file is a segment of the outbox: `outbox-shard-` and something, then `.bin`.
pub open spec fn is_outbox_name(name: Seq<char>) -> bool {
    let n = name.len() as int;
    &&& n >= 17
    &&& name.take(13) == "outbox-shard-"@
    &&& name.skip(n - 4) == ".bin"@
}

/// Whether a file is a segment of the outbox, and not a cursor or anything else.
pub fn is_execution_outbox_file(name: &str) -> (r: bool)
    ensures
        r == is_outbox_name(name@),
{
    let chars = chars_of(name);
    proof {
        reveal_strlit("outbox-shard-");
        reveal_strlit(".bin");
    }
    match strip_prefix(chars.as_slice(), "outbox-shard-") {
        None => false,
        Some(rest) => {
            let n: usize = rest.len();
            if n < 4 {
                return false;
            }
            proof {
                assert(rest@.skip(n - 4) =~= name@.skip(name@.len() - 4));
                if rest@[n - 4] == '.' && rest@[n - 3] == 'b' && rest@[n - 2] == 'i' && rest@[n - 1]
                    == 'n' {
                    assert(rest@.skip(n - 4) =~= ".bin"@);
                }
                if rest@.skip(n - 4) == ".bin"@ {
                    assert(rest@.skip(n - 4)[0] == '.' && rest@.skip(n - 4)[1] == 'b' && rest@.skip(
                        n - 4,
                    )[2] == 'i' && rest@.skip(n - 4)[3] == 'n');
                }
            }
            rest[n - 4] == '.' && rest[n - 3] == 'b' && rest[n - 2] == 'i' && rest[n - 1] == 'n'
        },
    }
}

/// The key under which a report is grouped by the category of its instrument:
/// the category's four bytes, highest first.
pub fn execution_category_key(frame: &[u8; REPORT_LEN], category_size: u32) -> (r: [u8; 4])
    requires
        category_size > 0,
    ensures
        r@ == be(category(instrument_of(frame@), category_size) as nat, 4),
{
    let instrument: u32 = get_le(frame.as_slice(), 4, 4) as u32;
    let category_id: u32 = asset_category(InstrumentId(instrument), category_size);
    let mut bytes: Vec<u8> = Vec::new();
    put_be(&mut bytes, category_id as u64, 4);
    proof {
        lemma_le_len(category_id as nat, 4);
    }
    let r: [u8; 4] = [bytes[0], bytes[1], bytes[2], bytes[3]];
    assert(r@ =~= be(category_id as nat, 4));
    r
}

/// A committed command is applied if it is new and its instrument's log does not go as far;
/// and not if the log does.
pub proof fn law_new_commands_are_applied(
    entries: Entries,
    max: nat,
    command: Command,
    mark: u64,
    index: u64,
)
    ensures
        (command.ident() == 0 || index_of(entries, command.ident()) is None) && mark < index
            ==> to_apply(entries, max, seq![command], seq![mark], index) == seq![command],
        mark >= index ==> to_apply(entries, max, seq![command], seq![mark], index) == Seq::<
            Command,
        >::empty(),
        to_recover(seq![command], seq![mark], index, true) == seq![command],
        mark < index ==> to_recover(seq![command], seq![mark], index, false) == seq![command],
        mark >= index ==> to_recover(seq![command], seq![mark], index, false) == Seq::<
            Command,
        >::empty(),
{
    let one = seq![command];
    assert(one.drop_last() =~= Seq::<Command>::empty());
    reveal_with_fuel(to_apply, 2);
    reveal_with_fuel(to_recover, 2);
    assert(Seq::<Command>::empty().push(command) =~= one);
}

/// The log is cut as far as it can be: the first committed entry behind the cut is not
/// applied.
pub proof fn law_cut_goes_as_far_as_it_can(
    snapshot_index: u64,
    committed: Seq<u64>,
    applied: Set<u64>,
)
    requires
        forall|a: int, b: int|
            0 <= a < b < committed.len() ==> #[trigger] committed[a] < #[trigger] committed[b],
        forall|a: int| 0 <= a < committed.len() ==> #[trigger] committed[a] > snapshot_index,
    ensures
        ({
            let cut = safe_cut(snapshot_index, committed, applied);
            let n = applied_run(committed, applied) as int;
            &&& n <= committed.len()
            &&& n < committed.len() ==> committed[n] > cut && !applied.contains(committed[n])
            &&& n == committed.len() && n > 0 ==> cut == committed.last()
        }),
{
    lemma_run_stops(committed, applied);
    let n = applied_run(committed, applied) as int;
    if 0 < n < committed.len() {
        assert(committed[n - 1] < committed[n]);
    }
}

proof fn lemma_run_stops(committed: Seq<u64>, applied: Set<u64>)
    ensures
        applied_run(committed, applied) <= committed.len(),
        applied_run(committed, applied) < committed.len() ==> !applied.contains(
            committed[applied_run(committed, applied) as int],
        ),
    decreases committed.len(),
{
    if committed.len() > 0 && applied.contains(committed[0]) {
        lemma_run_stops(committed.skip(1), applied);
    }
}

/// The place at which commands were committed last is one of theirs, and none of them was
/// committed later.
pub proof fn law_last_commit_is_the_latest(entries: Entries, commands: Seq<Command>)
    ensures
        forall|i: int|
            0 <= i < commands.len() ==> match index_of(entries, (#[trigger] commands[i]).ident()) {
                Some(index) => last_commit(entries, commands) is Some && index <= last_commit(
                    entries,
                    commands,
                )->0,
                None => true,
            },
        last_commit(entries, commands) matches Some(last) ==> exists|i: int|
            0 <= i < commands.len() && index_of(entries, (#[trigger] commands[i]).ident()) == Some(
                last,
            ),
    decreases commands.len(),
{
    if commands.len() > 0 {
        let front = commands.drop_last();
        law_last_commit_is_the_latest(entries, front);
        assert(commands[commands.len() - 1] == commands.last());
        assert forall|i: int| 0 <= i < commands.len() implies match index_of(
            entries,
            (#[trigger] commands[i]).ident(),
        ) {
            Some(index) => last_commit(entries, commands) is Some && index <= last_commit(
                entries,
                commands,
            )->0,
            None => true,
        } by {
            if i < front.len() {
                assert(front[i] == commands[i]);
            }
        }
        if let Some(last) = last_commit(entries, commands) {
            if last_commit(entries, front) == Some(last) {
                let i = choose|i: int|
                    0 <= i < front.len() && index_of(entries, (#[trigger] front[i]).ident())
                        == Some(last);
                assert(commands[i] == front[i]);
            }
        }
    }
}

/// Publishing is healthy after a look exactly if nothing went wrong: there was nothing to do,
/// or all of it was published. Failures are counted, and what was published.
pub proof fn law_publishing_is_noted(m: Metrics, outcome: PublishOutcome)
    requires
        m.execution_outbox_publish_failures < u64::MAX,
        outcome matches PublishOutcome::Published { records, .. } ==> m.execution_outbox_published
            + records <= u64::MAX,
    ensures
        ({
            let now = noted_publish(m, outcome);
            let failed = outcome is CursorFailed || outcome is NotAcknowledged || outcome is ReadFailed;
            &&& failed ==> now.execution_outbox_publish_healthy == 0
                && now.execution_outbox_publish_failures == m.execution_outbox_publish_failures + 1
            &&& !failed ==> now.execution_outbox_publish_healthy == 1
                && now.execution_outbox_publish_failures == m.execution_outbox_publish_failures
            &&& outcome matches PublishOutcome::Published { records, elapsed_ns } ==> {
                &&& now.execution_outbox_published == m.execution_outbox_published + records
                &&& now.execution_kafka_publish_ns_max >= elapsed_ns
                &&& now.execution_kafka_publish_ns_max >= m.execution_kafka_publish_ns_max
            }
            &&& !(outcome is Published) ==> now.execution_outbox_published
                == m.execution_outbox_published
        }),
{
}

/// A node is ready as long as each thing that matters is in order, and not when one is not.
pub proof fn law_readiness(m: Metrics, leader_id: u64, max_apply_lag: u64, max_outbox_pending: u64)
    ensures
        fit_to_serve(m, leader_id, max_apply_lag, max_outbox_pending) <==> !(leader_id == 0
            || m.lag() > max_apply_lag || m.asset_wal_errors > 0 || m.execution_outbox_pending
            > max_outbox_pending || m.execution_outbox_publish_healthy != 1),
{
}

} // verus!
