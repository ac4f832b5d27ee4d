//! How queued commands and execution reports become rows: which messages are
//! taken, which databases and tables they touch, and what each of them is told.

use vstd::prelude::*;
use vstd::string::StringExecFns;

use crate::codec::from_le;
use crate::exchange::{Command, ExecReport};
use crate::ingress::{BatchRecord, BatchView};
use crate::order_queue::{is_envelope, QueueEnvelope, QueueRouter};
use crate::sharding::{asset_category, category, RouteConfig, ShardRoute};
use crate::sorted::{ascending, insert_ascending};
use crate::text::{chars_of, is_text};
use crate::types::Side;
use crate::wire::{
    command_of, decode_command, decode_execution_event, decoded, event_of, instrument_of, ExecutionEvent,
    RT_ACCEPTED, RT_CANCELLED, RT_FILLED, RT_MODIFIED, RT_PARTIAL, RT_REJECTED, RT_RESTING,
    RT_TRADE,
};

verus! {

/// A message from a queue and its place there.
#[derive(Debug)]
pub struct Polled<T> {
    pub topic: String,
    pub partition: i32,
    pub offset: i64,
    pub item: T,
}

/// Why a message from the order queues is not taken.
#[derive(Clone, Copy, Debug, PartialEq, Eq, Structural)]
pub enum RejectedMessage {
    /// It is empty.
    NoPayload,
    /// It is no envelope.
    InvalidEnvelope,
    /// It is not where its category is queued now.
    StaleRoute { category_id: u32 },
}

/// The command in an envelope.
pub open spec fn enveloped(payload: Seq<u8>, category_size: u32) -> BatchView {
    BatchView {
        category_id: category(instrument_of(payload.skip(16)), category_size),
        user: from_le(payload.subrange(8, 16)) as u64,
        frame: payload.skip(16),
    }
}

/// The message is where the router queues the category, under the router's
/// version.
pub open spec fn is_current(
    router: QueueRouter,
    category: u32,
    topic: Seq<char>,
    partition: i32,
    version: u32,
) -> bool {
    &&& router.names()[router.topic_of(category)]@ == topic
    &&& router.partition_of(category) as u32 as i32 == partition
    &&& router.revision() == version
}

/// What is taken from a message of the order queues.
pub open spec fn accepted_message(
    router: QueueRouter,
    category_size: u32,
    topic: Seq<char>,
    partition: i32,
    payload: Option<Seq<u8>>,
) -> Result<BatchView, RejectedMessage> {
    match payload {
        None => Err(RejectedMessage::NoPayload),
        Some(bytes) => if !is_envelope(bytes) {
            Err(RejectedMessage::InvalidEnvelope)
        } else {
            let command = enveloped(bytes, category_size);
            if is_current(
                router,
                command.category_id,
                topic,
                partition,
                from_le(bytes.subrange(4, 8)) as u32,
            ) {
                Ok(command)
            } else {
                Err(RejectedMessage::StaleRoute { category_id: command.category_id })
            }
        },
    }
}

/// Takes the command out of a message of the order queues, if the message is
/// where it belongs.
pub fn decode_message(
    router: &QueueRouter,
    category_size: u32,
    topic: &str,
    partition: i32,
    offset: i64,
    payload: Option<&[u8]>,
) -> (r: Result<Polled<BatchRecord>, RejectedMessage>)
    requires
        router.wf(),
        category_size > 0,
    ensures
        match r {
            Ok(record) => {
                &&& accepted_message(
                    *router,
                    category_size,
                    topic@,
                    partition,
                    match payload {
                        Some(bytes) => Some(bytes@),
                        None => None,
                    },
                ) == Ok::<BatchView, RejectedMessage>(record.item@)
                &&& record.topic@ == topic@
                &&& record.partition == partition
                &&& record.offset == offset
            },
            Err(e) => accepted_message(
                *router,
                category_size,
                topic@,
                partition,
                match payload {
                    Some(bytes) => Some(bytes@),
                    None => None,
                },
            ) == Err::<BatchView, RejectedMessage>(e),
        },
{
    let bytes = match payload {
        Some(bytes) => bytes,
        None => {
            return Err(RejectedMessage::NoPayload);
        },
    };
    let envelope = match QueueEnvelope::decode(bytes) {
        Some(envelope) => envelope,
        None => {
            return Err(RejectedMessage::InvalidEnvelope);
        },
    };
    let category_id: u32 = asset_category(envelope.instrument(), category_size);
    let expected = router.route(category_id);
    let names = chars_of(expected.topic.as_str());
    if !is_text(names.as_slice(), topic) || expected.partition != partition || expected.version
        != envelope.route_version {
        return Err(RejectedMessage::StaleRoute { category_id });
    }
    Ok(
        Polled {
            topic: String::from_str(topic),
            partition,
            offset,
            item: BatchRecord { category_id, user: envelope.user, frame: envelope.frame },
        },
    )
}

/// A place on a queue.
#[verifier::ext_equal]
pub struct PlaceView {
    pub topic: Seq<char>,
    pub partition: i32,
    pub offset: int,
}

/// A place on a queue.
#[derive(Debug)]
pub struct Place {
    pub topic: String,
    pub partition: i32,
    pub offset: i64,
}

impl View for Place {
    type V = PlaceView;

    open spec fn view(&self) -> PlaceView {
        PlaceView { topic: self.topic@, partition: self.partition, offset: self.offset as int }
    }
}

/// Places on queues.
pub open spec fn place_views(list: Seq<Place>) -> Seq<PlaceView> {
    Seq::new(list.len(), |i: int| list[i]@)
}

/// Places of messages.
pub open spec fn places<T>(batch: Seq<Polled<T>>) -> Seq<PlaceView> {
    Seq::new(
        batch.len(),
        |i: int|
            PlaceView {
                topic: batch[i].topic@,
                partition: batch[i].partition,
                offset: batch[i].offset as int,
            },
    )
}

/// Where in a list the partition of `p` is, or the length of the list.
pub open spec fn partition_at(list: Seq<PlaceView>, p: PlaceView) -> nat
    decreases list.len(),
{
    if list.len() == 0 {
        0
    } else if list[0].topic == p.topic && list[0].partition == p.partition {
        0
    } else {
        1 + partition_at(list.skip(1), p)
    }
}

/// One place for each partition, in the order in which the partitions occur: the
/// furthest one, or the nearest one.
pub open spec fn extremes(all: Seq<PlaceView>, furthest: bool) -> Seq<PlaceView>
    decreases all.len(),
{
    if all.len() == 0 {
        Seq::empty()
    } else {
        let head = extremes(all.drop_last(), furthest);
        let last = all.last();
        let at = partition_at(head, last) as int;
        if at >= head.len() {
            head.push(last)
        } else if furthest && last.offset > head[at].offset || !furthest && last.offset
            < head[at].offset {
            head.update(at, last)
        } else {
            head
        }
    }
}

fn find_partition<T>(list: &Vec<Place>, p: &Polled<T>) -> (r: usize)
    ensures
        r == partition_at(
            place_views(list@),
            PlaceView { topic: p.topic@, partition: p.partition, offset: p.offset as int },
        ),
        r <= list@.len(),
{
    let ghost want = PlaceView {
        topic: p.topic@,
        partition: p.partition,
        offset: p.offset as int,
    };
    let ghost views = place_views(list@);
    let topic = chars_of(p.topic.as_str());
    let mut i: usize = 0;
    assert(views.skip(0) =~= views);
    while i < list.len()
        invariant
            i <= list@.len(),
            views == place_views(list@),
            want == (PlaceView {
                topic: p.topic@,
                partition: p.partition,
                offset: p.offset as int,
            }),
            topic@ == p.topic@,
            partition_at(views, want) == i + partition_at(views.skip(i as int), want),
        decreases list@.len() - i,
    {
        assert(views.skip(i as int)[0] == list@[i as int]@);
        assert(views.skip(i as int).skip(1) =~= views.skip(i + 1));
        if list[i].partition == p.partition && is_text(topic.as_slice(), list[i].topic.as_str()) {
            return i;
        }
        i += 1;
    }
    i
}

fn extreme_places<T>(batch: &Vec<Polled<T>>, furthest: bool) -> (r: Vec<Place>)
    ensures
        place_views(r@) == extremes(places(batch@), furthest),
{
    let ghost all = places(batch@);
    let mut out: Vec<Place> = Vec::new();
    let mut i: usize = 0;
    assert(all.take(0) =~= Seq::<PlaceView>::empty());
    assert(place_views(out@) =~= Seq::<PlaceView>::empty());
    while i < batch.len()
        invariant
            i <= batch@.len(),
            all == places(batch@),
            place_views(out@) == extremes(all.take(i as int), furthest),
        decreases batch@.len() - i,
    {
        let message = &batch[i];
        proof {
            assert(all.take(i + 1).drop_last() =~= all.take(i as int));
            assert(all.take(i + 1).last() == all[i as int]);
        }
        let ghost was = place_views(out@);
        let at: usize = find_partition(&out, message);
        let place = Place {
            topic: message.topic.clone(),
            partition: message.partition,
            offset: message.offset,
        };
        if at == out.len() {
            out.push(place);
            assert(place_views(out@) =~= was.push(all[i as int]));
        } else if (furthest && message.offset > out[at].offset) || (!furthest && message.offset
            < out[at].offset) {
            out.set(at, place);
            assert(place_views(out@) =~= was.update(at as int, all[i as int]));
        }
        i += 1;
    }
    assert(all.take(i as int) =~= all);
    out
}

/// The place behind `p`.
pub open spec fn behind(p: PlaceView) -> PlaceView {
    PlaceView { offset: p.offset + 1, ..p }
}

/// Where the reading of each partition goes on once the batch is done: behind its
/// furthest message.
pub fn commit_places<T>(batch: &Vec<Polled<T>>) -> (r: Vec<Place>)
    requires
        forall|i: int| 0 <= i < batch@.len() ==> (#[trigger] batch@[i]).offset < i64::MAX,
    ensures
        place_views(r@) == extremes(places(batch@), true).map_values(|p: PlaceView| behind(p)),
{
    let last = extreme_places(batch, true);
    let mut out: Vec<Place> = Vec::new();
    let ghost ends = place_views(last@);
    proof {
        lemma_extremes_occur(places(batch@), true);
    }
    let mut i: usize = 0;
    while i < last.len()
        invariant
            i <= last@.len(),
            ends == place_views(last@),
            out@.len() == i,
            forall|j: int|
                0 <= j < ends.len() ==> (#[trigger] ends[j]).offset < i64::MAX,
            forall|j: int| 0 <= j < i ==> (#[trigger] out@[j])@ == behind(ends[j]),
        decreases last@.len() - i,
    {
        assert(ends[i as int] == last@[i as int]@);
        out.push(
            Place {
                topic: last[i].topic.clone(),
                partition: last[i].partition,
                offset: last[i].offset + 1,
            },
        );
        i += 1;
    }
    assert(place_views(out@) =~= ends.map_values(|p: PlaceView| behind(p)));
    out
}

/// Where the reading of each partition goes back to if the batch is not done: its
/// nearest message.
pub fn rewind_places<T>(batch: &Vec<Polled<T>>) -> (r: Vec<Place>)
    ensures
        place_views(r@) == extremes(places(batch@), false),
{
    extreme_places(batch, false)
}

/// The chosen places are places of the batch.
proof fn lemma_extremes_occur(all: Seq<PlaceView>, furthest: bool)
    ensures
        forall|j: int|
            0 <= j < extremes(all, furthest).len() ==> all.contains(
                #[trigger] extremes(all, furthest)[j],
            ),
    decreases all.len(),
{
    if all.len() > 0 {
        let rest = all.drop_last();
        lemma_extremes_occur(rest, furthest);
        assert forall|j: int| 0 <= j < extremes(all, furthest).len() implies all.contains(
            #[trigger] extremes(all, furthest)[j],
        ) by {
            let e = extremes(all, furthest)[j];
            if e == all.last() {
                assert(all[all.len() - 1] == e);
            } else {
                assert(e == extremes(rest, furthest)[j]);
                let k = choose|k: int| 0 <= k < rest.len() && rest[k] == e;
                assert(all[k] == e);
            }
        }
    }
}

proof fn lemma_partition_at(list: Seq<PlaceView>, p: PlaceView)
    ensures
        partition_at(list, p) <= list.len(),
        partition_at(list, p) < list.len() ==> ({
            let at = partition_at(list, p) as int;
            list[at].topic == p.topic && list[at].partition == p.partition
        }),
        forall|j: int|
            0 <= j < partition_at(list, p) ==> !((#[trigger] list[j]).topic == p.topic
                && list[j].partition == p.partition),
    decreases list.len(),
{
    if list.len() > 0 && !(list[0].topic == p.topic && list[0].partition == p.partition) {
        lemma_partition_at(list.skip(1), p);
        assert forall|j: int| 0 <= j < partition_at(list, p) implies !((#[trigger] list[j]).topic
            == p.topic && list[j].partition == p.partition) by {
            if j > 0 {
                assert(list[j] == list.skip(1)[j - 1]);
            }
        }
    }
}

/// No message of a batch is lost or passed twice: for each of them there is a
/// chosen place on its partition, not before it when the batch is done, and not
/// behind it when the batch has to be read again.
pub proof fn law_places_cover(all: Seq<PlaceView>, furthest: bool, i: int)
    requires
        0 <= i < all.len(),
    ensures
        exists|j: int| #![trigger extremes(all, furthest)[j]]
            0 <= j < extremes(all, furthest).len() && {
                let e = extremes(all, furthest)[j];
                &&& e.topic == all[i].topic
                &&& e.partition == all[i].partition
                &&& if furthest {
                    e.offset >= all[i].offset
                } else {
                    e.offset <= all[i].offset
                }
            },
    decreases all.len(),
{
    let rest = all.drop_last();
    let head = extremes(rest, furthest);
    let last = all.last();
    let full = extremes(all, furthest);
    let at = partition_at(head, last) as int;
    lemma_partition_at(head, last);
    if i == all.len() - 1 {
        if at >= head.len() {
            assert(full[head.len() as int] == last);
        } else {
            assert(full[at].topic == last.topic);
        }
    } else {
        law_places_cover(rest, furthest, i);
        assert(rest[i] == all[i]);
        let j = choose|j: int| #![trigger head[j]]
            0 <= j < head.len() && head[j].topic == all[i].topic && head[j].partition
                == all[i].partition && if furthest {
                head[j].offset >= all[i].offset
            } else {
                head[j].offset <= all[i].offset
            };
        assert(full[j].topic == all[i].topic);
    }
}

/// The order that a command is about, by which its row is found.
pub open spec fn subject(command: Command) -> u64 {
    match command {
        Command::New(order) => order.id.0,
        Command::Cancel { order_id, .. } => order_id.0,
        Command::Modify { order_id, .. } => order_id.0,
        Command::ForceClose { close_order_id, .. } => close_order_id.0,
    }
}

/// The order that a command is about.
pub fn database_order_id(command: &Command) -> (r: u64)
    ensures
        r == subject(*command),
{
    match command {
        Command::New(order) => order.id.0,
        Command::Cancel { order_id, .. } => order_id.0,
        Command::Modify { order_id, .. } => order_id.0,
        Command::ForceClose { close_order_id, .. } => close_order_id.0,
    }
}

/// The commands of messages.
pub open spec fn commands_of(batch: Seq<Polled<BatchRecord>>) -> Option<Seq<Command>>
    decreases batch.len(),
{
    if batch.len() == 0 {
        Some(Seq::empty())
    } else {
        match (commands_of(batch.drop_last()), command_of(batch.last().item.frame@)) {
            (Some(head), Some(command)) => Some(head.push(command)),
            _ => None,
        }
    }
}

proof fn lemma_commands_stop(batch: Seq<Polled<BatchRecord>>, n: int)
    requires
        0 <= n <= batch.len(),
        commands_of(batch.take(n)) is None,
    ensures
        commands_of(batch) is None,
    decreases batch.len() - n,
{
    if n < batch.len() {
        assert(batch.take(n + 1).drop_last() =~= batch.take(n));
        lemma_commands_stop(batch, n + 1);
    } else {
        assert(batch.take(n) =~= batch);
    }
}

/// The commands of messages; `None` if one of them is none.
pub fn decode_commands(batch: &Vec<Polled<BatchRecord>>) -> (r: Option<Vec<Command>>)
    ensures
        match r {
            Some(commands) => commands_of(batch@) == Some(commands@),
            None => commands_of(batch@) is None,
        },
{
    let mut out: Vec<Command> = Vec::new();
    let mut i: usize = 0;
    assert(batch@.take(0) =~= Seq::<Polled<BatchRecord>>::empty());
    while i < batch.len()
        invariant
            i <= batch@.len(),
            commands_of(batch@.take(i as int)) == Some(out@),
        decreases batch@.len() - i,
    {
        proof {
            assert(batch@.take(i + 1).drop_last() =~= batch@.take(i as int));
        }
        match decode_command(batch[i].item.frame.as_slice()) {
            Some(command) => {
                out.push(command);
            },
            None => {
                proof {
                    lemma_commands_stop(batch@, i + 1);
                }
                return None;
            },
        }
        i += 1;
    }
    assert(batch@.take(i as int) =~= batch@);
    Some(out)
}

/// The row that records that a command was processed.
#[derive(Clone, Copy, Debug, PartialEq, Eq, Structural)]
pub struct ProcessedRow {
    pub category_id: u32,
    pub partition: i32,
    pub place: u64,
    pub command_id: u64,
    pub user: u64,
    pub table: u32,
}

/// The row of a new order.
#[derive(Clone, Copy, Debug, PartialEq, Eq, Structural)]
pub struct OrderRow {
    pub order_id: u64,
    pub category_id: u32,
    pub user: u64,
    pub instrument: u32,
    pub side: u8,
    pub price: u64,
    pub qty: u64,
}

/// The row of an order that is to be marked as about to be cancelled, if it is
/// the user's.
#[derive(Clone, Copy, Debug, PartialEq, Eq, Structural)]
pub struct CancelRow {
    pub table: u32,
    pub order_id: u64,
    pub user: u64,
}

/// New orders of one table.
#[derive(Debug)]
pub struct TableRows {
    pub table: u32,
    pub rows: Vec<OrderRow>,
}

/// What one database is told about a batch.
#[derive(Debug)]
pub struct ShardPlan {
    pub processed: Vec<ProcessedRow>,
    pub orders: Vec<TableRows>,
    pub cancels: Vec<CancelRow>,
}

/// A message and its command.
pub struct Step {
    pub message: PlaceView,
    pub record: BatchView,
    pub command: Command,
}

/// Messages and their commands.
pub open spec fn steps(batch: Seq<Polled<BatchRecord>>, commands: Seq<Command>) -> Seq<Step> {
    Seq::new(
        batch.len(),
        |i: int| Step { message: places(batch)[i], record: batch[i].item@, command: commands[i] },
    )
}

/// The place of a message, counted from one on.
pub open spec fn counted_place(offset: i64) -> u64 {
    crate::backpressure::capped_sum(offset as u64, 1)
}

/// The row that records a step.
pub open spec fn processed_row(step: Step, route: ShardRoute) -> ProcessedRow {
    ProcessedRow {
        category_id: step.record.category_id,
        partition: step.message.partition,
        place: counted_place(step.message.offset as i64),
        command_id: step.command.ident(),
        user: step.record.user,
        table: route.table,
    }
}

/// What is recorded in a database, in the order of the messages.
pub open spec fn processed_rows(all: Seq<Step>, routing: RouteConfig, db: u32) -> Seq<ProcessedRow>
    decreases all.len(),
{
    if all.len() == 0 {
        Seq::empty()
    } else {
        let head = processed_rows(all.drop_last(), routing, db);
        let route = routing.table_of(subject(all.last().command));
        if route.db == db {
            head.push(processed_row(all.last(), route))
        } else {
            head
        }
    }
}

/// The row of a new order in the name of the message's user.
pub open spec fn order_row(step: Step) -> OrderRow {
    let order = step.command->New_0;
    OrderRow {
        order_id: order.id.0,
        category_id: step.record.category_id,
        user: step.record.user,
        instrument: order.instrument.0,
        side: if order.side == Side::Buy {
            0
        } else {
            1
        },
        price: order.price,
        qty: order.quantity,
    }
}

/// The new orders of a table, in the order of the messages.
pub open spec fn order_rows(all: Seq<Step>, routing: RouteConfig, db: u32, table: u32) -> Seq<
    OrderRow,
>
    decreases all.len(),
{
    if all.len() == 0 {
        Seq::empty()
    } else {
        let head = order_rows(all.drop_last(), routing, db, table);
        let command = all.last().command;
        if command is New && routing.table_of(subject(command)) == (ShardRoute { db, table }) {
            head.push(order_row(all.last()))
        } else {
            head
        }
    }
}

/// The cancels of a database, in the order of the messages.
pub open spec fn cancel_rows(all: Seq<Step>, routing: RouteConfig, db: u32) -> Seq<CancelRow>
    decreases all.len(),
{
    if all.len() == 0 {
        Seq::empty()
    } else {
        let head = cancel_rows(all.drop_last(), routing, db);
        let command = all.last().command;
        let route = routing.table_of(subject(command));
        if command is Cancel && route.db == db {
            head.push(
                CancelRow {
                    table: route.table,
                    order_id: subject(command),
                    user: all.last().record.user,
                },
            )
        } else {
            head
        }
    }
}

/// The tables, in ascending order, are those with new orders, and each has all of
/// its own.
pub open spec fn is_order_plan(
    orders: Seq<TableRows>,
    all: Seq<Step>,
    routing: RouteConfig,
    db: u32,
) -> bool {
    &&& ascending(Seq::new(orders.len(), |i: int| orders[i].table))
    &&& forall|i: int|
        0 <= i < orders.len() ==> (#[trigger] orders[i]).rows@ == order_rows(
            all,
            routing,
            db,
            orders[i].table,
        )
    &&& forall|table: u32| #[trigger]
        order_rows(all, routing, db, table).len() > 0 <==> exists|i: int|
            0 <= i < orders.len() && (#[trigger] orders[i]).table == table
}

/// The databases, in ascending order, are those that a command goes to.
pub open spec fn is_touched(dbs: Seq<u32>, commands: Seq<Command>, routing: RouteConfig) -> bool {
    &&& ascending(dbs)
    &&& forall|db: u32| #[trigger]
        dbs.contains(db) <==> exists|i: int|
            0 <= i < commands.len() && routing.table_of(subject(#[trigger] commands[i])).db == db
}

/// The databases that commands go to.
pub fn touched_databases(routing: &RouteConfig, commands: &Vec<Command>) -> (r: Vec<u32>)
    requires
        routing.wf(),
    ensures
        is_touched(r@, commands@, *routing),
{
    let mut dbs: Vec<u32> = Vec::new();
    let mut i: usize = 0;
    while i < commands.len()
        invariant
            i <= commands@.len(),
            routing.wf(),
            is_touched(dbs@, commands@.take(i as int), *routing),
        decreases commands@.len() - i,
    {
        let db: u32 = routing.route_order_id(database_order_id(&commands[i])).db;
        let ghost before = dbs@;
        if !holds(&dbs, db) {
            insert_ascending(&mut dbs, db);
        }
        proof {
            let taken = commands@.take(i as int);
            let more = commands@.take(i + 1);
            assert forall|d: u32| #[trigger] dbs@.contains(d) <==> exists|j: int|
                0 <= j < more.len() && routing.table_of(subject(#[trigger] more[j])).db == d by {
                if dbs@.contains(d) {
                    if d == db {
                        assert(more[i as int] == commands@[i as int]);
                    } else {
                        assert(before.contains(d));
                        let j = choose|j: int|
                            0 <= j < taken.len() && routing.table_of(
                                subject(#[trigger] taken[j]),
                            ).db == d;
                        assert(more[j] == taken[j]);
                    }
                }
                if exists|j: int|
                    0 <= j < more.len() && routing.table_of(subject(#[trigger] more[j])).db == d {
                    let j = choose|j: int|
                        0 <= j < more.len() && routing.table_of(subject(#[trigger] more[j])).db
                            == d;
                    if j < i {
                        assert(taken[j] == more[j]);
                        assert(before.contains(d));
                    } else {
                        assert(d == db);
                    }
                }
            }
        }
        i += 1;
    }
    assert(commands@.take(i as int) =~= commands@);
    dbs
}

fn holds(list: &Vec<u32>, v: u32) -> (r: bool)
    ensures
        r == list@.contains(v),
{
    let mut i: usize = 0;
    while i < list.len()
        invariant
            i <= list@.len(),
            forall|j: int| 0 <= j < i ==> #[trigger] list@[j] != v,
        decreases list@.len() - i,
    {
        if list[i] == v {
            assert(list@[i as int] == v);
            return true;
        }
        i += 1;
    }
    false
}

fn table_orders(
    routing: &RouteConfig,
    batch: &Vec<Polled<BatchRecord>>,
    commands: &Vec<Command>,
    db: u32,
    table: u32,
) -> (r: Vec<OrderRow>)
    requires
        routing.wf(),
        batch@.len() == commands@.len(),
    ensures
        r@ == order_rows(steps(batch@, commands@), *routing, db, table),
{
    let ghost all = steps(batch@, commands@);
    let mut rows: Vec<OrderRow> = Vec::new();
    let mut i: usize = 0;
    while i < batch.len()
        invariant
            i <= batch@.len(),
            routing.wf(),
            batch@.len() == commands@.len(),
            all == steps(batch@, commands@),
            rows@ == order_rows(all.take(i as int), *routing, db, table),
        decreases batch@.len() - i,
    {
        proof {
            assert(all.take(i + 1).drop_last() =~= all.take(i as int));
            assert(all.take(i + 1).last() == all[i as int]);
        }
        if let Command::New(order) = &commands[i] {
            let route = routing.route_order_id(order.id.0);
            if route.db == db && route.table == table {
                let side: u8 = match order.side {
                    Side::Buy => 0,
                    Side::Sell => 1,
                };
                rows.push(
                    OrderRow {
                        order_id: order.id.0,
                        category_id: batch[i].item.category_id,
                        user: batch[i].item.user,
                        instrument: order.instrument.0,
                        side,
                        price: order.price,
                        qty: order.quantity,
                    },
                );
            }
        }
        i += 1;
    }
    assert(all.take(i as int) =~= all);
    rows
}

proof fn lemma_rows_of(all: Seq<Step>, routing: RouteConfig, db: u32, table: u32)
    ensures
        order_rows(all, routing, db, table).len() > 0 <==> exists|i: int|
            0 <= i < all.len() && (#[trigger] all[i]).command is New && routing.table_of(
                subject(all[i].command),
            ) == (ShardRoute { db, table }),
    decreases all.len(),
{
    if all.len() > 0 {
        let rest = all.drop_last();
        lemma_rows_of(rest, routing, db, table);
        if order_rows(rest, routing, db, table).len() > 0 {
            let i = choose|i: int|
                0 <= i < rest.len() && (#[trigger] rest[i]).command is New && routing.table_of(
                    subject(rest[i].command),
                ) == (ShardRoute { db, table });
            assert(all[i] == rest[i]);
        }
        let last = all.last();
        assert(all[all.len() - 1] == last);
        if exists|i: int|
            0 <= i < all.len() && (#[trigger] all[i]).command is New && routing.table_of(
                subject(all[i].command),
            ) == (ShardRoute { db, table }) {
            let i = choose|i: int|
                0 <= i < all.len() && (#[trigger] all[i]).command is New && routing.table_of(
                    subject(all[i].command),
                ) == (ShardRoute { db, table });
            if i < rest.len() {
                assert(rest[i] == all[i]);
            }
        }
    }
}

/// The tables of a database with new orders.
fn order_tables(routing: &RouteConfig, commands: &Vec<Command>, db: u32) -> (r: Vec<u32>)
    requires
        routing.wf(),
    ensures
        ascending(r@),
        forall|t: u32| #[trigger]
            r@.contains(t) <==> exists|i: int|
                0 <= i < commands@.len() && (#[trigger] commands@[i]) is New
                    && routing.table_of(subject(commands@[i])) == (ShardRoute { db, table: t }),
{
    let mut tables: Vec<u32> = Vec::new();
    let mut i: usize = 0;
    while i < commands.len()
        invariant
            i <= commands@.len(),
            routing.wf(),
            ascending(tables@),
            forall|t: u32| #[trigger]
                tables@.contains(t) <==> exists|j: int|
                    0 <= j < i && (#[trigger] commands@[j]) is New && routing.table_of(
                        subject(commands@[j]),
                    ) == (ShardRoute { db, table: t }),
        decreases commands@.len() - i,
    {
        let ghost before = tables@;
        let mut added: Option<u32> = None;
        if let Command::New(order) = &commands[i] {
            let route = routing.route_order_id(order.id.0);
            if route.db == db {
                if !holds(&tables, route.table) {
                    insert_ascending(&mut tables, route.table);
                }
                added = Some(route.table);
            }
        }
        proof {
            assert forall|t: u32| #[trigger] tables@.contains(t) <==> exists|j: int|
                0 <= j < i + 1 && (#[trigger] commands@[j]) is New && routing.table_of(
                    subject(commands@[j]),
                ) == (ShardRoute { db, table: t }) by {
                if tables@.contains(t) {
                    if before.contains(t) {
                        let j = choose|j: int|
                            0 <= j < i && (#[trigger] commands@[j]) is New && routing.table_of(
                                subject(commands@[j]),
                            ) == (ShardRoute { db, table: t });
                        assert(0 <= j < i + 1);
                    } else {
                        assert(added == Some(t));
                        assert(commands@[i as int] is New);
                    }
                }
                if exists|j: int|
                    0 <= j < i + 1 && (#[trigger] commands@[j]) is New && routing.table_of(
                        subject(commands@[j]),
                    ) == (ShardRoute { db, table: t }) {
                    let j = choose|j: int|
                        0 <= j < i + 1 && (#[trigger] commands@[j]) is New && routing.table_of(
                            subject(commands@[j]),
                        ) == (ShardRoute { db, table: t });
                    if j < i {
                        assert(before.contains(t));
                    } else {
                        assert(added == Some(t));
                    }
                }
            }
        }
        i += 1;
    }
    tables
}

fn plan_orders(
    routing: &RouteConfig,
    batch: &Vec<Polled<BatchRecord>>,
    commands: &Vec<Command>,
    db: u32,
) -> (r: Vec<TableRows>)
    requires
        routing.wf(),
        batch@.len() == commands@.len(),
    ensures
        is_order_plan(r@, steps(batch@, commands@), *routing, db),
{
    let ghost all = steps(batch@, commands@);
    let tables = order_tables(routing, commands, db);
    let mut out: Vec<TableRows> = Vec::new();
    let mut i: usize = 0;
    while i < tables.len()
        invariant
            i <= tables@.len(),
            routing.wf(),
            batch@.len() == commands@.len(),
            all == steps(batch@, commands@),
            out@.len() == i,
            forall|j: int|
                0 <= j < i ==> (#[trigger] out@[j]).table == tables@[j] && out@[j].rows@
                    == order_rows(all, *routing, db, tables@[j]),
        decreases tables@.len() - i,
    {
        let rows = table_orders(routing, batch, commands, db, tables[i]);
        out.push(TableRows { table: tables[i], rows });
        i += 1;
    }
    proof {
        assert(Seq::new(out@.len(), |i: int| out@[i].table) =~= tables@);
        assert forall|table: u32| #[trigger]
            order_rows(all, *routing, db, table).len() > 0 <==> exists|i: int|
                0 <= i < out@.len() && (#[trigger] out@[i]).table == table by {
            lemma_rows_of(all, *routing, db, table);
            if order_rows(all, *routing, db, table).len() > 0 {
                let k = choose|k: int|
                    0 <= k < all.len() && (#[trigger] all[k]).command is New && routing.table_of(
                        subject(all[k].command),
                    ) == (ShardRoute { db, table });
                assert(commands@[k] is New);
                assert(tables@.contains(table));
                let j = choose|j: int| 0 <= j < tables@.len() && tables@[j] == table;
                assert(out@[j].table == table);
            }
            if exists|i: int| 0 <= i < out@.len() && (#[trigger] out@[i]).table == table {
                let j = choose|j: int| 0 <= j < out@.len() && (#[trigger] out@[j]).table == table;
                assert(tables@[j] == table);
                assert(tables@.contains(table));
                let k = choose|k: int|
                    0 <= k < commands@.len() && (#[trigger] commands@[k]) is New
                        && routing.table_of(subject(commands@[k])) == (ShardRoute { db, table });
                assert(all[k].command == commands@[k]);
            }
        }
    }
    out
}

/// What one database is told about a batch: which commands were processed there,
/// the new orders by table, and the orders about to be cancelled.
pub fn plan_shard(
    routing: &RouteConfig,
    batch: &Vec<Polled<BatchRecord>>,
    commands: &Vec<Command>,
    db: u32,
) -> (r: ShardPlan)
    requires
        routing.wf(),
        batch@.len() == commands@.len(),
    ensures
        r.processed@ == processed_rows(steps(batch@, commands@), *routing, db),
        is_order_plan(r.orders@, steps(batch@, commands@), *routing, db),
        r.cancels@ == cancel_rows(steps(batch@, commands@), *routing, db),
{
    let ghost all = steps(batch@, commands@);
    let orders = plan_orders(routing, batch, commands, db);
    let mut processed: Vec<ProcessedRow> = Vec::new();
    let mut cancels: Vec<CancelRow> = Vec::new();
    let mut i: usize = 0;
    while i < batch.len()
        invariant
            i <= batch@.len(),
            routing.wf(),
            batch@.len() == commands@.len(),
            all == steps(batch@, commands@),
            processed@ == processed_rows(all.take(i as int), *routing, db),
            cancels@ == cancel_rows(all.take(i as int), *routing, db),
        decreases batch@.len() - i,
    {
        proof {
            assert(all.take(i + 1).drop_last() =~= all.take(i as int));
            assert(all.take(i + 1).last() == all[i as int]);
        }
        let message = &batch[i];
        let command = &commands[i];
        let order_id: u64 = database_order_id(command);
        let route = routing.route_order_id(order_id);
        if route.db == db {
            let place: u64 = message.offset as u64;
            processed.push(
                ProcessedRow {
                    category_id: message.item.category_id,
                    partition: message.partition,
                    place: if place < u64::MAX {
                        place + 1
                    } else {
                        u64::MAX
                    },
                    command_id: command.id(),
                    user: message.item.user,
                    table: route.table,
                },
            );
            if let Command::Cancel { .. } = command {
                cancels.push(
                    CancelRow { table: route.table, order_id, user: message.item.user },
                );
            }
        }
        i += 1;
    }
    assert(all.take(i as int) =~= all);
    ShardPlan { processed, orders, cancels }
}

/// How many commands of a batch go to a database.
pub open spec fn share(all: Seq<Step>, routing: RouteConfig, db: u32) -> nat {
    processed_rows(all, routing, db).len()
}

/// A database that a command goes to has something to record, and every other
/// one has not.
pub proof fn law_every_command_is_recorded(all: Seq<Step>, routing: RouteConfig, db: u32)
    ensures
        share(all, routing, db) > 0 <==> exists|i: int|
            0 <= i < all.len() && routing.table_of(subject((#[trigger] all[i]).command)).db == db,
    decreases all.len(),
{
    if all.len() > 0 {
        let rest = all.drop_last();
        law_every_command_is_recorded(rest, routing, db);
        assert(all[all.len() - 1] == all.last());
        if share(rest, routing, db) > 0 {
            let i = choose|i: int|
                0 <= i < rest.len() && routing.table_of(subject((#[trigger] rest[i]).command)).db
                    == db;
            assert(all[i] == rest[i]);
        }
        if exists|i: int|
            0 <= i < all.len() && routing.table_of(subject((#[trigger] all[i]).command)).db == db {
            let i = choose|i: int|
                0 <= i < all.len() && routing.table_of(subject((#[trigger] all[i]).command)).db
                    == db;
            if i < rest.len() {
                assert(rest[i] == all[i]);
            }
        }
    }
}

/// The text of a statement that inserts rows: a placeholder for each value.
pub open spec fn placeholders(part: Seq<char>, n: nat) -> Seq<char>
    decreases n,
{
    if n == 0 {
        Seq::empty()
    } else if n == 1 {
        part
    } else {
        placeholders(part, (n - 1) as nat) + ","@ + part
    }
}

fn format_placeholders(part: &str, n: usize) -> (r: String)
    ensures
        r@ == placeholders(part@, n as nat),
{
    let mut out = String::new();
    let mut i: usize = 0;
    assert(out@ =~= Seq::<char>::empty());
    while i < n
        invariant
            i <= n,
            out@ == placeholders(part@, i as nat),
        decreases n - i,
    {
        let ghost was = out@;
        if i > 0 {
            out.append(",");
        }
        out.append(part);
        i += 1;
        proof {
            if i == 1 {
                assert(out@ =~= part@);
            }
        }
    }
    out
}

/// The statement that inserts `rows` rows of `columns` values each.
pub fn multi_insert(prefix: &str, columns: usize, rows: usize) -> (r: String)
    ensures
        r@ == prefix@ + " VALUES "@ + placeholders(
            "("@ + placeholders("?"@, columns as nat) + ")"@,
            rows as nat,
        ),
{
    let mut row = String::new();
    row.append("(");
    assert(row@ =~= "("@);
    let values = format_placeholders("?", columns);
    row.append(values.as_str());
    row.append(")");
    let mut out = String::from_str(prefix);
    out.append(" VALUES ");
    let all = format_placeholders(row.as_str(), rows);
    out.append(all.as_str());
    out
}

/// The orders that an execution report is about: its own, and of a trade the
/// other side's.
pub open spec fn targets(event: ExecutionEvent) -> Seq<u64> {
    let own = event.report.order_id.0;
    if event.report.type_code == RT_TRADE && event.report.aux_id != own {
        seq![own, event.report.aux_id]
    } else {
        seq![own]
    }
}

/// Takes the execution event out of a message.
pub fn decode_execution(
    topic: &str,
    partition: i32,
    offset: i64,
    payload: Option<&[u8]>,
) -> (r: Option<Polled<ExecutionEvent>>)
    ensures
        match payload {
            None => r is None,
            Some(bytes) => match event_of(bytes@) {
                None => r is None,
                Some(event) => {
                    &&& r is Some
                    &&& r->0.topic@ == topic@
                    &&& r->0.partition == partition
                    &&& r->0.offset == offset
                    &&& r->0.item == event
                },
            },
        },
{
    match payload {
        None => None,
        Some(bytes) => match decode_execution_event(bytes) {
            None => None,
            Some(event) => Some(
                Polled { topic: String::from_str(topic), partition, offset, item: event },
            ),
        },
    }
}

/// A report to be applied to an order in a table.
#[derive(Clone, Copy, Debug, PartialEq, Eq, Structural)]
pub struct Effect {
    /// Position of the report in the batch.
    pub report: usize,
    pub order_id: u64,
    pub route: ShardRoute,
}

/// What one report is applied to.
pub open spec fn effects_of(event: ExecutionEvent, report: usize, routing: RouteConfig) -> Seq<
    Effect,
> {
    let ids = targets(event);
    Seq::new(
        ids.len(),
        |i: int| Effect { report, order_id: ids[i], route: routing.table_of(ids[i]) },
    )
}

/// What the reports of a batch are applied to, in their order.
pub open spec fn effects(events: Seq<ExecutionEvent>, routing: RouteConfig) -> Seq<Effect>
    decreases events.len(),
{
    if events.len() == 0 {
        Seq::empty()
    } else {
        effects(events.drop_last(), routing) + effects_of(
            events.last(),
            (events.len() - 1) as usize,
            routing,
        )
    }
}

/// The events of messages.
pub open spec fn events(batch: Seq<Polled<ExecutionEvent>>) -> Seq<ExecutionEvent> {
    Seq::new(batch.len(), |i: int| batch[i].item)
}

/// What the reports of a batch are applied to, in their order.
pub fn plan_effects(routing: &RouteConfig, batch: &Vec<Polled<ExecutionEvent>>) -> (r: Vec<Effect>)
    requires
        routing.wf(),
    ensures
        r@ == effects(events(batch@), *routing),
{
    let ghost all = events(batch@);
    let mut out: Vec<Effect> = Vec::new();
    let mut i: usize = 0;
    while i < batch.len()
        invariant
            i <= batch@.len(),
            routing.wf(),
            all == events(batch@),
            out@ == effects(all.take(i as int), *routing),
        decreases batch@.len() - i,
    {
        let event = &batch[i].item;
        let own: u64 = event.report.order_id.0;
        let ghost was = out@;
        proof {
            assert(all.take(i + 1).drop_last() =~= all.take(i as int));
            assert(all.take(i + 1).last() == *event);
        }
        out.push(Effect { report: i, order_id: own, route: routing.route_order_id(own) });
        if event.report.type_code == RT_TRADE && event.report.aux_id != own {
            let other: u64 = event.report.aux_id;
            out.push(Effect { report: i, order_id: other, route: routing.route_order_id(other) });
        }
        assert(out@ =~= was + effects_of(*event, i, *routing));
        i += 1;
    }
    assert(all.take(i as int) =~= all);
    out
}

/// The effects on one table, in their order.
pub open spec fn table_effects(all: Seq<Effect>, route: ShardRoute) -> Seq<Effect>
    decreases all.len(),
{
    if all.len() == 0 {
        Seq::empty()
    } else {
        let head = table_effects(all.drop_last(), route);
        if all.last().route == route {
            head.push(all.last())
        } else {
            head
        }
    }
}

/// Picks the effects on one table.
pub fn effects_on(all: &Vec<Effect>, route: ShardRoute) -> (r: Vec<Effect>)
    ensures
        r@ == table_effects(all@, route),
{
    let mut out: Vec<Effect> = Vec::new();
    let mut i: usize = 0;
    while i < all.len()
        invariant
            i <= all@.len(),
            out@ == table_effects(all@.take(i as int), route),
        decreases all@.len() - i,
    {
        assert(all@.take(i + 1).drop_last() =~= all@.take(i as int));
        if all[i].route.db == route.db && all[i].route.table == route.table {
            out.push(all[i]);
        }
        i += 1;
    }
    assert(all@.take(i as int) =~= all@);
    out
}

/// The tables of one database that effects fall on, each once, in the order in
/// which they come up.
pub open spec fn tables_touched(all: Seq<Effect>, db: u32) -> Seq<ShardRoute>
    decreases all.len(),
{
    if all.len() == 0 {
        Seq::empty()
    } else {
        let head = tables_touched(all.drop_last(), db);
        let route = all.last().route;
        if route.db == db && !head.contains(route) {
            head.push(route)
        } else {
            head
        }
    }
}

fn lists_route(list: &Vec<ShardRoute>, route: ShardRoute) -> (r: bool)
    ensures
        r == list@.contains(route),
{
    let mut i: usize = 0;
    while i < list.len()
        invariant
            i <= list@.len(),
            forall|k: int| 0 <= k < i ==> #[trigger] list@[k] != route,
        decreases list@.len() - i,
    {
        if list[i].db == route.db && list[i].table == route.table {
            assert(list@[i as int] == route);
            return true;
        }
        i += 1;
    }
    false
}

/// The tables of one database that effects fall on.
pub fn effect_tables(all: &Vec<Effect>, db: u32) -> (r: Vec<ShardRoute>)
    ensures
        r@ == tables_touched(all@, db),
{
    let mut out: Vec<ShardRoute> = Vec::new();
    let mut i: usize = 0;
    while i < all.len()
        invariant
            i <= all@.len(),
            out@ == tables_touched(all@.take(i as int), db),
        decreases all@.len() - i,
    {
        assert(all@.take(i + 1).drop_last() =~= all@.take(i as int));
        let route = all[i].route;
        if route.db == db && !lists_route(&out, route) {
            out.push(route);
        }
        i += 1;
    }
    assert(all@.take(i as int) =~= all@);
    out
}

/// Every effect falls on one of the tables that its database lists, and no table is
/// listed twice: each is dealt with in one transaction.
pub proof fn law_effects_fall_on_listed_tables(all: Seq<Effect>, db: u32)
    ensures
        tables_touched(all, db).no_duplicates(),
        forall|i: int|
            0 <= i < all.len() && (#[trigger] all[i]).route.db == db ==> tables_touched(
                all,
                db,
            ).contains(all[i].route),
        forall|k: int|
            0 <= k < tables_touched(all, db).len() ==> (#[trigger] tables_touched(all, db)[k]).db
                == db && table_effects(all, tables_touched(all, db)[k]).len() > 0,
    decreases all.len(),
{
    if all.len() > 0 {
        let front = all.drop_last();
        law_effects_fall_on_listed_tables(front, db);
        let head = tables_touched(front, db);
        let list = tables_touched(all, db);
        let route = all.last().route;
        assert forall|i: int|
            0 <= i < all.len() && (#[trigger] all[i]).route.db == db implies list.contains(
            all[i].route,
        ) by {
            if i < front.len() {
                assert(front[i] == all[i]);
                let k = choose|k: int| 0 <= k < head.len() && head[k] == all[i].route;
                assert(list[k] == head[k]);
            } else if !head.contains(route) {
                assert(list[list.len() - 1] == route);
            }
        }
        assert forall|k: int| 0 <= k < list.len() implies (#[trigger] list[k]).db == db
            && table_effects(all, list[k]).len() > 0 by {
            if k < head.len() {
                assert(list[k] == head[k]);
            }
        }
    }
}

/// The row that makes an effect happen once.
#[derive(Clone, Copy, Debug, PartialEq, Eq, Structural)]
pub enum Mark {
    /// By the place of the message, for reports without a place in the log.
    Place { partition: i32, offset: u64, instrument: u32 },
    /// By the place of the report in the log.
    Event {
        raft_group: u32,
        raft_index: u64,
        ordinal: u32,
        instrument: u32,
        order_id: u64,
        report_type: u8,
        partition: i32,
        offset: u64,
    },
}

/// What becomes of an order's row.
#[derive(Clone, Copy, Debug, PartialEq, Eq, Structural)]
pub enum RowChange {
    /// Nothing.
    Keep,
    /// More of it is filled, at most all of it.
    Fill { order_id: u64, qty: u64 },
    /// All of it is filled.
    FillAll { order_id: u64 },
    /// It has another status, and at least `filled` of it is filled.
    Status { order_id: u64, status: RowStatus, filled: Option<u64> },
}

/// Status of an order's row.
#[derive(Clone, Copy, Debug, PartialEq, Eq, Structural)]
pub enum RowStatus {
    Open,
    Partial,
    Cancelled,
    Rejected,
}

impl RowStatus {
    /// How the status is written.
    pub open spec fn label(self) -> Seq<char> {
        match self {
            RowStatus::Open => "OPEN"@,
            RowStatus::Partial => "PARTIAL"@,
            RowStatus::Cancelled => "CANCELLED"@,
            RowStatus::Rejected => "REJECTED"@,
        }
    }

    /// How the status is written.
    pub fn as_str(self) -> (r: &'static str)
        ensures
            r@ == self.label(),
    {
        match self {
            RowStatus::Open => "OPEN",
            RowStatus::Partial => "PARTIAL",
            RowStatus::Cancelled => "CANCELLED",
            RowStatus::Rejected => "REJECTED",
        }
    }
}

/// The row that makes the effect of an event on an order happen once.
pub open spec fn mark(event: ExecutionEvent, partition: i32, offset: i64, order_id: u64) -> Mark {
    if event.raft_index == 0 {
        Mark::Place { partition, offset: offset as u64, instrument: event.report.instrument.0 }
    } else {
        Mark::Event {
            raft_group: event.raft_group,
            raft_index: event.raft_index,
            ordinal: event.ordinal,
            instrument: event.report.instrument.0,
            order_id,
            report_type: event.report.type_code,
            partition,
            offset: offset as u64,
        }
    }
}

/// What an event does to the row of an order. Of a trade both sides are filled;
/// everything else is about the report's own order.
pub open spec fn change(event: ExecutionEvent, order_id: u64) -> RowChange {
    let report = event.report;
    let own = report.order_id.0;
    let code = report.type_code;
    if code == RT_TRADE {
        RowChange::Fill { order_id, qty: report.qty }
    } else if code == RT_FILLED {
        RowChange::FillAll { order_id: own }
    } else if code == RT_PARTIAL {
        RowChange::Status { order_id: own, status: RowStatus::Partial, filled: Some(report.qty) }
    } else if code == RT_RESTING || code == RT_ACCEPTED || code == RT_MODIFIED {
        RowChange::Status { order_id: own, status: RowStatus::Open, filled: None }
    } else if code == RT_CANCELLED {
        RowChange::Status { order_id: own, status: RowStatus::Cancelled, filled: None }
    } else if code == RT_REJECTED {
        RowChange::Status { order_id: own, status: RowStatus::Rejected, filled: None }
    } else {
        RowChange::Keep
    }
}

/// What a table is told about a report: the row that makes it happen once, and,
/// if that row is new, what becomes of the order.
pub fn apply_report(event: &ExecutionEvent, partition: i32, offset: i64, order_id: u64) -> (r: (
    Mark,
    RowChange,
))
    ensures
        r.0 == mark(*event, partition, offset, order_id),
        r.1 == change(*event, order_id),
{
    let report = &event.report;
    let row = if event.raft_index == 0 {
        Mark::Place { partition, offset: offset as u64, instrument: report.instrument.0 }
    } else {
        Mark::Event {
            raft_group: event.raft_group,
            raft_index: event.raft_index,
            ordinal: event.ordinal,
            instrument: report.instrument.0,
            order_id,
            report_type: report.type_code,
            partition,
            offset: offset as u64,
        }
    };
    let own: u64 = report.order_id.0;
    let code: u8 = report.type_code;
    let becomes = if code == RT_TRADE {
        RowChange::Fill { order_id, qty: report.qty }
    } else if code == RT_FILLED {
        RowChange::FillAll { order_id: own }
    } else if code == RT_PARTIAL {
        RowChange::Status { order_id: own, status: RowStatus::Partial, filled: Some(report.qty) }
    } else if code == RT_RESTING || code == RT_ACCEPTED || code == RT_MODIFIED {
        RowChange::Status { order_id: own, status: RowStatus::Open, filled: None }
    } else if code == RT_CANCELLED {
        RowChange::Status { order_id: own, status: RowStatus::Cancelled, filled: None }
    } else if code == RT_REJECTED {
        RowChange::Status { order_id: own, status: RowStatus::Rejected, filled: None }
    } else {
        RowChange::Keep
    };
    (row, becomes)
}

/// A trade fills the orders of both sides, and by the same quantity.
pub proof fn law_trade_fills_both_sides(event: ExecutionEvent)
    requires
        event.report.type_code == RT_TRADE,
    ensures
        targets(event).contains(event.report.order_id.0),
        targets(event).contains(event.report.aux_id),
        forall|i: int|
            0 <= i < targets(event).len() ==> change(event, #[trigger] targets(event)[i]) == (
            RowChange::Fill { order_id: targets(event)[i], qty: event.report.qty }),
{
    assert(targets(event)[0] == event.report.order_id.0);
    if event.report.aux_id != event.report.order_id.0 {
        assert(targets(event)[1] == event.report.aux_id);
    }
}

/// Two reports of one log have different marks: none hides another.
pub proof fn law_marks_tell_reports_apart(
    a: ExecutionEvent,
    b: ExecutionEvent,
    partition: i32,
    offset: i64,
    order_id: u64,
)
    requires
        a.raft_index != 0,
        a.raft_index != b.raft_index || a.raft_group != b.raft_group || a.ordinal != b.ordinal,
    ensures
        mark(a, partition, offset, order_id) != mark(b, partition, offset, order_id),
{
}

/// How far behind a consumer is on a partition whose next message would get the
/// offset `high`; what was never committed counts from the start.
pub open spec fn behind_by(high: i64, committed: Option<i64>) -> u64 {
    let from = match committed {
        Some(offset) => offset,
        None => 0,
    };
    let gap = high - from;
    if gap <= 0 {
        0
    } else if gap > i64::MAX {
        i64::MAX as u64
    } else {
        gap as u64
    }
}

/// How far behind a consumer is on a partition.
pub fn consumer_lag(high: i64, committed: Option<i64>) -> (r: u64)
    ensures
        r == behind_by(high, committed),
{
    let from: i64 = match committed {
        Some(offset) => offset,
        None => 0,
    };
    let gap: i128 = high as i128 - from as i128;
    if gap <= 0 {
        0
    } else if gap > i64::MAX as i128 {
        i64::MAX as u64
    } else {
        gap as u64
    }
}

/// The sum of lags.
pub open spec fn sum_of(lags: Seq<u64>) -> nat
    decreases lags.len(),
{
    if lags.len() == 0 {
        0
    } else {
        sum_of(lags.drop_last()) + lags.last() as nat
    }
}

proof fn lemma_sum_grows(lags: Seq<u64>, n: int)
    requires
        0 <= n <= lags.len(),
    ensures
        sum_of(lags.take(n)) <= sum_of(lags),
    decreases lags.len() - n,
{
    if n < lags.len() {
        assert(lags.take(n + 1).drop_last() =~= lags.take(n));
        lemma_sum_grows(lags, n + 1);
    } else {
        assert(lags.take(n) =~= lags);
    }
}

/// How far behind a consumer is on all partitions together.
pub fn total_lag(lags: &[u64]) -> (r: u64)
    requires
        sum_of(lags@) <= u64::MAX,
    ensures
        r == sum_of(lags@),
{
    let mut sum: u64 = 0;
    let mut i: usize = 0;
    let size: usize = lags.len();
    while i < size
        invariant
            i <= size == lags@.len(),
            sum == sum_of(lags@.take(i as int)),
            sum_of(lags@) <= u64::MAX,
        decreases size - i,
    {
        proof {
            assert(lags@.take(i + 1).drop_last() =~= lags@.take(i as int));
            lemma_sum_grows(lags@, i + 1);
        }
        sum += lags[i];
        i += 1;
    }
    assert(lags@.take(i as int) =~= lags@);
    sum
}

/// What a report does to the row of an order. A cancelled order's row is cancelled, a
/// rejected one's rejected; an order that is accepted, rests or was modified has an open
/// row; one that is filled has a row that is filled completely, one that is partly filled a
/// row with at least as much filled; a trade fills the rows of both its orders; and an order
/// that was not found has no row to change.
pub proof fn law_rows_follow_the_reports(event: ExecutionEvent, report: ExecReport, order_id: u64)
    requires
        event.report == decoded(report),
    ensures
        match report {
            ExecReport::Cancelled { order_id: own, .. } => change(event, order_id)
                == (RowChange::Status {
                order_id: own.0,
                status: RowStatus::Cancelled,
                filled: None,
            }),
            ExecReport::Rejected { order_id: own, .. } => change(event, order_id)
                == (RowChange::Status {
                order_id: own.0,
                status: RowStatus::Rejected,
                filled: None,
            }),
            ExecReport::Accepted { order_id: own, .. } => change(event, order_id)
                == (RowChange::Status { order_id: own.0, status: RowStatus::Open, filled: None }),
            ExecReport::Resting { order_id: own, .. } => change(event, order_id)
                == (RowChange::Status { order_id: own.0, status: RowStatus::Open, filled: None }),
            ExecReport::Modified { order_id: own, .. } => change(event, order_id)
                == (RowChange::Status { order_id: own.0, status: RowStatus::Open, filled: None }),
            ExecReport::PartiallyFilled { order_id: own, filled, .. } => change(event, order_id)
                == (RowChange::Status {
                order_id: own.0,
                status: RowStatus::Partial,
                filled: Some(filled),
            }),
            ExecReport::Filled { order_id: own, .. } => change(event, order_id)
                == (RowChange::FillAll { order_id: own.0 }),
            ExecReport::Trade { taker, maker, qty, .. } => {
                &&& change(event, order_id) == (RowChange::Fill { order_id, qty })
                &&& targets(event).contains(taker.0)
                &&& targets(event).contains(maker.0)
                &&& forall|k: int|
                    0 <= k < targets(event).len() ==> #[trigger] targets(event)[k] == taker.0
                        || targets(event)[k] == maker.0
            },
            ExecReport::NotFound { .. } => change(event, order_id) == RowChange::Keep,
        },
        !(report is Trade) ==> targets(event) == seq![event.report.order_id.0],
{
    if report is Trade {
        law_trade_fills_both_sides(event);
    }
}

/// Each status is written as its own word.
pub proof fn law_status_words()
    ensures
        RowStatus::Open.label() == seq!['O', 'P', 'E', 'N'],
        RowStatus::Partial.label() == seq!['P', 'A', 'R', 'T', 'I', 'A', 'L'],
        RowStatus::Cancelled.label() == seq!['C', 'A', 'N', 'C', 'E', 'L', 'L', 'E', 'D'],
        RowStatus::Rejected.label() == seq!['R', 'E', 'J', 'E', 'C', 'T', 'E', 'D'],
{
    reveal_strlit("OPEN");
    reveal_strlit("PARTIAL");
    reveal_strlit("CANCELLED");
    reveal_strlit("REJECTED");
}

/// An effect happens once for each place of a report and each order: the same report at
/// the same place of the log, wherever it is read, has a mark that differs in nothing by
/// which it is recognised; another report, order or kind has another mark.
pub proof fn law_marks_recognise_reports(
    a: ExecutionEvent,
    b: ExecutionEvent,
    partition: i32,
    offset: i64,
    x: u64,
    y: u64,
)
    requires
        a.raft_index != 0,
        b.raft_index != 0,
        offset >= 0,
    ensures
        mark(a, partition, offset, x) == mark(b, partition, offset, y) <==> {
            &&& a.raft_group == b.raft_group
            &&& a.raft_index == b.raft_index
            &&& a.ordinal == b.ordinal
            &&& a.report.instrument == b.report.instrument
            &&& a.report.type_code == b.report.type_code
            &&& x == y
        },
{
}

/// A report without a place in the log is recognised by the place of its message.
pub proof fn law_marks_recognise_messages(
    a: ExecutionEvent,
    b: ExecutionEvent,
    p: i32,
    q: i32,
    m: i64,
    n: i64,
    x: u64,
    y: u64,
)
    requires
        a.raft_index == 0,
        b.raft_index == 0,
        m >= 0,
        n >= 0,
    ensures
        mark(a, p, m, x) == mark(b, q, n, y) <==> p == q && m == n && a.report.instrument
            == b.report.instrument,
{
}

/// The row of a new order tells the order: who placed it is who sent the message, a buy
/// has side 0 and a sell side 1, and its size is all of it.
pub proof fn law_order_rows_tell_the_order(step: Step)
    requires
        step.command is New,
    ensures
        ({
            let order = step.command->New_0;
            let row = order_row(step);
            &&& row.order_id == order.id.0
            &&& row.instrument == order.instrument.0
            &&& row.user == step.record.user
            &&& row.category_id == step.record.category_id
            &&& row.price == order.price
            &&& row.qty == order.quantity
            &&& order.side == Side::Buy ==> row.side == 0
            &&& order.side == Side::Sell ==> row.side == 1
        }),
{
}

/// Every new order has its row, in the one table that its id goes to, and there are no
/// other rows.
pub proof fn law_new_orders_have_their_row(
    all: Seq<Step>,
    routing: RouteConfig,
    db: u32,
    table: u32,
)
    ensures
        forall|i: int|
            0 <= i < all.len() && (#[trigger] all[i]).command is New && routing.table_of(
                all[i].command->New_0.id.0,
            ) == (ShardRoute { db, table }) ==> order_rows(all, routing, db, table).contains(
                order_row(all[i]),
            ),
        forall|k: int|
            0 <= k < order_rows(all, routing, db, table).len() ==> new_at(
                all,
                routing,
                db,
                table,
                #[trigger] order_rows(all, routing, db, table)[k],
            ),
    decreases all.len(),
{
    if all.len() > 0 {
        let front = all.drop_last();
        law_new_orders_have_their_row(front, routing, db, table);
        let rows = order_rows(all, routing, db, table);
        let head = order_rows(front, routing, db, table);
        assert forall|i: int|
            0 <= i < all.len() && (#[trigger] all[i]).command is New && routing.table_of(
                all[i].command->New_0.id.0,
            ) == (ShardRoute { db, table }) implies rows.contains(order_row(all[i])) by {
            if i < front.len() {
                assert(front[i] == all[i]);
                let k = choose|k: int| 0 <= k < head.len() && head[k] == order_row(all[i]);
                assert(rows[k] == head[k]);
            } else {
                assert(rows[rows.len() - 1] == order_row(all[i]));
            }
        }
        assert forall|k: int| 0 <= k < rows.len() implies new_at(
            all,
            routing,
            db,
            table,
            #[trigger] rows[k],
        ) by {
            if k < head.len() {
                assert(rows[k] == head[k]);
                assert(new_at(front, routing, db, table, head[k]));
                let i = choose|i: int|
                    0 <= i < front.len() && (#[trigger] front[i]).command is New
                        && routing.table_of(front[i].command->New_0.id.0) == (ShardRoute {
                        db,
                        table,
                    }) && head[k] == order_row(front[i]);
                assert(all[i] == front[i]);
            } else {
                assert(rows[k] == order_row(all[all.len() - 1]));
            }
        }
    }
}

/// The row is of a new order that goes to the table.
pub open spec fn new_at(
    all: Seq<Step>,
    routing: RouteConfig,
    db: u32,
    table: u32,
    row: OrderRow,
) -> bool {
    exists|i: int|
        0 <= i < all.len() && (#[trigger] all[i]).command is New && routing.table_of(
            all[i].command->New_0.id.0,
        ) == (ShardRoute { db, table }) && row == order_row(all[i])
}

/// Every cancellation has its row, in the table that the id of the order goes to and in the
/// name of who sent it, and there are no other rows.
pub proof fn law_cancels_have_their_row(all: Seq<Step>, routing: RouteConfig, db: u32)
    ensures
        forall|i: int|
            0 <= i < all.len() && (#[trigger] all[i]).command is Cancel && routing.table_of(
                all[i].command->Cancel_order_id.0,
            ).db == db ==> cancel_rows(all, routing, db).contains(
                CancelRow {
                    table: routing.table_of(all[i].command->Cancel_order_id.0).table,
                    order_id: all[i].command->Cancel_order_id.0,
                    user: all[i].record.user,
                },
            ),
        forall|k: int|
            0 <= k < cancel_rows(all, routing, db).len() ==> cancel_at(
                all,
                routing,
                db,
                #[trigger] cancel_rows(all, routing, db)[k],
            ),
    decreases all.len(),
{
    if all.len() > 0 {
        let front = all.drop_last();
        law_cancels_have_their_row(front, routing, db);
        let rows = cancel_rows(all, routing, db);
        let head = cancel_rows(front, routing, db);
        assert forall|i: int|
            0 <= i < all.len() && (#[trigger] all[i]).command is Cancel && routing.table_of(
                all[i].command->Cancel_order_id.0,
            ).db == db implies rows.contains(
            CancelRow {
                table: routing.table_of(all[i].command->Cancel_order_id.0).table,
                order_id: all[i].command->Cancel_order_id.0,
                user: all[i].record.user,
            },
        ) by {
            let row = CancelRow {
                table: routing.table_of(all[i].command->Cancel_order_id.0).table,
                order_id: all[i].command->Cancel_order_id.0,
                user: all[i].record.user,
            };
            if i < front.len() {
                assert(front[i] == all[i]);
                let k = choose|k: int| 0 <= k < head.len() && head[k] == row;
                assert(rows[k] == head[k]);
            } else {
                assert(rows[rows.len() - 1] == row);
            }
        }
        assert forall|k: int| 0 <= k < rows.len() implies cancel_at(
            all,
            routing,
            db,
            #[trigger] rows[k],
        ) by {
            if k < head.len() {
                assert(rows[k] == head[k]);
                assert(cancel_at(front, routing, db, head[k]));
                let i = choose|i: int|
                    0 <= i < front.len() && (#[trigger] front[i]).command is Cancel && {
                        let id = front[i].command->Cancel_order_id.0;
                        &&& routing.table_of(id).db == db
                        &&& head[k].table == routing.table_of(id).table
                        &&& head[k].order_id == id
                        &&& head[k].user == front[i].record.user
                    };
                assert(all[i] == front[i]);
            } else {
                assert(all[all.len() - 1].command is Cancel);
            }
        }
    }
}

/// The row is of a cancellation that goes to the database.
pub open spec fn cancel_at(all: Seq<Step>, routing: RouteConfig, db: u32, row: CancelRow) -> bool {
    exists|i: int|
        0 <= i < all.len() && (#[trigger] all[i]).command is Cancel && {
            let id = all[i].command->Cancel_order_id.0;
            &&& routing.table_of(id).db == db
            &&& row.table == routing.table_of(id).table
            &&& row.order_id == id
            &&& row.user == all[i].record.user
        }
}

/// A consumer that has read up to an offset is behind by the messages from there to the
/// end, and never by less than none; one that has committed nothing is behind by all.
pub proof fn law_lag_counts_what_is_unread(high: i64, committed: i64)
    requires
        0 <= committed,
        0 <= high,
    ensures
        committed <= high ==> committed + behind_by(high, Some(committed)) == high,
        committed > high ==> behind_by(high, Some(committed)) == 0,
        behind_by(high, None) == high,
{
}

} // verus!
