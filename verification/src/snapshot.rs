//! Snapshots of the matching state and their file: a header, the state as 64-bit
//! words, and a checksum.

use vstd::prelude::*;

use crate::codec::{from_le, get_le, has_at, law_bytes_round_trip, lemma_pow256, put_le};
use crate::exchange::{state_views, EngineState, Snapshot, StateView};
use crate::fingerprint::{
    countable, engine_words, fields_of, lemma_order_words_len, order_fields, order_words,
    state_words, ORDER_WORDS,
};
use crate::order::Order;
use crate::record::{intact, intact_at, lemma_sealed, seal, sealed};
use crate::types::{InstrumentId, OrderId, OrderType, Side, TimeInForce};
use crate::wire::{lemma_words_at, lemma_words_len, words_le};

verus! {

/// First bytes of a snapshot file.
pub const SNAPSHOT_HEADER: [u8; 8] = [84, 67, 83, 78, 1, 0, 0, 0];

/// The bytes `TCSN`, version 1.
pub open spec fn snapshot_header() -> Seq<u8> {
    seq![84u8, 67, 83, 78, 1, 0, 0, 0]
}

/// What a snapshot holds.
#[verifier::ext_equal]
pub struct SnapshotView {
    pub journal_seq: u64,
    pub raft_applied_index: u64,
    pub states: Seq<StateView>,
}

impl View for Snapshot {
    type V = SnapshotView;

    open spec fn view(&self) -> SnapshotView {
        SnapshotView {
            journal_seq: self.journal_seq,
            raft_applied_index: self.raft_applied_index,
            states: state_views(self.engines@),
        }
    }
}

/// The words of a snapshot: what it covers, the number of engines, the engines.
pub open spec fn snapshot_words(s: SnapshotView) -> Seq<u64> {
    seq![s.journal_seq, s.raft_applied_index, s.states.len() as u64] + state_words(s.states)
}

/// The file of a snapshot.
pub open spec fn snapshot_of(s: SnapshotView) -> Seq<u8> {
    snapshot_header() + sealed(words_le(snapshot_words(s)))
}

/// Bytes read as words.
pub open spec fn words_in(bytes: Seq<u8>) -> Seq<u64> {
    Seq::new(
        (bytes.len() / 8) as nat,
        |k: int| from_le(bytes.subrange(8 * k, 8 * k + 8)) as u64,
    )
}

/// The order whose fields start at word `at`; `None` if one of them has no meaning.
pub open spec fn order_in(w: Seq<u64>, at: int) -> Option<Order> {
    if w[at + 5] > u32::MAX || w[at + 6] > 1 || w[at + 7] > 1 || w[at + 8] > 4 {
        None
    } else {
        Some(
            Order {
                id: OrderId(w[at]),
                instrument: InstrumentId(w[at + 5] as u32),
                user: w[at + 4],
                side: if w[at + 6] == 0 {
                    Side::Buy
                } else {
                    Side::Sell
                },
                order_type: if w[at + 7] == 0 {
                    OrderType::Limit
                } else {
                    OrderType::Market
                },
                tif: if w[at + 8] == 0 {
                    TimeInForce::Gtc
                } else if w[at + 8] == 1 {
                    TimeInForce::Ioc
                } else if w[at + 8] == 2 {
                    TimeInForce::Fok
                } else if w[at + 8] == 3 {
                    TimeInForce::IocBudget
                } else {
                    TimeInForce::FokBudget
                },
                price: w[at + 1],
                quantity: w[at + 9],
                remaining: w[at + 2],
                timestamp: w[at + 3],
            },
        )
    }
}

/// The `n` orders that start at word `at`.
pub open spec fn orders_in(w: Seq<u64>, at: int, n: nat) -> Option<Seq<Order>>
    decreases n,
{
    if n == 0 {
        Some(Seq::empty())
    } else {
        match (orders_in(w, at, (n - 1) as nat), order_in(w, at + ORDER_WORDS * (n - 1))) {
            (Some(front), Some(order)) => Some(front.push(order)),
            _ => None,
        }
    }
}

/// The engine that starts at word `at`.
pub open spec fn engine_in(w: Seq<u64>, at: int) -> Option<StateView> {
    if at + 3 > w.len() || w[at] > u32::MAX || ORDER_WORDS * w[at + 2] > w.len() - at - 3 {
        None
    } else {
        match orders_in(w, at + 3, w[at + 2] as nat) {
            None => None,
            Some(orders) => Some(StateView { instrument: w[at] as u32, seq: w[at + 1], orders }),
        }
    }
}

/// The `n` engines that start at word `at`, and where they end.
pub open spec fn engines_in(w: Seq<u64>, at: int, n: nat) -> Option<(Seq<StateView>, int)>
    decreases n,
{
    if n == 0 {
        Some((Seq::empty(), at))
    } else {
        match engines_in(w, at, (n - 1) as nat) {
            None => None,
            Some((front, next)) => match engine_in(w, next) {
                None => None,
                Some(s) => Some((front.push(s), next + 3 + ORDER_WORDS * s.orders.len())),
            },
        }
    }
}

/// The snapshot that a file holds; `None` if it is of another format or version, torn
/// or corrupt.
pub open spec fn snapshot_in(file: Seq<u8>) -> Option<SnapshotView> {
    let n = file.len() as int;
    if n < 40 || n % 8 != 0 || file.take(8) != snapshot_header() || !intact(file.skip(8)) {
        None
    } else {
        let w = words_in(file.subrange(8, n - 8));
        match engines_in(w, 3, w[2] as nat) {
            None => None,
            Some((states, end)) => if end == w.len() {
                Some(SnapshotView { journal_seq: w[0], raft_applied_index: w[1], states })
            } else {
                None
            },
        }
    }
}

proof fn lemma_order_fields(w: Seq<u64>, at: int, o: Order)
    requires
        0 <= at,
        at + ORDER_WORDS <= w.len(),
        w.subrange(at, at + ORDER_WORDS) == order_fields(o),
    ensures
        order_in(w, at) == Some(o),
{
    let f = order_fields(o);
    assert forall|k: int| 0 <= k < ORDER_WORDS implies w[at + k] == #[trigger] f[k] by {
        assert(w.subrange(at, at + ORDER_WORDS)[k] == f[k]);
    }
    assert(w[at + 0] == f[0] && w[at + 1] == f[1] && w[at + 2] == f[2] && w[at + 3] == f[3]);
    assert(w[at + 4] == f[4] && w[at + 5] == f[5] && w[at + 6] == f[6] && w[at + 7] == f[7]);
    assert(w[at + 8] == f[8] && w[at + 9] == f[9]);
}

proof fn lemma_orders(w: Seq<u64>, at: int, orders: Seq<Order>)
    requires
        0 <= at,
        at + ORDER_WORDS * orders.len() <= w.len(),
        w.subrange(at, at + ORDER_WORDS * orders.len()) == order_words(orders),
    ensures
        orders_in(w, at, orders.len()) == Some(orders),
    decreases orders.len(),
{
    let n = orders.len() as int;
    if n == 0 {
        assert(orders =~= Seq::<Order>::empty());
    } else {
        let front = orders.drop_last();
        let mid = at + ORDER_WORDS * (n - 1);
        let all = w.subrange(at, at + ORDER_WORDS * n);
        lemma_order_words_len(front);
        assert(w.subrange(at, mid) =~= all.take(ORDER_WORDS * (n - 1)));
        assert(w.subrange(at, mid) =~= order_words(front));
        assert(w.subrange(mid, mid + ORDER_WORDS) =~= all.skip(ORDER_WORDS * (n - 1)));
        assert(w.subrange(mid, mid + ORDER_WORDS) =~= order_fields(orders.last()));
        lemma_orders(w, at, front);
        lemma_order_fields(w, mid, orders.last());
        assert(orders =~= front.push(orders.last()));
    }
}

proof fn lemma_engines(w: Seq<u64>, at: int, states: Seq<StateView>)
    requires
        0 <= at,
        countable(states),
        at + state_words(states).len() <= w.len(),
        w.subrange(at, at + state_words(states).len()) == state_words(states),
    ensures
        engines_in(w, at, states.len()) == Some((states, at + state_words(states).len())),
    decreases states.len(),
{
    if states.len() == 0 {
        assert(states =~= Seq::<StateView>::empty());
    } else {
        let front = states.drop_last();
        let s = states.last();
        let all = state_words(states);
        let early = state_words(front);
        let next = at + early.len();
        let words = engine_words(s);
        assert(states[states.len() - 1] == s);
        assert forall|i: int| 0 <= i < front.len() implies (#[trigger] front[i]).orders.len()
            <= u64::MAX by {
            assert(front[i] == states[i]);
        }
        assert(w.subrange(at, next) =~= all.take(early.len() as int));
        assert(w.subrange(at, next) =~= early);
        lemma_engines(w, at, front);
        lemma_order_words_len(s.orders);
        let end = next + words.len();
        assert(w.subrange(next, end) =~= all.skip(early.len() as int));
        assert(w.subrange(next, end) =~= words);
        assert(w[next] == words[0] && w[next + 1] == words[1] && w[next + 2] == words[2]) by {
            assert(w.subrange(next, end)[0] == words[0]);
            assert(w.subrange(next, end)[1] == words[1]);
            assert(w.subrange(next, end)[2] == words[2]);
        }
        assert(w.subrange(next + 3, end) =~= w.subrange(next, end).skip(3));
        assert(w.subrange(next + 3, end) =~= order_words(s.orders));
        lemma_orders(w, next + 3, s.orders);
        assert(engine_in(w, next) == Some(s));
        assert(states =~= front.push(s));
    }
}

proof fn lemma_words_read_back(words: Seq<u64>)
    ensures
        words_le(words).len() == 8 * words.len(),
        words_in(words_le(words)) == words,
{
    lemma_words_len(words);
    lemma_pow256();
    assert forall|k: int| 0 <= k < words.len() implies words_in(words_le(words))[k]
        == words[k] by {
        lemma_words_at(words, k);
        law_bytes_round_trip(words[k] as nat, 8);
    }
    assert(words_in(words_le(words)) =~= words);
}

/// A snapshot's file reads back as the snapshot.
pub proof fn law_snapshot_round_trip(s: SnapshotView)
    requires
        countable(s.states),
        s.states.len() <= u64::MAX,
    ensures
        snapshot_in(snapshot_of(s)) == Some(s),
{
    let words = snapshot_words(s);
    let body = words_le(words);
    let file = snapshot_of(s);
    lemma_words_read_back(words);
    lemma_sealed(body);
    assert(file.take(8) =~= snapshot_header());
    assert(file.skip(8) =~= sealed(body));
    assert(file.subrange(8, file.len() - 8) =~= sealed(body).take(body.len() as int));
    assert(words.subrange(3, words.len() as int) =~= state_words(s.states));
    lemma_engines(words, 3, s.states);
}

/// Appends words to bytes.
fn put_words(out: &mut Vec<u8>, words: &Vec<u64>)
    ensures
        final(out)@ == old(out)@ + words_le(words@),
{
    let mut i: usize = 0;
    assert(words@.take(0) =~= Seq::<u64>::empty());
    assert(out@ + words_le(words@.take(0)) =~= out@);
    while i < words.len()
        invariant
            i <= words@.len(),
            out@ == old(out)@ + words_le(words@.take(i as int)),
        decreases words@.len() - i,
    {
        put_le(out, words[i], 8);
        proof {
            let next = words@.take(i + 1);
            assert(next.drop_last() =~= words@.take(i as int));
            assert(out@ =~= old(out)@ + words_le(next));
        }
        i += 1;
    }
    assert(words@.take(i as int) =~= words@);
}

/// Appends an engine to words.
fn put_engine(words: &mut Vec<u64>, state: &EngineState)
    ensures
        final(words)@ == old(words)@ + engine_words(state@),
{
    words.push(state.instrument.0 as u64);
    words.push(state.engine_seq);
    words.push(state.orders.len() as u64);
    let ghost head = words@;
    let mut i: usize = 0;
    assert(state.orders@.take(0) =~= Seq::<Order>::empty());
    assert(head + order_words(state.orders@.take(0)) =~= head);
    while i < state.orders.len()
        invariant
            i <= state.orders@.len(),
            words@ == head + order_words(state.orders@.take(i as int)),
        decreases state.orders@.len() - i,
    {
        let order = state.orders[i];
        let fields = fields_of(&order);
        let ghost before = words@;
        let mut k: usize = 0;
        assert(before + fields@.take(0) =~= before);
        while k < ORDER_WORDS
            invariant
                k <= ORDER_WORDS,
                words@ == before + fields@.take(k as int),
            decreases ORDER_WORDS - k,
        {
            words.push(fields[k]);
            assert(words@ =~= before + fields@.take(k + 1));
            k += 1;
        }
        proof {
            assert(fields@.take(k as int) =~= fields@);
            let next = state.orders@.take(i + 1);
            assert(next.drop_last() =~= state.orders@.take(i as int));
            assert(words@ =~= head + order_words(next));
        }
        i += 1;
    }
    assert(state.orders@.take(i as int) =~= state.orders@);
    assert(words@ =~= old(words)@ + engine_words(state@));
}

/// The file of a snapshot.
pub fn encode_snapshot(snapshot: &Snapshot) -> (r: Vec<u8>)
    ensures
        r@ == snapshot_of(snapshot@),
{
    let ghost views = snapshot@.states;
    let mut words: Vec<u64> = Vec::new();
    words.push(snapshot.journal_seq);
    words.push(snapshot.raft_applied_index);
    words.push(snapshot.engines.len() as u64);
    let ghost head = words@;
    let mut i: usize = 0;
    assert(views.take(0) =~= Seq::<StateView>::empty());
    assert(head + state_words(views.take(0)) =~= head);
    while i < snapshot.engines.len()
        invariant
            i <= snapshot.engines@.len(),
            views == snapshot@.states,
            words@ == head + state_words(views.take(i as int)),
        decreases snapshot.engines@.len() - i,
    {
        put_engine(&mut words, &snapshot.engines[i]);
        proof {
            let next = views.take(i + 1);
            assert(next.drop_last() =~= views.take(i as int));
            assert(next.last() == snapshot.engines@[i as int]@);
            assert(words@ =~= head + state_words(next));
        }
        i += 1;
    }
    assert(views.take(i as int) =~= views);
    assert(words@ =~= snapshot_words(snapshot@));
    let mut out: Vec<u8> = Vec::new();
    let header = SNAPSHOT_HEADER;
    crate::codec::put_slice(&mut out, header.as_slice(), 0, 8);
    assert(out@ =~= snapshot_header());
    put_words(&mut out, &words);
    proof {
        assert(out@.take(8) =~= snapshot_header());
        assert(out@.skip(8) =~= words_le(words@));
    }
    seal(&mut out, 8);
    out
}

/// The words that start at byte 8 and end 8 bytes before the end.
fn read_words(file: &[u8]) -> (r: Vec<u64>)
    requires
        file@.len() >= 16,
        file@.len() % 8 == 0,
    ensures
        r@ == words_in(file@.subrange(8, file@.len() - 8)),
{
    let size: usize = file.len();
    let n: usize = size / 8 - 2;
    let ghost body = file@.subrange(8, file@.len() - 8);
    let mut words: Vec<u64> = Vec::new();
    let mut i: usize = 0;
    while i < n
        invariant
            i <= n,
            8 * n + 16 == size == file@.len(),
            body == file@.subrange(8, file@.len() - 8),
            words@ == words_in(body).take(i as int),
            words_in(body).len() == n,
        decreases n - i,
    {
        let v: u64 = get_le(file, 8 + 8 * i, 8);
        assert(file@.subrange(8 + 8 * i, 8 + 8 * i + 8) =~= body.subrange(8 * i, 8 * i + 8));
        words.push(v);
        assert(words@ =~= words_in(body).take(i + 1));
        i += 1;
    }
    assert(words_in(body).take(i as int) =~= words_in(body));
    words
}

fn read_order(w: &Vec<u64>, at: usize) -> (r: Option<Order>)
    requires
        at + ORDER_WORDS <= w@.len(),
    ensures
        r == order_in(w@, at as int),
{
    let size: usize = w.len();
    assert(at + ORDER_WORDS <= size);
    if w[at + 5] > 0xffff_ffff || w[at + 6] > 1 || w[at + 7] > 1 || w[at + 8] > 4 {
        return None;
    }
    Some(
        Order {
            id: OrderId(w[at]),
            instrument: InstrumentId(w[at + 5] as u32),
            user: w[at + 4],
            side: if w[at + 6] == 0 {
                Side::Buy
            } else {
                Side::Sell
            },
            order_type: if w[at + 7] == 0 {
                OrderType::Limit
            } else {
                OrderType::Market
            },
            tif: match w[at + 8] {
                0 => TimeInForce::Gtc,
                1 => TimeInForce::Ioc,
                2 => TimeInForce::Fok,
                3 => TimeInForce::IocBudget,
                _ => TimeInForce::FokBudget,
            },
            price: w[at + 1],
            quantity: w[at + 9],
            remaining: w[at + 2],
            timestamp: w[at + 3],
        },
    )
}

proof fn lemma_orders_stop(w: Seq<u64>, at: int, k: nat, n: nat)
    requires
        k <= n,
        orders_in(w, at, k) is None,
    ensures
        orders_in(w, at, n) is None,
    decreases n,
{
    if k < n {
        lemma_orders_stop(w, at, k, (n - 1) as nat);
    }
}

proof fn lemma_engines_stop(w: Seq<u64>, at: int, k: nat, n: nat)
    requires
        k <= n,
        engines_in(w, at, k) is None,
    ensures
        engines_in(w, at, n) is None,
    decreases n,
{
    if k < n {
        lemma_engines_stop(w, at, k, (n - 1) as nat);
    }
}

fn read_engine(w: &Vec<u64>, at: usize) -> (r: Option<EngineState>)
    requires
        at <= w@.len(),
    ensures
        match r {
            Some(state) => {
                &&& engine_in(w@, at as int) == Some(state@)
                &&& at + 3 + ORDER_WORDS * state.orders@.len() <= w@.len()
            },
            None => engine_in(w@, at as int) is None,
        },
{
    let size: usize = w.len();
    if size - at < 3 || w[at] > 0xffff_ffff || w[at + 2] > ((size - at - 3) / ORDER_WORDS) as u64 {
        return None;
    }
    let n: usize = w[at + 2] as usize;
    let mut orders: Vec<Order> = Vec::new();
    let mut i: usize = 0;
    while i < n
        invariant
            i <= n,
            n == w@[at + 2],
            size == w@.len(),
            at + 3 + ORDER_WORDS * n <= size,
            orders@.len() == i,
            orders_in(w@, at + 3, i as nat) == Some(orders@),
            engine_in(w@, at as int) == match orders_in(w@, at + 3, n as nat) {
                None => None::<StateView>,
                Some(list) => Some(
                    StateView { instrument: w@[at as int] as u32, seq: w@[at + 1], orders: list },
                ),
            },
        decreases n - i,
    {
        match read_order(w, at + 3 + ORDER_WORDS * i) {
            Some(order) => {
                orders.push(order);
            },
            None => {
                proof {
                    assert(orders_in(w@, at + 3, (i + 1) as nat) is None);
                    lemma_orders_stop(w@, at + 3, (i + 1) as nat, n as nat);
                }
                return None;
            },
        }
        i += 1;
    }
    Some(EngineState { instrument: InstrumentId(w[at] as u32), engine_seq: w[at + 1], orders })
}

/// The snapshot that a file holds; `None` if it is of another format or version, torn
/// or corrupt.
pub fn decode_snapshot(file: &[u8]) -> (r: Option<Snapshot>)
    ensures
        match r {
            Some(snapshot) => snapshot_in(file@) == Some(snapshot@),
            None => snapshot_in(file@) is None,
        },
{
    let size: usize = file.len();
    if size < 40 || size % 8 != 0 {
        return None;
    }
    let header = SNAPSHOT_HEADER;
    proof {
        assert(file@.subrange(0, 8) =~= file@.take(8));
        assert(header@ =~= snapshot_header());
        assert(file@.subrange(8, size as int) =~= file@.skip(8));
    }
    if !has_at(file, 0, header.as_slice()) || !intact_at(file, 8, size - 8) {
        return None;
    }
    let w = read_words(file);
    let count: usize = w.len();
    let n: u64 = w[2];
    let mut engines: Vec<EngineState> = Vec::new();
    let mut at: usize = 3;
    let mut i: u64 = 0;
    assert(state_views(engines@) =~= Seq::<StateView>::empty());
    while i < n
        invariant
            i <= n,
            n == w@[2],
            count == w@.len(),
            3 <= at <= count,
            engines_in(w@, 3, i as nat) == Some((state_views(engines@), at as int)),
            snapshot_in(file@) == match engines_in(w@, 3, n as nat) {
                None => None::<SnapshotView>,
                Some((states, end)) => if end == w@.len() {
                    Some(SnapshotView { journal_seq: w@[0], raft_applied_index: w@[1], states })
                } else {
                    None
                },
            },
        decreases n - i,
    {
        match read_engine(&w, at) {
            Some(state) => {
                let ghost before = engines@;
                let ghost view = state@;
                at = at + 3 + ORDER_WORDS * state.orders.len();
                engines.push(state);
                assert(state_views(engines@) =~= state_views(before).push(view));
            },
            None => {
                proof {
                    assert(engines_in(w@, 3, (i + 1) as nat) is None);
                    lemma_engines_stop(w@, 3, (i + 1) as nat, n as nat);
                }
                return None;
            },
        }
        i += 1;
    }
    if at != count {
        return None;
    }
    Some(Snapshot { journal_seq: w[0], raft_applied_index: w[1], engines })
}

} // verus!
