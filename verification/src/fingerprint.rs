//! The words that a fingerprint of the matching state is taken over.

use vstd::prelude::*;

use crate::codec::{fnv, fnv_extend, le, lemma_fnv_concat, put_le, FNV_OFFSET};
use crate::exchange::{coherent, exported, law_restore_gives_back_export, Engines, StateView};
use crate::order::Order;
use crate::types::{OrderType, Side, TimeInForce};
use crate::wire::{lemma_words_len, words_le};

verus! {

/// The number of words that describe one order.
pub const ORDER_WORDS: usize = 10;

/// The number that stands for a side.
pub open spec fn side_number(side: Side) -> u64 {
    match side {
        Side::Buy => 0,
        Side::Sell => 1,
    }
}

/// The number that stands for an order type.
pub open spec fn type_number(order_type: OrderType) -> u64 {
    match order_type {
        OrderType::Limit => 0,
        OrderType::Market => 1,
    }
}

/// The number that stands for a time in force.
pub open spec fn tif_number(tif: TimeInForce) -> u64 {
    match tif {
        TimeInForce::Gtc => 0,
        TimeInForce::Ioc => 1,
        TimeInForce::Fok => 2,
        TimeInForce::IocBudget => 3,
        TimeInForce::FokBudget => 4,
    }
}

/// All the fields of an order.
pub open spec fn order_fields(o: Order) -> Seq<u64> {
    seq![
        o.id.0,
        o.price,
        o.remaining,
        o.timestamp,
        o.user,
        o.instrument.0 as u64,
        side_number(o.side),
        type_number(o.order_type),
        tif_number(o.tif),
        o.quantity,
    ]
}

/// The fields of resting orders, one order after the other.
pub open spec fn order_words(orders: Seq<Order>) -> Seq<u64>
    decreases orders.len(),
{
    if orders.len() == 0 {
        Seq::empty()
    } else {
        order_words(orders.drop_last()) + order_fields(orders.last())
    }
}

/// One engine: its instrument, its counter, the number of its orders, the orders.
pub open spec fn engine_words(s: StateView) -> Seq<u64> {
    seq![s.instrument as u64, s.seq, s.orders.len() as u64] + order_words(s.orders)
}

/// The words that make up the matching state.
pub open spec fn state_words(states: Seq<StateView>) -> Seq<u64>
    decreases states.len(),
{
    if states.len() == 0 {
        Seq::empty()
    } else {
        state_words(states.drop_last()) + engine_words(states.last())
    }
}

/// The number of orders of every engine fits in a word.
pub open spec fn countable(states: Seq<StateView>) -> bool {
    forall|i: int| 0 <= i < states.len() ==> (#[trigger] states[i]).orders.len() <= u64::MAX
}

pub proof fn lemma_order_words_len(orders: Seq<Order>)
    ensures
        order_words(orders).len() == ORDER_WORDS * orders.len(),
    decreases orders.len(),
{
    if orders.len() > 0 {
        lemma_order_words_len(orders.drop_last());
    }
}

proof fn lemma_fields_tell_apart(a: Order, b: Order)
    requires
        order_fields(a) == order_fields(b),
    ensures
        a == b,
{
    let x = order_fields(a);
    let y = order_fields(b);
    assert forall|i: int| 0 <= i < ORDER_WORDS implies #[trigger] x[i] == y[i] by {}
    assert(x[0] == y[0] && x[1] == y[1] && x[2] == y[2] && x[3] == y[3] && x[4] == y[4]);
    assert(x[5] == y[5] && x[6] == y[6] && x[7] == y[7] && x[8] == y[8] && x[9] == y[9]);
}

proof fn lemma_orders_tell_apart(a: Seq<Order>, b: Seq<Order>)
    requires
        order_words(a) == order_words(b),
        a.len() == b.len(),
    ensures
        a == b,
    decreases a.len(),
{
    if a.len() > 0 {
        let n = ORDER_WORDS * (a.len() - 1);
        let wa = order_words(a.drop_last());
        let wb = order_words(b.drop_last());
        lemma_order_words_len(a.drop_last());
        lemma_order_words_len(b.drop_last());
        assert(wa =~= order_words(a).take(n));
        assert(wb =~= order_words(b).take(n));
        assert(order_fields(a.last()) =~= order_words(a).skip(n));
        assert(order_fields(b.last()) =~= order_words(b).skip(n));
        lemma_orders_tell_apart(a.drop_last(), b.drop_last());
        lemma_fields_tell_apart(a.last(), b.last());
        assert(a =~= a.drop_last().push(a.last()));
        assert(b =~= b.drop_last().push(b.last()));
    }
    assert(a =~= b);
}

/// The words of the first engine come first.
proof fn lemma_first_engine(states: Seq<StateView>)
    requires
        states.len() > 0,
    ensures
        state_words(states) == engine_words(states[0]) + state_words(states.skip(1)),
    decreases states.len(),
{
    let rest = states.skip(1);
    if states.len() == 1 {
        assert(states.drop_last() =~= Seq::<StateView>::empty());
        assert(rest =~= Seq::<StateView>::empty());
        assert(state_words(states) =~= engine_words(states[0]) + state_words(rest));
    } else {
        lemma_first_engine(states.drop_last());
        assert(states.drop_last().skip(1) =~= rest.drop_last());
        assert(rest.last() == states.last());
        assert(state_words(states) =~= engine_words(states[0]) + state_words(rest));
    }
}

/// Where the words of one engine end can be told from the words.
proof fn lemma_first_tells_apart(a: StateView, b: StateView, rest_a: Seq<u64>, rest_b: Seq<u64>)
    requires
        a.orders.len() <= u64::MAX,
        b.orders.len() <= u64::MAX,
        engine_words(a) + rest_a == engine_words(b) + rest_b,
    ensures
        a == b,
        rest_a == rest_b,
{
    let w = engine_words(a) + rest_a;
    let head = engine_words(a);
    let other = engine_words(b);
    assert(w[0] == head[0] && w[1] == head[1] && w[2] == head[2]);
    assert(w[0] == other[0] && w[1] == other[1] && w[2] == other[2]);
    lemma_order_words_len(a.orders);
    lemma_order_words_len(b.orders);
    let n = head.len() as int;
    assert(order_words(a.orders) =~= w.subrange(3, n));
    assert(order_words(b.orders) =~= w.subrange(3, n));
    lemma_orders_tell_apart(a.orders, b.orders);
    assert(rest_a =~= w.skip(n));
    assert(rest_b =~= w.skip(n));
}

/// Different states are different words: every field of every resting order, the
/// counters and which engine an order rests in can be read back.
pub proof fn law_words_tell_states_apart(a: Seq<StateView>, b: Seq<StateView>)
    requires
        countable(a),
        countable(b),
        state_words(a) == state_words(b),
    ensures
        a == b,
    decreases a.len(),
{
    if a.len() == 0 || b.len() == 0 {
        if a.len() > 0 {
            lemma_first_engine(a);
            assert(state_words(a).len() >= 3);
        }
        if b.len() > 0 {
            lemma_first_engine(b);
            assert(state_words(b).len() >= 3);
        }
        assert(a =~= b);
    } else {
        lemma_first_engine(a);
        lemma_first_engine(b);
        lemma_first_tells_apart(a[0], b[0], state_words(a.skip(1)), state_words(b.skip(1)));
        assert forall|i: int| 0 <= i < a.skip(1).len() implies (#[trigger] a.skip(
            1,
        )[i]).orders.len() <= u64::MAX by {
            assert(a.skip(1)[i] == a[i + 1]);
        }
        assert forall|i: int| 0 <= i < b.skip(1).len() implies (#[trigger] b.skip(
            1,
        )[i]).orders.len() <= u64::MAX by {
            assert(b.skip(1)[i] == b[i + 1]);
        }
        law_words_tell_states_apart(a.skip(1), b.skip(1));
        assert(a =~= seq![a[0]] + a.skip(1));
        assert(b =~= seq![b[0]] + b.skip(1));
    }
}

/// Different words are different bytes.
proof fn lemma_bytes_tell_words_apart(a: Seq<u64>, b: Seq<u64>)
    requires
        words_le(a) == words_le(b),
    ensures
        a == b,
    decreases a.len(),
{
    lemma_words_len(a);
    lemma_words_len(b);
    if a.len() > 0 {
        let n = 8 * (a.len() - 1);
        lemma_words_len(a.drop_last());
        lemma_words_len(b.drop_last());
        crate::codec::lemma_le_len(a.last() as nat, 8);
        crate::codec::lemma_le_len(b.last() as nat, 8);
        assert(words_le(a.drop_last()) =~= words_le(a).take(n));
        assert(words_le(b.drop_last()) =~= words_le(b).take(n));
        assert(le(a.last() as nat, 8) =~= words_le(a).skip(n));
        assert(le(b.last() as nat, 8) =~= words_le(b).skip(n));
        lemma_bytes_tell_words_apart(a.drop_last(), b.drop_last());
        crate::codec::lemma_pow256();
        crate::codec::law_bytes_round_trip(a.last() as nat, 8);
        crate::codec::law_bytes_round_trip(b.last() as nat, 8);
        assert(a =~= a.drop_last().push(a.last()));
        assert(b =~= b.drop_last().push(b.last()));
    }
    assert(a =~= b);
}

/// The bytes that a fingerprint is the hash of are equal only where the states are:
/// equal fingerprints mean identical books and counters, but for a collision of the
/// 64-bit hash.
pub proof fn law_fingerprinted_bytes_tell_engines_apart(
    a: Engines,
    b: Engines,
    states_a: Seq<StateView>,
    states_b: Seq<StateView>,
)
    requires
        coherent(a),
        coherent(b),
        exported(states_a, a),
        exported(states_b, b),
        countable(states_a),
        countable(states_b),
        words_le(state_words(states_a)) == words_le(state_words(states_b)),
    ensures
        a == b,
{
    lemma_bytes_tell_words_apart(state_words(states_a), state_words(states_b));
    law_words_tell_states_apart(states_a, states_b);
    law_restore_gives_back_export(a, states_a);
    law_restore_gives_back_export(b, states_b);
}

/// Mixes one 64-bit word into the checksum of `words`.
pub(crate) fn mix(h: u64, v: u64, words: Ghost<Seq<u64>>) -> (r: u64)
    requires
        h == fnv(words_le(words@)),
    ensures
        r == fnv(words_le(words@.push(v))),
{
    let mut bytes: Vec<u8> = Vec::new();
    put_le(&mut bytes, v, 8);
    proof {
        let all = words@.push(v);
        assert(all.drop_last() =~= words@);
        lemma_fnv_concat(FNV_OFFSET, words_le(words@), le(v as nat, 8));
        crate::codec::lemma_le_len(v as nat, 8);
        assert(bytes@.subrange(0, 8) =~= le(v as nat, 8));
    }
    fnv_extend(h, bytes.as_slice(), 0, 8)
}

fn side_word(side: Side) -> (r: u64)
    ensures
        r == side_number(side),
{
    match side {
        Side::Buy => 0,
        Side::Sell => 1,
    }
}

fn type_word(order_type: OrderType) -> (r: u64)
    ensures
        r == type_number(order_type),
{
    match order_type {
        OrderType::Limit => 0,
        OrderType::Market => 1,
    }
}

fn tif_word(tif: TimeInForce) -> (r: u64)
    ensures
        r == tif_number(tif),
{
    match tif {
        TimeInForce::Gtc => 0,
        TimeInForce::Ioc => 1,
        TimeInForce::Fok => 2,
        TimeInForce::IocBudget => 3,
        TimeInForce::FokBudget => 4,
    }
}

/// All the fields of an order.
pub(crate) fn fields_of(o: &Order) -> (r: [u64; ORDER_WORDS])
    ensures
        r@ == order_fields(*o),
{
    let fields: [u64; ORDER_WORDS] = [
        o.id.0,
        o.price,
        o.remaining,
        o.timestamp,
        o.user,
        o.instrument.0 as u64,
        side_word(o.side),
        type_word(o.order_type),
        tif_word(o.tif),
        o.quantity,
    ];
    assert(fields@ =~= order_fields(*o));
    fields
}

/// Mixes the fields of one order into the checksum of `words`.
pub(crate) fn mix_order(h: u64, o: &Order, words: Ghost<Seq<u64>>) -> (r: u64)
    requires
        h == fnv(words_le(words@)),
    ensures
        r == fnv(words_le(words@ + order_fields(*o))),
{
    let fields = fields_of(o);
    let mut h = h;
    let mut i: usize = 0;
    assert(words@ + fields@.take(0) =~= words@);
    while i < ORDER_WORDS
        invariant
            i <= ORDER_WORDS,
            h == fnv(words_le(words@ + fields@.take(i as int))),
        decreases ORDER_WORDS - i,
    {
        h = mix(h, fields[i], Ghost(words@ + fields@.take(i as int)));
        assert((words@ + fields@.take(i as int)).push(fields[i as int]) =~= words@ + fields@.take(
            i + 1,
        ));
        i += 1;
    }
    assert(fields@.take(i as int) =~= fields@);
    h
}

} // verus!
