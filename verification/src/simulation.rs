//! Order flows for trying a node out: a load of orders over many users, and a
//! trader around prices that walk at random.

use vstd::prelude::*;

use crate::exchange::Command;
use crate::order::Order;
use crate::types::{InstrumentId, OrderId, OrderType, Side, TimeInForce};
use crate::wire::{REPORT_LEN, RT_FILLED, RT_NOT_FOUND, RT_REJECTED, RT_TRADE};

verus! {

/// A generator of numbers that look random.
#[derive(Clone, Copy, Debug, PartialEq, Eq, Structural)]
pub struct Rng {
    pub state: u64,
}

/// The state after one more number.
pub open spec fn stepped(state: u64) -> u64 {
    let x = state ^ (state >> 12);
    let y = x ^ (x << 25);
    y ^ (y >> 27)
}

/// The number that a state gives.
pub open spec fn drawn(state: u64) -> u64 {
    stepped(state).wrapping_mul(0x2545F4914F6CDD1D)
}

/// A number from `lo` to `hi`.
pub open spec fn within(n: u64, lo: u64, hi: u64) -> u64 {
    (lo + n as int % (hi - lo + 1)) as u64
}

impl Rng {
    /// The next number.
    pub fn draw(&mut self) -> (r: u64)
        ensures
            r == drawn(old(self).state),
            final(self).state == stepped(old(self).state),
    {
        let x: u64 = self.state ^ (self.state >> 12);
        let y: u64 = x ^ (x << 25);
        let z: u64 = y ^ (y >> 27);
        self.state = z;
        z.wrapping_mul(0x2545F4914F6CDD1D)
    }

    /// The next number, from `lo` to `hi`.
    pub fn range(&mut self, lo: u64, hi: u64) -> (r: u64)
        requires
            lo <= hi,
            hi - lo < u64::MAX,
        ensures
            r == within(drawn(old(self).state), lo, hi),
            lo <= r <= hi,
            final(self).state == stepped(old(self).state),
    {
        let n: u64 = self.draw();
        lo + n % (hi - lo + 1)
    }
}

/// A side.
pub open spec fn coin(n: u64) -> Side {
    if n % 2 == 0 {
        Side::Buy
    } else {
        Side::Sell
    }
}

fn toss(n: u64) -> (r: Side)
    ensures
        r == coin(n),
{
    if n % 2 == 0 {
        Side::Buy
    } else {
        Side::Sell
    }
}

/// A limit order.
pub open spec fn limit_order(
    id: u64,
    side: Side,
    price: u64,
    qty: u64,
    symbol: u32,
    user: u64,
    tif: TimeInForce,
) -> Order {
    Order {
        id: OrderId(id),
        instrument: InstrumentId(symbol),
        user,
        side,
        order_type: OrderType::Limit,
        tif,
        price,
        quantity: qty,
        remaining: qty,
        timestamp: 0,
    }
}

/// The `n`-th state after `state`.
pub open spec fn state_after(state: u64, n: nat) -> u64
    decreases n,
{
    if n == 0 {
        state
    } else {
        stepped(state_after(state, (n - 1) as nat))
    }
}

/// The `n`-th number from `state` on, counted from zero.
pub open spec fn pick(state: u64, n: nat) -> u64 {
    drawn(state_after(state, n))
}

/// A command of the load, the user who sends it, and how many numbers it took.
pub open spec fn loaded(state: u64, i: u64) -> (u64, Command, nat) {
    let user = within(pick(state, 0), 1, 100_000);
    let symbol = (1 + pick(state, 1) % 4) as u32;
    let at = if i > 1000 {
        3nat
    } else {
        2nat
    };
    if i > 1000 && pick(state, 2) % 7 == 0 {
        (
            user,
            Command::Cancel {
                instrument: InstrumentId(symbol),
                order_id: OrderId(within(pick(state, 3), 1, (i - 1) as u64)),
                cmd_id: i,
            },
            4,
        )
    } else {
        (
            user,
            Command::New(
                limit_order(
                    i,
                    coin(pick(state, at)),
                    within(pick(state, at + 1), 990, 1010),
                    within(pick(state, at + 2), 1, 50),
                    symbol,
                    user,
                    TimeInForce::Gtc,
                ),
            ),
            at + 3,
        )
    }
}

/// Command number `i` of the load: an order of one of many users, or, now and
/// then, a cancel of an earlier one. The user is who the order is stored under.
pub fn load_command(rng: &mut Rng, i: u64) -> (r: (u64, Command))
    ensures
        r == (loaded(old(rng).state, i).0, loaded(old(rng).state, i).1),
        final(rng).state == state_after(old(rng).state, loaded(old(rng).state, i).2),
{
    proof {
        reveal_with_fuel(state_after, 7);
    }
    let user: u64 = rng.range(1, 100_000);
    let symbol: u32 = (1 + rng.draw() % 4) as u32;
    if i > 1000 {
        let cancels: bool = rng.draw() % 7 == 0;
        if cancels {
            let order_id: u64 = rng.range(1, i - 1);
            return (
                user,
                Command::Cancel {
                    instrument: InstrumentId(symbol),
                    order_id: OrderId(order_id),
                    cmd_id: i,
                },
            );
        }
    }
    let side = toss(rng.draw());
    let price: u64 = rng.range(990, 1010);
    let qty: u64 = rng.range(1, 50);
    (
        user,
        Command::New(
            Order::limit(OrderId(i), side, price, qty).on(InstrumentId(symbol)).owned_by(user),
        ),
    )
}

/// Reports of a stream: how many end a command, and how many are trades.
#[derive(Clone, Copy, Debug, PartialEq, Eq, Structural)]
pub struct Tally {
    pub terminals: u64,
    pub trades: u64,
}

/// A report of this type ends a command.
pub open spec fn is_terminal(code: u8) -> bool {
    RT_FILLED <= code <= RT_REJECTED || code == RT_NOT_FOUND
}

/// The tally after the first `n` frames of what was received.
pub open spec fn tallied(t: Tally, bytes: Seq<u8>, n: nat) -> Tally
    decreases n,
{
    if n == 0 {
        t
    } else {
        let before = tallied(t, bytes, (n - 1) as nat);
        let code = bytes[(n - 1) * REPORT_LEN];
        if code == RT_TRADE {
            Tally { trades: before.trades.wrapping_add(1), ..before }
        } else if is_terminal(code) {
            Tally { terminals: before.terminals.wrapping_add(1), ..before }
        } else {
            before
        }
    }
}

impl Tally {
    /// Counts the whole frames of what was received, and says how many bytes they
    /// were.
    pub fn count(&mut self, bytes: &[u8]) -> (consumed: usize)
        ensures
            consumed == bytes@.len() / REPORT_LEN as nat * REPORT_LEN,
            *final(self) == tallied(*old(self), bytes@, bytes@.len() / REPORT_LEN as nat),
    {
        let ghost start = *self;
        let size: usize = bytes.len();
        let n: usize = size / REPORT_LEN;
        let mut k: usize = 0;
        while k < n
            invariant
                k <= n,
                n * REPORT_LEN <= size == bytes@.len(),
                *self == tallied(start, bytes@, k as nat),
            decreases n - k,
        {
            let code: u8 = bytes[k * REPORT_LEN];
            if code == RT_TRADE {
                self.trades = self.trades.wrapping_add(1);
            } else if (RT_FILLED <= code && code <= RT_REJECTED) || code == RT_NOT_FOUND {
                self.terminals = self.terminals.wrapping_add(1);
            }
            k += 1;
        }
        n * REPORT_LEN
    }
}

/// A trader around prices that walk at random, drawn back to a thousand.
#[derive(Clone, Copy, Debug)]
pub struct Trader {
    pub rng: Rng,
    /// Prices of the four instruments.
    pub mids: (i64, i64, i64, i64),
    /// The last id used.
    pub id: u64,
}

/// The sign of a number.
pub open spec fn sign(n: int) -> int {
    if n > 0 {
        1
    } else if n < 0 {
        -1
    } else {
        0
    }
}

/// The price after a step of `draw`: three up to three down, one towards a
/// thousand, and never far from it.
pub open spec fn walked(mid: int, draw: u64) -> int {
    let to = mid + (draw - 3) + sign(1000 - mid);
    if to < 925 {
        925
    } else if to > 1075 {
        1075
    } else {
        to
    }
}

fn walk(mid: i64, draw: u64) -> (r: i64)
    requires
        925 <= mid <= 1075,
        draw <= 6,
    ensures
        r == walked(mid as int, draw),
        925 <= r <= 1075,
{
    let pull: i64 = if mid < 1000 {
        1
    } else if mid > 1000 {
        -1
    } else {
        0
    };
    let to: i64 = mid + (draw as i64 - 3) + pull;
    if to < 925 {
        925
    } else if to > 1075 {
        1075
    } else {
        to
    }
}

impl Trader {
    /// The prices are where they may be.
    pub open spec fn wf(self) -> bool {
        &&& 925 <= self.mids.0 <= 1075
        &&& 925 <= self.mids.1 <= 1075
        &&& 925 <= self.mids.2 <= 1075
        &&& 925 <= self.mids.3 <= 1075
    }

    /// A trader whose ids follow `id`.
    pub fn new(seed: u64, id: u64) -> (r: Trader)
        ensures
            r == (Trader {
                rng: Rng { state: seed },
                mids: (1000i64, 1000i64, 1000i64, 1000i64),
                id,
            }),
            r.wf(),
    {
        Trader { rng: Rng { state: seed }, mids: (1000, 1000, 1000, 1000), id }
    }

    /// The price of an instrument.
    pub open spec fn mid(self, k: u64) -> i64 {
        if k == 0 {
            self.mids.0
        } else if k == 1 {
            self.mids.1
        } else if k == 2 {
            self.mids.2
        } else {
            self.mids.3
        }
    }

    /// The trader with another price of an instrument.
    pub open spec fn with_mid(self, k: u64, mid: i64) -> (i64, i64, i64, i64) {
        if k == 0 {
            (mid, self.mids.1, self.mids.2, self.mids.3)
        } else if k == 1 {
            (self.mids.0, mid, self.mids.2, self.mids.3)
        } else if k == 2 {
            (self.mids.0, self.mids.1, mid, self.mids.3)
        } else {
            (self.mids.0, self.mids.1, self.mids.2, mid)
        }
    }

    /// The next order: seven in ten rest beside the price, the others cross it.
    pub open spec fn next_order(self) -> Order {
        let s = self.rng.state;
        let k = pick(s, 0) % 4;
        let mid = walked(self.mid(k) as int, within(pick(s, 1), 0, 6));
        let user = within(pick(s, 2), 1, 50);
        let side = coin(pick(s, 3));
        let qty = within(pick(s, 4), 1, 20);
        let rests = pick(s, 5) % 10 < 7;
        let price = if rests {
            let off = within(pick(s, 6), 1, 5);
            if side == Side::Buy {
                mid - off
            } else {
                mid + off
            }
        } else {
            let off = within(pick(s, 6), 0, 3);
            if side == Side::Buy {
                mid + off
            } else {
                mid - off
            }
        };
        limit_order(
            (self.id + 1) as u64,
            side,
            price as u64,
            qty,
            (1 + k) as u32,
            user,
            if rests {
                TimeInForce::Gtc
            } else {
                TimeInForce::Ioc
            },
        )
    }

    /// The trader after the next order.
    pub open spec fn after_order(self) -> Trader {
        let s = self.rng.state;
        let k = pick(s, 0) % 4;
        Trader {
            rng: Rng { state: state_after(s, 7) },
            mids: self.with_mid(
                k,
                walked(self.mid(k) as int, within(pick(s, 1), 0, 6)) as i64,
            ),
            id: (self.id + 1) as u64,
        }
    }

    /// Makes the next order.
    pub fn order(&mut self) -> (r: Order)
        requires
            old(self).wf(),
            old(self).id < u64::MAX,
        ensures
            final(self).wf(),
            r == old(self).next_order(),
            *final(self) == old(self).after_order(),
    {
        proof {
            reveal_with_fuel(state_after, 8);
        }
        let k: u64 = self.rng.draw() % 4;
        let step: u64 = self.rng.range(0, 6);
        let was: i64 = if k == 0 {
            self.mids.0
        } else if k == 1 {
            self.mids.1
        } else if k == 2 {
            self.mids.2
        } else {
            self.mids.3
        };
        let now: i64 = walk(was, step);
        self.mids = if k == 0 {
            (now, self.mids.1, self.mids.2, self.mids.3)
        } else if k == 1 {
            (self.mids.0, now, self.mids.2, self.mids.3)
        } else if k == 2 {
            (self.mids.0, self.mids.1, now, self.mids.3)
        } else {
            (self.mids.0, self.mids.1, self.mids.2, now)
        };
        let mid: u64 = now as u64;
        self.id = self.id + 1;
        let user: u64 = self.rng.range(1, 50);
        let side = toss(self.rng.draw());
        let qty: u64 = self.rng.range(1, 20);
        let rests: bool = self.rng.draw() % 10 < 7;
        let symbol = InstrumentId((1 + k) as u32);
        if rests {
            let off: u64 = self.rng.range(1, 5);
            let price: u64 = match side {
                Side::Buy => mid - off,
                Side::Sell => mid + off,
            };
            Order::limit(OrderId(self.id), side, price, qty).on(symbol).owned_by(user)
        } else {
            let off: u64 = self.rng.range(0, 3);
            let price: u64 = match side {
                Side::Buy => mid + off,
                Side::Sell => mid - off,
            };
            Order::limit(OrderId(self.id), side, price, qty).on(symbol).owned_by(user).with_tif(
                TimeInForce::Ioc,
            )
        }
    }

    /// The cancel that may follow an order on an instrument: one time in sixteen,
    /// of one of the last two hundred ids.
    pub open spec fn next_cancel(self, symbol: InstrumentId) -> Option<Command> {
        let s = self.rng.state;
        if pick(s, 0) % 16 == 0 {
            let id = self.id + 1;
            let back = within(pick(s, 1), 2, 200);
            Some(
                Command::Cancel {
                    instrument: symbol,
                    order_id: OrderId(
                        (if back <= id - 1 {
                            id - back
                        } else {
                            1
                        }) as u64,
                    ),
                    cmd_id: id as u64,
                },
            )
        } else {
            None
        }
    }

    /// Makes the cancel that may follow an order.
    pub fn cancel(&mut self, symbol: InstrumentId) -> (r: Option<Command>)
        requires
            old(self).id < u64::MAX,
        ensures
            r == old(self).next_cancel(symbol),
            final(self).mids == old(self).mids,
            final(self).id == if r is Some {
                old(self).id + 1
            } else {
                old(self).id as int
            },
            final(self).rng.state == state_after(
                old(self).rng.state,
                if r is Some {
                    2
                } else {
                    1
                },
            ),
    {
        proof {
            reveal_with_fuel(state_after, 3);
        }
        if self.rng.draw() % 16 != 0 {
            return None;
        }
        self.id = self.id + 1;
        let back: u64 = self.rng.range(2, 200);
        let order_id: u64 = if back <= self.id - 1 {
            self.id - back
        } else {
            1
        };
        Some(
            Command::Cancel { instrument: symbol, order_id: OrderId(order_id), cmd_id: self.id },
        )
    }
}

/// The prices of the trader's orders stay within a tenth of a thousand.
pub proof fn law_prices_stay_in_band(t: Trader)
    requires
        t.wf(),
    ensures
        900 <= t.next_order().price <= 1100,
{
}

/// The trader's next order rests beside the price, at most five away from it, or crosses it
/// by at most three and does not stay: what is bought rests below the price and crosses above
/// it, what is sold the other way round.
pub proof fn law_orders_keep_to_their_side(t: Trader)
    requires
        t.wf(),
        t.id < u64::MAX,
    ensures
        ({
            let o = t.next_order();
            let mid = t.after_order().mid((o.instrument.0 - 1) as u64);
            &&& 1 <= o.instrument.0 <= 4
            &&& 1 <= o.user <= 50
            &&& 1 <= o.quantity <= 20
            &&& o.remaining == o.quantity
            &&& o.order_type is Limit
            &&& o.id.0 == t.id + 1
            &&& t.after_order().id == o.id.0
            &&& o.tif is Gtc || o.tif is Ioc
            &&& o.tif is Gtc && o.side is Buy ==> mid - 5 <= o.price <= mid - 1
            &&& o.tif is Gtc && o.side is Sell ==> mid + 1 <= o.price <= mid + 5
            &&& o.tif is Ioc && o.side is Buy ==> mid <= o.price <= mid + 3
            &&& o.tif is Ioc && o.side is Sell ==> mid - 3 <= o.price <= mid
        }),
{
}

/// A step of the price goes at most four, and from away from a thousand at most two farther
/// away; it stays between 925 and 1075.
pub proof fn law_prices_walk_in_small_steps(mid: int, draw: u64)
    requires
        925 <= mid <= 1075,
        draw <= 6,
    ensures
        925 <= walked(mid, draw) <= 1075,
        mid - 4 <= walked(mid, draw) <= mid + 4,
        mid > 1000 ==> walked(mid, draw) <= mid + 2,
        mid < 1000 ==> walked(mid, draw) >= mid - 2,
{
}

/// A command of the load is a limit order that may stay, or the cancel of an earlier order.
pub proof fn law_loads_are_orders_and_cancels(state: u64, i: u64)
    ensures
        ({
            let (user, command, _) = loaded(state, i);
            &&& 1 <= user <= 100_000
            &&& match command {
                Command::New(o) => {
                    &&& o.id.0 == i
                    &&& o.user == user
                    &&& o.order_type is Limit && o.tif is Gtc
                    &&& 1 <= o.instrument.0 <= 4
                    &&& 990 <= o.price <= 1010
                    &&& 1 <= o.quantity <= 50
                    &&& o.remaining == o.quantity
                },
                Command::Cancel { instrument, order_id, cmd_id } => {
                    &&& i > 1000
                    &&& 1 <= instrument.0 <= 4
                    &&& 1 <= order_id.0 < i
                    &&& cmd_id == i
                },
                _ => false,
            }
        }),
{
    if i > 1000 {
        let n = pick(state, 3) as int;
        vstd::arithmetic::div_mod::lemma_mod_bound(n, i - 1);
    }
}

} // verus!
