//! One side of the book: price levels addressed through a dense window with a
//! sorted overflow list for prices outside it.

use std::collections::VecDeque;

use vstd::prelude::*;

use crate::occupancy::{Occupancy, WINDOW};
use crate::types::Price;

verus! {

/// One price level: order slots in time priority plus running aggregates.
pub struct Level {
    /// Pool slots, oldest first; may hold tombstones awaiting reclaim.
    pub orders: VecDeque<usize>,
    /// Total remaining quantity of the live orders.
    pub qty: u128,
    /// Number of live orders.
    pub live: usize,
}

/// What a [`Level`] holds.
pub struct LevelView {
    pub orders: Seq<usize>,
    pub qty: u128,
    pub live: usize,
}

impl View for Level {
    type V = LevelView;

    open spec fn view(&self) -> LevelView {
        LevelView { orders: self.orders@, qty: self.qty, live: self.live }
    }
}

impl Level {
    /// A level without orders.
    pub fn new() -> (r: Level)
        ensures
            r@ == (LevelView { orders: Seq::<usize>::empty(), qty: 0, live: 0 }),
    {
        Level { orders: VecDeque::new(), qty: 0, live: 0 }
    }
}

/// A level whose price lies outside the window.
pub struct OverflowLevel {
    pub price: Price,
    pub level: Level,
}

/// A map from price to non-empty level with constant-time access inside a
/// window of consecutive ticks.
///
/// The first price seen centres the window. Prices outside it are kept in a
/// list sorted by price, so correctness never depends on where the window lies.
pub struct LevelIndex {
    base: Price,
    levels: Vec<Level>,
    occupied: Occupancy,
    overflow: Vec<OverflowLevel>,
}

/// `p` is the lowest key of `m` above `bound`.
pub open spec fn is_next_above<V>(m: Map<u64, V>, bound: int, p: u64) -> bool {
    &&& m.contains_key(p)
    &&& p > bound
    &&& forall|q: u64| #[trigger] m.contains_key(q) && q > bound ==> p <= q
}

/// `p` is the highest key of `m` below `bound`.
pub open spec fn is_next_below<V>(m: Map<u64, V>, bound: int, p: u64) -> bool {
    &&& m.contains_key(p)
    &&& p < bound
    &&& forall|q: u64| #[trigger] m.contains_key(q) && q < bound ==> q <= p
}

impl View for LevelIndex {
    type V = Map<u64, LevelView>;

    closed spec fn view(&self) -> Map<u64, LevelView> {
        Map::new(|p: u64| self.has(p), |p: u64| self.at(p))
    }
}

impl LevelIndex {
    spec fn in_window(self, p: u64) -> bool {
        self.base <= p && p - self.base < WINDOW
    }

    spec fn in_overflow(self, p: u64) -> bool {
        LevelIndex::listed(self.overflow@, p)
    }

    spec fn listed(s: Seq<OverflowLevel>, p: u64) -> bool {
        exists|k: int| 0 <= k < s.len() && #[trigger] s[k].price == p
    }

    spec fn overflow_pos(self, p: u64) -> int {
        LevelIndex::pos_in(self.overflow@, p)
    }

    spec fn pos_in(s: Seq<OverflowLevel>, p: u64) -> int {
        choose|k: int| 0 <= k < s.len() && #[trigger] s[k].price == p
    }

    spec fn has(self, p: u64) -> bool {
        if self.in_window(p) {
            self.levels@.len() == WINDOW && self.levels@[p - self.base].orders@.len() > 0
        } else {
            self.in_overflow(p)
        }
    }

    spec fn at(self, p: u64) -> LevelView {
        if self.in_window(p) {
            self.levels@[p - self.base]@
        } else {
            self.overflow@[self.overflow_pos(p)].level@
        }
    }

    spec fn sorted(s: Seq<OverflowLevel>) -> bool {
        forall|i: int, j: int| 0 <= i < j < s.len() ==> #[trigger] s[i].price < #[trigger] s[j].price
    }

    /// The window, its bitmap and the overflow list agree.
    pub closed spec fn wf(self) -> bool {
        &&& self.occupied.wf()
        &&& self.levels@.len() == 0 || (self.levels@.len() == WINDOW && self.base <= u64::MAX - 512)
        &&& forall|i: int| #[trigger]
            self.occupied.has(i) <==> (0 <= i < self.levels@.len() && self.levels@[i].orders@.len()
                > 0)
        &&& forall|i: int| #[trigger] self.occupied.has(i) ==> self.base + i <= u64::MAX
        &&& self.levels@.len() == 0 ==> self.overflow@.len() == 0
        &&& LevelIndex::sorted(self.overflow@)
        &&& forall|k: int| #![trigger self.overflow@[k]]
            0 <= k < self.overflow@.len() ==> {
                &&& !self.in_window(self.overflow@[k].price)
                &&& self.overflow@[k].level.orders@.len() > 0
            }
    }

    proof fn lemma_overflow_pos(&self, k: int)
        requires
            self.wf(),
            0 <= k < self.overflow@.len(),
        ensures
            self.overflow_pos(self.overflow@[k].price) == k,
            self.has(self.overflow@[k].price),
            self.at(self.overflow@[k].price) == self.overflow@[k].level@,
    {
        let p = self.overflow@[k].price;
        assert(self.in_overflow(p));
        let c = self.overflow_pos(p);
        assert(self.overflow@[c].price == p);
        if c < k {
            assert(self.overflow@[c].price < self.overflow@[k].price);
        }
        if k < c {
            assert(self.overflow@[k].price < self.overflow@[c].price);
        }
    }

    /// An index without levels.
    pub fn new() -> (r: LevelIndex)
        ensures
            r.wf(),
            r@ == Map::<u64, LevelView>::empty(),
    {
        let r = LevelIndex {
            base: u64::MAX,
            levels: Vec::new(),
            occupied: Occupancy::new(),
            overflow: Vec::new(),
        };
        assert(r@ =~= Map::<u64, LevelView>::empty());
        r
    }

    /// Position of `price` in the window.
    fn slot_of(&self, price: Price) -> (r: Option<usize>)
        ensures
            match r {
                Some(i) => self.in_window(price) && i == price - self.base,
                None => !self.in_window(price),
            },
    {
        if price >= self.base {
            let d: u64 = price - self.base;
            if d < WINDOW as u64 {
                return Some(d as usize);
            }
        }
        None
    }

    /// Number of overflow levels priced below `price`.
    fn lower_bound(&self, price: Price) -> (r: usize)
        requires
            LevelIndex::sorted(self.overflow@),
        ensures
            r <= self.overflow@.len(),
            forall|k: int| 0 <= k < r ==> #[trigger] self.overflow@[k].price < price,
            forall|k: int| r <= k < self.overflow@.len() ==> #[trigger] self.overflow@[k].price
                >= price,
    {
        let mut lo: usize = 0;
        let mut hi: usize = self.overflow.len();
        while lo < hi
            invariant
                lo <= hi <= self.overflow@.len(),
                LevelIndex::sorted(self.overflow@),
                forall|k: int| 0 <= k < lo ==> #[trigger] self.overflow@[k].price < price,
                forall|k: int| hi <= k < self.overflow@.len() ==> #[trigger] self.overflow@[k].price
                    >= price,
            decreases hi - lo,
        {
            let mid: usize = lo + (hi - lo) / 2;
            if self.overflow[mid].price < price {
                assert forall|k: int| 0 <= k < mid + 1 implies #[trigger] self.overflow@[k].price
                    < price by {
                    if k < mid {
                        assert(self.overflow@[k].price < self.overflow@[mid as int].price);
                    }
                }
                lo = mid + 1;
            } else {
                assert forall|k: int| mid <= k < self.overflow@.len() implies #[trigger]
                self.overflow@[k].price >= price by {
                    if mid < k {
                        assert(self.overflow@[mid as int].price < self.overflow@[k].price);
                    }
                }
                hi = mid;
            }
        }
        lo
    }

    /// The level at `price`.
    pub fn get(&self, price: Price) -> (r: Option<&Level>)
        requires
            self.wf(),
        ensures
            match r {
                Some(level) => self@.contains_key(price) && level@ == self@[price],
                None => !self@.contains_key(price),
            },
    {
        match self.slot_of(price) {
            Some(i) => {
                if i < self.levels.len() && self.levels[i].orders.len() > 0 {
                    Some(&self.levels[i])
                } else {
                    None
                }
            },
            None => {
                let k: usize = self.lower_bound(price);
                if k < self.overflow.len() && self.overflow[k].price == price {
                    proof {
                        self.lemma_overflow_pos(k as int);
                    }
                    Some(&self.overflow[k].level)
                } else {
                    None
                }
            },
        }
    }

    /// Removes the level at `price` and hands it out.
    pub fn take(&mut self, price: Price) -> (r: Option<Level>)
        requires
            old(self).wf(),
        ensures
            final(self).wf(),
            match r {
                Some(level) => {
                    &&& old(self)@.contains_key(price)
                    &&& level@ == old(self)@[price]
                    &&& final(self)@ == old(self)@.remove(price)
                },
                None => !old(self)@.contains_key(price) && final(self)@ == old(self)@,
            },
    {
        match self.slot_of(price) {
            Some(i) => {
                if i < self.levels.len() && self.levels[i].orders.len() > 0 {
                    let mut out = Level::new();
                    std::mem::swap(&mut self.levels[i], &mut out);
                    self.occupied.clear(i);
                    proof {
                        assert(self.levels@ =~= old(self).levels@.update(
                            i as int,
                            self.levels@[i as int],
                        ));
                        assert forall|j: int| #[trigger] self.occupied.has(j) <==> (0 <= j
                            < self.levels@.len() && self.levels@[j].orders@.len() > 0) by {
                            assert(old(self).occupied.has(j) <==> (0 <= j < old(self).levels@.len()
                                && old(self).levels@[j].orders@.len() > 0));
                        }
                        assert forall|j: int| #[trigger] self.occupied.has(j) implies self.base + j
                            <= u64::MAX by {
                            assert(old(self).occupied.has(j));
                        }
                        assert forall|p: u64| #[trigger] self.has(p) <==> old(self).has(p) && p
                            != price by {
                            assert(self.overflow@ == old(self).overflow@);
                            if self.in_window(p) && p != price {
                                assert(self.levels@[p - self.base] == old(self).levels@[p
                                    - self.base]);
                            }
                        }
                        assert(self@ =~= old(self)@.remove(price));
                    }
                    Some(out)
                } else {
                    None
                }
            },
            None => {
                let k: usize = self.lower_bound(price);
                if k < self.overflow.len() && self.overflow[k].price == price {
                    let out = self.overflow.remove(k);
                    proof {
                        old(self).lemma_overflow_pos(k as int);
                        self.lemma_removed(*old(self), k as int);
                        assert(self@ =~= old(self)@.remove(price));
                    }
                    Some(out.level)
                } else {
                    None
                }
            },
        }
    }

    proof fn lemma_removed(&self, before: LevelIndex, k: int)
        requires
            before.wf(),
            0 <= k < before.overflow@.len(),
            self.overflow@ == before.overflow@.remove(k),
            self.base == before.base,
            self.levels == before.levels,
            self.occupied == before.occupied,
        ensures
            self.wf(),
            forall|p: u64| #[trigger] self.has(p) <==> before.has(p) && p
                != before.overflow@[k].price,
            forall|p: u64| #[trigger] self.has(p) ==> self.at(p) == before.at(p),
    {
        let s = before.overflow@;
        let t = self.overflow@;
        assert forall|i: int, j: int| 0 <= i < j < t.len() implies #[trigger] t[i].price
            < #[trigger] t[j].price by {
            let a = if i < k { i } else { i + 1 };
            let b = if j < k { j } else { j + 1 };
            assert(s[a].price < s[b].price);
        }
        assert forall|i: int| 0 <= i < t.len() implies !self.in_window(#[trigger] t[i].price)
            && t[i].level.orders@.len() > 0 by {
            let a = if i < k { i } else { i + 1 };
            assert(s[a] == t[i]);
        }
        assert(self.wf());
        assert forall|p: u64| #[trigger] self.has(p) <==> before.has(p) && p != s[k].price by {
            if !self.in_window(p) {
                if self.in_overflow(p) {
                    let c = self.overflow_pos(p);
                    let a = if c < k { c } else { c + 1 };
                    assert(s[a] == t[c]);
                    before.lemma_overflow_pos(a);
                    before.lemma_overflow_pos(k);
                }
                if before.in_overflow(p) && p != s[k].price {
                    let c = before.overflow_pos(p);
                    assert(s[c].price == p);
                    let a = if c < k { c } else { c - 1 };
                    assert(t[a] == s[c]);
                }
            } else {
                assert(!before.in_window(s[k].price));
            }
        }
        assert forall|p: u64| #[trigger] self.has(p) implies self.at(p) == before.at(p) by {
            if !self.in_window(p) {
                let c = self.overflow_pos(p);
                assert(t[c].price == p);
                let a = if c < k { c } else { c + 1 };
                assert(s[a] == t[c]);
                before.lemma_overflow_pos(a);
            }
        }
    }

    proof fn lemma_inserted(&self, before: LevelIndex, k: int, price: u64)
        requires
            before.wf(),
            before.levels@.len() == WINDOW,
            0 <= k <= before.overflow@.len(),
            !before.has(price),
            !before.in_window(price),
            forall|j: int| 0 <= j < k ==> #[trigger] before.overflow@[j].price < price,
            forall|j: int| k <= j < before.overflow@.len() ==> #[trigger] before.overflow@[j].price
                > price,
            self.overflow@.len() == before.overflow@.len() + 1,
            self.overflow@ == before.overflow@.insert(k, self.overflow@[k]),
            self.overflow@[k].price == price,
            self.overflow@[k].level.orders@.len() > 0,
            self.base == before.base,
            self.levels == before.levels,
            self.occupied == before.occupied,
        ensures
            self.wf(),
            forall|p: u64| #[trigger] self.has(p) <==> before.has(p) || p == price,
            self.at(price) == self.overflow@[k].level@,
            forall|p: u64| #[trigger] before.has(p) ==> self.at(p) == before.at(p),
    {
        let s = before.overflow@;
        let t = self.overflow@;
        assert forall|i: int, j: int| 0 <= i < j < t.len() implies #[trigger] t[i].price
            < #[trigger] t[j].price by {
            let a = if i < k { i } else { i - 1 };
            let b = if j < k { j } else { j - 1 };
            if i != k && j != k {
                assert(t[i] == s[a] && t[j] == s[b]);
            } else if i == k {
                assert(t[j] == s[b]);
            } else {
                assert(t[i] == s[a]);
            }
        }
        assert forall|i: int| 0 <= i < t.len() implies !self.in_window(#[trigger] t[i].price)
            && t[i].level.orders@.len() > 0 by {
            if i != k {
                let a = if i < k { i } else { i - 1 };
                assert(s[a] == t[i]);
            }
        }
        assert(self.wf());
        self.lemma_overflow_pos(k);
        assert forall|p: u64| #[trigger] self.has(p) <==> before.has(p) || p == price by {
            if !self.in_window(p) {
                if self.in_overflow(p) && p != price {
                    let c = self.overflow_pos(p);
                    assert(t[c].price == p);
                    let a = if c < k { c } else { c - 1 };
                    assert(s[a] == t[c]);
                }
                if before.in_overflow(p) {
                    let c = before.overflow_pos(p);
                    assert(s[c].price == p);
                    let a = if c < k { c } else { c + 1 };
                    assert(t[a] == s[c]);
                }
            }
        }
        assert forall|p: u64| #[trigger] before.has(p) implies self.at(p) == before.at(p) by {
            if !self.in_window(p) {
                let c = before.overflow_pos(p);
                assert(s[c].price == p);
                let a = if c < k { c } else { c + 1 };
                assert(t[a] == s[c]);
                self.lemma_overflow_pos(a);
            }
        }
    }

    /// Stores a non-empty level at a price that has none.
    pub fn put(&mut self, price: Price, level: Level)
        requires
            old(self).wf(),
            level@.orders.len() > 0,
            !old(self)@.contains_key(price),
        ensures
            final(self).wf(),
            final(self)@ == old(self)@.insert(price, level@),
    {
        if self.levels.len() == 0 {
            self.centre(price);
        }
        assert(self@ == old(self)@);
        let ghost before = *self;
        match self.slot_of(price) {
            Some(i) => {
                let ghost stored = level@;
                let mut incoming = level;
                std::mem::swap(&mut self.levels[i], &mut incoming);
                self.occupied.set(i);
                proof {
                    assert(self.levels@ =~= before.levels@.update(i as int, self.levels@[i as int]));
                    assert forall|j: int| #[trigger] self.occupied.has(j) <==> (0 <= j
                        < self.levels@.len() && self.levels@[j].orders@.len() > 0) by {
                        assert(before.occupied.has(j) <==> (0 <= j < before.levels@.len()
                            && before.levels@[j].orders@.len() > 0));
                    }
                    assert forall|j: int| #[trigger] self.occupied.has(j) implies self.base + j
                        <= u64::MAX by {
                        assert(j == i || before.occupied.has(j));
                    }
                    assert forall|p: u64| #[trigger] self.has(p) <==> before.has(p) || p
                        == price by {
                        assert(self.overflow@ == before.overflow@);
                        if self.in_window(p) && p != price {
                            assert(self.levels@[p - self.base] == before.levels@[p - self.base]);
                        }
                    }
                    assert(self@ =~= before@.insert(price, stored));
                }
            },
            None => {
                let k: usize = self.lower_bound(price);
                proof {
                    assert forall|j: int| k <= j < self.overflow@.len() implies #[trigger]
                    self.overflow@[j].price > price by {
                        if self.overflow@[j].price == price {
                            self.lemma_overflow_pos(j);
                        }
                    }
                }
                self.overflow.insert(k, OverflowLevel { price, level });
                proof {
                    self.lemma_inserted(before, k as int, price);
                    assert(self@ =~= before@.insert(price, level@));
                }
            },
        }
    }

    /// Centres the window on `price`.
    fn centre(&mut self, price: Price)
        requires
            old(self).wf(),
            old(self).levels@.len() == 0,
        ensures
            final(self).wf(),
            final(self).levels@.len() == WINDOW,
            final(self)@ == old(self)@,
    {
        let mut levels: Vec<Level> = Vec::new();
        let mut i: usize = 0;
        while i < WINDOW
            invariant
                i <= WINDOW,
                levels@.len() == i,
                forall|k: int| #![trigger levels@[k]] 0 <= k < i ==> levels@[k].orders@.len() == 0,
            decreases WINDOW - i,
        {
            levels.push(Level::new());
            i += 1;
        }
        self.base = price.saturating_sub(512);
        self.levels = levels;
        proof {
            assert forall|j: int| #[trigger] self.occupied.has(j) <==> (0 <= j < self.levels@.len()
                && self.levels@[j].orders@.len() > 0) by {
                assert(!old(self).occupied.has(j));
            }
            assert(self@ =~= old(self)@);
        }
    }

    /// Appends `slot`, a live order of `remaining` lots, to the level at `price`.
    pub fn push(&mut self, price: Price, slot: usize, remaining: u64)
        requires
            old(self).wf(),
            old(self)@.contains_key(price) ==> {
                &&& old(self)@[price].qty <= old(self)@[price].orders.len() * u64::MAX
                &&& old(self)@[price].live <= old(self)@[price].orders.len()
            },
        ensures
            final(self).wf(),
            old(self)@.contains_key(price) ==> old(self)@[price].orders.len() < usize::MAX,
            final(self)@ == old(self)@.insert(
                price,
                if old(self)@.contains_key(price) {
                    let level = old(self)@[price];
                    LevelView {
                        orders: level.orders.push(slot),
                        qty: (level.qty + remaining) as u128,
                        live: (level.live + 1) as usize,
                    }
                } else {
                    LevelView { orders: seq![slot], qty: remaining as u128, live: 1 }
                },
            ),
    {
        let mut level = match self.take(price) {
            Some(level) => level,
            None => Level::new(),
        };
        let ghost had = level@;
        level.orders.push_back(slot);
        let queued: usize = level.orders.len();
        assert(queued == had.orders.len() + 1);
        level.qty = level.qty + remaining as u128;
        level.live = level.live + 1;
        let ghost now = level@;
        let ghost mid = self@;
        self.put(price, level);
        proof {
            assert(now.orders == had.orders.push(slot));
            assert(Seq::<usize>::empty().push(slot) =~= seq![slot]);
            assert(mid.insert(price, now) =~= old(self)@.insert(price, now));
        }
    }

    /// The lowest price with a level.
    pub fn min_price(&self) -> (r: Option<Price>)
        requires
            self.wf(),
        ensures
            match r {
                Some(p) => is_next_above(self@, -1, p),
                None => self@ == Map::<u64, LevelView>::empty(),
            },
    {
        let r = self.first_from(0, 0);
        proof {
            if r is None {
                assert(self@ =~= Map::<u64, LevelView>::empty());
            }
        }
        r
    }

    /// The lowest price with a level among window positions from `from` on and
    /// overflow entries from `k` on.
    fn first_from(&self, from: usize, k: usize) -> (r: Option<Price>)
        requires
            self.wf(),
            k <= self.overflow@.len(),
        ensures
            match r {
                Some(p) => {
                    &&& self.has(p)
                    &&& self.at_or_after(p, from as int, k as int)
                    &&& forall|q: u64| #[trigger]
                        self.has(q) && self.at_or_after(q, from as int, k as int) ==> p <= q
                },
                None => forall|q: u64| #[trigger]
                    self.has(q) ==> !self.at_or_after(q, from as int, k as int),
            },
    {
        let inside: Option<usize> = if from < WINDOW {
            self.occupied.scan_up(from)
        } else {
            None
        };
        let outside: Option<Price> = if k < self.overflow.len() {
            Some(self.overflow[k].price)
        } else {
            None
        };
        proof {
            assert forall|q: u64| #[trigger] self.has(q) && self.in_window(q) implies self.occupied.has(
                q - self.base) by {}
            assert forall|q: u64| #[trigger]
                self.has(q) && !self.in_window(q) && self.at_or_after(
                    q,
                    from as int,
                    k as int,
                ) implies outside is Some && outside->0 <= q by {
                let c = self.overflow_pos(q);
                assert(self.overflow@[c].price == q);
                if k < c {
                    assert(self.overflow@[k as int].price < self.overflow@[c].price);
                }
            }
            if k < self.overflow@.len() {
                self.lemma_overflow_pos(k as int);
            }
        }
        match (inside, outside) {
            (Some(i), Some(b)) => {
                assert(self.occupied.has(i as int));
                let a: u64 = self.base + i as u64;
                proof {
                    assert(self.in_window(a) && self.has(a));
                }
                if a < b {
                    Some(a)
                } else {
                    Some(b)
                }
            },
            (Some(i), None) => {
                assert(self.occupied.has(i as int));
                let a: u64 = self.base + i as u64;
                proof {
                    assert(self.in_window(a) && self.has(a));
                }
                Some(a)
            },
            (None, Some(b)) => Some(b),
            (None, None) => None,
        }
    }

    spec fn at_or_after(self, p: u64, from: int, k: int) -> bool {
        if self.in_window(p) {
            p - self.base >= from
        } else {
            self.overflow_pos(p) >= k
        }
    }

    /// The lowest price with a level strictly above `price`.
    pub fn above(&self, price: Price) -> (r: Option<Price>)
        requires
            self.wf(),
        ensures
            match r {
                Some(p) => is_next_above(self@, price as int, p),
                None => forall|q: u64| #[trigger] self@.contains_key(q) ==> q <= price,
            },
    {
        let from: usize = if price < self.base {
            0
        } else if price - self.base < WINDOW as u64 {
            (price - self.base) as usize + 1
        } else {
            WINDOW
        };
        let mut k: usize = self.lower_bound(price);
        if k < self.overflow.len() && self.overflow[k].price == price {
            k = k + 1;
        }
        proof {
            assert forall|q: u64| #[trigger] self.has(q) implies (self.at_or_after(
                q,
                from as int,
                k as int,
            ) <==> q > price) by {
                if !self.in_window(q) {
                    let c = self.overflow_pos(q);
                    assert(self.overflow@[c].price == q);
                    if k > 0 {
                        let e = k - 1;
                        assert(self.overflow@[e].price <= price);
                        if c < e {
                            assert(self.overflow@[c].price < self.overflow@[e].price);
                        }
                    }
                    if k < self.overflow@.len() && k > 0 {
                        let e = k - 1;
                        assert(self.overflow@[e].price < self.overflow@[k as int].price);
                    }
                    if k <= c {
                        assert(self.overflow@[c].price >= price);
                        if k < c {
                            assert(self.overflow@[k as int].price < self.overflow@[c].price);
                        }
                    }
                }
            }
        }
        self.first_from(from, k)
    }

    /// The highest price with a level.
    pub fn max_price(&self) -> (r: Option<Price>)
        requires
            self.wf(),
        ensures
            match r {
                Some(p) => is_next_below(self@, u64::MAX + 1, p),
                None => self@ == Map::<u64, LevelView>::empty(),
            },
    {
        let r = self.last_before(WINDOW, self.overflow.len());
        proof {
            if r is None {
                assert(self@ =~= Map::<u64, LevelView>::empty());
            }
        }
        r
    }

    /// The highest price with a level among window positions before `to` and
    /// overflow entries before `k`.
    fn last_before(&self, to: usize, k: usize) -> (r: Option<Price>)
        requires
            self.wf(),
            to <= WINDOW,
            k <= self.overflow@.len(),
        ensures
            match r {
                Some(p) => {
                    &&& self.has(p)
                    &&& !self.at_or_after(p, to as int, k as int)
                    &&& forall|q: u64| #[trigger]
                        self.has(q) && !self.at_or_after(q, to as int, k as int) ==> q <= p
                },
                None => forall|q: u64| #[trigger]
                    self.has(q) ==> self.at_or_after(q, to as int, k as int),
            },
    {
        let inside: Option<usize> = if to > 0 {
            self.occupied.scan_down(to - 1)
        } else {
            None
        };
        let outside: Option<Price> = if k > 0 {
            Some(self.overflow[k - 1].price)
        } else {
            None
        };
        proof {
            assert forall|q: u64| #[trigger] self.has(q) && self.in_window(q) implies self.occupied.has(
                q - self.base) by {}
            assert forall|q: u64| #[trigger]
                self.has(q) && !self.in_window(q) && !self.at_or_after(
                    q,
                    to as int,
                    k as int,
                ) implies outside is Some && outside->0 >= q by {
                let c = self.overflow_pos(q);
                assert(self.overflow@[c].price == q);
                if c < k - 1 {
                    assert(self.overflow@[c].price < self.overflow@[k - 1].price);
                }
            }
            if k > 0 {
                self.lemma_overflow_pos(k - 1);
            }
        }
        match (inside, outside) {
            (Some(i), Some(b)) => {
                assert(self.occupied.has(i as int));
                let a: u64 = self.base + i as u64;
                proof {
                    assert(self.in_window(a) && self.has(a));
                }
                if a > b {
                    Some(a)
                } else {
                    Some(b)
                }
            },
            (Some(i), None) => {
                assert(self.occupied.has(i as int));
                let a: u64 = self.base + i as u64;
                proof {
                    assert(self.in_window(a) && self.has(a));
                }
                Some(a)
            },
            (None, Some(b)) => Some(b),
            (None, None) => None,
        }
    }

    /// The highest price with a level strictly below `price`.
    pub fn below(&self, price: Price) -> (r: Option<Price>)
        requires
            self.wf(),
        ensures
            match r {
                Some(p) => is_next_below(self@, price as int, p),
                None => forall|q: u64| #[trigger] self@.contains_key(q) ==> q >= price,
            },
    {
        let to: usize = if price < self.base {
            0
        } else if price - self.base < WINDOW as u64 {
            (price - self.base) as usize
        } else {
            WINDOW
        };
        let k: usize = self.lower_bound(price);
        proof {
            assert forall|q: u64| #[trigger] self.has(q) implies (self.at_or_after(
                q,
                to as int,
                k as int,
            ) <==> q >= price) by {
                if !self.in_window(q) {
                    let c = self.overflow_pos(q);
                    assert(self.overflow@[c].price == q);
                }
            }
        }
        self.last_before(to, k)
    }
}

} // verus!
