//! A two-level bitmap over a fixed window of positions.
//!
//! The lower level holds one bit per position, the upper level one bit per
//! non-zero word of the lower one, so the nearest occupied position in either
//! direction is found with at most two bit scans.

use vstd::prelude::*;
use vstd::std_specs::bits::{axiom_u64_leading_zeros, axiom_u64_trailing_zeros};

verus! {

/// Positions covered by an [`Occupancy`].
pub const WINDOW: usize = 1024;

/// Words in the lower level.
pub const WORDS: usize = 16;

/// Bit `k` of `x`.
pub open spec fn bit(x: u64, k: u64) -> bool {
    (x >> k) & 1 == 1
}

proof fn lemma_bit_zero(k: u64)
    ensures
        !bit(0, k),
{
    assert((0u64 >> k) & 1 == 0) by (bit_vector);
}

proof fn lemma_bit_or(x: u64, k: u64, j: u64)
    requires
        k < 64,
        j < 64,
    ensures
        bit(x | (1u64 << k), j) == (j == k || bit(x, j)),
{
    assert(k < 64 && j < 64 ==> (((x | (1u64 << k)) >> j) & 1 == 1) == (j == k || ((x >> j) & 1
        == 1))) by (bit_vector);
}

proof fn lemma_bit_and_not(x: u64, k: u64, j: u64)
    requires
        k < 64,
        j < 64,
    ensures
        bit(x & !(1u64 << k), j) == (j != k && bit(x, j)),
{
    assert(k < 64 && j < 64 ==> (((x & !(1u64 << k)) >> j) & 1 == 1) == (j != k && ((x >> j) & 1
        == 1))) by (bit_vector);
}

proof fn lemma_bit_shr(x: u64, s: u64, j: u64)
    requires
        s < 64,
        j < 64,
    ensures
        bit(x >> s, j) == (s + j < 64 && bit(x, (s + j) as u64)),
{
    if s + j < 64 {
        let t: u64 = (s + j) as u64;
        assert(s < 64 && j <= t && t < 64 && s == t - j ==> (((x >> s) >> j) & 1) == ((x >> t)
            & 1)) by (bit_vector);
    } else {
        assert(s < 64 && j < 64 && s + j >= 64 ==> (((x >> s) >> j) & 1) == 0) by (bit_vector);
    }
}

proof fn lemma_bit_shl(x: u64, s: u64, j: u64)
    requires
        s < 64,
        j < 64,
    ensures
        bit(x << s, j) == (j >= s && bit(x, (j - s) as u64)),
{
    if j >= s {
        let t: u64 = (j - s) as u64;
        assert(s < 64 && j < 64 && t < 64 && t == j - s ==> (((x << s) >> j) & 1) == ((x >> t)
            & 1)) by (bit_vector);
    } else {
        assert(s < 64 && j < s ==> (((x << s) >> j) & 1) == 0) by (bit_vector);
    }
}

/// The lowest set bit of a non-zero word, as [`u64::trailing_zeros`] finds it.
fn lowest(x: u64) -> (r: u64)
    requires
        x != 0,
    ensures
        r < 64,
        bit(x, r),
        forall|j: u64| j < r ==> !bit(x, j),
{
    proof {
        axiom_u64_trailing_zeros(x);
    }
    x.trailing_zeros() as u64
}

/// The highest set bit of a non-zero word, as [`u64::leading_zeros`] finds it.
fn highest(x: u64) -> (r: u64)
    requires
        x != 0,
    ensures
        r < 64,
        bit(x, r),
        forall|j: u64| r < j < 64 ==> !bit(x, j),
{
    proof {
        axiom_u64_leading_zeros(x);
    }
    let lead: u64 = x.leading_zeros() as u64;
    proof {
        let top: u64 = (63 - lead) as u64;
        assert((x >> top) & 1 != 0 ==> (x >> top) & 1 == 1) by (bit_vector);
    }
    63 - lead
}

/// Which positions of the window are occupied.
pub struct Occupancy {
    low: Vec<u64>,
    high: u64,
}

impl Occupancy {
    /// Both levels are present and agree.
    pub closed spec fn wf(self) -> bool {
        &&& self.low@.len() == WORDS
        &&& forall|w: u64| #![trigger bit(self.high, w)]
            w < 64 ==> (bit(self.high, w) <==> (w < WORDS && self.low@[w as int] != 0))
    }

    /// Whether position `i` is occupied.
    pub closed spec fn has(self, i: int) -> bool {
        0 <= i < WINDOW && bit(self.low@[i / 64], (i % 64) as u64)
    }

    /// An empty window.
    pub fn new() -> (r: Occupancy)
        ensures
            r.wf(),
            forall|i: int| !#[trigger] r.has(i),
    {
        let mut low: Vec<u64> = Vec::new();
        let mut i: usize = 0;
        while i < WORDS
            invariant
                i <= WORDS,
                low@.len() == i,
                forall|k: int| 0 <= k < i ==> low@[k] == 0,
            decreases WORDS - i,
        {
            low.push(0);
            i += 1;
        }
        let r = Occupancy { low, high: 0 };
        proof {
            assert forall|w: u64| w < 64 implies !#[trigger] bit(r.high, w) by {
                lemma_bit_zero(w);
            }
            assert forall|i: int| !#[trigger] r.has(i) by {
                if 0 <= i < WINDOW {
                    lemma_bit_zero((i % 64) as u64);
                }
            }
        }
        r
    }

    /// Marks position `i` occupied.
    pub fn set(&mut self, i: usize)
        requires
            old(self).wf(),
            i < WINDOW,
        ensures
            final(self).wf(),
            forall|j: int| #[trigger] final(self).has(j) == (j == i || old(self).has(j)),
    {
        let w: usize = i / 64;
        let k: u64 = (i % 64) as u64;
        let word: u64 = self.low[w] | (1u64 << k);
        let high: u64 = self.high | (1u64 << (w as u64));
        proof {
            lemma_bit_or(self.low@[w as int], k, k);
            if word == 0 {
                lemma_bit_zero(k);
            }
            assert forall|v: u64| v < 64 implies #[trigger] bit(high, v) == (v == w || bit(
                self.high,
                v,
            )) by {
                lemma_bit_or(self.high, w as u64, v);
            }
            assert forall|j: u64| j < 64 implies #[trigger] bit(word, j) == (j == k || bit(
                self.low@[w as int],
                j,
            )) by {
                lemma_bit_or(self.low@[w as int], k, j);
            }
        }
        self.low.set(w, word);
        self.high = high;
        proof {
            assert forall|j: int| #[trigger] self.has(j) == (j == i || old(self).has(j)) by {
                if 0 <= j < WINDOW {
                    if j / 64 == w as int {
                        assert(j == i <==> j % 64 == k);
                    }
                }
            }
        }
    }

    /// Marks position `i` free.
    pub fn clear(&mut self, i: usize)
        requires
            old(self).wf(),
            i < WINDOW,
        ensures
            final(self).wf(),
            forall|j: int| #[trigger] final(self).has(j) == (j != i && old(self).has(j)),
    {
        let w: usize = i / 64;
        let k: u64 = (i % 64) as u64;
        let word: u64 = self.low[w] & !(1u64 << k);
        let high: u64 = if word == 0 {
            self.high & !(1u64 << (w as u64))
        } else {
            self.high
        };
        proof {
            assert forall|v: u64| v < 64 implies #[trigger] bit(high, v) == (bit(self.high, v) && !(
            word == 0 && v == w)) by {
                lemma_bit_and_not(self.high, w as u64, v);
            }
            assert forall|j: u64| j < 64 implies #[trigger] bit(word, j) == (j != k && bit(
                self.low@[w as int],
                j,
            )) by {
                lemma_bit_and_not(self.low@[w as int], k, j);
            }
            if self.low@[w as int] == 0 {
                assert(0u64 & !(1u64 << k) == 0) by (bit_vector);
            }
        }
        self.low.set(w, word);
        self.high = high;
        proof {
            assert forall|j: int| #[trigger] self.has(j) == (j != i && old(self).has(j)) by {
                if 0 <= j < WINDOW {
                    if j / 64 == w as int {
                        assert(j == i <==> j % 64 == k);
                    }
                }
            }
        }
    }

    /// A non-zero word has an occupied position, and a zero word none.
    proof fn lemma_words(&self)
        requires
            self.wf(),
        ensures
            forall|w: int, k: int| #![trigger self.has(w * 64 + k)]
                0 <= w < WORDS && 0 <= k < 64 ==> self.has(w * 64 + k) == bit(
                    self.low@[w],
                    k as u64,
                ),
            forall|i: int| #![trigger self.has(i)]
                self.has(i) ==> self.low@[i / 64] != 0 && bit(self.high, (i / 64) as u64),
    {
        assert forall|w: int, k: int| 0 <= w < WORDS && 0 <= k < 64 implies #[trigger] self.has(
            w * 64 + k,
        ) == bit(self.low@[w], k as u64) by {
            assert((w * 64 + k) / 64 == w && (w * 64 + k) % 64 == k);
        }
        assert forall|i: int| #[trigger] self.has(i) implies self.low@[i / 64] != 0 && bit(
            self.high,
            (i / 64) as u64,
        ) by {
            if self.low@[i / 64] == 0 {
                lemma_bit_zero((i % 64) as u64);
            }
        }
    }

    /// The lowest occupied position at or above `from`.
    pub fn scan_up(&self, from: usize) -> (r: Option<usize>)
        requires
            self.wf(),
            from < WINDOW,
        ensures
            match r {
                Some(i) => {
                    &&& from <= i < WINDOW
                    &&& self.has(i as int)
                    &&& forall|j: int| from <= j < i ==> !#[trigger] self.has(j)
                },
                None => forall|j: int| from <= j ==> !#[trigger] self.has(j),
            },
    {
        let w: usize = from / 64;
        let k: u64 = (from % 64) as u64;
        let here: u64 = self.low[w] >> k;
        proof {
            self.lemma_words();
            assert forall|j: u64| j < 64 implies #[trigger] bit(here, j) == (k + j < 64 && bit(
                self.low@[w as int],
                (k + j) as u64,
            )) by {
                lemma_bit_shr(self.low@[w as int], k, j);
            }
        }
        if here != 0 {
            let t: u64 = lowest(here);
            let i: usize = from + t as usize;
            proof {
                assert(i / 64 == w && i % 64 == k + t);
                assert forall|j: int| from <= j < i implies !#[trigger] self.has(j) by {
                    assert(j / 64 == w as int);
                    assert(!bit(here, (j - from) as u64));
                }
            }
            return Some(i);
        }
        proof {
            assert forall|j: int| from <= j < (w + 1) * 64 implies !#[trigger] self.has(j) by {
                assert(j / 64 == w as int);
                lemma_bit_zero((j - from) as u64);
                assert(!bit(here, (j - from) as u64));
            }
        }
        let rest: u64 = if w + 1 < 64 {
            self.high >> ((w + 1) as u64)
        } else {
            0
        };
        let ghost s: u64 = (w + 1) as u64;
        proof {
            assert forall|j: u64| j < 64 implies #[trigger] bit(rest, j) == (s + j < 64 && bit(
                self.high,
                (s + j) as u64,
            )) by {
                lemma_bit_shr(self.high, s, j);
            }
        }
        if rest == 0 {
            proof {
                assert forall|j: int| from <= j implies !#[trigger] self.has(j) by {
                    if self.has(j) && j / 64 > w {
                        assert(bit(rest, (j / 64 - s) as u64));
                        lemma_bit_zero((j / 64 - s) as u64);
                    }
                }
            }
            return None;
        }
        let t: u64 = lowest(rest);
        let v: usize = w + 1 + t as usize;
        proof {
            assert(bit(self.high, v as u64));
        }
        let u: u64 = lowest(self.low[v]);
        let i: usize = v * 64 + u as usize;
        proof {
            assert(self.has(v * 64 + u as int));
            assert forall|j: int| from <= j < i implies !#[trigger] self.has(j) by {
                if self.has(j) {
                    if j / 64 == v as int {
                        assert(!bit(self.low@[v as int], (j % 64) as u64));
                    } else if j / 64 > w {
                        assert(!bit(rest, (j / 64 - s) as u64));
                    }
                }
            }
        }
        Some(i)
    }

    /// The highest occupied position at or below `to`.
    pub fn scan_down(&self, to: usize) -> (r: Option<usize>)
        requires
            self.wf(),
            to < WINDOW,
        ensures
            match r {
                Some(i) => {
                    &&& i <= to
                    &&& self.has(i as int)
                    &&& forall|j: int| i < j <= to ==> !#[trigger] self.has(j)
                },
                None => forall|j: int| j <= to ==> !#[trigger] self.has(j),
            },
    {
        let w: usize = to / 64;
        let k: u64 = (to % 64) as u64;
        let here: u64 = self.low[w] << (63 - k);
        proof {
            self.lemma_words();
            assert forall|j: u64| j < 64 implies #[trigger] bit(here, j) == (j >= 63 - k && bit(
                self.low@[w as int],
                (j - (63 - k)) as u64,
            )) by {
                lemma_bit_shl(self.low@[w as int], (63 - k) as u64, j);
            }
        }
        if here != 0 {
            let t: u64 = highest(here);
            proof {
                assert(bit(here, t));
            }
            let i: usize = to - (63 - t) as usize;
            proof {
                assert(i / 64 == w && i % 64 == t - (63 - k));
                assert forall|j: int| i < j <= to implies !#[trigger] self.has(j) by {
                    assert(j / 64 == w as int);
                    assert(!bit(here, (63 - (to - j)) as u64));
                }
            }
            return Some(i);
        }
        proof {
            assert forall|j: int| w * 64 <= j <= to implies !#[trigger] self.has(j) by {
                assert(j / 64 == w as int);
                lemma_bit_zero((63 - (to - j)) as u64);
                assert(!bit(here, (63 - (to - j)) as u64));
            }
        }
        let rest: u64 = if w == 0 {
            0
        } else {
            self.high << ((64 - w) as u64)
        };
        let ghost s: u64 = (64 - w) as u64;
        proof {
            if w != 0 {
                assert forall|j: u64| j < 64 implies #[trigger] bit(rest, j) == (j >= s && bit(
                    self.high,
                    (j - s) as u64,
                )) by {
                    lemma_bit_shl(self.high, s, j);
                }
            }
        }
        if rest == 0 {
            proof {
                assert forall|j: int| j <= to implies !#[trigger] self.has(j) by {
                    if self.has(j) && j / 64 < w {
                        assert(bit(rest, (j / 64 + s) as u64));
                        lemma_bit_zero((j / 64 + s) as u64);
                    }
                }
            }
            return None;
        }
        let t: u64 = highest(rest);
        proof {
            assert(bit(rest, t));
        }
        let v: usize = t as usize - (64 - w);
        proof {
            assert(bit(self.high, v as u64));
        }
        let u: u64 = highest(self.low[v]);
        let i: usize = v * 64 + u as usize;
        proof {
            assert(self.has(v * 64 + u as int));
            assert forall|j: int| i < j <= to implies !#[trigger] self.has(j) by {
                if self.has(j) {
                    if j / 64 == v as int {
                        assert(!bit(self.low@[v as int], (j % 64) as u64));
                    } else if j / 64 < w {
                        assert(!bit(rest, (j / 64 + s) as u64));
                    }
                }
            }
        }
        Some(i)
    }
}

} // verus!
