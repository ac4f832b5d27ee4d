//! Maker and taker fees, computed in the matching path so that every trade
//! report carries them.
//!
//! A fee is the floor of `price * quantity * bps / 10_000` in whole ticks.

use vstd::prelude::*;

use crate::types::{Price, Qty};

verus! {

/// Basis-point fee rates; makers add liquidity, takers remove it.
#[derive(Clone, Copy, Debug, PartialEq, Eq, Structural)]
pub struct FeeSchedule {
    pub maker_bps: u64,
    pub taker_bps: u64,
}

impl Default for FeeSchedule {
    fn default() -> (r: FeeSchedule)
        ensures
            r == (FeeSchedule { maker_bps: 0, taker_bps: 0 }),
    {
        FeeSchedule { maker_bps: 0, taker_bps: 0 }
    }
}

/// The fee in whole ticks, before it is narrowed to 64 bits.
pub open spec fn exact_fee(price: u64, qty: u64, bps: u64) -> int {
    price * qty * bps / 10_000
}

/// The fee, narrowed to 64 bits.
pub open spec fn fee_of(price: u64, qty: u64, bps: u64) -> u64 {
    (exact_fee(price, qty, bps) % 0x1_0000_0000_0000_0000) as u64
}

/// A fee that fits is not narrowed.
pub proof fn law_fee_is_exact(price: u64, qty: u64, bps: u64)
    requires
        exact_fee(price, qty, bps) <= u64::MAX,
    ensures
        fee_of(price, qty, bps) == exact_fee(price, qty, bps),
{
    assert(0 <= price * qty * bps) by (nonlinear_arith)
        requires
            price >= 0,
            qty >= 0,
            bps >= 0,
    ;
    assert(exact_fee(price, qty, bps) >= 0);
}

/// A larger quantity never costs a smaller fee.
pub proof fn law_fee_grows(price: u64, small: u64, large: u64, bps: u64)
    requires
        small <= large,
    ensures
        exact_fee(price, small, bps) <= exact_fee(price, large, bps),
{
    assert(price * small * bps <= price * large * bps) by (nonlinear_arith)
        requires
            small <= large,
            price >= 0,
            bps >= 0,
    ;
}

fn fee(notional: u128, bps: u64, price: Ghost<u64>, qty: Ghost<u64>) -> (r: u64)
    requires
        notional == price@ * qty@,
    ensures
        r == fee_of(price@, qty@, bps),
{
    let whole: u128 = notional / 10_000;
    let rest: u128 = notional % 10_000;
    proof {
        assert(rest * bps <= u128::MAX) by (nonlinear_arith)
            requires
                0 <= rest < 10_000,
                0 <= bps <= u64::MAX,
        ;
    }
    let part: u128 = rest * bps as u128 / 10_000;
    proof {
        assert(part <= u64::MAX) by (nonlinear_arith)
            requires
                0 <= rest < 10_000,
                0 <= bps <= u64::MAX,
                part == rest * bps / 10_000,
        ;
    }
    let low: u64 = (whole % 0x1_0000_0000_0000_0000) as u64;
    let r: u64 = low.wrapping_mul(bps).wrapping_add(part as u64);
    proof {
        let m: int = 0x1_0000_0000_0000_0000;
        let w = whole as int;
        let b = bps as int;
        let p = part as int;
        let n = notional as int;
        // n * b / 10_000 == w * b + p
        assert(n * b == (w * 10_000 + rest) * b);
        assert((w * 10_000 + rest) * b == 10_000 * (w * b) + rest * b) by (nonlinear_arith);
        assert((10_000 * (w * b) + rest * b) / 10_000 == w * b + rest * b / 10_000)
            by (nonlinear_arith);
        assert(exact_fee(price@, qty@, bps) == w * b + p);
        // narrowing commutes with the arithmetic
        assert((low * b) % m == (w * b) % m) by {
            vstd::arithmetic::div_mod::lemma_mul_mod_noop_left(w, b, m);
        }
        vstd::arithmetic::div_mod::lemma_add_mod_noop(w * b, p, m);
        vstd::arithmetic::div_mod::lemma_add_mod_noop((w * b) % m, p, m);
        vstd::arithmetic::div_mod::lemma_mod_twice(w * b, m);
    }
    r
}

impl FeeSchedule {
    /// Fees for one execution: what the maker and what the taker owe, in ticks.
    pub fn fees(&self, price: Price, qty: Qty) -> (r: (u64, u64))
        ensures
            r.0 == fee_of(price, qty, self.maker_bps),
            r.1 == fee_of(price, qty, self.taker_bps),
    {
        proof {
            assert(price * qty <= u128::MAX) by (nonlinear_arith)
                requires
                    0 <= price <= u64::MAX,
                    0 <= qty <= u64::MAX,
            ;
        }
        let notional: u128 = price as u128 * qty as u128;
        (
            fee(notional, self.maker_bps, Ghost(price), Ghost(qty)),
            fee(notional, self.taker_bps, Ghost(price), Ghost(qty)),
        )
    }
}

} // verus!
