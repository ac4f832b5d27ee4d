//! When work that failed is tried again, and when it is given up.

use vstd::prelude::*;

verus! {

/// Two to the power of `n`.
pub open spec fn pow2(n: nat) -> nat
    decreases n,
{
    if n == 0 {
        1
    } else {
        2 * pow2((n - 1) as nat)
    }
}

fn doubled(base: u64, times: u32) -> (r: u128)
    requires
        times <= 9,
    ensures
        r == base * pow2(times as nat),
{
    let mut out: u128 = base as u128;
    let mut i: u32 = 0;
    proof {
        reveal_with_fuel(pow2, 10);
        assert(pow2(0) == 1 && pow2(9) == 512);
        assert(base * pow2(0) == base && pow2(0) * pow2(9) == 512) by (nonlinear_arith)
            requires
                pow2(0) == 1,
                pow2(9) == 512,
        ;
    }
    while i < times
        invariant
            i <= times <= 9,
            out == base * pow2(i as nat),
            out <= base * 512,
            pow2(i as nat) <= 512,
            i <= 9,
            pow2(i as nat) * pow2((9 - i) as nat) == 512,
        decreases times - i,
    {
        proof {
            let p = pow2(i as nat);
            let q = pow2((9 - i - 1) as nat);
            assert(pow2((9 - i) as nat) == 2 * q);
            assert(pow2((i + 1) as nat) == 2 * p);
            assert((2 * p) * q == p * (2 * q)) by (nonlinear_arith);
            lemma_pow2_positive((9 - i - 1) as nat);
            assert(2 * p <= 512) by (nonlinear_arith)
                requires
                    (2 * p) * q == 512,
                    q >= 1,
            ;
            assert(base * (2 * p) == 2 * (base * p)) by (nonlinear_arith);
            assert(base * (2 * p) <= base * 512) by (nonlinear_arith)
                requires
                    2 * p <= 512,
                    base >= 0,
            ;
        }
        out = out * 2;
        i += 1;
    }
    out
}

proof fn lemma_pow2_positive(n: nat)
    ensures
        pow2(n) >= 1,
    decreases n,
{
    if n > 0 {
        lemma_pow2_positive((n - 1) as nat);
    }
}

/// The lesser of two numbers.
pub open spec fn at_most(a: nat, b: nat) -> nat {
    if a <= b {
        a
    } else {
        b
    }
}

/// What follows a failed attempt.
#[derive(Clone, Copy, Debug, PartialEq, Eq, Structural)]
pub enum RetryStep {
    /// Try again after so many milliseconds.
    Again { after_ms: u128 },
    /// Set the message aside.
    DeadLetter,
}

/// The attempts at one message.
#[derive(Clone, Copy, Debug, PartialEq, Eq, Structural)]
pub struct Attempts {
    pub attempt: u32,
    pub max_retries: u32,
    pub base_ms: u64,
}

/// Milliseconds before the attempt that follows number `attempt`: the base, and
/// twice as long each time, up to the tenth.
pub open spec fn backoff(base_ms: u64, attempt: u32) -> nat {
    (base_ms * pow2(at_most((attempt - 1) as nat, 9))) as nat
}

impl Attempts {
    /// The first attempt.
    pub fn first(max_retries: u32, base_ms: u64) -> (r: Attempts)
        ensures
            r == (Attempts { attempt: 1, max_retries, base_ms }),
    {
        Attempts { attempt: 1, max_retries, base_ms }
    }

    /// An attempt failed: is there another one, and when?
    pub fn failed(&mut self) -> (r: RetryStep)
        requires
            old(self).attempt >= 1,
        ensures
            final(self).max_retries == old(self).max_retries,
            final(self).base_ms == old(self).base_ms,
            if old(self).attempt >= old(self).max_retries {
                &&& r == RetryStep::DeadLetter
                &&& final(self).attempt == old(self).attempt
            } else {
                &&& r == (RetryStep::Again {
                    after_ms: backoff(old(self).base_ms, old(self).attempt) as u128,
                })
                &&& backoff(old(self).base_ms, old(self).attempt) <= u128::MAX
                &&& final(self).attempt == old(self).attempt + 1
            },
    {
        if self.attempt >= self.max_retries {
            return RetryStep::DeadLetter;
        }
        let times: u32 = if self.attempt - 1 <= 9 {
            self.attempt - 1
        } else {
            9
        };
        let after_ms: u128 = doubled(self.base_ms, times);
        self.attempt = self.attempt + 1;
        RetryStep::Again { after_ms }
    }
}

/// How many of `n` attempts in a row that all fail are followed by another one.
pub open spec fn retries(a: Attempts, n: nat) -> nat
    decreases n,
{
    if n == 0 || a.attempt >= a.max_retries {
        0
    } else {
        1 + retries(Attempts { attempt: (a.attempt + 1) as u32, ..a }, (n - 1) as nat)
    }
}

/// A message that never succeeds is tried exactly as often as allowed: all
/// attempts but the last one are followed by another.
pub proof fn law_attempts_are_bounded(a: Attempts, n: nat)
    requires
        1 <= a.attempt <= a.max_retries,
        n >= a.max_retries - a.attempt,
    ensures
        retries(a, n) == a.max_retries - a.attempt,
    decreases n,
{
    if a.attempt < a.max_retries {
        law_attempts_are_bounded(Attempts { attempt: (a.attempt + 1) as u32, ..a }, (n - 1) as nat);
    }
}

/// What follows an attempt at a batch.
#[derive(Clone, Copy, Debug, PartialEq, Eq, Structural)]
pub enum BatchStep {
    /// The batch is done.
    Commit,
    /// Try again after so many milliseconds.
    Again { after_ms: u128 },
    /// Give up and read the batch again later.
    Rewind,
}

/// Milliseconds before the attempt that follows number `attempt`, counted from
/// zero: the base, and twice as long each time, up to the seventh.
pub open spec fn batch_backoff(base_ms: u64, attempt: u32) -> nat {
    (base_ms * pow2(at_most(attempt as nat, 6))) as nat
}

/// What follows an attempt at a batch, the attempts being counted from zero.
pub fn batch_step(attempt: u32, max_retries: u32, base_ms: u64, succeeded: bool) -> (r: BatchStep)
    requires
        attempt < max_retries,
    ensures
        batch_backoff(base_ms, attempt) <= u128::MAX,
        r == if succeeded {
            BatchStep::Commit
        } else if attempt + 1 < max_retries {
            BatchStep::Again { after_ms: batch_backoff(base_ms, attempt) as u128 }
        } else {
            BatchStep::Rewind
        },
{
    let times: u32 = if attempt <= 6 {
        attempt
    } else {
        6
    };
    let after_ms: u128 = doubled(base_ms, times);
    if succeeded {
        BatchStep::Commit
    } else if attempt + 1 < max_retries {
        BatchStep::Again { after_ms }
    } else {
        BatchStep::Rewind
    }
}

/// Milliseconds that a stage rests after so many failures in a row: a tenth of a
/// second, twice as long each time, at most five seconds.
pub open spec fn stage_rest(failures: u32) -> nat {
    at_most(
        100 * pow2(
            at_most(
                if failures == 0 {
                    0
                } else {
                    (failures - 1) as nat
                },
                6,
            ),
        ),
        5000,
    )
}

/// The failures in a row of a stage.
#[derive(Clone, Copy, Debug, PartialEq, Eq, Structural)]
pub struct Failures {
    pub in_a_row: u32,
}

impl Failures {
    /// A batch succeeded.
    pub fn succeed(&mut self)
        ensures
            final(self).in_a_row == 0,
    {
        self.in_a_row = 0;
    }

    /// A batch failed: how many milliseconds to rest, and whether to say so,
    /// which is done at the first failure and then every thirty seconds.
    pub fn fail(&mut self, seconds_since_said: u64) -> (r: (u64, bool))
        ensures
            final(self).in_a_row == if old(self).in_a_row < u32::MAX {
                old(self).in_a_row + 1
            } else {
                u32::MAX as int
            },
            r.0 == stage_rest(final(self).in_a_row),
            r.1 == (final(self).in_a_row == 1 || seconds_since_said >= 30),
    {
        if self.in_a_row < u32::MAX {
            self.in_a_row = self.in_a_row + 1;
        }
        let times: u32 = if self.in_a_row - 1 <= 6 {
            self.in_a_row - 1
        } else {
            6
        };
        let rest: u128 = doubled(100, times);
        let rest_ms: u64 = if rest <= 5000 {
            rest as u64
        } else {
            5000
        };
        (rest_ms, self.in_a_row == 1 || seconds_since_said >= 30)
    }
}

/// A stage never rests longer than five seconds, and never not at all.
pub proof fn law_rest_is_bounded(failures: u32)
    ensures
        100 <= stage_rest(failures) <= 5000,
{
    lemma_pow2_positive(
        at_most(
            if failures == 0 {
                0
            } else {
                (failures - 1) as nat
            },
            6,
        ),
    );
}

/// Whether a batch takes more messages: it is not full, and its time is not up.
pub fn takes_more(len: usize, batch_size: usize, now: u64, deadline: u64) -> (r: bool)
    ensures
        r == (len < batch_size && now < deadline),
{
    len < batch_size && now < deadline
}

/// The wait before a further attempt is the base after the first one, twice as long after
/// each of the next nine, and no longer after that.
pub proof fn law_backoff_doubles(base_ms: u64, attempt: u32)
    requires
        1 <= attempt < u32::MAX,
    ensures
        backoff(base_ms, 1) == base_ms,
        attempt < 10 ==> backoff(base_ms, (attempt + 1) as u32) == 2 * backoff(base_ms, attempt),
        attempt >= 10 ==> backoff(base_ms, (attempt + 1) as u32) == backoff(base_ms, attempt),
{
    let p = pow2(at_most((attempt - 1) as nat, 9));
    assert(base_ms * 1 == base_ms);
    assert(base_ms * (2 * p) == 2 * (base_ms * p) && base_ms * p >= 0) by (nonlinear_arith)
        requires
            base_ms >= 0,
            p >= 0,
    ;
}

/// A batch is tried again after the base, after twice as long each of the next six times,
/// and no longer after that.
pub proof fn law_batch_backoff_doubles(base_ms: u64, attempt: u32)
    requires
        attempt < u32::MAX,
    ensures
        batch_backoff(base_ms, 0) == base_ms,
        attempt < 6 ==> batch_backoff(base_ms, (attempt + 1) as u32) == 2 * batch_backoff(
            base_ms,
            attempt,
        ),
        attempt >= 6 ==> batch_backoff(base_ms, (attempt + 1) as u32) == batch_backoff(
            base_ms,
            attempt,
        ),
{
    let p = pow2(at_most(attempt as nat, 6));
    assert(base_ms * 1 == base_ms);
    assert(base_ms * (2 * p) == 2 * (base_ms * p) && base_ms * p >= 0) by (nonlinear_arith)
        requires
            base_ms >= 0,
            p >= 0,
    ;
}

/// A stage rests a tenth of a second after its first failure, twice as long after each
/// further one, until that would be more than five seconds.
pub proof fn law_rest_doubles(failures: u32)
    requires
        1 <= failures < u32::MAX,
    ensures
        stage_rest(1) == 100,
        failures < 7 ==> stage_rest((failures + 1) as u32) == (if 2 * stage_rest(failures) <= 5000 {
            2 * stage_rest(failures)
        } else {
            5000
        }),
        failures >= 7 ==> stage_rest(failures) == 5000,
{
    reveal_with_fuel(pow2, 8);
    assert(pow2(6) == 64);
}

} // verus!
