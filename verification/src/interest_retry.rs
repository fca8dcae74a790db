//! Retry policy for outgoing Interests: which failures are tried again, and
//! after what delay.

use vstd::prelude::*;
use vstd::arithmetic::div_mod::{
    lemma_basic_div, lemma_div_denominator, lemma_div_is_ordered, lemma_div_multiples_vanish, lemma_div_pos_is_pos,
    lemma_fundamental_div_mod,
};
use vstd::arithmetic::power::{pow, lemma1_pow, lemma_pow0, lemma_pow1, lemma_pow_positive};
use crate::wide::{wide_from, wide_min, wide_over, wide_times, wide_value};
use crate::error::Error;

verus! {

/// Parameters of retransmission. The backoff factor is the fraction
/// `backoff_num / backoff_den`; a zero denominator stands for a factor
/// without bound.
#[derive(Debug, Clone, Copy, PartialEq, Eq, Structural)]
pub struct RetryPolicy {
    /// Most attempts made for one Interest.
    pub max_attempts: u32,
    /// Delay before the first retry, in milliseconds.
    pub base_delay_ms: u64,
    /// Longest delay, in milliseconds.
    pub max_delay_ms: u64,
    /// Numerator of the backoff factor.
    pub backoff_num: u64,
    /// Denominator of the backoff factor.
    pub backoff_den: u64,
    /// Whether the delay is scaled by a random factor between 0.75 and 1.25.
    pub with_jitter: bool,
}

/// The smaller of two numbers.
pub open spec fn min_int(a: int, b: int) -> int {
    if a <= b {
        a
    } else {
        b
    }
}

/// The base delay times the backoff factor to the power `k`, rounded down to
/// a whole millisecond: one rounding, of the exact product.
pub open spec fn scaled_delay(p: RetryPolicy, k: nat) -> int {
    p.base_delay_ms * pow(p.backoff_num as int, k) / pow(p.backoff_den as int, k)
}

/// The delay before retry `attempt`, without jitter: none for attempt 0;
/// else the base delay times the backoff factor to the power `attempt - 1`,
/// rounded down and clamped at the longest delay. A factor without bound
/// gives the longest delay from the second attempt on.
pub open spec fn backoff_delay(p: RetryPolicy, attempt: nat) -> int {
    if attempt == 0 {
        0
    } else if p.backoff_den == 0 && attempt >= 2 {
        p.max_delay_ms as int
    } else {
        min_int(scaled_delay(p, (attempt - 1) as nat), p.max_delay_ms as int)
    }
}

/// A delay scaled by `permille` thousandths, rounded down and kept within
/// `u64`.
pub open spec fn jittered(delay: int, permille: int) -> int {
    min_int(delay * permille / 1000, u64::MAX as int)
}

/// What to do after a failed attempt.
#[derive(Debug, Clone, Copy, PartialEq, Eq, Structural)]
pub enum RetryDecision {
    /// Try again after this many milliseconds.
    RetryAfter(u64),
    /// Return the error to the caller.
    GiveUp(Error),
}

proof fn lemma_pow_step(b: int, k: nat)
    ensures
        pow(b, k + 1) == pow(b, k) * b,
{
    reveal(pow);
    assert(pow(b, k + 1) == b * pow(b, k));
    assert(b * pow(b, k) == pow(b, k) * b) by (nonlinear_arith);
}

proof fn lemma_pow_nonnegative(b: int, k: nat)
    requires
        b >= 0,
    ensures
        pow(b, k) >= 0,
    decreases k,
{
    reveal(pow);
    if k > 0 {
        lemma_pow_nonnegative(b, (k - 1) as nat);
        assert(b * pow(b, (k - 1) as nat) >= 0) by (nonlinear_arith)
            requires
                b >= 0,
                pow(b, (k - 1) as nat) >= 0,
        ;
    }
}

proof fn lemma_scaled_step(p: RetryPolicy, k: nat)
    requires
        p.backoff_den > 0,
    ensures
        pow(p.backoff_den as int, k) > 0,
        p.base_delay_ms * pow(p.backoff_num as int, k) >= 0,
        scaled_delay(p, k) >= 0,
        scaled_delay(p, k + 1) == (p.base_delay_ms * pow(p.backoff_num as int, k) * p.backoff_num) / (pow(
            p.backoff_den as int,
            k,
        ) * p.backoff_den),
{
    let n = p.backoff_num as int;
    let d = p.backoff_den as int;
    let b = p.base_delay_ms as int;
    lemma_pow_step(n, k);
    lemma_pow_step(d, k);
    lemma_pow_positive(d, k);
    lemma_pow_nonnegative(n, k);
    assert(b * pow(n, k) >= 0 && b * (pow(n, k) * n) == b * pow(n, k) * n) by (nonlinear_arith)
        requires
            b >= 0,
            pow(n, k) >= 0,
    ;
    lemma_div_pos_is_pos(b * pow(n, k), pow(d, k));
}

proof fn lemma_ratio_grows(x: int, q: int, n: int, d: int)
    requires
        x >= 0,
        q > 0,
        n >= d > 0,
    ensures
        q * d > 0,
        (x * n) / (q * d) >= x / q,
{
    let a = x / q;
    lemma_fundamental_div_mod(x, q);
    lemma_div_pos_is_pos(x, q);
    assert(x % q >= 0) by (nonlinear_arith)
        requires
            x >= 0,
            q > 0,
    ;
    assert(q * d > 0 && (q * d) * a <= x * n) by (nonlinear_arith)
        requires
            q * a <= x,
            a >= 0,
            x >= 0,
            q > 0,
            n >= d > 0,
    ;
    lemma_div_is_ordered((q * d) * a, x * n, q * d);
    lemma_div_multiples_vanish(a, q * d);
}

proof fn lemma_ratio_stays_zero(x: int, q: int, n: int, d: int)
    requires
        x >= 0,
        q > 0,
        0 <= n < d,
        x / q == 0,
    ensures
        (x * n) / (q * d) == 0,
{
    lemma_fundamental_div_mod(x, q);
    assert(x % q < q) by (nonlinear_arith)
        requires
            q > 0,
    ;
    assert(x == x % q) by (nonlinear_arith)
        requires
            x == q * (x / q) + x % q,
            x / q == 0,
    ;
    assert(0 <= x * n < q * d) by (nonlinear_arith)
        requires
            0 <= x < q,
            0 <= n < d,
    ;
    lemma_basic_div(x * n, q * d);
}

/// With a backoff factor of at least one the delays do not shrink from one
/// attempt to the next.
pub proof fn lemma_backoff_non_decreasing(p: RetryPolicy, n: nat)
    requires
        n >= 1,
        p.backoff_num >= p.backoff_den > 0,
    ensures
        backoff_delay(p, n) <= backoff_delay(p, n + 1),
{
    let k = (n - 1) as nat;
    lemma_scaled_step(p, k);
    lemma_ratio_grows(
        p.base_delay_ms * pow(p.backoff_num as int, k),
        pow(p.backoff_den as int, k),
        p.backoff_num as int,
        p.backoff_den as int,
    );
}

proof fn lemma_settled_at_longest(p: RetryPolicy, j: nat, k: nat)
    requires
        j <= k,
        p.backoff_num >= p.backoff_den > 0,
        scaled_delay(p, j) >= p.max_delay_ms,
    ensures
        scaled_delay(p, k) >= p.max_delay_ms,
    decreases k - j,
{
    if j < k {
        lemma_settled_at_longest(p, j, (k - 1) as nat);
        let i = (k - 1) as nat;
        lemma_scaled_step(p, i);
        lemma_ratio_grows(
            p.base_delay_ms * pow(p.backoff_num as int, i),
            pow(p.backoff_den as int, i),
            p.backoff_num as int,
            p.backoff_den as int,
        );
    }
}

proof fn lemma_settled_at_zero(p: RetryPolicy, j: nat, k: nat)
    requires
        j <= k,
        p.backoff_num < p.backoff_den,
        scaled_delay(p, j) == 0,
    ensures
        scaled_delay(p, k) == 0,
    decreases k - j,
{
    if j < k {
        lemma_settled_at_zero(p, j, (k - 1) as nat);
        let i = (k - 1) as nat;
        lemma_scaled_step(p, i);
        lemma_ratio_stays_zero(
            p.base_delay_ms * pow(p.backoff_num as int, i),
            pow(p.backoff_den as int, i),
            p.backoff_num as int,
            p.backoff_den as int,
        );
    }
}

proof fn lemma_factor_one(p: RetryPolicy, k: nat)
    requires
        p.backoff_num == p.backoff_den,
        p.backoff_den > 0,
    ensures
        scaled_delay(p, k) == p.base_delay_ms,
{
    lemma_pow_positive(p.backoff_den as int, k);
    lemma_div_multiples_vanish(p.base_delay_ms as int, pow(p.backoff_den as int, k));
    assert(p.base_delay_ms * pow(p.backoff_num as int, k) == pow(p.backoff_den as int, k) * p.base_delay_ms)
        by (nonlinear_arith)
        requires
            p.backoff_num == p.backoff_den,
    ;
}

/// Retry backoff for whole-number factors: with jitter off, the delay before
/// retry `n` is the base delay times the factor to the power `n - 1`,
/// clamped at the longest delay.
pub proof fn lemma_backoff_closed_form(p: RetryPolicy, n: nat)
    requires
        n >= 1,
        p.backoff_den == 1,
    ensures
        backoff_delay(p, n) == min_int(p.base_delay_ms * pow(p.backoff_num as int, (n - 1) as nat), p.max_delay_ms as int),
{
    lemma1_pow((n - 1) as nat);
}

/// Without jitter the delays never exceed the longest delay.
pub proof fn lemma_backoff_bounded(p: RetryPolicy, n: nat)
    ensures
        0 <= backoff_delay(p, n) <= p.max_delay_ms,
{
    if n >= 1 {
        let k = (n - 1) as nat;
        if p.backoff_den > 0 {
            lemma_scaled_step(p, k);
        } else if n == 1 {
            lemma_pow0(p.backoff_num as int);
            lemma_pow0(p.backoff_den as int);
        }
    }
}

/// Draws the jitter in thousandths with `gen_range` of `rand`'s thread-local
/// generator, which gives a value of the half-open range it is handed.
#[verifier::external_body]
fn jitter_permille() -> (r: u64)
    ensures
        750 <= r < 1250,
{
    rand::Rng::gen_range(&mut rand::thread_rng(), 750u64..1250u64)
}

/// Scales `delay` by `permille` thousandths.
pub fn apply_jitter(delay: u64, permille: u64) -> (r: u64)
    ensures
        r == jittered(delay as int, permille as int),
{
    proof {
        lemma_product_fits(delay, permille);
    }
    let scaled: u128 = (delay as u128) * (permille as u128) / 1000;
    if scaled > u64::MAX as u128 {
        u64::MAX
    } else {
        scaled as u64
    }
}

impl Default for RetryPolicy {
    /// Three attempts, 100 ms base delay, 5 s at most, factor 2, jitter.
    fn default() -> (r: Self)
        ensures
            r == (RetryPolicy {
                max_attempts: 3,
                base_delay_ms: 100,
                max_delay_ms: 5000,
                backoff_num: 2,
                backoff_den: 1,
                with_jitter: true,
            }),
    {
        RetryPolicy::standard()
    }
}

impl RetryPolicy {
    /// Three attempts, 100 ms base delay, 5 s at most, factor 2, jitter.
    pub fn standard() -> (r: Self)
        ensures
            r == (RetryPolicy {
                max_attempts: 3,
                base_delay_ms: 100,
                max_delay_ms: 5000,
                backoff_num: 2,
                backoff_den: 1,
                with_jitter: true,
            }),
    {
        RetryPolicy {
            max_attempts: 3,
            base_delay_ms: 100,
            max_delay_ms: 5000,
            backoff_num: 2,
            backoff_den: 1,
            with_jitter: true,
        }
    }

    /// Quick retries at short intervals: five attempts, 50 ms base delay, 1 s
    /// at most, factor 1.5, jitter.
    pub fn quick_retries() -> (r: Self)
        ensures
            r == (RetryPolicy {
                max_attempts: 5,
                base_delay_ms: 50,
                max_delay_ms: 1000,
                backoff_num: 3,
                backoff_den: 2,
                with_jitter: true,
            }),
    {
        RetryPolicy {
            max_attempts: 5,
            base_delay_ms: 50,
            max_delay_ms: 1000,
            backoff_num: 3,
            backoff_den: 2,
            with_jitter: true,
        }
    }

    /// Slow, persistent retries: ten attempts, 500 ms base delay, 30 s at
    /// most, factor 2, jitter.
    pub fn persistent_retries() -> (r: Self)
        ensures
            r == (RetryPolicy {
                max_attempts: 10,
                base_delay_ms: 500,
                max_delay_ms: 30000,
                backoff_num: 2,
                backoff_den: 1,
                with_jitter: true,
            }),
    {
        RetryPolicy {
            max_attempts: 10,
            base_delay_ms: 500,
            max_delay_ms: 30000,
            backoff_num: 2,
            backoff_den: 1,
            with_jitter: true,
        }
    }

    /// The delay before retry `attempt` without jitter, in milliseconds. The
    /// product is computed exactly, in as many limbs as it takes, and rounded
    /// once; the work stops as soon as the delay has settled at the longest
    /// delay or at zero.
    pub fn base_delay_for_attempt(&self, attempt: u32) -> (r: u64)
        ensures
            r == backoff_delay(*self, attempt as nat),
    {
        if attempt == 0 {
            return 0;
        }
        let first: u64 = if self.base_delay_ms <= self.max_delay_ms {
            self.base_delay_ms
        } else {
            self.max_delay_ms
        };
        proof {
            lemma_pow0(self.backoff_num as int);
            lemma_pow0(self.backoff_den as int);
        }
        if attempt == 1 {
            return first;
        }
        if self.backoff_den == 0 {
            return self.max_delay_ms;
        }
        let k: u32 = attempt - 1;
        if self.backoff_num == self.backoff_den {
            proof {
                lemma_factor_one(*self, k as nat);
            }
            return first;
        }
        let mut product: Vec<u64> = wide_from(self.base_delay_ms);
        let mut delay: u64 = first;
        let mut j: u32 = 0;
        assert(self.base_delay_ms * 1 == self.base_delay_ms);
        while j < k
            invariant
                0 <= j <= k,
                attempt >= 2,
                k == attempt - 1,
                self.backoff_den > 0,
                self.backoff_num != self.backoff_den,
                wide_value(product@) == self.base_delay_ms * pow(self.backoff_num as int, j as nat),
                delay == min_int(scaled_delay(*self, j as nat), self.max_delay_ms as int),
            decreases k - j,
        {
            proof {
                lemma_scaled_step(*self, j as nat);
                lemma_pow_step(self.backoff_num as int, j as nat);
                lemma_pow0(self.backoff_den as int);
                assert(self.base_delay_ms * (pow(self.backoff_num as int, j as nat) * self.backoff_num)
                    == self.base_delay_ms * pow(self.backoff_num as int, j as nat) * self.backoff_num)
                    by (nonlinear_arith);
            }
            product = wide_times(&product, self.backoff_num);
            j = j + 1;
            let ghost whole = wide_value(product@) as int;
            let mut quotient: Vec<u64> = wide_over(&product, self.backoff_den);
            let mut t: u32 = 1;
            proof {
                lemma_pow1(self.backoff_den as int);
            }
            while t < j
                invariant
                    1 <= t <= j,
                    self.backoff_den > 0,
                    whole >= 0,
                    wide_value(quotient@) == whole / pow(self.backoff_den as int, t as nat),
                decreases j - t,
            {
                proof {
                    lemma_pow_positive(self.backoff_den as int, t as nat);
                    lemma_pow_step(self.backoff_den as int, t as nat);
                    lemma_div_denominator(whole, pow(self.backoff_den as int, t as nat), self.backoff_den as int);
                }
                quotient = wide_over(&quotient, self.backoff_den);
                t = t + 1;
            }
            delay = wide_min(&quotient, self.max_delay_ms);
            assert(delay == min_int(scaled_delay(*self, j as nat), self.max_delay_ms as int));
            if self.backoff_num > self.backoff_den && delay == self.max_delay_ms {
                proof {
                    lemma_settled_at_longest(*self, j as nat, k as nat);
                }
                return delay;
            }
            if self.backoff_num < self.backoff_den && delay == 0 {
                proof {
                    if self.max_delay_ms > 0 {
                        lemma_settled_at_zero(*self, j as nat, k as nat);
                    } else {
                        lemma_scaled_step(*self, k as nat);
                    }
                }
                return delay;
            }
        }
        delay
    }

    /// The delay before retry `attempt` in milliseconds: the backoff delay,
    /// scaled by a random factor between 0.75 and 1.25 where the policy asks
    /// for jitter.
    pub fn delay_for_attempt(&self, attempt: u32) -> (r: u64)
        ensures
            !self.with_jitter ==> r == backoff_delay(*self, attempt as nat),
            self.with_jitter ==> exists|permille: int|
                750 <= permille < 1250 && r == #[trigger] jittered(backoff_delay(*self, attempt as nat), permille),
    {
        let delay = self.base_delay_for_attempt(attempt);
        if self.with_jitter {
            let permille = jitter_permille();
            let r = apply_jitter(delay, permille);
            assert(r == jittered(backoff_delay(*self, attempt as nat), permille as int));
            r
        } else {
            delay
        }
    }

    /// Whether a failed attempt is followed by another: the attempts made
    /// are fewer than the policy allows and the error is a transient one.
    pub fn should_retry(&self, error: &Error, attempt: u32) -> (r: bool)
        ensures
            r == (attempt < self.max_attempts && error.retryable()),
    {
        attempt < self.max_attempts && error.is_retryable()
    }

    /// Decides what follows the failure of attempt number `attempt`: another
    /// attempt after the policy's delay, or the error for the caller.
    pub fn on_failure(&self, error: Error, attempt: u32) -> (r: RetryDecision)
        ensures
            !(attempt < self.max_attempts && error.retryable()) ==> r == RetryDecision::GiveUp(error),
            attempt < self.max_attempts && error.retryable() && !self.with_jitter ==> r
                == RetryDecision::RetryAfter(backoff_delay(*self, attempt as nat) as u64),
            attempt < self.max_attempts && error.retryable() && self.with_jitter ==> exists|permille: int|
                750 <= permille < 1250 && r == RetryDecision::RetryAfter(
                    #[trigger] jittered(backoff_delay(*self, attempt as nat), permille) as u64,
                ),
    {
        if self.should_retry(&error, attempt) {
            RetryDecision::RetryAfter(self.delay_for_attempt(attempt))
        } else {
            RetryDecision::GiveUp(error)
        }
    }
}

proof fn lemma_product_fits(a: u64, b: u64)
    ensures
        0 <= (a as int) * (b as int) <= u128::MAX,
{
    assert(0 <= (a as int) * (b as int) <= 18446744073709551615 * 18446744073709551615) by (nonlinear_arith)
        requires
            0 <= a <= 18446744073709551615,
            0 <= b <= 18446744073709551615,
    ;
}

} // verus!
