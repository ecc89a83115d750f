//! Retries: which failures are tried again, how often, and after how long.
use crate::binary64;
use crate::binary64::Binary64;
use crate::config::{ProxyConfig, RetryConfig};
use crate::precision;
use crate::random;
use crate::text;
use std::sync::Arc;
use vstd::arithmetic::power::pow;
use vstd::prelude::*;

verus! {

pub struct RetryPolicy {
    config: Arc<ProxyConfig>,
}

#[derive(Debug, Clone)]
pub struct RetryableError {
    pub message: String,
    pub retryable: bool,
    pub status_code: Option<u16>,
}

/// Where a run of attempts stands: which attempt comes, counted from one, and how long
/// to wait should it fail.
#[derive(Debug, Clone, Copy, PartialEq, Eq, Structural)]
pub struct Attempt {
    pub number: u32,
    pub backoff_ms: u64,
}

/// What follows an attempt.
pub enum Step<T, E> {
    /// The run is over, with this outcome.
    Done(Result<T, E>),
    /// The next attempt comes after a delay.
    RetryAfter { delay_ms: u64, next: Attempt },
}

/// A condition of the configuration holds of an error, given in lower case.
pub open spec fn condition_holds(condition: Seq<char>, error: Seq<char>) -> bool {
    if condition == "5xx"@ {
        text::occurs(error, "500"@) || text::occurs(error, "502"@) || text::occurs(error, "503"@)
            || text::occurs(error, "504"@)
    } else if condition == "timeout"@ {
        text::occurs(error, "timeout"@) || text::occurs(error, "timed out"@)
    } else if condition == "connection_error"@ {
        text::occurs(error, "connection"@) || text::occurs(error, "network"@)
    } else if condition == "dns_error"@ {
        text::occurs(error, "dns"@) || text::occurs(error, "name resolution"@)
    } else {
        text::occurs(error, condition)
    }
}

/// Some condition of the configuration holds of an error, given in lower case.
pub open spec fn is_retryable(conditions: Seq<String>, error: Seq<char>) -> bool {
    exists|i: int| 0 <= i < conditions.len() && #[trigger] condition_holds(conditions[i]@, error)
}

/// A failed attempt is followed by another.
pub open spec fn retries(c: RetryConfig, a: Attempt, error: Seq<char>) -> bool {
    c.enabled && a.number != c.max_attempts && is_retryable(c.retry_on@, error)
}

/// The first attempt of a run.
pub open spec fn first_attempt(c: RetryConfig) -> Attempt {
    Attempt { number: 1, backoff_ms: c.backoff_ms }
}

/// The attempt after a failed one; the delay grows by the multiplier.
pub open spec fn next_attempt(c: RetryConfig, a: Attempt) -> Attempt {
    Attempt {
        number: (a.number + 1) as u32,
        backoff_ms: Binary64::of_nat(a.backoff_ms as nat).product(
            c.backoff_multiplier,
        ).whole_part(),
    }
}

/// A run can stand here.
pub open spec fn in_run(c: RetryConfig, a: Attempt) -> bool {
    1 <= a.number && (c.enabled ==> a.number <= c.max_attempts)
}

/// How many attempts a run makes, from `a` on, if they fail with these errors, one after
/// the other, and then succeed.
pub open spec fn attempts_made(c: RetryConfig, a: Attempt, errors: Seq<Seq<char>>) -> nat
    decreases errors.len(),
{
    if errors.len() == 0 || !retries(c, a, errors[0]) {
        1
    } else {
        1 + attempts_made(c, next_attempt(c, a), errors.skip(1))
    }
}

impl RetryPolicy {
    pub closed spec fn config(&self) -> RetryConfig {
        self.config.retry
    }

    pub fn new(config: Arc<ProxyConfig>) -> (r: Self)
        ensures
            r.config() == config.retry,
    {
        RetryPolicy { config }
    }

    /// The first attempt of a run. A policy that is on allows at least one.
    pub fn start(&self) -> (a: Attempt)
        requires
            self.config().enabled ==> self.config().max_attempts >= 1,
        ensures
            a == first_attempt(self.config()),
            in_run(self.config(), a),
    {
        Attempt { number: 1, backoff_ms: self.config.retry.backoff_ms }
    }

    /// What follows an attempt with this outcome, where `error_text` describes the error.
    pub fn execute<T, E>(&self, attempt: Attempt, outcome: Result<T, E>, error_text: &str) -> (r:
        Step<T, E>)
        requires
            in_run(self.config(), attempt),
        ensures
            outcome is Err && retries(self.config(), attempt, text::lowered(error_text@)) ==> r == (
            Step::<T, E>::RetryAfter {
                delay_ms: attempt.backoff_ms,
                next: next_attempt(self.config(), attempt),
            }) && in_run(self.config(), next_attempt(self.config(), attempt)),
            outcome is Ok || !retries(self.config(), attempt, text::lowered(error_text@)) ==> r
                == Step::Done(outcome),
    {
        match outcome {
            Ok(result) => Step::Done(Ok(result)),
            Err(error) => {
                let lower: String = text::to_lower(error_text);
                if self.continues(attempt, lower.as_str()) {
                    Step::RetryAfter { delay_ms: attempt.backoff_ms, next: self.following(attempt) }
                } else {
                    Step::Done(Err(error))
                }
            },
        }
    }

    /// The backoff leaves room for jitter.
    pub open spec fn has_room(attempt: Attempt) -> bool {
        2 <= attempt.backoff_ms && attempt.backoff_ms + attempt.backoff_ms / 2 <= u64::MAX
    }

    /// As `execute`, with the delay drawn from a range that starts at the backoff and is
    /// half as wide. Where another attempt is due and there is no such range, nothing
    /// follows.
    pub fn execute_with_jitter<T, E>(
        &self,
        attempt: Attempt,
        outcome: Result<T, E>,
        error_text: &str,
    ) -> (r: Option<Step<T, E>>)
        requires
            in_run(self.config(), attempt),
        ensures
            r is None <==> outcome is Err && retries(self.config(), attempt, text::lowered(error_text@))
                && !Self::has_room(attempt),
            r matches Some(step) ==> self.jittered_step(
                attempt,
                outcome,
                text::lowered(error_text@),
                step,
            ),
    {
        let lower: String = text::to_lower(error_text);
        if outcome.is_err() && self.continues(attempt, lower.as_str()) && (attempt.backoff_ms < 2
            || attempt.backoff_ms / 2 > u64::MAX - attempt.backoff_ms) {
            None
        } else {
            Some(self.execute_lowered_with_jitter(attempt, outcome, lower.as_str()))
        }
    }

    /// What may follow with jitter, where `error` is in lower case.
    pub open spec fn jittered_step<T, E>(
        &self,
        attempt: Attempt,
        outcome: Result<T, E>,
        error: Seq<char>,
        step: Step<T, E>,
    ) -> bool {
        if outcome is Err && retries(self.config(), attempt, error) {
            &&& step matches Step::RetryAfter { delay_ms, next }
            &&& attempt.backoff_ms <= delay_ms < attempt.backoff_ms + attempt.backoff_ms / 2
            &&& next == next_attempt(self.config(), attempt)
            &&& in_run(self.config(), next)
        } else {
            step == Step::Done(outcome)
        }
    }

    /// As `execute_with_jitter`, where `error` describes the error in lower case.
    pub fn execute_lowered_with_jitter<T, E>(
        &self,
        attempt: Attempt,
        outcome: Result<T, E>,
        error: &str,
    ) -> (r: Step<T, E>)
        requires
            in_run(self.config(), attempt),
            outcome is Err && retries(self.config(), attempt, error@) ==> Self::has_room(attempt),
        ensures
            self.jittered_step(attempt, outcome, error@, r),
    {
        match outcome {
            Ok(result) => Step::Done(Ok(result)),
            Err(failure) => {
                if self.continues(attempt, error) {
                    let jitter: u64 = random::draw_u64_below(attempt.backoff_ms / 2);
                    Step::RetryAfter {
                        delay_ms: Self::jittered(attempt.backoff_ms, jitter),
                        next: self.following(attempt),
                    }
                } else {
                    Step::Done(Err(failure))
                }
            },
        }
    }

    /// A delay with this much added.
    pub fn jittered(backoff_ms: u64, jitter: u64) -> (r: u64)
        requires
            backoff_ms + jitter <= u64::MAX,
        ensures
            r == backoff_ms + jitter,
    {
        backoff_ms + jitter
    }

    /// Whether a failed attempt is followed by another, where `error` is in lower case.
    pub fn continues(&self, attempt: Attempt, error: &str) -> (r: bool)
        ensures
            r == retries(self.config(), attempt, error@),
    {
        self.config.retry.enabled && attempt.number != self.config.retry.max_attempts
            && self.should_retry_lowered(error)
    }

    /// The attempt after a failed one.
    pub fn following(&self, attempt: Attempt) -> (r: Attempt)
        requires
            attempt.number < u32::MAX,
        ensures
            r == next_attempt(self.config(), attempt),
    {
        Attempt {
            number: attempt.number + 1,
            backoff_ms: Binary64::from_u64(attempt.backoff_ms).times(
                self.config.retry.backoff_multiplier,
            ).to_u64(),
        }
    }

    /// Whether an error of this description is to be tried again.
    pub fn should_retry(&self, error: &str) -> (r: bool)
        ensures
            r == is_retryable(self.config().retry_on@, text::lowered(error@)),
    {
        let lower: String = text::to_lower(error);
        self.should_retry_lowered(lower.as_str())
    }

    /// Whether an error of this description, in lower case, is to be tried again.
    pub fn should_retry_lowered(&self, error: &str) -> (r: bool)
        ensures
            r == is_retryable(self.config().retry_on@, error@),
    {
        let mut i: usize = 0;
        while i < self.config.retry.retry_on.len()
            invariant
                i <= self.config.retry.retry_on@.len(),
                forall|k: int|
                    0 <= k < i ==> !#[trigger] condition_holds(
                        self.config.retry.retry_on@[k]@,
                        error@,
                    ),
            decreases self.config.retry.retry_on@.len() - i,
        {
            if Self::holds(self.config.retry.retry_on[i].as_str(), error) {
                return true;
            }
            i = i + 1;
        }
        false
    }

    fn holds(condition: &str, error: &str) -> (r: bool)
        ensures
            r == condition_holds(condition@, error@),
    {
        if text::same(condition, "5xx") {
            text::contains(error, "500") || text::contains(error, "502") || text::contains(
                error,
                "503",
            ) || text::contains(error, "504")
        } else if text::same(condition, "timeout") {
            text::contains(error, "timeout") || text::contains(error, "timed out")
        } else if text::same(condition, "connection_error") {
            text::contains(error, "connection") || text::contains(error, "network")
        } else if text::same(condition, "dns_error") {
            text::contains(error, "dns") || text::contains(error, "name resolution")
        } else {
            text::contains(error, condition)
        }
    }

    pub fn create_retryable_error(
        message: String,
        retryable: bool,
        status_code: Option<u16>,
    ) -> (r: RetryableError)
        ensures
            r.message == message,
            r.retryable == retryable,
            r.status_code == status_code,
    {
        RetryableError { message, retryable, status_code }
    }
}

impl RetryableError {
    /// What the error says.
    pub fn text(&self) -> (r: String)
        ensures
            r@ == self.message@,
    {
        self.message.clone()
    }
}

/// Delays that grow with every attempt, in milliseconds.
#[derive(Debug, Clone, Copy, PartialEq, Eq, Structural)]
pub struct ExponentialBackoff {
    pub base_delay_ms: u64,
    pub max_delay_ms: u64,
    pub multiplier: Binary64,
    pub jitter: bool,
}

/// The exponent of the multiplier at an attempt: the attempt as a signed number, less one.
pub open spec fn exponent(attempt: u32) -> int {
    if attempt < 0x8000_0000 {
        attempt - 1
    } else {
        attempt - 0x1_0000_0000 - 1
    }
}

impl ExponentialBackoff {
    pub fn new(base_delay_ms: u64, max_delay_ms: u64, multiplier: Binary64, jitter: bool) -> (r:
        Self)
        ensures
            r == (ExponentialBackoff { base_delay_ms, max_delay_ms, multiplier, jitter }),
    {
        ExponentialBackoff { base_delay_ms, max_delay_ms, multiplier, jitter }
    }

    /// The delay at an attempt before jitter: the base, grown, but no more than the limit.
    pub open spec fn grown(self, attempt: u32) -> Binary64 {
        Binary64::of_nat(self.base_delay_ms as nat).product(
            self.multiplier.whole_power(exponent(attempt)),
        ).lesser(Binary64::of_nat(self.max_delay_ms as nat))
    }

    /// A tenth of the delay, times twice a number that is drawn, less a tenth.
    pub open spec fn shift(grown: Binary64, draw: Binary64) -> Binary64 {
        let range = grown.product(Binary64 { bits: 0x3FB9_9999_9999_999A });
        draw.product(range).product(Binary64 { bits: 0x4000_0000_0000_0000 }).sum(range.opposite())
    }

    /// The delay at an attempt, where `draw` is a number from zero up to one that decides
    /// the jitter.
    pub open spec fn delay_at(self, attempt: u32, draw: Binary64) -> u64 {
        let grown = self.grown(attempt);
        if self.jitter {
            grown.sum(Self::shift(grown, draw)).whole_part()
        } else {
            grown.whole_part()
        }
    }

    /// The delay at an attempt in milliseconds, counted from attempt one. The draw only
    /// matters with jitter.
    pub fn delay(&self, attempt: u32, draw: Binary64) -> (r: u64)
        requires
            attempt != 0x8000_0000,
        ensures
            r == self.delay_at(attempt, draw),
    {
        let n: i64 = if attempt < 0x8000_0000 {
            attempt as i64 - 1
        } else {
            attempt as i64 - 0x1_0000_0000 - 1
        };
        let grown: Binary64 = Binary64::from_u64(self.base_delay_ms).times(
            self.multiplier.powi(n),
        ).min(Binary64::from_u64(self.max_delay_ms));
        if self.jitter {
            let range: Binary64 = grown.times(Binary64 { bits: 0x3FB9_9999_9999_999A });
            let shift: Binary64 = draw.times(range).times(
                Binary64 { bits: 0x4000_0000_0000_0000 },
            ).minus(range);
            grown.plus(shift).to_u64()
        } else {
            grown.to_u64()
        }
    }
}

/// A run makes no more attempts than the configuration allows.
pub proof fn attempts_are_bounded(c: RetryConfig, errors: Seq<Seq<char>>)
    requires
        c.enabled ==> c.max_attempts >= 1,
    ensures
        1 <= attempts_made(c, first_attempt(c), errors),
        c.enabled ==> attempts_made(c, first_attempt(c), errors) <= c.max_attempts,
        !c.enabled ==> attempts_made(c, first_attempt(c), errors) == 1,
{
    lemma_attempts_from(c, first_attempt(c), errors);
}

proof fn lemma_attempts_from(c: RetryConfig, a: Attempt, errors: Seq<Seq<char>>)
    requires
        in_run(c, a),
    ensures
        1 <= attempts_made(c, a, errors),
        c.enabled ==> attempts_made(c, a, errors) <= c.max_attempts - a.number + 1,
        !c.enabled ==> attempts_made(c, a, errors) == 1,
        c.enabled && (forall|i: int|
            0 <= i < errors.len() ==> is_retryable(c.retry_on@, #[trigger] errors[i]))
            ==> attempts_made(c, a, errors) == (if errors.len() < c.max_attempts - a.number {
            errors.len() + 1
        } else {
            (c.max_attempts - a.number + 1) as nat
        }),
    decreases errors.len(),
{
    if errors.len() > 0 && retries(c, a, errors[0]) {
        lemma_attempts_from(c, next_attempt(c, a), errors.skip(1));
        assert(forall|i: int| 0 <= i < errors.skip(1).len() ==> errors.skip(1)[i] == errors[i + 1]);
    }
}

/// Failures that are worth it are tried again until one attempt succeeds or none is left.
pub proof fn retryable_failures_are_tried_again(c: RetryConfig, errors: Seq<Seq<char>>)
    requires
        c.enabled,
        c.max_attempts >= 1,
        forall|i: int| 0 <= i < errors.len() ==> is_retryable(c.retry_on@, #[trigger] errors[i]),
    ensures
        attempts_made(c, first_attempt(c), errors) == (if errors.len() < c.max_attempts {
            errors.len() + 1
        } else {
            c.max_attempts as nat
        }),
{
    lemma_attempts_from(c, first_attempt(c), errors);
}

/// A failure that no condition names ends the run at once.
pub proof fn other_failures_are_final(c: RetryConfig, errors: Seq<Seq<char>>)
    requires
        errors.len() > 0,
        !is_retryable(c.retry_on@, errors[0]),
    ensures
        attempts_made(c, first_attempt(c), errors) == 1,
{
}

/// Without jitter no delay is longer than the limit, which a double holds exactly up to
/// two to the fifty-third.
pub proof fn delays_are_limited(b: ExponentialBackoff, attempt: u32, draw: Binary64)
    requires
        !b.jitter,
        b.max_delay_ms <= 0x20_0000_0000_0000,
    ensures
        b.delay_at(attempt, draw) <= b.max_delay_ms,
{
    let limit = Binary64::of_nat(b.max_delay_ms as nat);
    binary64::whole_numbers_are_exact(b.max_delay_ms as nat);
    binary64::whole_parts_keep_order(b.grown(attempt), limit);
}

/// With a whole multiplier, every delay of a run is the one before, times the multiplier, as
/// long as that stays below two to the fifty-third.
pub proof fn backoffs_grow_by_the_multiplier(c: RetryConfig, a: Attempt, multiplier: nat)
    requires
        c.backoff_multiplier == Binary64::of_nat(multiplier),
        multiplier <= 0x20_0000_0000_0000,
        a.backoff_ms <= 0x20_0000_0000_0000,
        a.backoff_ms * multiplier <= 0x20_0000_0000_0000,
    ensures
        next_attempt(c, a).backoff_ms == a.backoff_ms * multiplier,
{
    binary64::whole_numbers_add_and_multiply(a.backoff_ms as nat, multiplier);
    binary64::whole_numbers_are_exact((a.backoff_ms * multiplier) as nat);
}

/// With a multiplier from one up, no delay of a run is shorter than the one before, up to
/// two to the fifty-third.
pub proof fn backoffs_do_not_fall(c: RetryConfig, a: Attempt)
    requires
        !c.backoff_multiplier.nan(),
        !Binary64::one().above(c.backoff_multiplier),
        a.backoff_ms <= 0x20_0000_0000_0000,
    ensures
        a.backoff_ms <= next_attempt(c, a).backoff_ms,
{
    let delay = Binary64::of_nat(a.backoff_ms as nat);
    binary64::lemma_one();
    precision::multiples_keep_order(
        a.backoff_ms as nat,
        Binary64::one(),
        c.backoff_multiplier,
    );
    binary64::whole_numbers_are_exact(a.backoff_ms as nat);
    if a.backoff_ms > 0 {
        binary64::whole_parts_keep_order(delay, delay.product(c.backoff_multiplier));
    }
}

/// Without jitter and with a multiplier from one up: the first delay is the base or the
/// limit, whichever is less, and no delay is shorter than the one before or longer than the
/// limit.
pub proof fn delays_do_not_fall(
    b: ExponentialBackoff,
    attempt: u32,
    draw: Binary64,
    next_draw: Binary64,
)
    requires
        !b.jitter,
        !b.multiplier.nan(),
        !Binary64::one().above(b.multiplier),
        1 <= attempt < 0x7FFF_FFFF,
        b.base_delay_ms <= 0x20_0000_0000_0000,
        b.max_delay_ms <= 0x20_0000_0000_0000,
    ensures
        b.delay_at(1, draw) == (if b.base_delay_ms < b.max_delay_ms {
            b.base_delay_ms
        } else {
            b.max_delay_ms
        }),
        b.delay_at(attempt, draw) <= b.delay_at((attempt + 1) as u32, next_draw)
            <= b.max_delay_ms,
{
    let base = Binary64::of_nat(b.base_delay_ms as nat);
    let limit = Binary64::of_nat(b.max_delay_ms as nat);
    let n = (attempt - 1) as nat;
    let power = b.multiplier.whole_power(n as int);
    let next = b.multiplier.whole_power(n as int + 1);
    precision::powers_do_not_fall(b.multiplier, n);
    precision::multiples_keep_order(b.base_delay_ms as nat, power, next);
    binary64::whole_numbers_are_exact(b.base_delay_ms as nat);
    binary64::whole_numbers_are_exact(b.max_delay_ms as nat);
    if b.base_delay_ms < b.max_delay_ms {
        binary64::whole_numbers_keep_order(b.base_delay_ms as nat, b.max_delay_ms as nat);
    } else {
        binary64::whole_numbers_keep_order(b.max_delay_ms as nat, b.base_delay_ms as nat);
    }
    assert(b.grown(1) == base.lesser(limit));
    binary64::whole_parts_keep_order(b.grown(1), limit);
    let now = base.product(power).lesser(limit);
    let later = base.product(next).lesser(limit);
    assert(now == b.grown(attempt));
    assert(later == b.grown((attempt + 1) as u32));
    binary64::whole_parts_keep_order(now, later);
    delays_are_limited(b, (attempt + 1) as u32, next_draw);
}

/// With a whole multiplier and without jitter, the delay at an attempt is the base, times
/// the multiplier for every attempt before, or the limit where that is less; as long as the
/// numbers stay below two to the fifty-third.
pub proof fn delays_grow_by_the_multiplier(
    b: ExponentialBackoff,
    attempt: u32,
    draw: Binary64,
    multiplier: nat,
)
    requires
        !b.jitter,
        b.multiplier == Binary64::of_nat(multiplier),
        multiplier >= 1,
        1 <= attempt < 0x8000_0000,
        b.base_delay_ms <= 0x20_0000_0000_0000,
        b.max_delay_ms <= 0x20_0000_0000_0000,
        pow(multiplier as int, (attempt - 1) as nat) <= 0x20_0000_0000_0000,
        b.base_delay_ms * pow(multiplier as int, (attempt - 1) as nat) <= 0x20_0000_0000_0000,
    ensures
        b.delay_at(attempt, draw) == ({
            let grown = b.base_delay_ms * pow(multiplier as int, (attempt - 1) as nat);
            if grown <= b.max_delay_ms {
                grown
            } else {
                b.max_delay_ms as int
            }
        }),
{
    let power = pow(multiplier as int, (attempt - 1) as nat);
    vstd::arithmetic::power::lemma_pow_positive(multiplier as int, (attempt - 1) as nat);
    binary64::whole_powers_are_exact(multiplier, (attempt - 1) as nat);
    binary64::whole_numbers_add_and_multiply(b.base_delay_ms as nat, power as nat);
    let grown = (b.base_delay_ms * power) as nat;
    assert(grown >= 0) by (nonlinear_arith)
        requires
            grown == b.base_delay_ms * power,
            power > 0,
    ;
    binary64::whole_numbers_are_exact(grown);
    binary64::whole_numbers_are_exact(b.max_delay_ms as nat);
    if grown <= b.max_delay_ms {
        binary64::whole_numbers_keep_order(grown, b.max_delay_ms as nat);
    } else {
        binary64::whole_numbers_keep_order(b.max_delay_ms as nat, grown);
    }
    binary64::whole_parts_keep_order(b.grown(attempt), Binary64::of_nat(grown));
}

/// A condition that is the name of no group.
pub open spec fn is_plain(condition: Seq<char>) -> bool {
    condition != "5xx"@ && condition != "timeout"@ && condition != "connection_error"@ && condition
        != "dns_error"@
}

/// Wherever a listed condition stands in the list, and wherever its text stands in an error,
/// the error is worth another attempt. The name of a group stands for the texts of the group.
pub proof fn listed_errors_are_tried_again(
    conditions: Seq<String>,
    i: int,
    before: Seq<char>,
    after: Seq<char>,
)
    requires
        0 <= i < conditions.len(),
    ensures
        is_plain(conditions[i]@) ==> is_retryable(conditions, before + conditions[i]@ + after),
        conditions[i]@ == "5xx"@ ==> {
            &&& is_retryable(conditions, before + "500"@ + after)
            &&& is_retryable(conditions, before + "502"@ + after)
            &&& is_retryable(conditions, before + "503"@ + after)
            &&& is_retryable(conditions, before + "504"@ + after)
        },
        conditions[i]@ == "timeout"@ ==> {
            &&& is_retryable(conditions, before + "timeout"@ + after)
            &&& is_retryable(conditions, before + "timed out"@ + after)
        },
        conditions[i]@ == "connection_error"@ ==> {
            &&& is_retryable(conditions, before + "connection"@ + after)
            &&& is_retryable(conditions, before + "network"@ + after)
        },
        conditions[i]@ == "dns_error"@ ==> {
            &&& is_retryable(conditions, before + "dns"@ + after)
            &&& is_retryable(conditions, before + "name resolution"@ + after)
        },
{
    let condition = conditions[i]@;
    lemma_groups_differ();
    if is_plain(condition) {
        text::parts_stand_anywhere(before, condition, after);
        assert(condition_holds(conditions[i]@, before + condition + after));
    }
    lemma_listed(conditions, i, before, "500"@, after);
    lemma_listed(conditions, i, before, "502"@, after);
    lemma_listed(conditions, i, before, "503"@, after);
    lemma_listed(conditions, i, before, "504"@, after);
    lemma_listed(conditions, i, before, "timeout"@, after);
    lemma_listed(conditions, i, before, "timed out"@, after);
    lemma_listed(conditions, i, before, "connection"@, after);
    lemma_listed(conditions, i, before, "network"@, after);
    lemma_listed(conditions, i, before, "dns"@, after);
    lemma_listed(conditions, i, before, "name resolution"@, after);
}

proof fn lemma_groups_differ()
    ensures
        "5xx"@ != "timeout"@,
        "5xx"@ != "connection_error"@,
        "5xx"@ != "dns_error"@,
        "timeout"@ != "connection_error"@,
        "timeout"@ != "dns_error"@,
        "connection_error"@ != "dns_error"@,
{
    reveal_strlit("5xx");
    reveal_strlit("timeout");
    reveal_strlit("connection_error");
    reveal_strlit("dns_error");
    assert("5xx"@.len() == 3);
    assert("timeout"@.len() == 7);
    assert("connection_error"@.len() == 16);
    assert("dns_error"@.len() == 9);
}

proof fn lemma_listed(
    conditions: Seq<String>,
    i: int,
    before: Seq<char>,
    part: Seq<char>,
    after: Seq<char>,
)
    requires
        0 <= i < conditions.len(),
    ensures
        condition_holds(conditions[i]@, before + part + after) ==> is_retryable(
            conditions,
            before + part + after,
        ),
        text::occurs(before + part + after, part),
{
    text::parts_stand_anywhere(before, part, after);
}

/// The text stands nowhere in the error, or the condition is another one.
pub open spec fn is_absent(
    condition: Seq<char>,
    name: Seq<char>,
    error: Seq<char>,
    part: Seq<char>,
) -> bool {
    condition == name ==> text::stands_nowhere(error, part)
}

/// An error in which no text of a listed condition stands anywhere is not tried again.
pub proof fn other_errors_are_not_tried_again(conditions: Seq<String>, error: Seq<char>)
    requires
        forall|i: int|
            0 <= i < conditions.len() ==> {
                let condition = (#[trigger] conditions[i])@;
                &&& is_plain(condition) ==> text::stands_nowhere(error, condition)
                &&& is_absent(condition, "5xx"@, error, "500"@)
                &&& is_absent(condition, "5xx"@, error, "502"@)
                &&& is_absent(condition, "5xx"@, error, "503"@)
                &&& is_absent(condition, "5xx"@, error, "504"@)
                &&& is_absent(condition, "timeout"@, error, "timeout"@)
                &&& is_absent(condition, "timeout"@, error, "timed out"@)
                &&& is_absent(condition, "connection_error"@, error, "connection"@)
                &&& is_absent(condition, "connection_error"@, error, "network"@)
                &&& is_absent(condition, "dns_error"@, error, "dns"@)
                &&& is_absent(condition, "dns_error"@, error, "name resolution"@)
            },
    ensures
        !is_retryable(conditions, error),
        forall|c: RetryConfig, a: Attempt|
            c.retry_on@ == conditions ==> !#[trigger] retries(c, a, error),
{
    assert forall|i: int| 0 <= i < conditions.len() implies !#[trigger] condition_holds(
        conditions[i]@,
        error,
    ) by {
        text::what_stands_nowhere_is_no_part(error, conditions[i]@);
        text::what_stands_nowhere_is_no_part(error, "500"@);
        text::what_stands_nowhere_is_no_part(error, "502"@);
        text::what_stands_nowhere_is_no_part(error, "503"@);
        text::what_stands_nowhere_is_no_part(error, "504"@);
        text::what_stands_nowhere_is_no_part(error, "timeout"@);
        text::what_stands_nowhere_is_no_part(error, "timed out"@);
        text::what_stands_nowhere_is_no_part(error, "connection"@);
        text::what_stands_nowhere_is_no_part(error, "network"@);
        text::what_stands_nowhere_is_no_part(error, "dns"@);
        text::what_stands_nowhere_is_no_part(error, "name resolution"@);
    }
}

/// A failed attempt is followed by another exactly while retries are on, attempts are left and
/// the error is worth it. The next attempt has the next number, and with a multiplier of one
/// the same delay; the first one is number one and waits as long as is configured.
pub proof fn runs_count_up(c: RetryConfig, a: Attempt, error: Seq<char>)
    requires
        in_run(c, a),
        a.backoff_ms <= 0x20_0000_0000_0000,
    ensures
        !c.enabled ==> !retries(c, a, error),
        a.number == c.max_attempts ==> !retries(c, a, error),
        c.enabled && a.number < c.max_attempts ==> retries(c, a, error) == is_retryable(
            c.retry_on@,
            error,
        ),
        retries(c, a, error) ==> next_attempt(c, a).number == a.number + 1 && in_run(
            c,
            next_attempt(c, a),
        ),
        c.backoff_multiplier == Binary64::one() ==> next_attempt(c, a).backoff_ms == a.backoff_ms,
        first_attempt(c).number == 1,
        first_attempt(c).backoff_ms == c.backoff_ms,
{
    binary64::one_is_one();
    if c.backoff_multiplier == Binary64::one() {
        backoffs_grow_by_the_multiplier(c, a, 1);
    }
}

/// The delay of an attempt is grown once for every attempt before it. Attempts are signed
/// numbers of 32 bits, so those past the middle of the range count down.
pub proof fn attempts_count_from_one(attempt: u32)
    ensures
        exponent(1) == 0,
        attempt < 0x7FFF_FFFF ==> exponent((attempt + 1) as u32) == exponent(attempt) + 1,
        attempt >= 0x8000_0000 ==> exponent(attempt) == attempt - 0x1_0000_0000 - 1,
        exponent(u32::MAX) == -2,
{
}

/// A jittered delay starts at the backoff and is less than half of it longer; what is not tried
/// again is done, with its outcome.
pub proof fn jittered_delays_are_less_than_half_longer<T, E>(
    p: RetryPolicy,
    attempt: Attempt,
    outcome: Result<T, E>,
    error: Seq<char>,
    step: Step<T, E>,
)
    requires
        p.jittered_step(attempt, outcome, error, step),
    ensures
        outcome is Ok ==> step == Step::<T, E>::Done(outcome),
        outcome is Err && !retries(p.config(), attempt, error) ==> step == Step::<T, E>::Done(
            outcome,
        ),
        outcome is Err && retries(p.config(), attempt, error) ==> step is RetryAfter
            && attempt.backoff_ms <= step->delay_ms && 2 * step->delay_ms < 3 * attempt.backoff_ms
            + 1 && step->next == next_attempt(p.config(), attempt),
{
}

} // verus!
