//! Token-bucket rate limiting, plain and adaptive.
//!
//! Tokens are counted in billionths, so that the refill over a whole number
//! of nanoseconds is a whole number: in `e` nanoseconds a bucket that refills
//! `r` tokens a second gains `e * r` billionths of a token.

use vstd::prelude::*;

verus! {

/// Nanoseconds in a second, and billionths in a token.
pub const NANOS_PER_SEC: u64 = 1_000_000_000;

/// How long a blocked acquisition sleeps before it tries again.
pub const REFILL_INTERVAL_NANOS: u64 = 100_000_000;

/// One round of a blocking acquisition.
#[derive(Debug, Clone, Copy, PartialEq, Eq, Structural)]
pub enum WaitStep {
    /// The tokens were taken: the wait is over.
    Acquired,
    /// The bucket held too little: sleep this many nanoseconds and try again.
    Sleep(u64),
}

/// One call on a bucket, as the model sees it.
pub enum BucketOp {
    /// An acquisition of `count` tokens at `now`, whatever it returned.
    Acquire { count: nat, now: nat },
    /// A look at the bucket at `now` that takes nothing.
    Observe { now: nat },
}

/// A token bucket as contracts see it.
pub struct BucketView {
    /// What the bucket holds, in billionths of a token.
    pub tokens: nat,
    /// The instant of the last refill.
    pub last_update: nat,
    /// How many tokens the bucket holds at most.
    pub capacity: nat,
    /// How many tokens the bucket gains in a second.
    pub refill_rate: nat,
}

impl BucketView {
    /// The content of a full bucket, in billionths of a token.
    pub open spec fn full(self) -> nat {
        self.capacity * NANOS_PER_SEC as nat
    }

    /// A full bucket whose last refill was at `now`.
    pub open spec fn filled(capacity: nat, refill_rate: nat, now: nat) -> Self {
        BucketView {
            tokens: capacity * NANOS_PER_SEC as nat,
            last_update: now,
            capacity,
            refill_rate,
        }
    }

    /// The invariant of the bucket: it holds no more than its capacity.
    pub open spec fn wf(self) -> bool {
        self.tokens <= self.full()
    }

    /// The price of `count` tokens, in billionths of a token.
    pub open spec fn cost(count: nat) -> nat {
        count * NANOS_PER_SEC as nat
    }

    /// Nanoseconds from the last refill to `now`; none where the clock went
    /// back.
    pub open spec fn elapsed(self, now: nat) -> nat {
        if now >= self.last_update {
            (now - self.last_update) as nat
        } else {
            0
        }
    }

    /// What a refill at `now` adds: what the elapsed time produced, cut to
    /// the room that is left in the bucket.
    pub open spec fn refill_amount(self, now: nat) -> nat {
        let produced = self.elapsed(now) * self.refill_rate;
        let room = (self.full() - self.tokens) as nat;
        if produced <= room {
            produced
        } else {
            room
        }
    }

    /// The bucket after a refill at `now`.
    pub open spec fn refill(self, now: nat) -> Self {
        BucketView { tokens: self.tokens + self.refill_amount(now), last_update: now, ..self }
    }

    /// Whether an acquisition of `count` tokens at `now` succeeds.
    pub open spec fn grants(self, count: nat, now: nat) -> bool {
        self.refill(now).tokens >= Self::cost(count)
    }

    /// The bucket after an acquisition of `count` tokens at `now`: refilled,
    /// and without the tokens where it held that many.
    pub open spec fn acquire(self, count: nat, now: nat) -> Self {
        let refilled = self.refill(now);
        if self.grants(count, now) {
            BucketView { tokens: (refilled.tokens - Self::cost(count)) as nat, ..refilled }
        } else {
            refilled
        }
    }

    /// The first instant from the last refill on at which the bucket is full
    /// if nothing is taken from it; no instant where it never is.
    pub open spec fn full_at(self) -> Option<nat> {
        let room = (self.full() - self.tokens) as nat;
        if room == 0 {
            Some(self.last_update)
        } else if self.refill_rate == 0 {
            None
        } else {
            Some((self.last_update + (room + self.refill_rate - 1) / self.refill_rate as int) as nat)
        }
    }

    /// The bucket after one call.
    pub open spec fn apply(self, op: BucketOp) -> Self {
        match op {
            BucketOp::Acquire { count, now } => self.acquire(count, now),
            BucketOp::Observe { now } => self.refill(now),
        }
    }

    /// The bucket after a run of calls, first to last.
    pub open spec fn apply_all(self, ops: Seq<BucketOp>) -> Self
        decreases ops.len(),
    {
        if ops.len() == 0 {
            self
        } else {
            self.apply_all(ops.drop_last()).apply(ops.last())
        }
    }

    /// A refill keeps the bucket within its capacity and never lowers its
    /// content, whichever way the clock moved.
    pub proof fn lemma_refill(self, now: nat)
        requires
            self.wf(),
        ensures
            self.refill(now).wf(),
            self.tokens <= self.refill(now).tokens,
            self.refill(now).full() == self.full(),
    {
    }

    /// An acquisition keeps the bucket within its capacity.
    pub proof fn lemma_acquire(self, count: nat, now: nat)
        requires
            self.wf(),
        ensures
            self.acquire(count, now).wf(),
            self.acquire(count, now).full() == self.full(),
    {
    }

    /// The content stays between nothing and the capacity through every run
    /// of acquisitions and looks, whatever their amounts and instants.
    pub proof fn lemma_within_capacity(self, ops: Seq<BucketOp>)
        requires
            self.wf(),
        ensures
            self.apply_all(ops).wf(),
            self.apply_all(ops).full() == self.full(),
            0 <= self.apply_all(ops).tokens <= self.full(),
        decreases ops.len(),
    {
        if ops.len() > 0 {
            self.lemma_within_capacity(ops.drop_last());
            let before = self.apply_all(ops.drop_last());
            match ops.last() {
                BucketOp::Acquire { count, now } => before.lemma_acquire(count, now),
                BucketOp::Observe { now } => before.lemma_refill(now),
            }
        }
    }

    /// Between acquisitions the content never falls: through a run of looks
    /// alone it only grows, and stays within the capacity.
    pub proof fn lemma_never_falls_between_acquisitions(self, ops: Seq<BucketOp>)
        requires
            self.wf(),
            forall|k: int| 0 <= k < ops.len() ==> #[trigger] ops[k] is Observe,
        ensures
            self.tokens <= self.apply_all(ops).tokens <= self.full(),
        decreases ops.len(),
    {
        if ops.len() > 0 {
            assert forall|k: int| 0 <= k < ops.drop_last().len() implies (
            #[trigger] ops.drop_last()[k]) is Observe by {
                assert(ops.drop_last()[k] == ops[k]);
            }
            self.lemma_never_falls_between_acquisitions(ops.drop_last());
            self.lemma_within_capacity(ops.drop_last());
            let before = self.apply_all(ops.drop_last());
            assert(ops[ops.len() - 1] is Observe);
            before.lemma_refill(ops.last()->Observe_now);
        }
    }

    /// `full_at` names the first instant of a full bucket: a refill at that
    /// instant fills the bucket, and no refill between the last one and that
    /// instant does. Where `full_at` names none, no refill ever fills it.
    pub proof fn lemma_full_at(self)
        requires
            self.wf(),
        ensures
            match self.full_at() {
                Some(at) => {
                    &&& self.last_update <= at
                    &&& self.refill(at).tokens == self.full()
                    &&& forall|t: nat|
                        self.last_update <= t < at ==> (#[trigger] self.refill(t)).tokens
                            < self.full()
                },
                None => forall|t: nat| (#[trigger] self.refill(t)).tokens < self.full(),
            },
    {
        let room = (self.full() - self.tokens) as nat;
        let rate = self.refill_rate;
        if room > 0 && rate > 0 {
            let wait = (room + rate - 1) / rate as int;
            lemma_ceil_div(room, rate);
            let at = (self.last_update + wait) as nat;
            assert(self.elapsed(at) == wait);
            assert forall|t: nat| self.last_update <= t < at implies (#[trigger] self.refill(
                t,
            )).tokens < self.full() by {
                let e = self.elapsed(t);
                assert(e <= wait - 1);
                assert(e * rate <= (wait - 1) * rate) by (nonlinear_arith)
                    requires
                        0 <= e <= wait - 1,
                        rate >= 0,
                ;
            }
        } else if room > 0 {
            assert forall|t: nat| (#[trigger] self.refill(t)).tokens < self.full() by {
                assert(self.elapsed(t) * rate == 0) by (nonlinear_arith)
                    requires
                        rate == 0,
                ;
            }
        }
    }
}

/// The least whole number of steps of `rate` that cover `room`.
pub proof fn lemma_ceil_div(room: nat, rate: nat)
    requires
        room > 0,
        rate > 0,
    ensures
        ({
            let steps = (room + rate - 1) / rate as int;
            &&& steps >= 1
            &&& steps * rate >= room
            &&& (steps - 1) * rate < room
        }),
{
    let x = (room + rate - 1) as int;
    let d = rate as int;
    vstd::arithmetic::div_mod::lemma_fundamental_div_mod(x, d);
    vstd::arithmetic::div_mod::lemma_mod_bound(x, d);
    let q = x / d;
    assert(d * q == q * d) by (nonlinear_arith);
    assert((q - 1) * d == q * d - d) by (nonlinear_arith);
    assert(q >= 1) by (nonlinear_arith)
        requires
            q * d >= room,
            room > 0,
            d > 0,
    ;
}

/// Token bucket that gates the calls to one endpoint.
#[derive(Debug, Clone, Copy)]
pub struct RateLimiter {
    tokens: u64,
    last_update: u64,
    capacity: u32,
    refill_rate: u32,
}

impl View for RateLimiter {
    type V = BucketView;

    closed spec fn view(&self) -> BucketView {
        BucketView {
            tokens: self.tokens as nat,
            last_update: self.last_update as nat,
            capacity: self.capacity as nat,
            refill_rate: self.refill_rate as nat,
        }
    }
}

impl RateLimiter {
    /// The invariant every limiter made by `new` keeps.
    pub open spec fn wf(&self) -> bool {
        self@.wf()
    }

    /// A full bucket of `capacity` tokens that gains `refill_rate_per_sec`
    /// tokens a second from `now` on.
    pub fn new(capacity: u32, refill_rate_per_sec: u32, now: u64) -> (limiter: Self)
        ensures
            limiter.wf(),
            limiter@ == BucketView::filled(
                capacity as nat,
                refill_rate_per_sec as nat,
                now as nat,
            ),
    {
        RateLimiter {
            tokens: capacity as u64 * 1_000_000_000,
            last_update: now,
            capacity,
            refill_rate: refill_rate_per_sec,
        }
    }

    /// Refills the bucket for the time that passed up to `now`.
    fn refill_tokens(&mut self, now: u64)
        requires
            old(self).wf(),
        ensures
            final(self).wf(),
            final(self)@ == old(self)@.refill(now as nat),
    {
        let elapsed: u64 = if now >= self.last_update {
            now - self.last_update
        } else {
            0
        };
        assert(elapsed as u128 * self.refill_rate as u128 <= 0xffff_ffff_ffff_ffff
            * 0xffff_ffff) by (nonlinear_arith)
            requires
                elapsed <= 0xffff_ffff_ffff_ffff,
                self.refill_rate <= 0xffff_ffff,
        ;
        let produced: u128 = elapsed as u128 * self.refill_rate as u128;
        let room: u64 = self.capacity as u64 * 1_000_000_000 - self.tokens;
        if produced <= room as u128 {
            self.tokens = self.tokens + produced as u64;
        } else {
            self.tokens = self.tokens + room;
        }
        self.last_update = now;
    }

    /// Takes one token if the bucket, refilled at `now`, holds one.
    pub fn acquire_token(&mut self, now: u64) -> (granted: bool)
        requires
            old(self).wf(),
        ensures
            final(self).wf(),
            granted == old(self)@.grants(1, now as nat),
            final(self)@ == old(self)@.acquire(1, now as nat),
    {
        self.try_acquire_tokens(1, now)
    }

    /// Takes `count` tokens if the bucket, refilled at `now`, holds that
    /// many; takes nothing otherwise. Never blocks and never fails.
    pub fn try_acquire_tokens(&mut self, count: u32, now: u64) -> (granted: bool)
        requires
            old(self).wf(),
        ensures
            final(self).wf(),
            granted == old(self)@.grants(count as nat, now as nat),
            final(self)@ == old(self)@.acquire(count as nat, now as nat),
    {
        self.refill_tokens(now);
        let cost: u64 = count as u64 * 1_000_000_000;
        if self.tokens >= cost {
            self.tokens = self.tokens - cost;
            true
        } else {
            false
        }
    }

    /// What the bucket holds after a refill at `now`, in billionths of a
    /// token.
    pub fn tokens_available(&mut self, now: u64) -> (available: u64)
        requires
            old(self).wf(),
        ensures
            final(self).wf(),
            final(self)@ == old(self)@.refill(now as nat),
            available == final(self)@.tokens,
            old(self)@.tokens <= available <= old(self)@.full(),
    {
        self.refill_tokens(now);
        self.tokens
    }

    /// One round of the wait for a single token.
    pub fn wait_for_token(&mut self, now: u64) -> (step: WaitStep)
        requires
            old(self).wf(),
        ensures
            final(self).wf(),
            final(self)@ == old(self)@.acquire(1, now as nat),
            step == if old(self)@.grants(1, now as nat) {
                WaitStep::Acquired
            } else {
                WaitStep::Sleep(REFILL_INTERVAL_NANOS)
            },
    {
        self.wait_for_tokens(1, now)
    }

    /// One round of the wait for `count` tokens: takes them if they are
    /// there, and names the sleep before the next round if they are not. The
    /// wait has no end of its own: it lasts until a round finds the tokens.
    pub fn wait_for_tokens(&mut self, count: u32, now: u64) -> (step: WaitStep)
        requires
            old(self).wf(),
        ensures
            final(self).wf(),
            final(self)@ == old(self)@.acquire(count as nat, now as nat),
            step == if old(self)@.grants(count as nat, now as nat) {
                WaitStep::Acquired
            } else {
                WaitStep::Sleep(REFILL_INTERVAL_NANOS)
            },
    {
        if self.try_acquire_tokens(count, now) {
            WaitStep::Acquired
        } else {
            WaitStep::Sleep(REFILL_INTERVAL_NANOS)
        }
    }

    /// The first instant from `now` on at which the bucket is full again if
    /// nothing is taken from it meanwhile. The bucket is refilled at `now`.
    /// A bucket that is not full and gains nothing never is: the answer is
    /// then the largest instant, as it is where the instant lies beyond it.
    pub fn capacity_restored_at(&mut self, now: u64) -> (at: u64)
        requires
            old(self).wf(),
        ensures
            final(self).wf(),
            final(self)@ == old(self)@.refill(now as nat),
            at == match final(self)@.full_at() {
                Some(instant) => if instant <= u64::MAX {
                    instant as u64
                } else {
                    u64::MAX
                },
                None => u64::MAX,
            },
            at >= now,
    {
        self.refill_tokens(now);
        let room: u64 = self.capacity as u64 * 1_000_000_000 - self.tokens;
        if room == 0 {
            now
        } else if self.refill_rate == 0 {
            u64::MAX
        } else {
            let rate: u64 = self.refill_rate as u64;
            let wait: u64 = (room + rate - 1) / rate;
            if wait > u64::MAX - now {
                u64::MAX
            } else {
                now + wait
            }
        }
    }
}

/// Whether an error recorded at `at` still counts at `now`, in a window of
/// `window_size` nanoseconds.
pub open spec fn is_recent(at: u64, now: u64, window_size: u64) -> bool {
    at + window_size > now
}

/// The errors that still count at `now`.
pub open spec fn recent_at(now: u64, window_size: u64) -> spec_fn(u64) -> bool {
    |at: u64| is_recent(at, now, window_size)
}

/// What one second shrinks or grows to after `count` steps of the multiplier
/// `numerator / denominator`, in nanoseconds. Each step rounds down, and a
/// delay holds at the largest 64-bit number once it passed it.
pub open spec fn backoff_nanos(numerator: nat, denominator: nat, count: nat) -> nat
    decreases count,
{
    if count == 0 {
        NANOS_PER_SEC as nat
    } else {
        let step = backoff_nanos(numerator, denominator, (count - 1) as nat) * numerator
            / denominator;
        if step > u64::MAX {
            u64::MAX as nat
        } else {
            step
        }
    }
}

/// With the multiplier one half the delay after `count` errors is one
/// second divided by two to the power `count`, rounded down.
pub proof fn lemma_halving_delay(count: nat)
    ensures
        backoff_nanos(1, 2, count) == NANOS_PER_SEC as nat / vstd::arithmetic::power2::pow2(count),
    decreases count,
{
    vstd::arithmetic::power2::lemma_pow2_pos(count);
    if count == 0 {
        vstd::arithmetic::power2::lemma_pow2(0);
        vstd::arithmetic::power::lemma_pow0(2);
    } else {
        let before = (count - 1) as nat;
        lemma_halving_delay(before);
        vstd::arithmetic::power2::lemma_pow2_pos(before);
        vstd::arithmetic::power2::lemma_pow2_unfold(count);
        let half = vstd::arithmetic::power2::pow2(before) as int;
        vstd::arithmetic::div_mod::lemma_div_denominator(NANOS_PER_SEC as int, half, 2);
        assert(half * 2 == 2 * half) by (nonlinear_arith);
        assert(NANOS_PER_SEC as int / half <= NANOS_PER_SEC) by {
            vstd::arithmetic::div_mod::lemma_div_is_ordered_by_denominator(
                NANOS_PER_SEC as int,
                1,
                half,
            );
        }
    }
}

/// The multiplier of the backoff, as a fraction.
#[derive(Debug, Clone, Copy, PartialEq, Eq, Structural)]
pub struct BackoffPolicy {
    numerator: u32,
    denominator: u32,
}

impl BackoffPolicy {
    /// The numerator of the multiplier.
    pub closed spec fn numerator(self) -> nat {
        self.numerator as nat
    }

    /// The denominator of the multiplier.
    pub closed spec fn denominator(self) -> nat {
        self.denominator as nat
    }

    /// The invariant of a policy: its denominator is not zero.
    #[verifier::type_invariant]
    pub closed spec fn wf(self) -> bool {
        self.denominator > 0
    }

    /// The sleep before an acquisition after `count` recent errors.
    pub open spec fn delay(self, count: nat) -> nat {
        if count == 0 {
            0
        } else {
            backoff_nanos(self.numerator(), self.denominator(), count)
        }
    }

    /// The policy with the multiplier `numerator / denominator`; none where
    /// the denominator is zero.
    pub fn new(numerator: u32, denominator: u32) -> (policy: Option<BackoffPolicy>)
        ensures
            (denominator == 0) == (policy is None),
            policy matches Some(p) ==> p.numerator() == numerator && p.denominator()
                == denominator,
    {
        if denominator == 0 {
            None
        } else {
            Some(BackoffPolicy { numerator, denominator })
        }
    }

    /// The multiplier one half: every further error halves the sleep.
    pub fn halving() -> (policy: BackoffPolicy)
        ensures
            policy.numerator() == 1,
            policy.denominator() == 2,
    {
        BackoffPolicy { numerator: 1, denominator: 2 }
    }

    /// Computes `delay`.
    pub fn delay_nanos(&self, count: usize) -> (nanos: u64)
        ensures
            nanos == self.delay(count as nat),
    {
        proof {
            use_type_invariant(self);
        }
        if count == 0 {
            return 0;
        }
        let mut nanos: u64 = NANOS_PER_SEC;
        let mut done: usize = 0;
        while done < count
            invariant
                self.denominator > 0,
                done <= count,
                nanos == backoff_nanos(self.numerator(), self.denominator(), done as nat),
            decreases count - done,
        {
            assert(nanos as u128 * self.numerator as u128 <= 0xffff_ffff_ffff_ffff
                * 0xffff_ffff) by (nonlinear_arith)
                requires
                    nanos <= 0xffff_ffff_ffff_ffff,
                    self.numerator <= 0xffff_ffff,
            ;
            let step: u128 = nanos as u128 * self.numerator as u128 / self.denominator as u128;
            nanos = if step > u64::MAX as u128 {
                u64::MAX
            } else {
                step as u64
            };
            done += 1;
        }
        nanos
    }
}

/// The window of recent errors as contracts see it.
pub struct ErrorWindowView {
    /// The instants of the errors on record, in the order they were recorded.
    pub errors: Seq<u64>,
    /// How long an error counts, in nanoseconds.
    pub window_size: u64,
    /// From how many recent errors on the limiter is unhealthy.
    pub threshold: nat,
}

impl ErrorWindowView {
    /// The window without the errors that no longer count at `now`.
    pub open spec fn prune(self, now: u64) -> Self {
        ErrorWindowView { errors: self.errors.filter(recent_at(now, self.window_size)), ..self }
    }

    /// The window after an error was recorded at `now`.
    pub open spec fn record(self, now: u64) -> Self {
        ErrorWindowView { errors: self.errors.push(now), ..self }.prune(now)
    }

    /// How many errors count at `now`.
    pub open spec fn recent_count(self, now: u64) -> nat {
        self.prune(now).errors.len()
    }

    /// Whether fewer errors count at `now` than the threshold.
    pub open spec fn healthy(self, now: u64) -> bool {
        self.recent_count(now) < self.threshold
    }

    /// The window after errors were recorded at each of `times`, in turn.
    pub open spec fn record_all(self, times: Seq<u64>) -> Self
        decreases times.len(),
    {
        if times.len() == 0 {
            self
        } else {
            self.record_all(times.drop_last()).record(times.last())
        }
    }
}

/// Pruning for a later instant undoes nothing that pruning for an earlier
/// one has left: what counts at `now` counted at every instant before it.
pub proof fn lemma_prune_twice(errors: Seq<u64>, earlier: u64, now: u64, window_size: u64)
    requires
        earlier <= now,
    ensures
        errors.filter(recent_at(earlier, window_size)).filter(recent_at(now, window_size))
            == errors.filter(recent_at(now, window_size)),
    decreases errors.len(),
{
    let first = recent_at(earlier, window_size);
    let second = recent_at(now, window_size);
    if errors.len() == 0 {
        assert(errors.filter(first) =~= errors) by {
            errors.lemma_filter_len(first);
        }
    } else {
        let head = errors.drop_last();
        let at = errors.last();
        lemma_prune_twice(head, earlier, now, window_size);
        assert(errors =~= head.push(at));
        head.lemma_filter_push(at, first);
        head.lemma_filter_push(at, second);
        if first(at) {
            head.filter(first).lemma_filter_push(at, second);
        } else {
            assert(!second(at));
        }
    }
}

/// Errors pile up within the window: after errors were recorded at `times`,
/// none of them after `now` and all of them still counting at `now`, at
/// least as many errors count at `now` as were recorded. With as many errors
/// as the threshold, the limiter is then unhealthy at `now`.
pub proof fn lemma_errors_pile_up(window: ErrorWindowView, times: Seq<u64>, now: u64)
    requires
        forall|k: int|
            0 <= k < times.len() ==> (#[trigger] times[k]) <= now && is_recent(
                times[k],
                now,
                window.window_size,
            ),
    ensures
        window.record_all(times).recent_count(now) >= times.len(),
        window.record_all(times).window_size == window.window_size,
        window.record_all(times).threshold == window.threshold,
        times.len() >= window.threshold ==> !window.record_all(times).healthy(now),
    decreases times.len(),
{
    if times.len() > 0 {
        let head = times.drop_last();
        let at = times.last();
        assert forall|k: int| 0 <= k < head.len() implies (#[trigger] head[k]) <= now && is_recent(
            head[k],
            now,
            window.window_size,
        ) by {
            assert(head[k] == times[k]);
        }
        lemma_errors_pile_up(window, head, now);
        let before = window.record_all(head);
        let counts = recent_at(now, window.window_size);
        assert(times[times.len() - 1] == at);
        assert(counts(at));
        lemma_prune_twice(before.errors.push(at), at, now, window.window_size);
        before.errors.lemma_filter_push(at, counts);
    }
}

/// Errors wear off: once every error on record has left the window, none
/// counts, and the limiter is healthy wherever its threshold is not zero.
pub proof fn lemma_errors_wear_off(window: ErrorWindowView, now: u64)
    requires
        forall|k: int|
            0 <= k < window.errors.len() ==> !is_recent(
                #[trigger] window.errors[k],
                now,
                window.window_size,
            ),
    ensures
        window.recent_count(now) == 0,
        window.healthy(now) == (window.threshold > 0),
    decreases window.errors.len(),
{
    let counts = recent_at(now, window.window_size);
    if window.errors.len() == 0 {
        window.errors.lemma_filter_len(counts);
    } else {
        let head = ErrorWindowView { errors: window.errors.drop_last(), ..window };
        assert forall|k: int| 0 <= k < head.errors.len() implies !is_recent(
            #[trigger] head.errors[k],
            now,
            window.window_size,
        ) by {
            assert(head.errors[k] == window.errors[k]);
        }
        lemma_errors_wear_off(head, now);
        assert(window.errors =~= head.errors.push(window.errors.last()));
        head.errors.lemma_filter_push(window.errors.last(), counts);
        assert(!counts(window.errors[window.errors.len() - 1]));
    }
}

/// One round of an acquisition through the adaptive limiter.
#[derive(Debug, Clone, Copy, PartialEq, Eq, Structural)]
pub enum AcquireStep {
    /// Errors are on record: sleep this many nanoseconds, then call again
    /// and say that the sleep is done.
    Backoff(u64),
    /// The bucket was asked, and this is its answer.
    Done(bool),
}

/// The adaptive limiter as contracts see it.
pub struct AdaptiveView {
    /// The bucket underneath.
    pub bucket: BucketView,
    /// The window of recent errors.
    pub window: ErrorWindowView,
    /// The multiplier of the backoff.
    pub backoff: BackoffPolicy,
}

/// Rate limiter that holds acquisitions back while errors are on record.
#[derive(Debug)]
pub struct AdaptiveRateLimiter {
    base_limiter: RateLimiter,
    errors: Vec<u64>,
    window_size: u64,
    threshold: usize,
    backoff: BackoffPolicy,
}

impl View for AdaptiveRateLimiter {
    type V = AdaptiveView;

    closed spec fn view(&self) -> AdaptiveView {
        AdaptiveView {
            bucket: self.base_limiter@,
            window: ErrorWindowView {
                errors: self.errors@,
                window_size: self.window_size,
                threshold: self.threshold as nat,
            },
            backoff: self.backoff,
        }
    }
}

/// The window in which an error counts unless another is asked for.
pub const ERROR_WINDOW_NANOS: u64 = 60_000_000_000;

/// The number of recent errors from which a limiter is unhealthy unless
/// another is asked for.
pub const ERROR_THRESHOLD: usize = 5;

impl AdaptiveRateLimiter {
    /// The invariant every limiter made by `new` or `with_policy` keeps.
    pub open spec fn wf(&self) -> bool {
        self@.bucket.wf()
    }

    /// A limiter over a full bucket, with a window of sixty seconds, a
    /// threshold of five errors and the multiplier one half.
    pub fn new(capacity: u32, refill_rate: u32, now: u64) -> (limiter: Self)
        ensures
            limiter.wf(),
            limiter@.bucket == BucketView::filled(
                capacity as nat,
                refill_rate as nat,
                now as nat,
            ),
            limiter@.window == (ErrorWindowView {
                errors: Seq::empty(),
                window_size: ERROR_WINDOW_NANOS,
                threshold: ERROR_THRESHOLD as nat,
            }),
            limiter@.backoff.numerator() == 1,
            limiter@.backoff.denominator() == 2,
    {
        Self::with_policy(
            capacity,
            refill_rate,
            now,
            ERROR_WINDOW_NANOS,
            ERROR_THRESHOLD,
            BackoffPolicy::halving(),
        )
    }

    /// A limiter over a full bucket with a window, a threshold and a backoff
    /// multiplier of the caller's choice.
    pub fn with_policy(
        capacity: u32,
        refill_rate: u32,
        now: u64,
        window_size: u64,
        threshold: usize,
        backoff: BackoffPolicy,
    ) -> (limiter: Self)
        ensures
            limiter.wf(),
            limiter@.bucket == BucketView::filled(
                capacity as nat,
                refill_rate as nat,
                now as nat,
            ),
            limiter@.window == (ErrorWindowView {
                errors: Seq::empty(),
                window_size,
                threshold: threshold as nat,
            }),
            limiter@.backoff == backoff,
    {
        AdaptiveRateLimiter {
            base_limiter: RateLimiter::new(capacity, refill_rate, now),
            errors: Vec::new(),
            window_size,
            threshold,
            backoff,
        }
    }

    /// Drops the errors that no longer count at `now`.
    fn prune(&mut self, now: u64)
        ensures
            final(self)@ == (AdaptiveView { window: old(self)@.window.prune(now), ..old(self)@ }),
    {
        let ghost counts = recent_at(now, self.window_size);
        let mut kept: Vec<u64> = Vec::new();
        let mut i: usize = 0;
        assert(self.errors@.take(0) =~= Seq::empty());
        proof {
            Seq::<u64>::empty().lemma_filter_len(counts);
        }
        while i < self.errors.len()
            invariant
                i <= self.errors.len(),
                counts == recent_at(now, self.window_size),
                kept@ == self.errors@.take(i as int).filter(counts),
            decreases self.errors.len() - i,
        {
            let at: u64 = self.errors[i];
            proof {
                assert(self.errors@.take(i + 1) =~= self.errors@.take(i as int).push(at));
                self.errors@.take(i as int).lemma_filter_push(at, counts);
            }
            if at as u128 + self.window_size as u128 > now as u128 {
                kept.push(at);
            }
            i += 1;
        }
        assert(self.errors@.take(self.errors.len() as int) =~= self.errors@);
        self.errors = kept;
    }

    /// Records an error at `now`, and drops the errors that no longer count.
    pub fn record_error(&mut self, now: u64)
        ensures
            final(self)@ == (AdaptiveView { window: old(self)@.window.record(now), ..old(self)@ }),
    {
        self.errors.push(now);
        self.prune(now);
    }

    /// Drops the errors that no longer count at `now` and counts the rest.
    pub fn recent_error_count(&mut self, now: u64) -> (count: usize)
        ensures
            final(self)@ == (AdaptiveView { window: old(self)@.window.prune(now), ..old(self)@ }),
            count == old(self)@.window.recent_count(now),
    {
        self.prune(now);
        self.errors.len()
    }

    /// Whether fewer errors count at `now` than the threshold. The errors
    /// that no longer count are dropped.
    pub fn is_healthy(&mut self, now: u64) -> (healthy: bool)
        ensures
            final(self)@ == (AdaptiveView { window: old(self)@.window.prune(now), ..old(self)@ }),
            healthy == old(self)@.window.healthy(now),
    {
        self.recent_error_count(now) < self.threshold
    }

    /// One round of an acquisition of a single token.
    ///
    /// The errors that no longer count at `now` are dropped. Where errors
    /// are left and the caller has not slept yet (`slept` is false), the
    /// bucket is left alone and the answer is the sleep that the backoff
    /// asks for after that many errors. Otherwise the bucket is asked for a
    /// token at `now`.
    pub fn acquire_token(&mut self, now: u64, slept: bool) -> (step: AcquireStep)
        requires
            old(self).wf(),
        ensures
            final(self).wf(),
            final(self)@.window == old(self)@.window.prune(now),
            final(self)@.backoff == old(self)@.backoff,
            !slept && old(self)@.window.recent_count(now) > 0 ==> {
                &&& step matches AcquireStep::Backoff(nanos)
                &&& nanos == old(self)@.backoff.delay(old(self)@.window.recent_count(now))
                &&& final(self)@.bucket == old(self)@.bucket
            },
            slept || old(self)@.window.recent_count(now) == 0 ==> {
                &&& step == AcquireStep::Done(old(self)@.bucket.grants(1, now as nat))
                &&& final(self)@.bucket == old(self)@.bucket.acquire(1, now as nat)
            },
    {
        let count: usize = self.recent_error_count(now);
        if count > 0 && !slept {
            AcquireStep::Backoff(self.backoff.delay_nanos(count))
        } else {
            AcquireStep::Done(self.base_limiter.acquire_token(now))
        }
    }
}

} // verus!
