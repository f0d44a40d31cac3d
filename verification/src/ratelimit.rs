//! A byte-rate limiter (token bucket) for pacing transfers.
//!
//! One limiter is shared by every transfer of a session, so its rate is a ceiling
//! over all of them together. The budget is counted in billionths of a byte: what
//! a rate in bytes per second gives in a nanosecond is then a whole number.

use vstd::prelude::*;

verus! {

/// The smallest burst that the bucket allows, in bytes. It is at least the
/// largest single request, so that even at a low rate the budget for it gathers.
pub const BURST_FLOOR: u64 = 0x10_0000;

/// A byte-rate limiter.
#[derive(Debug)]
pub struct RateLimiter {
    rate: u64,
    tokens: u128,
    last_refill: u64,
}

/// A byte-rate limiter.
pub struct LimiterView {
    /// Bytes per second; zero where there is no limit.
    pub rate: nat,
    /// The budget, in billionths of a byte.
    pub tokens: nat,
    /// When it was last topped up, in nanoseconds.
    pub last_refill: nat,
}

/// What a request for bytes is answered.
#[derive(Clone, Copy, Debug, PartialEq, Eq, Structural)]
pub enum Pace {
    /// They are paid for.
    Go,
    /// Nothing is paid yet: try again after so many nanoseconds.
    Wait { ns: u128 },
}

impl View for RateLimiter {
    type V = LimiterView;

    closed spec fn view(&self) -> LimiterView {
        LimiterView {
            rate: self.rate as nat,
            tokens: self.tokens as nat,
            last_refill: self.last_refill as nat,
        }
    }
}

/// The largest budget at a rate, in billionths of a byte.
pub open spec fn capacity(rate: nat) -> nat {
    (if rate < 0x10_0000 {
        0x10_0000nat
    } else {
        rate
    }) * 1_000_000_000
}

/// What a rate gives between two times.
pub open spec fn gained(rate: nat, from: nat, to: nat) -> nat {
    if to > from {
        ((to - from) as nat) * rate
    } else {
        0
    }
}

/// The budget at a time.
pub open spec fn refilled(b: LimiterView, now: nat) -> nat {
    let all = b.tokens + gained(b.rate, b.last_refill, now);
    if all < capacity(b.rate) {
        all
    } else {
        capacity(b.rate)
    }
}

/// Whether a request is paid at a time.
pub open spec fn is_paid(b: LimiterView, now: nat, n: nat) -> bool {
    b.rate == 0 || refilled(b, now) >= n * 1_000_000_000
}

/// The limiter after a request.
pub open spec fn after_request(b: LimiterView, now: nat, n: nat) -> LimiterView {
    if b.rate == 0 {
        b
    } else {
        LimiterView {
            rate: b.rate,
            tokens: if is_paid(b, now, n) {
                (refilled(b, now) - n * 1_000_000_000) as nat
            } else {
                refilled(b, now)
            },
            last_refill: now,
        }
    }
}

/// How long it takes until a request that is not paid can be: the missing budget
/// at the rate, rounded up.
pub open spec fn wait_for(b: LimiterView, now: nat, n: nat) -> nat {
    let missing = (n * 1_000_000_000 - refilled(b, now)) as nat;
    (missing + b.rate - 1) as nat / b.rate
}

impl RateLimiter {
    /// A limiter with an empty budget. A rate of zero is no limit.
    pub fn new(bytes_per_sec: u64, now: u64) -> (r: Self)
        ensures
            r@ == (LimiterView {
                rate: bytes_per_sec as nat,
                tokens: 0,
                last_refill: now as nat,
            }),
    {
        RateLimiter { rate: bytes_per_sec, tokens: 0, last_refill: now }
    }

    /// Changes the rate; the next request goes by it.
    pub fn set_rate(&mut self, bytes_per_sec: u64)
        ensures
            final(self)@ == (LimiterView { rate: bytes_per_sec as nat, ..old(self)@ }),
    {
        self.rate = bytes_per_sec;
    }

    /// Whether there is no limit.
    pub fn is_unlimited(&self) -> (r: bool)
        ensures
            r == (self@.rate == 0),
    {
        self.rate == 0
    }

    /// Asks for `n` bytes at a time. They are paid where the budget suffices;
    /// nothing is taken where it does not.
    pub fn acquire(&mut self, now: u64, n: u64) -> (r: Pace)
        ensures
            final(self)@ == after_request(old(self)@, now as nat, n as nat),
            r is Go <==> is_paid(old(self)@, now as nat, n as nat),
            r matches Pace::Wait { ns } ==> ns == wait_for(old(self)@, now as nat, n as nat),
    {
        if self.rate == 0 {
            return Pace::Go;
        }
        let rate: u128 = self.rate as u128;
        let bytes: u128 = if self.rate < BURST_FLOOR {
            BURST_FLOOR as u128
        } else {
            rate
        };
        let cap: u128 = bytes * 1_000_000_000;
        let elapsed: u128 = if now > self.last_refill {
            (now - self.last_refill) as u128
        } else {
            0
        };
        proof {
            assert(elapsed * rate <= 0xffff_ffff_ffff_ffff * 0xffff_ffff_ffff_ffff)
                by (nonlinear_arith)
                requires
                    0 <= elapsed <= 0xffff_ffff_ffff_ffff,
                    0 <= rate <= 0xffff_ffff_ffff_ffff,
            ;
            assert(rate > 0 ==> 0 * rate == 0) by (nonlinear_arith);
        }
        let gain: u128 = elapsed * rate;
        let full: u128 = if gain >= cap || self.tokens >= cap || self.tokens + gain >= cap {
            cap
        } else {
            self.tokens + gain
        };
        let ghost before = self@;
        assert(gain == gained(before.rate, before.last_refill, now as nat));
        assert(full == refilled(before, now as nat));
        self.last_refill = now;
        let need: u128 = n as u128 * 1_000_000_000;
        if full >= need {
            self.tokens = full - need;
            Pace::Go
        } else {
            self.tokens = full;
            Pace::Wait { ns: (need - full + (rate - 1)) / rate }
        }
    }
}

/// A request that was told to wait is paid when it tries again after the wait, if
/// no other was paid meanwhile. This holds of every request of a size up to the
/// largest burst.
pub proof fn law_wait_suffices(b: LimiterView, now: nat, n: nat)
    requires
        n * 1_000_000_000 <= capacity(b.rate),
        !is_paid(b, now, n),
    ensures
        is_paid(after_request(b, now, n), now + wait_for(b, now, n), n),
{
    let missing = (n * 1_000_000_000 - refilled(b, now)) as nat;
    let ns = wait_for(b, now, n);
    let rate = b.rate;
    assert(ns * rate >= missing) by (nonlinear_arith)
        requires
            ns == (missing + rate - 1) as nat / rate,
            rate > 0,
            missing > 0,
    ;
    assert(ns > 0) by (nonlinear_arith)
        requires
            ns * rate >= missing,
            missing > 0,
    ;
}

/// Waiting costs nothing: a request that is not paid takes nothing from the
/// budget, whether it is tried again or given up.
pub proof fn law_waiting_is_free(b: LimiterView, now: nat, n: nat)
    requires
        b.rate > 0,
        !is_paid(b, now, n),
    ensures
        after_request(b, now, n).tokens == refilled(b, now),
{
}

/// A request for bytes at a time.
pub struct Request {
    pub now: nat,
    pub n: nat,
}

/// The limiter after requests, one after the other.
pub open spec fn after_requests(b: LimiterView, list: Seq<Request>) -> LimiterView
    decreases list.len(),
{
    if list.len() == 0 {
        b
    } else {
        after_request(after_requests(b, list.drop_last()), list.last().now, list.last().n)
    }
}

/// The bytes of those requests that were paid.
pub open spec fn paid_bytes(b: LimiterView, list: Seq<Request>) -> nat
    decreases list.len(),
{
    if list.len() == 0 {
        0
    } else {
        paid_bytes(b, list.drop_last()) + if is_paid(
            after_requests(b, list.drop_last()),
            list.last().now,
            list.last().n,
        ) {
            list.last().n
        } else {
            0
        }
    }
}

/// Whether the requests come in the order of time.
pub open spec fn in_time(from: nat, list: Seq<Request>) -> bool {
    forall|i: int|
        0 <= i < list.len() ==> (#[trigger] list[i]).now >= if i == 0 {
            from
        } else {
            list[i - 1].now
        }
}

/// The rate is a ceiling over all requests together: whoever makes them, what is
/// paid is never more than the budget at the start and what the rate has given
/// since.
pub proof fn law_rate_is_a_ceiling(b: LimiterView, list: Seq<Request>)
    requires
        b.rate > 0,
        in_time(b.last_refill, list),
    ensures
        ({
            let end = if list.len() == 0 {
                b.last_refill
            } else {
                list.last().now
            };
            &&& after_requests(b, list).rate == b.rate
            &&& after_requests(b, list).last_refill == end
            &&& end >= b.last_refill
            &&& paid_bytes(b, list) * 1_000_000_000 + after_requests(b, list).tokens <= b.tokens
                + ((end - b.last_refill) as nat) * b.rate
        }),
    decreases list.len(),
{
    if list.len() > 0 {
        let front = list.drop_last();
        assert forall|i: int| 0 <= i < front.len() implies (#[trigger] front[i]).now >= if i == 0 {
            b.last_refill
        } else {
            front[i - 1].now
        } by {
            assert(list[i] == front[i]);
            if i > 0 {
                assert(list[i - 1] == front[i - 1]);
            }
        }
        law_rate_is_a_ceiling(b, front);
        let mid = after_requests(b, front);
        let last = list[list.len() - 1];
        let rate = b.rate;
        let (t0, t1, t2) = (b.last_refill as int, mid.last_refill as int, last.now as int);
        assert(last.now >= mid.last_refill);
        assert((t1 - t0) * rate + (t2 - t1) * rate == (t2 - t0) * rate) by (nonlinear_arith);
        assert(gained(rate, mid.last_refill, last.now) == (t2 - t1) * rate) by {
            if t2 == t1 {
                assert((t2 - t1) * rate == 0) by (nonlinear_arith)
                    requires
                        t2 == t1,
                ;
            }
        }
    } else {
        assert(0 * b.rate == 0) by (nonlinear_arith);
    }
}

/// The rate is also given: whoever leaves a limiter alone for as long as it takes the
/// rate to give so many bytes has them paid, up to what may be saved up. That is what
/// the rate gives in a second, and a mebibyte at least.
pub proof fn law_rate_is_given(b: LimiterView, now: nat, n: nat)
    requires
        b.rate > 0,
        now > b.last_refill,
        (now - b.last_refill) * b.rate >= n * 1_000_000_000,
        n <= b.rate || n <= 0x10_0000,
    ensures
        is_paid(b, now, n),
        after_request(b, now, n).rate == b.rate,
        after_request(b, now, n).last_refill == now,
{
    assert(gained(b.rate, b.last_refill, now) == (now - b.last_refill) * b.rate);
}

/// What is saved up is never more than the rate gives in a second, or than a mebibyte
/// where that is more; so no larger burst is paid at once.
pub proof fn law_bursts_are_bounded(b: LimiterView, now: nat, n: nat)
    requires
        b.rate > 0,
        n > b.rate,
        n > 0x10_0000,
    ensures
        !is_paid(b, now, n),
{
}

/// What is paid is taken from the budget, byte by byte.
pub proof fn law_paid_is_taken(b: LimiterView, now: nat, n: nat)
    requires
        b.rate > 0,
        is_paid(b, now, n),
    ensures
        after_request(b, now, n).tokens + n * 1_000_000_000 == refilled(b, now),
{
}

/// Without a limit everything is paid, and nothing is counted.
pub proof fn law_no_limit_is_no_limit(b: LimiterView, now: nat, n: nat)
    requires
        b.rate == 0,
    ensures
        is_paid(b, now, n),
        after_request(b, now, n) == b,
{
}

/// Nobody waits longer than it takes: one nanosecond before the end of the wait the
/// request is not paid yet.
pub proof fn law_wait_is_no_longer(b: LimiterView, now: nat, n: nat)
    requires
        b.rate > 0,
        !is_paid(b, now, n),
        n * 1_000_000_000 <= capacity(b.rate),
    ensures
        wait_for(b, now, n) > 0,
        !is_paid(after_request(b, now, n), (now + wait_for(b, now, n) - 1) as nat, n),
{
    let missing = (n * 1_000_000_000 - refilled(b, now)) as nat;
    let ns = wait_for(b, now, n);
    let rate = b.rate;
    assert(ns > 0 && (ns - 1) * rate < missing) by (nonlinear_arith)
        requires
            ns == (missing + rate - 1) as nat / rate,
            rate > 0,
            missing > 0,
    ;
    let then = (now + ns - 1) as nat;
    if then > now {
        assert(then - now == ns - 1);
        assert(gained(rate, now, then) == (ns - 1) * rate);
    }
}

} // verus!
