//! Token-bucket pacing of a single direction of traffic.

use vstd::prelude::*;

use crate::clock::{elapsed, spec_elapsed, MonotonicClock};

verus! {

/// Token units per byte. A bucket counts its tokens in billionths of a byte,
/// so that a bucket filling at `rate` bytes per second gains exactly `rate`
/// units per nanosecond.
pub const TOKENS_PER_BYTE: i128 = 1_000_000_000;

/// The least capacity of a bucket: 1500 bytes, one full Ethernet payload.
pub const MIN_CAPACITY: i128 = 1_500_000_000_000;

/// The capacity of a bucket, per byte per second of its rate: 50 ms of burst.
pub const CAPACITY_PER_RATE: i128 = 50_000_000;

/// The state of a token bucket: its tokens and capacity (in token units), its
/// rate (bytes per second) and the time of its last refill (nanoseconds).
pub ghost struct BucketState {
    pub tokens: int,
    pub capacity: int,
    pub rate: nat,
    pub last_refill: nat,
}

/// The capacity of a bucket of rate `rate`: 50 ms of traffic at that rate,
/// and never less than 1500 bytes.
pub open spec fn capacity_for(rate: nat) -> int {
    let c = rate * CAPACITY_PER_RATE;
    if c > MIN_CAPACITY {
        c
    } else {
        MIN_CAPACITY as int
    }
}

/// The tokens of bucket `b` at time `now`: what it held plus what its rate
/// added since its last refill, up to its capacity.
pub open spec fn refilled(b: BucketState, now: u64) -> int {
    let t = b.tokens + spec_elapsed(now, b.last_refill as u64) * b.rate;
    if t < b.capacity {
        t
    } else {
        b.capacity
    }
}

/// The tokens left after taking `bytes` from a bucket that holds `t`. The
/// deficit has no bound of its own; the machine word that holds the level
/// stops it at `i128::MIN`, a deficit of some 1.7e29 bytes, which no traffic
/// reaches.
pub open spec fn after_taking(t: int, bytes: nat) -> int {
    let left = t - bytes * TOKENS_PER_BYTE;
    if left < i128::MIN {
        i128::MIN as int
    } else {
        left
    }
}

/// How long a bucket that holds `t` tokens and fills at `rate` bytes per
/// second takes to climb back to zero: the least whole number of nanoseconds.
pub open spec fn refill_delay(t: int, rate: nat) -> nat {
    if t >= 0 {
        0
    } else {
        ((-t + rate - 1) / (rate as int)) as nat
    }
}

/// Token-bucket rate limiter for a single direction (download or upload).
///
/// Tokens represent bytes. The bucket refills at `rate` bytes/sec up to
/// `capacity`. When a packet arrives, its size is deducted from the bucket.
/// If the bucket goes negative, the packet must be delayed until enough
/// tokens have accumulated: the returned delay tells the caller how long to
/// defer reinjection.
pub struct TokenBucket {
    tokens: i128,
    capacity: i128,
    rate: u64,
    last_refill: u64,
}

impl View for TokenBucket {
    type V = BucketState;

    closed spec fn view(&self) -> BucketState {
        BucketState {
            tokens: self.tokens as int,
            capacity: self.capacity as int,
            rate: self.rate as nat,
            last_refill: self.last_refill as nat,
        }
    }
}

/// The level of a bucket lies at or below its capacity, and its
/// capacity is the one its rate gives.
pub open spec fn bucket_wf(b: BucketState) -> bool {
    &&& i128::MIN <= b.tokens <= b.capacity
    &&& b.capacity == capacity_for(b.rate)
    &&& b.rate <= u64::MAX
    &&& b.last_refill <= u64::MAX
}

/// The capacity of a bucket of rate `rate`, as an executable value.
fn capacity_of(rate: u64) -> (c: i128)
    ensures
        c == capacity_for(rate as nat),
        MIN_CAPACITY <= c <= u64::MAX * CAPACITY_PER_RATE,
{
    let c = rate as i128 * CAPACITY_PER_RATE;
    if c > MIN_CAPACITY {
        c
    } else {
        MIN_CAPACITY
    }
}

impl TokenBucket {
    #[verifier::type_invariant]
    closed spec fn wf(&self) -> bool {
        bucket_wf(self@)
    }

    /// A full bucket of rate `rate`, last refilled now: at a fresh reading
    /// of `clock`.
    pub fn new(rate: u64, clock: &mut MonotonicClock) -> (b: TokenBucket)
        ensures
            final(clock)@ >= old(clock)@,
            b@ == (BucketState {
                tokens: capacity_for(rate as nat),
                capacity: capacity_for(rate as nat),
                rate: rate as nat,
                last_refill: final(clock)@ as nat,
            }),
    {
        let now = clock.now();
        Self::new_at(rate, now)
    }

    /// A full bucket of rate `rate`, last refilled at time `now`.
    pub fn new_at(rate: u64, now: u64) -> (b: TokenBucket)
        ensures
            b@ == (BucketState {
                tokens: capacity_for(rate as nat),
                capacity: capacity_for(rate as nat),
                rate: rate as nat,
                last_refill: now as nat,
            }),
    {
        let capacity = capacity_of(rate);
        TokenBucket { tokens: capacity, capacity, rate, last_refill: now }
    }

    /// The rate of the bucket, in bytes per second.
    pub fn rate(&self) -> (r: u64)
        ensures
            r == self@.rate,
    {
        self.rate
    }

    /// The bucket can pace `bytes` bytes: it refills, or it holds enough
    /// tokens for them already. A bucket that does neither could never
    /// release the packet.
    pub fn can_pace(&self, bytes: usize) -> (b: bool)
        ensures
            b == (self@.rate > 0 || self@.tokens - bytes * TOKENS_PER_BYTE >= 0),
    {
        proof {
            use_type_invariant(self);
        }
        self.rate > 0 || self.tokens >= (bytes as i128) * TOKENS_PER_BYTE
    }

    /// Consume `bytes` from the bucket now, at a fresh reading of `clock`,
    /// returning the delay (in nanoseconds) before the packet should be
    /// reinjected: zero when tokens are available (no throttling needed).
    pub fn consume(&mut self, bytes: usize, clock: &mut MonotonicClock) -> (delay: u128)
        requires
            old(self)@.rate > 0 || old(self)@.tokens - bytes * TOKENS_PER_BYTE >= 0,
        ensures
            final(clock)@ >= old(clock)@,
            final(self)@ == (BucketState {
                tokens: after_taking(refilled(old(self)@, final(clock)@), bytes as nat),
                capacity: old(self)@.capacity,
                rate: old(self)@.rate,
                last_refill: final(clock)@ as nat,
            }),
            delay == refill_delay(final(self)@.tokens, final(self)@.rate),
    {
        let now = clock.now();
        self.consume_at(bytes, now)
    }

    /// Consume `bytes` from the bucket at time `now`, returning the delay (in
    /// nanoseconds) before the packet should be reinjected.
    ///
    /// The bucket first refills for the time since its last refill, up to its
    /// capacity, then gives up `bytes` worth of tokens. The delay is zero when
    /// the bucket stays at or above zero, and else the least whole number of
    /// nanoseconds in which the rate brings it back to zero.
    pub fn consume_at(&mut self, bytes: usize, now: u64) -> (delay: u128)
        requires
            old(self)@.rate > 0 || old(self)@.tokens - bytes * TOKENS_PER_BYTE >= 0,
        ensures
            final(self)@ == (BucketState {
                tokens: after_taking(refilled(old(self)@, now), bytes as nat),
                capacity: old(self)@.capacity,
                rate: old(self)@.rate,
                last_refill: now as nat,
            }),
            delay == refill_delay(final(self)@.tokens, final(self)@.rate),
    {
        proof {
            use_type_invariant(&*self);
            if self@.rate == 0 {
                lemma_refill_without_rate(self@, now);
            }
        }
        let el = elapsed(now, self.last_refill);
        proof {
            let (a, b) = (el as nat, self.rate as nat);
            assert(a * b <= u64::MAX * u64::MAX) by (nonlinear_arith)
                requires
                    a <= u64::MAX,
                    b <= u64::MAX,
            ;
        }
        let gain = el as u128 * self.rate as u128;
        let level: i128 = if self.tokens >= 0 {
            let room = (self.capacity - self.tokens) as u128;
            if gain >= room {
                self.capacity
            } else {
                self.tokens + gain as i128
            }
        } else {
            // The deficit may be as deep as the machine word goes: count it,
            // and the room above it, as unsigned.
            let deficit = (-(self.tokens + 1)) as u128 + 1;
            if gain >= deficit {
                let above = gain - deficit;
                if above >= self.capacity as u128 {
                    self.capacity
                } else {
                    above as i128
                }
            } else {
                self.tokens + gain as i128
            }
        };
        proof {
            assert(level == refilled(self@, now));
        }
        let cost = bytes as i128 * TOKENS_PER_BYTE;
        let tokens = match level.checked_sub(cost) {
            Some(left) => left,
            None => i128::MIN,
        };
        let delay: u128 = if tokens >= 0 {
            0
        } else {
            let deficit = (-(tokens + 1)) as u128 + 1;
            let r = self.rate as u128;
            (deficit + r - 1) / r
        };
        self.tokens = tokens;
        self.last_refill = now;
        delay
    }

    /// Update the target rate. Keeps the current token level (clamped to the
    /// new capacity) so the transition is smooth.
    pub fn set_rate(&mut self, rate: u64)
        ensures
            final(self)@ == (BucketState {
                tokens: if old(self)@.tokens < capacity_for(rate as nat) {
                    old(self)@.tokens
                } else {
                    capacity_for(rate as nat)
                },
                capacity: capacity_for(rate as nat),
                rate: rate as nat,
                last_refill: old(self)@.last_refill,
            }),
    {
        proof {
            use_type_invariant(&*self);
        }
        let capacity = capacity_of(rate);
        let tokens = if self.tokens < capacity {
            self.tokens
        } else {
            capacity
        };
        *self = TokenBucket { tokens, capacity, rate, last_refill: self.last_refill };
    }
}

/// A bucket whose rate is zero does not refill.
pub proof fn lemma_refill_without_rate(b: BucketState, now: u64)
    requires
        b.rate == 0,
        b.tokens <= b.capacity,
    ensures
        refilled(b, now) == b.tokens,
{
    let e = spec_elapsed(now, b.last_refill as u64);
    assert(e * b.rate == 0) by (nonlinear_arith)
        requires
            b.rate == 0,
    ;
}

/// The delay that a bucket gives is the time the bucket needs to climb back
/// to zero: after that many nanoseconds of refill it holds no deficit, and one
/// nanosecond less would not have been enough.
pub proof fn lemma_refill_delay_is_least(t: int, rate: nat)
    requires
        rate > 0,
    ensures
        t + refill_delay(t, rate) * rate >= 0,
        refill_delay(t, rate) > 0 ==> t + (refill_delay(t, rate) - 1) * rate < 0,
{
    if t < 0 {
        let d = -t;
        let q = (d + rate - 1) / (rate as int);
        vstd::arithmetic::div_mod::lemma_fundamental_div_mod(d + rate - 1, rate as int);
        let r = (d + rate - 1) % (rate as int);
        vstd::arithmetic::div_mod::lemma_mod_bound(d + rate - 1, rate as int);
        assert(d + rate - 1 == rate * q + r);
        assert(q * rate >= d) by (nonlinear_arith)
            requires
                d + rate - 1 == rate * q + r,
                r < rate,
        ;
        assert(q > 0 ==> (q - 1) * rate < d) by (nonlinear_arith)
            requires
                d + rate - 1 == rate * q + r,
                r >= 0,
        ;
    }
}

/// A packet that the bucket can pay for passes at once: the delay after
/// taking `bytes` from a level `t` of a bucket that
/// refills is zero exactly when the level covers the packet.
pub proof fn lemma_no_delay_iff_covered(t: int, bytes: nat, rate: nat)
    requires
        rate > 0,
    ensures
        (refill_delay(after_taking(t, bytes), rate) == 0) <==> t >= bytes * TOKENS_PER_BYTE,
{
    let left = t - bytes * TOKENS_PER_BYTE;
    if left < 0 && rate > 0 {
        let d = -after_taking(t, bytes);
        assert(d > 0);
        assert((d + rate - 1) / (rate as int) >= 1) by {
            vstd::arithmetic::div_mod::lemma_div_is_ordered(rate as int, d + rate - 1, rate as int);
            vstd::arithmetic::div_mod::lemma_div_by_self(rate as int);
        }
    }
}

/// The level of a bucket never rises above its capacity, however long it
/// waits.
pub proof fn lemma_refill_capped(b: BucketState, now: u64)
    ensures
        refilled(b, now) <= b.capacity,
{
}

} // verus!
