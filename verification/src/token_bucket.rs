//! The decision core of a token-bucket rate limiter.
//!
//! The bucket holds tokens up to a maximum; a refill task adds one token per
//! interval, and consumers take one token each.  Everything the bucket
//! *decides* — whether a token is granted, whether a refill fits — is here
//! and sequential; a runtime that owns the clock, the refill thread and the
//! blocking drives these steps.

use vstd::prelude::*;

verus! {

/// The bucket: its current tokens and its configuration.
pub struct TokenBucket {
    num_tokens: usize,
    max_capacity: usize,
    refill_interval: u64,
}

impl TokenBucket {
    /// The tokens currently available.
    pub closed spec fn tokens(self) -> nat {
        self.num_tokens as nat
    }

    /// The greatest number of tokens a refill may grow the bucket to.
    pub closed spec fn capacity(self) -> nat {
        self.max_capacity as nat
    }

    /// The configured refill interval, in milliseconds.
    pub closed spec fn interval(self) -> u64 {
        self.refill_interval
    }

    /// A bucket starting with `initial_capacity` tokens that refills one
    /// token every `refill_interval` milliseconds up to `max_capacity`.
    pub fn new(initial_capacity: usize, max_capacity: usize, refill_interval: u64) -> (b:
        TokenBucket)
        ensures
            b.tokens() == initial_capacity,
            b.capacity() == max_capacity,
            b.interval() == refill_interval,
    {
        TokenBucket { num_tokens: initial_capacity, max_capacity, refill_interval }
    }

    /// One tick of the refill task: adds a token unless the bucket is at
    /// (or beyond) its capacity, in which case nothing changes.
    pub fn refill_tick(&mut self) -> (added: bool)
        ensures
            old(self).tokens() < old(self).capacity() ==> added && final(self).tokens() == old(
                self,
            ).tokens() + 1,
            old(self).tokens() >= old(self).capacity() ==> !added && final(self).tokens() == old(
                self,
            ).tokens(),
            final(self).capacity() == old(self).capacity(),
            final(self).interval() == old(self).interval(),
    {
        if self.num_tokens < self.max_capacity {
            self.num_tokens = self.num_tokens + 1;
            true
        } else {
            false
        }
    }

    /// One attempt of a blocking consumer: takes a token if one is there;
    /// with `false` the caller must wait for a refill and try again.
    pub fn consume_step(&mut self) -> (got: bool)
        ensures
            old(self).tokens() > 0 ==> got && final(self).tokens() == old(self).tokens() - 1,
            old(self).tokens() == 0 ==> !got && final(self).tokens() == old(self).tokens(),
            final(self).capacity() == old(self).capacity(),
            final(self).interval() == old(self).interval(),
    {
        if self.num_tokens > 0 {
            self.num_tokens = self.num_tokens - 1;
            true
        } else {
            false
        }
    }

    /// The non-blocking consumer: takes a token if one is there, reports
    /// failure otherwise instead of waiting.
    pub fn try_consume(&mut self) -> (r: Option<()>)
        ensures
            old(self).tokens() > 0 ==> r is Some && final(self).tokens() == old(self).tokens() - 1,
            old(self).tokens() == 0 ==> r is None && final(self).tokens() == old(self).tokens(),
            final(self).capacity() == old(self).capacity(),
            final(self).interval() == old(self).interval(),
    {
        if self.consume_step() {
            Some(())
        } else {
            None
        }
    }
}

} // verus!
