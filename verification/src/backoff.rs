//! Reconnect backoff policy: exponential, starting at 100 ms, doubling on
//! each consecutive failure, capped at 30 s.

use vstd::prelude::*;

verus! {

/// First retry delay, in milliseconds.
pub const BACKOFF_BASE_MS: u64 = 100;

/// Largest retry delay, in milliseconds.
pub const BACKOFF_CAP_MS: u64 = 30000;

/// The delay scheduled after `failures` consecutive connect failures:
/// 100 ms doubled `failures` times, capped at 30 000 ms.
pub open spec fn spec_backoff(failures: nat) -> int
    decreases failures,
{
    if failures == 0 {
        BACKOFF_BASE_MS as int
    } else if 2 * spec_backoff((failures - 1) as nat) >= BACKOFF_CAP_MS as int {
        BACKOFF_CAP_MS as int
    } else {
        2 * spec_backoff((failures - 1) as nat)
    }
}

/// The delay never leaves the band [base, cap].
pub proof fn lemma_backoff_in_band(failures: nat)
    ensures
        BACKOFF_BASE_MS as int <= spec_backoff(failures) <= BACKOFF_CAP_MS as int,
    decreases failures,
{
    if failures > 0 {
        lemma_backoff_in_band((failures - 1) as nat);
    }
}

/// The schedule is 100 ms, 200 ms, 400 ms, ... : each step doubles the
/// previous delay until the 30 s cap, and stays at the cap after that.
pub proof fn lemma_backoff_doubles(failures: nat)
    ensures
        spec_backoff(0) == BACKOFF_BASE_MS as int,
        spec_backoff(failures + 1) == if 2 * spec_backoff(failures) >= BACKOFF_CAP_MS as int {
            BACKOFF_CAP_MS as int
        } else {
            2 * spec_backoff(failures)
        },
{
}

/// From nine consecutive failures on, the delay sits at the cap.
pub proof fn lemma_backoff_saturates(failures: nat)
    requires
        failures >= 9,
    ensures
        spec_backoff(failures) == BACKOFF_CAP_MS as int,
    decreases failures,
{
    assert(spec_backoff(0) == 100);
    assert(spec_backoff(1) == 200);
    assert(spec_backoff(2) == 400);
    assert(spec_backoff(3) == 800);
    assert(spec_backoff(4) == 1600);
    assert(spec_backoff(5) == 3200);
    assert(spec_backoff(6) == 6400);
    assert(spec_backoff(7) == 12800);
    assert(spec_backoff(8) == 25600);
    assert(spec_backoff(9) == 30000);
    if failures > 9 {
        lemma_backoff_saturates((failures - 1) as nat);
    }
}

/// Computes the retry delay after `failures` consecutive failures.
pub fn backoff_delay_ms(failures: u32) -> (delay: u64)
    ensures
        delay == spec_backoff(failures as nat),
{
    if failures >= 9 {
        proof {
            lemma_backoff_saturates(failures as nat);
        }
        return BACKOFF_CAP_MS;
    }
    let mut delay: u64 = BACKOFF_BASE_MS;
    let mut i: u32 = 0;
    while i < failures
        invariant
            i <= failures,
            failures < 9,
            delay == spec_backoff(i as nat),
        decreases failures - i,
    {
        proof {
            lemma_backoff_in_band(i as nat);
        }
        if 2 * delay >= BACKOFF_CAP_MS {
            delay = BACKOFF_CAP_MS;
        } else {
            delay = 2 * delay;
        }
        i = i + 1;
    }
    delay
}

} // verus!
