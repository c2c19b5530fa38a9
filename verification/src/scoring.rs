//! Typing speed.

use vstd::prelude::*;

verus! {

/// Words per minute after `word_count` finished words, between the
/// start of typing (`start_time`, in seconds) and `duration` (the
/// current time, in seconds). The word being typed counts as one more
/// word. When no time has passed the speed is unbounded and saturates
/// at `u64::MAX`, as does any speed beyond it.
pub open spec fn words_per_minute(word_count: nat, duration: nat, start_time: nat) -> nat {
    if duration <= start_time {
        u64::MAX as nat
    } else {
        let wpm = (word_count + 1) * 60 / (duration - start_time) as nat;
        if wpm > u64::MAX { u64::MAX as nat } else { wpm }
    }
}

/// Words per minute, computed exactly in integers: the whole part of
/// `60 * (word_count + 1) / (duration - start_time)`.
pub fn get_wpm(word_count: usize, duration: u64, start_time: u64) -> (wpm: u64)
    requires
        start_time <= duration,
        word_count < usize::MAX,
    ensures
        wpm == words_per_minute(word_count as nat, duration as nat, start_time as nat),
        duration == start_time ==> wpm == u64::MAX,
        duration > start_time && (word_count + 1) * 60 < (u64::MAX + 1) * (duration - start_time) ==> wpm * (
        duration - start_time) <= (word_count + 1) * 60 < (wpm + 1) * (duration - start_time),
        duration > start_time && (word_count + 1) * 60 >= (u64::MAX + 1) * (duration - start_time) ==> wpm
            == u64::MAX,
{
    proof {
        lemma_words_per_minute_is_a_rate(word_count as nat, duration as nat, start_time as nat);
    }
    if duration == start_time {
        return u64::MAX;
    }
    let seconds: u128 = (duration - start_time) as u128;
    let words: u128 = word_count as u128 + 1;
    let wpm: u128 = words * 60 / seconds;
    if wpm > u64::MAX as u128 {
        u64::MAX
    } else {
        wpm as u64
    }
}

/// More finished words never lower the speed, and more elapsed time never
/// raises it.
pub proof fn lemma_words_per_minute_monotone(w1: nat, w2: nat, d1: nat, d2: nat, start: nat)
    requires
        w1 <= w2,
        start <= d1 <= d2,
    ensures
        words_per_minute(w1, d2, start) <= words_per_minute(w2, d2, start),
        words_per_minute(w2, d2, start) <= words_per_minute(w2, d1, start),
{
    if d2 > start {
        let t2 = (d2 - start) as int;
        vstd::arithmetic::div_mod::lemma_div_is_ordered(((w1 + 1) * 60) as int, ((w2 + 1) * 60) as int, t2);
        if d1 > start {
            let t1 = (d1 - start) as int;
            vstd::arithmetic::div_mod::lemma_div_is_ordered_by_denominator(((w2 + 1) * 60) as int, t1, t2);
        }
    }
}

/// The speed is the number of words (the finished ones and the one being
/// typed) per minute, rounded down: `wpm` whole words a minute fit in the
/// elapsed time and `wpm + 1` do not. Only a speed beyond `u64::MAX`, or no
/// elapsed time at all, gives `u64::MAX`.
pub proof fn lemma_words_per_minute_is_a_rate(word_count: nat, duration: nat, start_time: nat)
    ensures
        duration <= start_time ==> words_per_minute(word_count, duration, start_time) == u64::MAX,
        duration > start_time && (word_count + 1) * 60 < (u64::MAX + 1) * (duration - start_time) ==> {
            let wpm = words_per_minute(word_count, duration, start_time);
            &&& wpm * (duration - start_time) <= (word_count + 1) * 60
            &&& (word_count + 1) * 60 < (wpm + 1) * (duration - start_time)
        },
        duration > start_time && (word_count + 1) * 60 >= (u64::MAX + 1) * (duration - start_time)
            ==> words_per_minute(word_count, duration, start_time) == u64::MAX,
{
    if duration > start_time {
        let t = (duration - start_time) as int;
        let x = ((word_count + 1) * 60) as int;
        let q = x / t;
        assert(q * t <= x < (q + 1) * t) by (nonlinear_arith)
            requires
                t > 0,
                x >= 0,
                q == x / t,
        ;
        if x < (u64::MAX + 1) * t {
            assert(q <= u64::MAX) by (nonlinear_arith)
                requires
                    q * t <= x,
                    x < (u64::MAX + 1) * t,
                    t > 0,
            ;
        } else {
            assert(q > u64::MAX) by (nonlinear_arith)
                requires
                    x < (q + 1) * t,
                    x >= (u64::MAX + 1) * t,
                    t > 0,
            ;
        }
    }
}

} // verus!
