use vstd::prelude::*;

verus! {

/// Bit of CNTP_CTL_EL0 that starts the timer.
pub const ENABLE_BIT: u32 = 0;

pub const NANOSECONDS_PER_SECOND: u64 = 1_000_000_000;

/// `a / b`, rounded up.
pub open spec fn div_up(a: int, b: int) -> int {
    (a + b - 1) / b
}

/// How many ticks of a `rate` per second clock last at least `secs` seconds
/// and `subsec_nanos` nanoseconds: rounded up, since waits promise *at least*
/// the requested time.
pub open spec fn spec_ticks_from(secs: u64, subsec_nanos: u32, rate: u64) -> int {
    secs * rate + div_up(subsec_nanos * rate, NANOSECONDS_PER_SECOND as int)
}

/// The ticks for a duration last at least that duration, and less than one
/// tick more: in nanosecond-ticks, the rounded count covers the duration
/// and overshoots it by less than a whole tick.
pub proof fn lemma_ticks_cover(secs: u64, subsec_nanos: u32, rate: u64)
    ensures
        spec_ticks_from(secs, subsec_nanos, rate) * NANOSECONDS_PER_SECOND >= (secs
            * NANOSECONDS_PER_SECOND + subsec_nanos) * rate,
        spec_ticks_from(secs, subsec_nanos, rate) * NANOSECONDS_PER_SECOND < (secs
            * NANOSECONDS_PER_SECOND + subsec_nanos) * rate + NANOSECONDS_PER_SECOND,
{
    let n = NANOSECONDS_PER_SECOND as int;
    let x = subsec_nanos * rate;
    vstd::arithmetic::mul::lemma_mul_nonnegative(subsec_nanos as int, rate as int);
    vstd::arithmetic::div_mod::lemma_fundamental_div_mod(x + n - 1, n);
    let c = (x + n - 1) / n;
    let r = (x + n - 1) % n;
    assert(c * n == x + n - 1 - r) by {
        vstd::arithmetic::mul::lemma_mul_is_commutative(c, n);
    }
    let t = secs * rate + c;
    assert(t * n == secs * rate * n + c * n) by (nonlinear_arith)
        requires
            t == secs * rate + c,
    ;
    assert((secs * n + subsec_nanos) * rate == secs * rate * n + x) by (nonlinear_arith)
        requires
            x == subsec_nanos * rate,
    ;
}

/// Ticks of a clock running at `rate` per second for a duration of `secs`
/// seconds and `subsec_nanos` nanoseconds, rounded up.
pub fn ticks_from(secs: u64, subsec_nanos: u32, rate: u64) -> (ticks: u64)
    requires
        subsec_nanos * rate <= u64::MAX,
        spec_ticks_from(secs, subsec_nanos, rate) <= u64::MAX,
    ensures
        ticks == spec_ticks_from(secs, subsec_nanos, rate),
{
    let product = subsec_nanos as u64 * rate;
    let whole_part = product / NANOSECONDS_PER_SECOND;
    let fraction = if product % NANOSECONDS_PER_SECOND != 0 {
        whole_part + 1
    } else {
        whole_part
    };
    proof {
        let n = NANOSECONDS_PER_SECOND as int;
        vstd::arithmetic::div_mod::lemma_fundamental_div_mod(product as int, n);
        let q = product as int / n;
        let r = product as int % n;
        vstd::arithmetic::mul::lemma_mul_is_commutative(q, n);
        if r == 0 {
            vstd::arithmetic::div_mod::lemma_fundamental_div_mod_converse(product + n - 1, n, q, n - 1);
        } else {
            vstd::arithmetic::mul::lemma_mul_is_distributive_add(n, q, 1);
            vstd::arithmetic::mul::lemma_mul_is_commutative(q + 1, n);
            vstd::arithmetic::div_mod::lemma_fundamental_div_mod_converse(product + n - 1, n, q + 1, r - 1);
        }
        vstd::arithmetic::mul::lemma_mul_nonnegative(secs as int, rate as int);
    }
    secs * rate + fraction
}

/// A count of `ticks` of a clock running at `rate` per second, as whole
/// seconds and the nanoseconds left over, rounded down.
pub fn duration_from(ticks: u64, rate: u64) -> (duration: (u64, u32))
    requires
        rate > 0,
        rate * NANOSECONDS_PER_SECOND <= u64::MAX,
    ensures
        duration.0 == ticks / rate,
        duration.1 == (ticks % rate) * NANOSECONDS_PER_SECOND / rate as int,
        duration.1 < NANOSECONDS_PER_SECOND,
{
    let seconds = ticks / rate;
    let remainder = ticks % rate;
    proof {
        assert(remainder * NANOSECONDS_PER_SECOND < rate * NANOSECONDS_PER_SECOND) by (nonlinear_arith)
            requires
                remainder < rate,
        ;
        vstd::arithmetic::div_mod::lemma_multiply_divide_lt(
            remainder * NANOSECONDS_PER_SECOND as int,
            rate as int,
            NANOSECONDS_PER_SECOND as int,
        );
        vstd::arithmetic::mul::lemma_mul_is_commutative(rate as int, NANOSECONDS_PER_SECOND as int);
    }
    (seconds, (remainder * NANOSECONDS_PER_SECOND / rate) as u32)
}

/// Timer ticks between interrupts for `hz` interrupts a second of a counter
/// running at `freq`.
pub fn interval_for(freq: u64, hz: u32) -> (interval: u64)
    requires
        hz > 0,
    ensures
        interval == freq / (hz as u64),
{
    freq / hz as u64
}

/// The next deadline after an interrupt at `compare`: the first one a whole
/// number of intervals on that is still ahead of the counter at `count`.
/// Absolute, so that the handler's latency does not accumulate.
pub fn next_deadline(compare: u64, interval: u64, count: u64) -> (deadline: u64)
    requires
        interval > 0,
        compare <= count,
        count + interval <= u64::MAX,
    ensures
        deadline > count,
        deadline - interval <= count,
        deadline == compare + interval * ((count - compare) / interval as int + 1),
{
    let mut deadline = compare;
    let ghost mut k: int = 0;
    loop
        invariant_except_break
            compare <= deadline <= count,
            deadline == compare + interval * k,
            k >= 0,
        invariant
            interval > 0,
            compare <= count,
            count + interval <= u64::MAX,
        ensures
            deadline > count,
            deadline - interval <= count,
            deadline == compare + interval * ((count - compare) / interval as int + 1),
        decreases count - deadline,
    {
        deadline += interval;
        proof {
            k = k + 1;
            vstd::arithmetic::mul::lemma_mul_is_distributive_add(interval as int, k - 1, 1);
        }
        if deadline > count {
            proof {
                let d = count - compare;
                assert(interval * (k - 1) <= d < interval * k);
                vstd::arithmetic::div_mod::lemma_fundamental_div_mod(d, interval as int);
                let q = d / interval as int;
                if q < k - 1 {
                    vstd::arithmetic::mul::lemma_mul_inequality(q + 1, k - 1, interval as int);
                    vstd::arithmetic::mul::lemma_mul_is_commutative(q + 1, interval as int);
                    vstd::arithmetic::mul::lemma_mul_is_commutative(k - 1, interval as int);
                    vstd::arithmetic::mul::lemma_mul_is_distributive_add(interval as int, q, 1);
                }
                if q > k - 1 {
                    vstd::arithmetic::mul::lemma_mul_inequality(k, q, interval as int);
                    vstd::arithmetic::mul::lemma_mul_is_commutative(k, interval as int);
                    vstd::arithmetic::mul::lemma_mul_is_commutative(q, interval as int);
                }
            }
            break;
        }
    }
    deadline
}

/// The counter value a busy wait of `secs` seconds and `subsec_nanos`
/// nanoseconds, starting with the counter at `now` and counting `freq` per
/// second, waits for.
pub fn delay(now: u64, secs: u64, subsec_nanos: u32, freq: u64) -> (deadline: u64)
    requires
        subsec_nanos * freq <= u64::MAX,
        now + spec_ticks_from(secs, subsec_nanos, freq) <= u64::MAX,
    ensures
        deadline == now + spec_ticks_from(secs, subsec_nanos, freq),
{
    proof {
        vstd::arithmetic::mul::lemma_mul_nonnegative(secs as int, freq as int);
        vstd::arithmetic::mul::lemma_mul_nonnegative(subsec_nanos as int, freq as int);
    }
    now + ticks_from(secs, subsec_nanos, freq)
}

/// The heartbeat count a sleep of `secs` seconds and `subsec_nanos`
/// nanoseconds, starting at heartbeat `start` of `hz` a second, waits for.
/// The current tick is already partly spent, so one more tick is what makes
/// the sleep *at least* the duration rather than up to one tick less.
pub fn sleep(start: u64, secs: u64, subsec_nanos: u32, hz: u64) -> (target: u64)
    requires
        subsec_nanos * hz <= u64::MAX,
        start + spec_ticks_from(secs, subsec_nanos, hz) + 1 <= u64::MAX,
    ensures
        target == start + spec_ticks_from(secs, subsec_nanos, hz) + 1,
{
    proof {
        vstd::arithmetic::mul::lemma_mul_nonnegative(secs as int, hz as int);
        vstd::arithmetic::mul::lemma_mul_nonnegative(subsec_nanos as int, hz as int);
    }
    start + ticks_from(secs, subsec_nanos, hz) + 1
}

} // verus!
