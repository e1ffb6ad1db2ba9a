//! A single voice of a polyrhythm: a repeating pattern with a fixed period.
use crate::beat::{fits_i64, Beat, FULL_LEVEL};
use vstd::arithmetic::div_mod::{
    lemma_div_is_ordered, lemma_fundamental_div_mod, lemma_fundamental_div_mod_converse,
    lemma_mod_bound, lemma_mod_multiples_basic,
};
use vstd::prelude::*;

verus! {

/// Absolute value.
pub open spec fn abs(x: int) -> int {
    if x < 0 {
        -x
    } else {
        x
    }
}

/// A repeating rhythmic pattern with a fixed period.
#[derive(Debug, Clone)]
pub struct RhythmicCycle {
    /// Name/identifier for this cycle.
    pub name: String,
    /// Period, in ticks (e.g. three beats = `3 * TICKS_PER_BEAT`).
    pub period: Beat,
    /// Phase offset (the cycle starts shifted by this much).
    pub phase: Beat,
    /// Velocity/intensity pattern within one cycle, in millionths
    /// (`FULL_LEVEL` is full intensity).
    pub velocity_pattern: Vec<u64>,
}

impl RhythmicCycle {
    /// Distance of tick `t` past the phase.
    pub open spec fn offset(&self, t: int) -> int {
        t - self.phase.0
    }

    /// The cycle triggers at tick `t`: `t` lies a whole number of periods at or after the phase.
    pub open spec fn triggers_at_tick(&self, t: int) -> bool {
        &&& self.offset(t) >= 0
        &&& self.period.0 != 0
        &&& self.offset(t) % abs(self.period.0 as int) == 0
    }

    /// The tick that `next_trigger_after` answers for `beat`: the phase for a beat before
    /// it, otherwise the next whole number of periods (by magnitude) past the phase.
    pub open spec fn spec_next_trigger_after(&self, beat: Beat) -> int {
        let adjusted = self.offset(beat.0 as int);
        let p = abs(self.period.0 as int);
        if adjusted < 0 {
            self.phase.0 as int
        } else {
            let remainder = adjusted % p;
            if remainder == 0 {
                beat.0 + p
            } else {
                beat.0 + (p - remainder)
            }
        }
    }

    /// The first tick that a listing of triggers starts from: the phase, or, when the phase
    /// lies before the origin, the first trigger at or after the origin (the origin itself
    /// when the period does not move forward).
    pub open spec fn first_listed(&self) -> int {
        let phase = self.phase.0 as int;
        let p = self.period.0 as int;
        if phase >= 0 {
            phase
        } else if p > 0 {
            phase + ((p - 1 - phase) / p) * p
        } else {
            0
        }
    }

    /// Triggers up to `max_beat` can be listed: the period moves forward, or there is
    /// nothing to list.
    pub open spec fn listable(&self, max_beat: Beat) -> bool {
        self.period.0 > 0 || self.first_listed() > max_beat.0
    }

    /// How many triggers a listing up to `max_beat` holds.
    pub open spec fn trigger_count(&self, max_beat: Beat) -> nat {
        if max_beat.0 < self.first_listed() {
            0
        } else {
            ((max_beat.0 - self.first_listed()) / (self.period.0 as int) + 1) as nat
        }
    }

    /// The listing of triggers up to `max_beat`: one per period from `first_listed`.
    pub open spec fn trigger_list(&self, max_beat: Beat) -> Seq<Beat> {
        Seq::new(
            self.trigger_count(max_beat),
            |k: int| Beat((self.first_listed() + k * self.period.0) as i64),
        )
    }

    /// Tick `t` belongs to the listing up to `max`.
    pub open spec fn listed_within(&self, t: int, max: int) -> bool {
        &&& self.first_listed() <= t <= max
        &&& (t - self.first_listed()) % (self.period.0 as int) == 0
    }

    /// The velocity that `velocity_at` answers for `beat`: full level without a pattern,
    /// zero before the phase, otherwise the pattern step that the beat's position within
    /// the period falls in (the first step when the period is not positive).
    pub open spec fn spec_velocity_at(&self, beat: Beat) -> u64 {
        let n = self.velocity_pattern.len();
        let adjusted = self.offset(beat.0 as int);
        if n == 0 {
            FULL_LEVEL
        } else if adjusted < 0 {
            0
        } else if self.period.0 <= 0 {
            self.velocity_pattern[0]
        } else {
            let p = self.period.0 as int;
            self.velocity_pattern[(adjusted % p) * n / p]
        }
    }

    /// Create a new rhythmic cycle with the given period, no phase offset and no
    /// velocity pattern.
    pub fn new(name: &str, period: Beat) -> (r: RhythmicCycle)
        ensures
            r.name@ == name@,
            r.period == period,
            r.phase.0 == 0,
            r.velocity_pattern@.len() == 0,
    {
        RhythmicCycle {
            name: name.to_owned(),
            period,
            phase: Beat::zero(),
            velocity_pattern: Vec::new(),
        }
    }

    /// Set the phase offset.
    pub fn with_phase(self, phase: Beat) -> (r: RhythmicCycle)
        ensures
            r.name == self.name,
            r.period == self.period,
            r.phase == phase,
            r.velocity_pattern == self.velocity_pattern,
    {
        let mut c = self;
        c.phase = phase;
        c
    }

    /// Set the velocity pattern (intensities within one cycle, in millionths).
    pub fn with_velocity_pattern(self, pattern: Vec<u64>) -> (r: RhythmicCycle)
        ensures
            r.name == self.name,
            r.period == self.period,
            r.phase == self.phase,
            r.velocity_pattern == pattern,
    {
        let mut c = self;
        c.velocity_pattern = pattern;
        c
    }

    /// Does this cycle trigger at the given beat?
    pub fn triggers_at(&self, beat: Beat) -> (r: bool)
        ensures
            r == self.triggers_at_tick(beat.0 as int),
    {
        let adjusted: i128 = beat.0 as i128 - self.phase.0 as i128;
        if adjusted < 0 {
            return false;
        }
        if self.period.0 == 0 {
            return false;
        }
        let p: i128 = self.period.0 as i128;
        let remainder: i128 = adjusted % p;
        proof {
            lemma_rem_by_signed(adjusted as int, p as int);
        }
        remainder == 0
    }

    /// The next trigger strictly after the given beat (the phase, for a beat before it).
    ///
    /// At or after the phase the period must not be zero; the answer must fit the timeline.
    pub fn next_trigger_after(&self, beat: Beat) -> (r: Beat)
        requires
            self.period.0 != 0 || beat.0 < self.phase.0,
            fits_i64(self.spec_next_trigger_after(beat)),
        ensures
            r.0 == self.spec_next_trigger_after(beat),
            self.period.0 != 0 ==> {
                &&& r.0 > beat.0
                &&& self.triggers_at_tick(r.0 as int)
                &&& forall|t: int| beat.0 < t < r.0 ==> !#[trigger] self.triggers_at_tick(t)
            },
    {
        proof {
            if self.period.0 != 0 {
                lemma_next_trigger_is_next(*self, beat);
            }
        }
        let adjusted: i128 = beat.0 as i128 - self.phase.0 as i128;
        if adjusted < 0 {
            return self.phase;
        }
        let p: i128 = if self.period.0 < 0 {
            -(self.period.0 as i128)
        } else {
            self.period.0 as i128
        };
        let remainder: i128 = adjusted % p;
        let next: i128 = if remainder == 0 {
            beat.0 as i128 + p
        } else {
            beat.0 as i128 + (p - remainder)
        };
        Beat(next as i64)
    }

    /// The trigger beats from the phase (or from the first trigger at or after the origin,
    /// if the phase lies before it) up to and including `max_beat`, one per period.
    pub fn triggers_up_to(&self, max_beat: Beat) -> (r: Vec<Beat>)
        requires
            self.listable(max_beat),
        ensures
            r@ == self.trigger_list(max_beat),
    {
        let mut triggers: Vec<Beat> = Vec::new();
        let phase: i128 = self.phase.0 as i128;
        let period: i128 = self.period.0 as i128;
        let start: i128 = if phase >= 0 {
            phase
        } else if period > 0 {
            let span: i128 = period - 1 - phase;
            let whole: i128 = span / period;
            proof {
                lemma_fundamental_div_mod(span as int, period as int);
                lemma_mod_bound(span as int, period as int);
                assert(0 <= whole * period <= span) by (nonlinear_arith)
                    requires
                        span == period * whole + span % period,
                        0 <= span % period < period,
                        span > 0,
                        period > 0,
                ;
            }
            phase + whole * period
        } else {
            0
        };
        proof {
            if phase < 0 && period > 0 {
                lemma_first_listed_bounds(*self);
            }
        }
        let max: i128 = max_beat.0 as i128;
        if start > max {
            assert(triggers@ =~= self.trigger_list(max_beat));
            return triggers;
        }
        let p: i128 = self.period.0 as i128;
        let mut current: i128 = start;
        let ghost mut k: int = 0;
        while current <= max
            invariant
                p == self.period.0,
                p > 0,
                start == self.first_listed(),
                start <= max,
                max == max_beat.0,
                k >= 0,
                current == start + k * p,
                k == 0 || current - p <= max,
                triggers@.len() == k,
                forall|j: int|
                    0 <= j < k ==> #[trigger] triggers@[j] == Beat((start + j * p) as i64),
            decreases max + p - current,
        {
            triggers.push(Beat(current as i64));
            proof {
                assert((k + 1) * p == k * p + p) by (nonlinear_arith);
                k = k + 1;
            }
            current = current + p;
        }
        proof {
            // (k - 1) * p <= max - start < k * p
            let q = k - 1;
            let rem = (max - start) - q * p;
            assert(q * p + p == k * p) by (nonlinear_arith)
                requires
                    q == k - 1,
            ;
            lemma_fundamental_div_mod_converse(max - start, p as int, q, rem);
            assert(self.trigger_count(max_beat) == k);
        }
        assert(triggers@ =~= self.trigger_list(max_beat));
        triggers
    }

    /// Velocity at a given beat, read from the velocity pattern: the pattern's steps
    /// divide one period evenly; full level when there is no pattern, zero before the phase.
    pub fn velocity_at(&self, beat: Beat) -> (r: u64)
        ensures
            r == self.spec_velocity_at(beat),
    {
        let n: usize = self.velocity_pattern.len();
        if n == 0 {
            return FULL_LEVEL;
        }
        let adjusted: i128 = beat.0 as i128 - self.phase.0 as i128;
        if adjusted < 0 {
            return 0;
        }
        if self.period.0 <= 0 {
            return self.velocity_pattern[0];
        }
        let p: i128 = self.period.0 as i128;
        let position: i128 = adjusted % p;
        proof {
            lemma_mod_bound(adjusted as int, p as int);
        }
        assert((position as u128) * (n as u128) < 0x8000_0000_0000_0000u128 * 0x1_0000_0000_0000_0000u128)
            by (nonlinear_arith)
            requires
                0 <= position < 0x8000_0000_0000_0000,
                0 < n < 0x1_0000_0000_0000_0000,
        ;
        let scaled: u128 = (position as u128) * (n as u128);
        let idx: u128 = scaled / (p as u128);
        proof {
            lemma_scaled_index_below(position as int, n as int, p as int);
        }
        self.velocity_pattern[idx as usize]
    }

    /// How many triggers occur in `[0, duration]`.
    pub fn count_triggers(&self, duration: Beat) -> (r: usize)
        requires
            self.listable(duration),
        ensures
            r == self.trigger_count(duration),
    {
        self.triggers_up_to(duration).len()
    }
}

/// For `a >= 0`, the remainder by a signed divisor is the remainder by its magnitude.
pub proof fn lemma_rem_by_signed(a: int, m: int)
    requires
        a >= 0,
        m != 0,
    ensures
        a % m == a % abs(m),
{
    if m < 0 {
        let q = a / m;
        let r = a % m;
        lemma_fundamental_div_mod(a, m);
        lemma_mod_bound(a, abs(m));
        assert(0 <= r < abs(m)) by {
            // Euclidean remainder is non-negative and below |m|
            assert(0 <= a % m < abs(m));
        }
        assert(a == (-q) * abs(m) + r) by (nonlinear_arith)
            requires
                a == m * q + r,
                m < 0,
        ;
        lemma_fundamental_div_mod_converse(a, abs(m), -q, r);
    }
}

/// `position * n / p < n` when `0 <= position < p`.
proof fn lemma_scaled_index_below(position: int, n: int, p: int)
    requires
        0 <= position < p,
        n > 0,
    ensures
        0 <= (position * n) / p < n,
{
    assert(0 <= position * n < p * n) by (nonlinear_arith)
        requires
            0 <= position < p,
            n > 0,
    ;
    lemma_fundamental_div_mod(position * n, p);
    lemma_mod_bound(position * n, p);
    let q = (position * n) / p;
    assert(0 <= q < n) by (nonlinear_arith)
        requires
            position * n == p * q + (position * n) % p,
            0 <= (position * n) % p < p,
            0 <= position * n < p * n,
            p > 0,
    ;
}

/// A tick is in the listing of triggers up to `max_beat` exactly when it lies between
/// the first listed tick and `max_beat`, a whole number of periods after the first.
pub proof fn lemma_trigger_list_members(c: RhythmicCycle, max_beat: Beat, t: Beat)
    requires
        c.period.0 > 0,
    ensures
        c.trigger_list(max_beat).contains(t) <==> c.listed_within(t.0 as int, max_beat.0 as int),
{
    let p = c.period.0 as int;
    let start = c.first_listed();
    let max = max_beat.0 as int;
    let list = c.trigger_list(max_beat);
    if list.contains(t) {
        let k = choose|k: int| 0 <= k < list.len() && list[k] == t;
        assert(max >= start);
        let q = (max - start) / p;
        lemma_fundamental_div_mod(max - start, p);
        lemma_mod_bound(max - start, p);
        assert(k <= q);
        assert(k * p <= q * p) by (nonlinear_arith)
            requires
                0 <= k <= q,
                p > 0,
        ;
        assert(0 <= k * p) by (nonlinear_arith)
            requires
                0 <= k,
                p > 0,
        ;
        assert(start + k * p <= max);
        assert(start + k * p <= i64::MAX);
        assert(t.0 == start + k * p);
        lemma_mod_multiples_basic(k, p);
    }
    if c.listed_within(t.0 as int, max) {
        let d = t.0 - start;
        let k = d / p;
        lemma_fundamental_div_mod(d, p);
        assert(d == k * p);
        lemma_div_is_ordered(d, max - start, p);
        assert(0 <= k) by {
            vstd::arithmetic::div_mod::lemma_div_pos_is_pos(d, p);
        }
        assert(k < c.trigger_count(max_beat));
        assert(list[k] == Beat((start + k * p) as i64));
        assert(list[k] == t);
    }
}

/// The `k`-th listed trigger lies `k` periods after the first listed tick, and not after
/// `max_beat`.
pub proof fn lemma_trigger_list_entry(c: RhythmicCycle, max_beat: Beat, k: int)
    requires
        c.period.0 > 0,
        0 <= k < c.trigger_count(max_beat),
    ensures
        c.first_listed() <= c.first_listed() + k * c.period.0 <= max_beat.0,
        c.trigger_list(max_beat)[k].0 == c.first_listed() + k * c.period.0,
{
    let p = c.period.0 as int;
    let start = c.first_listed();
    let max = max_beat.0 as int;
    let q = (max - start) / p;
    lemma_fundamental_div_mod(max - start, p);
    lemma_mod_bound(max - start, p);
    assert(0 <= k * p <= q * p) by (nonlinear_arith)
        requires
            0 <= k <= q,
            p > 0,
    ;
}

/// Listed triggers strictly increase.
pub proof fn lemma_trigger_list_increasing(c: RhythmicCycle, max_beat: Beat, j: int, k: int)
    requires
        c.period.0 > 0,
        0 <= j < k < c.trigger_count(max_beat),
    ensures
        c.trigger_list(max_beat)[j].0 < c.trigger_list(max_beat)[k].0,
{
    lemma_trigger_list_entry(c, max_beat, j);
    lemma_trigger_list_entry(c, max_beat, k);
    assert(j * c.period.0 < k * c.period.0) by (nonlinear_arith)
        requires
            j < k,
            c.period.0 > 0,
    ;
}

/// With a forward period, the first listed tick is the first trigger at or after the origin
/// (or the phase): it lies a whole number `k >= 0` of periods after the phase, and less than
/// one period after the origin when the phase lies before the origin.
pub proof fn lemma_first_listed_bounds(c: RhythmicCycle)
    requires
        c.period.0 > 0,
    ensures
        c.first_listed() >= 0,
        c.phase.0 < 0 ==> c.first_listed() < c.period.0,
        c.first_listed() >= c.phase.0,
        (c.first_listed() - c.phase.0) % (c.period.0 as int) == 0,
{
    let phase = c.phase.0 as int;
    let p = c.period.0 as int;
    if phase < 0 {
        let n = p - 1 - phase;
        let k = n / p;
        lemma_fundamental_div_mod(n, p);
        lemma_mod_bound(n, p);
        assert(k >= 0) by {
            vstd::arithmetic::div_mod::lemma_div_pos_is_pos(n, p);
        }
        assert(k * p == p * k) by (nonlinear_arith);
        lemma_mod_multiples_basic(k, p);
    } else {
        lemma_mod_multiples_basic(0, p);
    }
}

/// A tick up to `max` is listed exactly when it is not before the origin and the cycle
/// triggers there.
pub proof fn lemma_listed_iff_triggers(c: RhythmicCycle, t: int, max: int)
    requires
        c.period.0 > 0,
        t <= max,
    ensures
        c.listed_within(t, max) <==> (t >= 0 && c.triggers_at_tick(t)),
{
    let p = c.period.0 as int;
    let phase = c.phase.0 as int;
    let first = c.first_listed();
    lemma_first_listed_bounds(c);
    // first == phase + k * p
    let k = (first - phase) / p;
    lemma_fundamental_div_mod(first - phase, p);
    assert(k >= 0) by {
        vstd::arithmetic::div_mod::lemma_div_pos_is_pos(first - phase, p);
    }
    if c.listed_within(t, max) {
        let j = (t - first) / p;
        lemma_fundamental_div_mod(t - first, p);
        assert(j >= 0) by {
            vstd::arithmetic::div_mod::lemma_div_pos_is_pos(t - first, p);
        }
        assert(t - phase == (j + k) * p) by (nonlinear_arith)
            requires
                t - first == p * j,
                first - phase == p * k,
        ;
        lemma_mod_multiples_basic(j + k, p);
    }
    if t >= 0 && c.triggers_at_tick(t) {
        let m = (t - phase) / p;
        lemma_fundamental_div_mod(t - phase, p);
        // t - first == (m - k) * p, and m >= k because first - p < 0 <= t
        assert(t - first == (m - k) * p) by (nonlinear_arith)
            requires
                t - phase == p * m,
                first - phase == p * k,
        ;
        if phase < 0 {
            assert(m - k >= 0) by (nonlinear_arith)
                requires
                    t - first == (m - k) * p,
                    t >= 0,
                    first < p,
                    p > 0,
            ;
        } else {
            assert(first == phase);
            assert(m - k >= 0) by (nonlinear_arith)
                requires
                    t - first == (m - k) * p,
                    t - phase >= 0,
                    first == phase,
                    p > 0,
            ;
        }
        assert((m - k) * p >= 0) by (nonlinear_arith)
            requires
                m - k >= 0,
                p > 0,
        ;
        lemma_mod_multiples_basic(m - k, p);
    }
}

/// The listing up to `max_beat` (and so what `count_triggers` counts) holds exactly the
/// triggers in `[0, max_beat]`.
pub proof fn lemma_listing_is_triggers_from_origin(c: RhythmicCycle, max_beat: Beat, t: Beat)
    requires
        c.period.0 > 0,
    ensures
        c.trigger_list(max_beat).contains(t) <==> (0 <= t.0 <= max_beat.0 && c.triggers_at_tick(
            t.0 as int,
        )),
{
    lemma_trigger_list_members(c, max_beat, t);
    lemma_first_listed_bounds(c);
    if t.0 <= max_beat.0 {
        lemma_listed_iff_triggers(c, t.0 as int, max_beat.0 as int);
    }
}

/// The next trigger after `beat` lies strictly after it, is a trigger, and no trigger
/// lies between them: it is the earliest trigger strictly after `beat`.
pub proof fn lemma_next_trigger_is_next(c: RhythmicCycle, beat: Beat)
    requires
        c.period.0 != 0,
    ensures
        c.spec_next_trigger_after(beat) > beat.0,
        c.triggers_at_tick(c.spec_next_trigger_after(beat)),
        forall|t: int|
            beat.0 < t < c.spec_next_trigger_after(beat) ==> !#[trigger] c.triggers_at_tick(t),
{
    let p = abs(c.period.0 as int);
    let adjusted = c.offset(beat.0 as int);
    let next = c.spec_next_trigger_after(beat);
    if adjusted < 0 {
        assert(c.offset(next) == 0);
        lemma_mod_multiples_basic(0, p);
    } else {
        let q = adjusted / p;
        let r = adjusted % p;
        lemma_fundamental_div_mod(adjusted, p);
        lemma_mod_bound(adjusted, p);
        // next - phase == (q + 1) * p
        assert(c.offset(next) == (q + 1) * p) by (nonlinear_arith)
            requires
                adjusted == p * q + r,
                r == 0 ==> next == beat.0 + p,
                r != 0 ==> next == beat.0 + (p - r),
                adjusted == beat.0 - c.phase.0,
                c.offset(next) == next - c.phase.0,
        ;
        assert(q >= 0) by {
            vstd::arithmetic::div_mod::lemma_div_pos_is_pos(adjusted, p);
        }
        lemma_mod_multiples_basic(q + 1, p);
        assert forall|t: int| beat.0 < t < next implies !#[trigger] c.triggers_at_tick(t) by {
            if c.triggers_at_tick(t) {
                let o = c.offset(t);
                let j = o / p;
                lemma_fundamental_div_mod(o, p);
                // q * p <= adjusted < o < (q + 1) * p, and o is a multiple of p
                assert(false) by (nonlinear_arith)
                    requires
                        o == p * j,
                        adjusted < o,
                        o < (q + 1) * p,
                        adjusted == p * q + r,
                        0 <= r < p,
                        p > 0,
                ;
            }
        }
    }
}

/// At or after the phase, the velocity repeats one period later.
pub proof fn lemma_velocity_repeats_each_period(c: RhythmicCycle, beat: Beat)
    requires
        c.period.0 > 0,
        c.offset(beat.0 as int) >= 0,
        fits_i64(beat.0 + c.period.0),
    ensures
        c.spec_velocity_at(Beat((beat.0 + c.period.0) as i64)) == c.spec_velocity_at(beat),
{
    let p = c.period.0 as int;
    let a = c.offset(beat.0 as int);
    lemma_fundamental_div_mod(a, p);
    lemma_mod_bound(a, p);
    assert(a + p == (a / p + 1) * p + a % p) by (nonlinear_arith)
        requires
            a == p * (a / p) + a % p,
    ;
    lemma_fundamental_div_mod_converse(a + p, p, a / p + 1, a % p);
    assert(c.offset((beat.0 + c.period.0) as i64 as int) == a + p);
}


/// With a forward period `p` and a pattern of `n` steps, the steps split each period into
/// `n` equal parts: a beat `m` whole periods and `o` ticks past the phase, where
/// `k * p <= o * n < (k + 1) * p`, gets the velocity of step `k`.
pub proof fn lemma_velocity_reads_step(c: RhythmicCycle, beat: Beat, m: int, o: int, k: int)
    requires
        c.period.0 > 0,
        c.velocity_pattern@.len() > 0,
        m >= 0,
        0 <= o < c.period.0,
        0 <= k < c.velocity_pattern@.len(),
        k * c.period.0 <= o * c.velocity_pattern@.len() < (k + 1) * c.period.0,
        beat.0 == c.phase.0 + m * c.period.0 + o,
    ensures
        c.spec_velocity_at(beat) == c.velocity_pattern@[k],
{
    let p = c.period.0 as int;
    let n = c.velocity_pattern@.len() as int;
    let a = c.offset(beat.0 as int);
    assert(a == m * p + o);
    lemma_fundamental_div_mod_converse(a, p, m, o);
    assert(o * n == k * p + (o * n - k * p));
    assert((k + 1) * p == k * p + p) by (nonlinear_arith);
    lemma_fundamental_div_mod_converse(o * n, p, k, o * n - k * p);
    assert(c.spec_velocity_at(beat) == c.velocity_pattern[k]);
}


/// Outside the steps of a forward period: full level when there is no pattern, silence
/// before the phase, and the first step when the period does not move forward.
pub proof fn lemma_velocity_outside_steps(c: RhythmicCycle, beat: Beat)
    ensures
        c.velocity_pattern@.len() == 0 ==> c.spec_velocity_at(beat) == FULL_LEVEL,
        c.velocity_pattern@.len() > 0 && beat.0 < c.phase.0 ==> c.spec_velocity_at(beat) == 0,
        c.velocity_pattern@.len() > 0 && beat.0 >= c.phase.0 && c.period.0 <= 0
            ==> c.spec_velocity_at(beat) == c.velocity_pattern@[0],
{
}

} // verus!
