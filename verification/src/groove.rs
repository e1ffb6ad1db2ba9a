//! The groove point: the first beat at which every voice lines up again.
use crate::arith::{divides, lcm, lemma_lcm_common_multiple, lemma_lcm_least, spec_lcm};
use crate::beat::{fits_i64, Beat, TICKS_PER_BEAT};
use crate::cycle::RhythmicCycle;
use vstd::arithmetic::div_mod::{lemma_fundamental_div_mod, lemma_mod_multiples_basic};
use vstd::prelude::*;

verus! {

/// A period rounded to the nearest whole number of beats (halves round up);
/// zero for a period that is not positive.
pub open spec fn spec_whole_beats(period: Beat) -> nat {
    if period.0 <= 0 {
        0
    } else {
        ((period.0 + TICKS_PER_BEAT / 2) / (TICKS_PER_BEAT as int)) as nat
    }
}

/// The least common multiple of the positive whole-beat periods of `cycles`
/// (1 when there is none), folded from the first cycle to the last.
pub open spec fn periods_lcm(cycles: Seq<RhythmicCycle>) -> nat
    decreases cycles.len(),
{
    if cycles.len() == 0 {
        1
    } else {
        let acc = periods_lcm(cycles.drop_last());
        let w = spec_whole_beats(cycles.last().period);
        if w > 0 {
            spec_lcm(acc, w)
        } else {
            acc
        }
    }
}

/// Some cycle has a period of at least one whole beat (after rounding).
pub open spec fn has_whole_period(cycles: Seq<RhythmicCycle>) -> bool {
    exists|j: int| 0 <= j < cycles.len() && spec_whole_beats(#[trigger] cycles[j].period) > 0
}

/// The groove point, in ticks: the least common multiple of the whole-beat periods,
/// or the origin when no cycle has a whole-beat period.
pub open spec fn spec_groove_point(cycles: Seq<RhythmicCycle>) -> int {
    if has_whole_period(cycles) {
        periods_lcm(cycles) * TICKS_PER_BEAT
    } else {
        0
    }
}

/// The period rounded to whole beats (halves round up; zero when not positive).
pub fn whole_beats(period: Beat) -> (r: u64)
    ensures
        r == spec_whole_beats(period),
{
    if period.0 <= 0 {
        0
    } else {
        let ticks: i128 = period.0 as i128 + (TICKS_PER_BEAT / 2) as i128;
        (ticks / (TICKS_PER_BEAT as i128)) as u64
    }
}

proof fn lemma_periods_lcm_positive(cycles: Seq<RhythmicCycle>)
    ensures
        periods_lcm(cycles) > 0,
    decreases cycles.len(),
{
    if cycles.len() > 0 {
        lemma_periods_lcm_positive(cycles.drop_last());
        let w = spec_whole_beats(cycles.last().period);
        if w > 0 {
            lemma_lcm_common_multiple(periods_lcm(cycles.drop_last()), w);
        }
    }
}

/// Folding over a prefix never gives more than folding over the whole sequence.
proof fn lemma_periods_lcm_prefix(cycles: Seq<RhythmicCycle>, i: int)
    requires
        0 <= i <= cycles.len(),
    ensures
        periods_lcm(cycles.take(i)) <= periods_lcm(cycles),
    decreases cycles.len(),
{
    if i == cycles.len() {
        assert(cycles.take(i) =~= cycles);
    } else {
        let rest = cycles.drop_last();
        assert(cycles.take(i) =~= rest.take(i));
        lemma_periods_lcm_prefix(rest, i);
        lemma_periods_lcm_positive(rest);
        let w = spec_whole_beats(cycles.last().period);
        if w > 0 {
            lemma_lcm_common_multiple(periods_lcm(rest), w);
        }
    }
}

proof fn lemma_divides_trans(a: nat, b: nat, c: int)
    requires
        divides(a, b as int),
        divides(b, c),
    ensures
        divides(a, c),
{
    let x = b as int / a as int;
    let y = c / b as int;
    lemma_fundamental_div_mod(b as int, a as int);
    lemma_fundamental_div_mod(c, b as int);
    assert(c == (x * y) * a) by (nonlinear_arith)
        requires
            b == a * x,
            c == b * y,
    ;
    lemma_mod_multiples_basic(x * y, a as int);
}

/// Every positive whole-beat period divides the fold.
proof fn lemma_periods_lcm_divisible(cycles: Seq<RhythmicCycle>)
    ensures
        forall|j: int|
            0 <= j < cycles.len() && spec_whole_beats(#[trigger] cycles[j].period) > 0 ==> divides(
                spec_whole_beats(cycles[j].period),
                periods_lcm(cycles) as int,
            ),
    decreases cycles.len(),
{
    if cycles.len() > 0 {
        let rest = cycles.drop_last();
        lemma_periods_lcm_divisible(rest);
        lemma_periods_lcm_positive(rest);
        let acc = periods_lcm(rest);
        let w = spec_whole_beats(cycles.last().period);
        if w > 0 {
            lemma_lcm_common_multiple(acc, w);
        }
        assert forall|j: int|
            0 <= j < cycles.len() && spec_whole_beats(#[trigger] cycles[j].period) > 0 implies divides(
                spec_whole_beats(cycles[j].period),
                periods_lcm(cycles) as int,
            ) by {
            if j < cycles.len() - 1 {
                assert(rest[j] == cycles[j]);
                if w > 0 {
                    lemma_divides_trans(spec_whole_beats(cycles[j].period), acc, spec_lcm(acc, w) as int);
                }
            }
        }
    }
}

/// The fold divides every common multiple of the positive whole-beat periods.
proof fn lemma_periods_lcm_least(cycles: Seq<RhythmicCycle>, m: int)
    requires
        forall|j: int|
            0 <= j < cycles.len() && spec_whole_beats(#[trigger] cycles[j].period) > 0 ==> divides(
                spec_whole_beats(cycles[j].period),
                m,
            ),
    ensures
        divides(periods_lcm(cycles), m),
    decreases cycles.len(),
{
    if cycles.len() == 0 {
        lemma_mod_multiples_basic(m, 1);
    } else {
        let rest = cycles.drop_last();
        assert forall|j: int|
            0 <= j < rest.len() && spec_whole_beats(#[trigger] rest[j].period) > 0 implies divides(
                spec_whole_beats(rest[j].period),
                m,
            ) by {
            assert(rest[j] == cycles[j]);
        }
        lemma_periods_lcm_least(rest, m);
        lemma_periods_lcm_positive(rest);
        let w = spec_whole_beats(cycles.last().period);
        if w > 0 {
            assert(cycles[cycles.len() - 1] == cycles.last());
            lemma_lcm_least(periods_lcm(rest), w, m);
        }
    }
}

/// The groove point is where all voices align: every positive whole-beat period divides
/// it, and it divides (so lies at or before) every other positive beat count at which
/// all of them align.
pub proof fn lemma_groove_point_is_first_alignment(cycles: Seq<RhythmicCycle>, m: int)
    requires
        m > 0,
        forall|j: int|
            0 <= j < cycles.len() && spec_whole_beats(#[trigger] cycles[j].period) > 0 ==> divides(
                spec_whole_beats(cycles[j].period),
                m,
            ),
    ensures
        periods_lcm(cycles) > 0,
        forall|j: int|
            0 <= j < cycles.len() && spec_whole_beats(#[trigger] cycles[j].period) > 0 ==> divides(
                spec_whole_beats(cycles[j].period),
                periods_lcm(cycles) as int,
            ),
        divides(periods_lcm(cycles), m),
        periods_lcm(cycles) <= m,
{
    lemma_periods_lcm_positive(cycles);
    lemma_periods_lcm_divisible(cycles);
    lemma_periods_lcm_least(cycles, m);
    let l = periods_lcm(cycles) as int;
    let k = m / l;
    lemma_fundamental_div_mod(m, l);
    assert(l <= m) by (nonlinear_arith)
        requires
            m == l * k,
            m > 0,
            l > 0,
    ;
}

/// Find the groove point: the earliest beat where all cycles align, the least common
/// multiple of the periods rounded to whole beats (periods that round to zero or less
/// are left out; the origin when none is left).
pub fn groove_point(cycles: &[RhythmicCycle]) -> (r: Beat)
    requires
        fits_i64(periods_lcm(cycles@) * TICKS_PER_BEAT),
    ensures
        r.0 == spec_groove_point(cycles@),
{
    let mut acc: u64 = 1;
    let mut found = false;
    let mut i: usize = 0;
    while i < cycles.len()
        invariant
            0 <= i <= cycles@.len(),
            acc == periods_lcm(cycles@.take(i as int)),
            found == exists|j: int|
                0 <= j < i && spec_whole_beats(#[trigger] cycles@[j].period) > 0,
            fits_i64(periods_lcm(cycles@) * TICKS_PER_BEAT),
        decreases cycles@.len() - i,
    {
        let w = whole_beats(cycles[i].period);
        let ghost prefix = cycles@.take(i + 1);
        proof {
            assert(prefix.drop_last() =~= cycles@.take(i as int));
            assert(prefix.last() == cycles@[i as int]);
            lemma_periods_lcm_prefix(cycles@, i + 1);
            lemma_periods_lcm_positive(cycles@.take(i as int));
        }
        if w > 0 {
            acc = lcm(acc, w);
            found = true;
        }
        i += 1;
    }
    proof {
        assert(cycles@.take(i as int) =~= cycles@);
    }
    if !found {
        return Beat(0);
    }
    Beat(acc as i64 * TICKS_PER_BEAT)
}

/// The groove point is the origin exactly when no period rounds to a whole beat.
pub proof fn lemma_groove_point_zero_iff_no_whole_period(cycles: Seq<RhythmicCycle>)
    ensures
        spec_groove_point(cycles) == 0 <==> !has_whole_period(cycles),
        spec_groove_point(cycles) >= 0,
{
    lemma_periods_lcm_positive(cycles);
}

} // verus!
