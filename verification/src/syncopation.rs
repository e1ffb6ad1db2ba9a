//! Syncopation: beats that fall between the points of a reference grid.
use crate::arith::{bezout, gcd, lemma_bezout, lemma_gcd_divides, spec_gcd};
use crate::beat::{Beat, FULL_LEVEL};
use crate::seq_facts::{count_where, lemma_count_where_ignores_order};
use crate::cycle::abs;
use vstd::arithmetic::div_mod::{
    lemma_fundamental_div_mod, lemma_fundamental_div_mod_converse, lemma_mod_bound,
};
use vstd::prelude::*;

verus! {

/// Detect syncopation: off-beat patterns in a sequence of beats relative to a reference pulse.
#[derive(Debug, Clone)]
pub struct SyncopationDetector {
    /// The reference pulse period (e.g. one beat for quarter notes); the grid points are
    /// the whole multiples of its magnitude.
    pub reference_period: Beat,
}

/// A syncopation event: a beat classified as on-grid or off-grid.
#[derive(Debug, Clone, Copy, PartialEq, Eq, Structural)]
pub struct SyncopationEvent {
    /// The beat.
    pub beat: Beat,
    /// Is it on the reference grid?
    pub on_grid: bool,
    /// Offset from the nearest grid point (negative when the nearest grid point lies
    /// after the beat; a beat exactly halfway is measured from the grid point before it).
    pub offset_from_grid: Beat,
    /// How syncopated this is, in millionths: 0 on the grid, up to `FULL_LEVEL` for a beat
    /// halfway between grid points (twice the distance to the nearest grid point over the
    /// reference period, rounded down).
    pub syncopation_strength: u64,
}

/// An exact fraction, in lowest terms.
#[derive(Debug, Clone, Copy, PartialEq, Eq, Structural)]
pub struct Ratio {
    pub numerator: u64,
    pub denominator: u64,
}

/// How far `beat` lies past the last grid point at or before it (in `[0, |reference|)`).
pub open spec fn grid_remainder(reference: int, beat: Beat) -> int {
    (beat.0 as int) % abs(reference)
}

/// `beat` lies on the grid of period `reference`; with a zero period no beat does.
pub open spec fn on_grid(reference: int, beat: Beat) -> bool {
    reference != 0 && grid_remainder(reference, beat) == 0
}

/// Signed offset of `beat` from its nearest grid point.
pub open spec fn nearest_offset(reference: int, beat: Beat) -> int {
    let e = grid_remainder(reference, beat);
    if 2 * e <= abs(reference) {
        e
    } else {
        e - abs(reference)
    }
}

/// Syncopation strength, in millionths, of a beat at `offset` from its nearest grid point.
pub open spec fn strength_of(reference: int, offset: int) -> int {
    (2 * abs(offset) * FULL_LEVEL) / abs(reference)
}

/// The event that `detect` reports for `beat`.
pub open spec fn spec_event(reference: int, beat: Beat) -> SyncopationEvent {
    if on_grid(reference, beat) {
        SyncopationEvent {
            beat,
            on_grid: true,
            offset_from_grid: Beat(0),
            syncopation_strength: 0,
        }
    } else {
        SyncopationEvent {
            beat,
            on_grid: false,
            offset_from_grid: Beat(nearest_offset(reference, beat) as i64),
            syncopation_strength: strength_of(reference, nearest_offset(reference, beat)) as u64,
        }
    }
}

/// The beat lies off the grid of `reference`.
pub open spec fn off_grid(reference: int) -> spec_fn(Beat) -> bool {
    |b: Beat| !on_grid(reference, b)
}

/// How many of `beats` lie off the grid.
pub open spec fn off_grid_count(reference: int, beats: Seq<Beat>) -> nat {
    count_where(beats, off_grid(reference))
}

/// The offset is measured from the nearest grid point: the beat minus the offset is a grid
/// point, no grid point lies closer, and the distance is at most half the reference period.
pub proof fn lemma_offset_is_from_nearest_grid_point(reference: int, beat: Beat, j: int)
    requires
        reference != 0,
    ensures
        (beat.0 - nearest_offset(reference, beat)) % abs(reference) == 0,
        2 * abs(nearest_offset(reference, beat)) <= abs(reference),
        abs(beat.0 - j * abs(reference)) >= abs(nearest_offset(reference, beat)),
{
    let m = abs(reference);
    let b = beat.0 as int;
    let q = b / m;
    let e = b % m;
    lemma_fundamental_div_mod(b, m);
    lemma_mod_bound(b, m);
    let off = nearest_offset(reference, beat);
    if 2 * e <= m {
        assert(b - off == q * m);
        vstd::arithmetic::div_mod::lemma_mod_multiples_basic(q, m);
    } else {
        assert(b - off == (q + 1) * m) by (nonlinear_arith)
            requires
                b == m * q + e,
                off == e - m,
        ;
        vstd::arithmetic::div_mod::lemma_mod_multiples_basic(q + 1, m);
    }
    // b - j m == (q - j) m + e
    assert(b - j * m == (q - j) * m + e) by (nonlinear_arith)
        requires
            b == m * q + e,
    ;
    if j <= q {
        assert((q - j) * m >= 0) by (nonlinear_arith)
            requires
                j <= q,
                m > 0,
        ;
    } else {
        assert((q - j) * m <= -m) by (nonlinear_arith)
            requires
                j > q,
                m > 0,
        ;
    }
}

/// The strength lies between zero and full level, and reaches full level exactly for a
/// beat halfway between grid points.
pub proof fn lemma_strength_in_range(reference: int, beat: Beat)
    requires
        reference != 0,
    ensures
        0 <= strength_of(reference, nearest_offset(reference, beat)) <= FULL_LEVEL,
        strength_of(reference, nearest_offset(reference, beat)) == FULL_LEVEL <==> 2 * abs(
            nearest_offset(reference, beat),
        ) == abs(reference),
{
    lemma_offset_is_from_nearest_grid_point(reference, beat, 0);
    let m = abs(reference);
    let d = 2 * abs(nearest_offset(reference, beat));
    let num = d * FULL_LEVEL;
    lemma_fundamental_div_mod(num, m);
    lemma_mod_bound(num, m);
    let q = num / m;
    if d == m {
        lemma_fundamental_div_mod_converse(num, m, FULL_LEVEL as int, 0);
    } else {
        assert(0 <= q < FULL_LEVEL) by (nonlinear_arith)
            requires
                num == m * q + num % m,
                0 <= num % m < m,
                num == d * FULL_LEVEL,
                0 <= d < m,
        ;
    }
}

/// The remainder of `beat` past the last grid point, computed with Rust's `%`.
fn grid_remainder_of(reference: Beat, beat: Beat) -> (r: i128)
    requires
        reference.0 != 0,
    ensures
        r == grid_remainder(reference.0 as int, beat),
        0 <= r < abs(reference.0 as int),
{
    let m: i128 = if reference.0 < 0 {
        -(reference.0 as i128)
    } else {
        reference.0 as i128
    };
    let t: i128 = beat.0 as i128 % m;
    proof {
        lemma_euclid_from_trunc(beat.0 as int, m as int);
    }
    if t < 0 {
        t + m
    } else {
        t
    }
}

/// Rust's truncated `%` on a positive modulus, moved into `[0, m)`, is the Euclidean remainder.
proof fn lemma_euclid_from_trunc(a: int, m: int)
    requires
        m > 0,
    ensures
        a >= 0 ==> 0 <= a % m < m,
        a < 0 && (-a) % m == 0 ==> a % m == 0,
        a < 0 && (-a) % m != 0 ==> a % m == m - (-a) % m,
        a < 0 ==> 0 <= (-a) % m < m,
{
    lemma_mod_bound(a, m);
    if a < 0 {
        let n = -a;
        let q = n / m;
        let s = n % m;
        lemma_fundamental_div_mod(n, m);
        lemma_mod_bound(n, m);
        if s == 0 {
            assert(a == (-q) * m + 0) by (nonlinear_arith)
                requires
                    n == m * q + s,
                    s == 0,
                    a == -n,
            ;
            lemma_fundamental_div_mod_converse(a, m, -q, 0);
        } else {
            assert(a == (-q - 1) * m + (m - s)) by (nonlinear_arith)
                requires
                    n == m * q + s,
                    a == -n,
            ;
            lemma_fundamental_div_mod_converse(a, m, -q - 1, m - s);
        }
    }
}

/// The beat lies on the grid of `reference` (never, for a zero reference).
fn is_on_grid(reference: Beat, beat: Beat) -> (r: bool)
    ensures
        r == on_grid(reference.0 as int, beat),
{
    if reference.0 == 0 {
        false
    } else {
        grid_remainder_of(reference, beat) == 0
    }
}

impl SyncopationDetector {
    /// A detector with the given reference pulse period.
    pub fn new(reference_period: Beat) -> (r: SyncopationDetector)
        ensures
            r.reference_period == reference_period,
    {
        SyncopationDetector { reference_period }
    }

    /// Classify each beat as on or off the reference grid.
    pub fn detect(&self, beats: &[Beat]) -> (r: Vec<SyncopationEvent>)
        requires
            self.reference_period.0 != 0,
        ensures
            r@.len() == beats@.len(),
            forall|k: int| 0 <= k < beats@.len() ==> #[trigger] r@[k] == spec_event(self.reference_period.0 as int, beats@[k]),
    {
        let reference = self.reference_period;
        let mut events: Vec<SyncopationEvent> = Vec::new();
        let mut k: usize = 0;
        while k < beats.len()
            invariant
                reference == self.reference_period,
                reference.0 != 0,
                0 <= k <= beats@.len(),
                events@.len() == k,
                forall|m: int| 0 <= m < k ==> #[trigger] events@[m] == spec_event(reference.0 as int, beats@[m]),
            decreases beats@.len() - k,
        {
            let beat = beats[k];
            let e = grid_remainder_of(reference, beat);
            let event = if e == 0 {
                SyncopationEvent { beat, on_grid: true, offset_from_grid: Beat(0), syncopation_strength: 0 }
            } else {
                let m: i128 = if reference.0 < 0 {
                    -(reference.0 as i128)
                } else {
                    reference.0 as i128
                };
                let offset: i128 = if 2 * e <= m {
                    e
                } else {
                    e - m
                };
                let distance: i128 = if offset < 0 {
                    -offset
                } else {
                    offset
                };
                proof {
                    lemma_strength_in_range(reference.0 as int, beat);
                    lemma_offset_is_from_nearest_grid_point(reference.0 as int, beat, 0);
                    assert(2 * distance <= m);
                    assert(2 * distance * (FULL_LEVEL as i128) <= m * (FULL_LEVEL as i128)) by (nonlinear_arith)
                        requires
                            2 * distance <= m,
                    ;
                }
                let strength: i128 = (2 * distance * (FULL_LEVEL as i128)) / m;
                SyncopationEvent {
                    beat,
                    on_grid: false,
                    offset_from_grid: Beat(offset as i64),
                    syncopation_strength: strength as u64,
                }
            };
            events.push(event);
            k += 1;
        }
        events
    }

    /// Overall syncopation ratio: the fraction of beats that are off the grid, in lowest
    /// terms (0/1 for no beats; with a zero reference period every beat is off the grid).
    pub fn syncopation_ratio(&self, beats: &[Beat]) -> (r: Ratio)
        ensures
            beats@.len() == 0 ==> r == (Ratio { numerator: 0, denominator: 1 }),
            beats@.len() > 0 ==> ({
                let off = off_grid_count(self.reference_period.0 as int, beats@);
                let g = spec_gcd(off, beats@.len());
                &&& r.numerator == off / g
                &&& r.denominator == beats@.len() / g
            }),
            r.denominator > 0,
            r.numerator <= r.denominator,
            r.numerator * beats@.len() == off_grid_count(self.reference_period.0 as int, beats@) * r.denominator,
            spec_gcd(r.numerator as nat, r.denominator as nat) == 1,
    {
        if beats.len() == 0 {
            proof {
                assert(spec_gcd(0, 1) == spec_gcd(1, 0));
            }
            return Ratio { numerator: 0, denominator: 1 };
        }
        let mut off: u64 = 0;
        let mut k: usize = 0;
        while k < beats.len()
            invariant
                0 <= k <= beats@.len(),
                off == off_grid_count(self.reference_period.0 as int, beats@.take(k as int)),
                off <= k,
            decreases beats@.len() - k,
        {
            proof {
                assert(beats@.take(k + 1).drop_last() =~= beats@.take(k as int));
                assert(beats@.take(k + 1).last() == beats@[k as int]);
            }
            if !is_on_grid(self.reference_period, beats[k]) {
                off += 1;
            }
            k += 1;
        }
        proof {
            assert(beats@.take(k as int) =~= beats@);
        }
        let total = beats.len() as u64;
        proof {
            lemma_gcd_divides(off as nat, total as nat);
        }
        let g = gcd(off, total);
        let r = Ratio { numerator: off / g, denominator: total / g };
        proof {
            lemma_reduced_fraction(off as nat, total as nat);
        }
        r
    }

    /// Are these beats highly syncopated (more than half of them off the grid)?
    pub fn is_highly_syncopated(&self, beats: &[Beat]) -> (r: bool)
        ensures
            r == (2 * off_grid_count(self.reference_period.0 as int, beats@) > beats@.len()),
    {
        let ratio = self.syncopation_ratio(beats);
        proof {
            let off = off_grid_count(self.reference_period.0 as int, beats@);
            let n = beats@.len();
            let a = ratio.numerator as int;
            let b = ratio.denominator as int;
            if n > 0 {
                assert((2 * a > b) == (2 * off > n)) by (nonlinear_arith)
                    requires
                        a * n == off * b,
                        b > 0,
                        n > 0,
                ;
            }
        }
        2 * (ratio.numerator as u128) > ratio.denominator as u128
    }
}

/// Dividing both parts of `a / b` by their gcd keeps the value and leaves gcd 1.
proof fn lemma_reduced_fraction(a: nat, b: nat)
    requires
        b > 0,
        a <= b,
    ensures
        spec_gcd(a, b) > 0,
        (a / spec_gcd(a, b)) * b == a * (b / spec_gcd(a, b)),
        a / spec_gcd(a, b) <= b / spec_gcd(a, b),
        b / spec_gcd(a, b) > 0,
        spec_gcd(a / spec_gcd(a, b), b / spec_gcd(a, b)) == 1,
{
    lemma_gcd_divides(a, b);
    let g = spec_gcd(a, b) as int;
    let x = (a as int) / g;
    let y = (b as int) / g;
    lemma_fundamental_div_mod(a as int, g);
    lemma_fundamental_div_mod(b as int, g);
    assert(x * b == a * y && x <= y && y > 0) by (nonlinear_arith)
        requires
            a == g * x,
            b == g * y,
            g > 0,
            a <= b,
            b > 0,
    ;
    // gcd(x, y) divides x and y, hence x * u + y * v == 1 where (u, v) are Bezout's coefficients
    lemma_bezout(a, b);
    let (u, v) = bezout(a, b);
    assert(x >= 0 && y > 0) by (nonlinear_arith)
        requires
            a == g * x,
            b == g * y,
            g > 0,
            b > 0,
    ;
    lemma_gcd_divides(x as nat, y as nat);
    let h = spec_gcd(x as nat, y as nat) as int;
    lemma_fundamental_div_mod(x, h);
    lemma_fundamental_div_mod(y, h);
    let xs = x / h;
    let ys = y / h;
    assert(g * (x * u + y * v) == g * 1) by (nonlinear_arith)
        requires
            a * u + b * v == g,
            a == g * x,
            b == g * y,
    ;
    assert(x * u + y * v == 1) by (nonlinear_arith)
        requires
            g * (x * u + y * v) == g * 1,
            g > 0,
    ;
    assert(h * (xs * u + ys * v) == 1) by (nonlinear_arith)
        requires
            x * u + y * v == 1,
            x == h * xs,
            y == h * ys,
    ;
    assert(h == 1) by (nonlinear_arith)
        requires
            h * (xs * u + ys * v) == 1,
            h > 0,
    ;
}

/// The off-grid count, and so the syncopation ratio and whether beats are highly
/// syncopated, does not depend on the order of the beats.
pub proof fn lemma_off_grid_count_ignores_order(reference: int, beats: Seq<Beat>, other: Seq<Beat>)
    requires
        beats.to_multiset() == other.to_multiset(),
    ensures
        beats.len() == other.len(),
        off_grid_count(reference, beats) == off_grid_count(reference, other),
{
    lemma_count_where_ignores_order(beats, other, off_grid(reference));
}


/// The `m`-th point of the grid of period `reference`.
pub open spec fn grid_point(reference: int, m: int) -> int {
    m * reference
}

/// A beat lies on the grid exactly when it is a whole multiple of the reference period
/// (never, for a zero period).
pub proof fn lemma_on_grid_iff_multiple(reference: int, beat: Beat)
    ensures
        on_grid(reference, beat) <==> reference != 0 && exists|m: int| beat.0 == #[trigger] grid_point(reference, m),
{
    if reference != 0 {
        let r = abs(reference);
        let b = beat.0 as int;
        lemma_fundamental_div_mod(b, r);
        if b % r == 0 {
            let m = if reference > 0 { b / r } else { -(b / r) };
            assert(b == m * reference) by (nonlinear_arith)
                requires
                    b == r * (b / r) + b % r,
                    b % r == 0,
                    r == abs(reference),
                    m == (if reference > 0 { b / r } else { -(b / r) }),
            ;
            assert(beat.0 == grid_point(reference, m));
        }
        if exists|m: int| beat.0 == #[trigger] grid_point(reference, m) {
            let m = choose|m: int| beat.0 == #[trigger] grid_point(reference, m);
            assert(b == m * reference);
            let q = if reference > 0 { m } else { -m };
            assert(b == q * r) by (nonlinear_arith)
                requires
                    b == m * reference,
                    r == abs(reference),
                    q == (if reference > 0 { m } else { -m }),
            ;
            vstd::arithmetic::div_mod::lemma_mod_multiples_basic(q, r);
        }
    }
}

/// What `detect` reports for a beat, against a non-zero reference period: the beat itself;
/// on the grid exactly when it is a whole multiple of the period, with no offset and no
/// strength; otherwise a non-zero offset to a grid point (a multiple of the period) no
/// farther than any other grid point and at most half a period away, with the strength
/// twice that distance over the period, in millionths.
pub proof fn lemma_event_classifies_beat(reference: int, beat: Beat, j: int)
    requires
        reference != 0,
        abs(reference) <= i64::MAX,
    ensures
        spec_event(reference, beat).beat == beat,
        spec_event(reference, beat).on_grid <==> exists|m: int| beat.0 == #[trigger] grid_point(reference, m),
        spec_event(reference, beat).on_grid ==> spec_event(reference, beat).offset_from_grid.0 == 0
            && spec_event(reference, beat).syncopation_strength == 0,
        !spec_event(reference, beat).on_grid ==> ({
            let off = spec_event(reference, beat).offset_from_grid.0 as int;
            &&& off != 0
            &&& exists|m: int| beat.0 - off == #[trigger] grid_point(reference, m)
            &&& 2 * abs(off) <= abs(reference)
            &&& abs(beat.0 - grid_point(reference, j)) >= abs(off)
            &&& spec_event(reference, beat).syncopation_strength == (2 * abs(off) * FULL_LEVEL) / abs(reference)
        }),
{
    lemma_on_grid_iff_multiple(reference, beat);
    if !on_grid(reference, beat) {
        let r = abs(reference);
        let off = nearest_offset(reference, beat);
        let jj = if reference > 0 { j } else { -j };
        assert(j * reference == jj * r) by (nonlinear_arith)
            requires
                r == abs(reference),
                jj == (if reference > 0 { j } else { -j }),
        ;
        lemma_offset_is_from_nearest_grid_point(reference, beat, jj);
        lemma_strength_in_range(reference, beat);
        assert(off as i64 as int == off);
        // the beat is not a grid point, so the offset is not zero
        assert(off != 0) by {
            if off == 0 {
                assert(grid_remainder(reference, beat) == 0 || grid_remainder(reference, beat) == r);
                lemma_mod_bound(beat.0 as int, r);
            }
        }
        // beat - off is a grid point
        let b = beat.0 - off;
        lemma_fundamental_div_mod(b, r);
        let q = b / r;
        let m = if reference > 0 { q } else { -q };
        assert(b == m * reference) by (nonlinear_arith)
            requires
                b == r * q + b % r,
                b % r == 0,
                r == abs(reference),
                m == (if reference > 0 { q } else { -q }),
        ;
        assert(beat.0 - off == grid_point(reference, m));
    }
}

} // verus!
