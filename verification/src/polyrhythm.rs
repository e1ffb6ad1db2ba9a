//! Polyrhythms: several cycles played at once, and the merged list of their triggers.
use crate::beat::{fits_i64, Beat, TICKS_PER_BEAT};
use crate::cycle::{lemma_trigger_list_increasing, RhythmicCycle};
use crate::groove::{groove_point, periods_lcm, spec_groove_point};
use vstd::prelude::*;

verus! {

/// A polyrhythm: two or more conflicting rhythms played simultaneously.
#[derive(Debug, Clone)]
pub struct Polyrhythm {
    /// The cycles that make up this polyrhythm.
    pub cycles: Vec<RhythmicCycle>,
    /// Name for this polyrhythm pattern.
    pub name: String,
}

/// Every cycle can list its triggers up to `max_beat`.
pub open spec fn all_listable(cycles: Seq<RhythmicCycle>, max_beat: Beat) -> bool {
    forall|i: int| 0 <= i < cycles.len() ==> #[trigger] cycles[i].listable(max_beat)
}

/// `e` names a voice (by index) and one of its listed triggers up to `max_beat`.
pub open spec fn voice_trigger(cycles: Seq<RhythmicCycle>, max_beat: Beat, e: (usize, Beat)) -> bool {
    &&& e.0 < cycles.len()
    &&& cycles[e.0 as int].trigger_list(max_beat).contains(e.1)
}

/// Trigger order: earlier beat first, and on the same beat the lower voice index first.
pub open spec fn trigger_before(a: (usize, Beat), b: (usize, Beat)) -> bool {
    a.1.0 < b.1.0 || (a.1.0 == b.1.0 && a.0 < b.0)
}

/// The sequence is strictly increasing in trigger order.
pub open spec fn in_trigger_order(s: Seq<(usize, Beat)>) -> bool {
    forall|i: int, j: int| 0 <= i < j < s.len() ==> trigger_before(#[trigger] s[i], #[trigger] s[j])
}

/// The number of listed triggers over all cycles up to `max_beat`.
pub open spec fn total_trigger_count(cycles: Seq<RhythmicCycle>, max_beat: Beat) -> nat
    decreases cycles.len(),
{
    if cycles.len() == 0 {
        0
    } else {
        total_trigger_count(cycles.drop_last(), max_beat) + cycles.last().trigger_count(max_beat)
    }
}

/// Inserting an element adds exactly that element to what a sequence contains.
pub proof fn lemma_insert_contains<A>(s: Seq<A>, pos: int, x: A, e: A)
    requires
        0 <= pos <= s.len(),
    ensures
        s.insert(pos, x).contains(e) <==> (s.contains(e) || e == x),
{
    s.insert_ensures(pos, x);
    let t = s.insert(pos, x);
    if t.contains(e) {
        let m = choose|m: int| 0 <= m < t.len() && t[m] == e;
        if m < pos {
            assert(s[m] == e);
        } else if m > pos {
            assert(s[m - 1] == e);
        }
    }
    if s.contains(e) {
        let m = choose|m: int| 0 <= m < s.len() && s[m] == e;
        if m < pos {
            assert(t[m] == e);
        } else {
            assert(t[m + 1] == e);
        }
    }
    if e == x {
        assert(t[pos] == e);
    }
}

/// Taking one more element of a sequence adds exactly that element to what the prefix
/// contains.
pub proof fn lemma_take_one_more_contains<A>(s: Seq<A>, k: int, e: A)
    requires
        0 <= k < s.len(),
    ensures
        s.take(k + 1).contains(e) <==> (s.take(k).contains(e) || e == s[k]),
{
    let a = s.take(k);
    let b = s.take(k + 1);
    if b.contains(e) {
        let m = choose|m: int| 0 <= m < b.len() && b[m] == e;
        if m < k {
            assert(a[m] == e);
        }
    }
    if a.contains(e) {
        let m = choose|m: int| 0 <= m < a.len() && a[m] == e;
        assert(b[m] == e);
    }
    if e == s[k] {
        assert(b[k] == e);
    }
}

/// All trigger points of all cycles up to `max_beat`, as (voice index, beat) pairs in
/// trigger order (by beat, ties by voice index).
pub fn merged_triggers(cycles: &[RhythmicCycle], max_beat: Beat) -> (r: Vec<(usize, Beat)>)
    requires
        all_listable(cycles@, max_beat),
    ensures
        in_trigger_order(r@),
        forall|e: (usize, Beat)| #[trigger] r@.contains(e) <==> voice_trigger(cycles@, max_beat, e),
        r@.len() == total_trigger_count(cycles@, max_beat),
{
    let mut out: Vec<(usize, Beat)> = Vec::new();
    let mut i: usize = 0;
    while i < cycles.len()
        invariant
            0 <= i <= cycles@.len(),
            all_listable(cycles@, max_beat),
            in_trigger_order(out@),
            forall|e: (usize, Beat)| #[trigger]
                out@.contains(e) <==> (e.0 < i && voice_trigger(cycles@, max_beat, e)),
            out@.len() == total_trigger_count(cycles@.take(i as int), max_beat),
        decreases cycles@.len() - i,
    {
        assert(cycles@[i as int].listable(max_beat));
        let ts = cycles[i].triggers_up_to(max_beat);
        let ghost c = cycles@[i as int];
        let mut k: usize = 0;
        while k < ts.len()
            invariant
                0 <= i < cycles@.len(),
                c == cycles@[i as int],
                c.listable(max_beat),
                ts@ == c.trigger_list(max_beat),
                0 <= k <= ts@.len(),
                out@.len() == total_trigger_count(cycles@.take(i as int), max_beat) + k,
                in_trigger_order(out@),
                forall|e: (usize, Beat)| #[trigger]
                    out@.contains(e) <==> ((e.0 < i && voice_trigger(cycles@, max_beat, e)) || (
                    e.0 == i && ts@.take(k as int).contains(e.1))),
            decreases ts@.len() - k,
        {
            let b = ts[k];
            assert(c.period.0 > 0);
            let mut j: usize = out.len();
            while j > 0 && out[j - 1].1.0 > b.0
                invariant
                    0 <= j <= out@.len(),
                    forall|m: int| j <= m < out@.len() ==> #[trigger] out@[m].1.0 > b.0,
                decreases j,
            {
                j -= 1;
            }
            let ghost old_out = out@;
            let x = (i, b);
            proof {
                // every earlier element comes before x in trigger order
                assert forall|m: int| 0 <= m < j implies #[trigger] trigger_before(
                    old_out[m],
                    x,
                ) by {
                    if m < j - 1 {
                        assert(trigger_before(old_out[m], old_out[j - 1]));
                    }
                    assert(old_out[m].1.0 <= b.0);
                    assert(old_out.contains(old_out[m]));
                    if old_out[m].0 == i {
                        assert(ts@.take(k as int).contains(old_out[m].1));
                        let q = choose|q: int|
                            0 <= q < k && #[trigger] ts@.take(k as int)[q] == old_out[m].1;
                        assert(ts@[q] == old_out[m].1);
                        lemma_trigger_list_increasing(c, max_beat, q, k as int);
                    }
                }
                old_out.insert_ensures(j as int, x);
            }
            out.insert(j, x);
            proof {
                assert forall|p: int, q: int| 0 <= p < q < out@.len() implies trigger_before(
                    #[trigger] out@[p],
                    #[trigger] out@[q],
                ) by {
                    if q < j {
                        assert(trigger_before(old_out[p], old_out[q]));
                    } else if q == j {
                        assert(trigger_before(old_out[p], x));
                    } else if p < j {
                        assert(trigger_before(old_out[p], old_out[q - 1]));
                    } else if p == j {
                        assert(old_out[q - 1].1.0 > b.0);
                    } else {
                        assert(trigger_before(old_out[p - 1], old_out[q - 1]));
                    }
                }
                assert forall|e: (usize, Beat)| #[trigger]
                    out@.contains(e) <==> ((e.0 < i && voice_trigger(cycles@, max_beat, e)) || (
                    e.0 == i && ts@.take(k + 1).contains(e.1))) by {
                    lemma_insert_contains(old_out, j as int, x, e);
                    lemma_take_one_more_contains(ts@, k as int, e.1);
                }
            }
            k += 1;
        }
        proof {
            assert(ts@.take(k as int) =~= ts@);
            assert(cycles@.take(i + 1).drop_last() =~= cycles@.take(i as int));
            assert(cycles@.take(i + 1).last() == c);
            assert forall|e: (usize, Beat)| #[trigger]
                out@.contains(e) <==> (e.0 < i + 1 && voice_trigger(cycles@, max_beat, e)) by {
                if e.0 == i {
                    assert(cycles@[e.0 as int] == c);
                }
            }
        }
        i += 1;
    }
    proof {
        assert(cycles@.take(i as int) =~= cycles@);
    }
    out
}

impl Polyrhythm {
    /// Create a polyrhythm from cycles.
    pub fn new(name: &str, cycles: Vec<RhythmicCycle>) -> (r: Polyrhythm)
        ensures
            r.name@ == name@,
            r.cycles == cycles,
    {
        Polyrhythm { cycles, name: name.to_owned() }
    }

    /// Create a simple two-voice polyrhythm (e.g. 3:2, 4:3), with voices named
    /// "voice-a" and "voice-b".
    pub fn simple(name: &str, period_a: Beat, period_b: Beat) -> (r: Polyrhythm)
        ensures
            r.name@ == name@,
            r.cycles@.len() == 2,
            r.cycles@[0].name@ == seq!['v', 'o', 'i', 'c', 'e', '-', 'a'],
            r.cycles@[0].period == period_a,
            r.cycles@[0].phase.0 == 0,
            r.cycles@[0].velocity_pattern@.len() == 0,
            r.cycles@[1].name@ == seq!['v', 'o', 'i', 'c', 'e', '-', 'b'],
            r.cycles@[1].period == period_b,
            r.cycles@[1].phase.0 == 0,
            r.cycles@[1].velocity_pattern@.len() == 0,
    {
        let a_name = "voice-a";
        let b_name = "voice-b";
        proof {
            reveal_strlit("voice-a");
            reveal_strlit("voice-b");
        }
        let a = RhythmicCycle::new(a_name, period_a);
        let b = RhythmicCycle::new(b_name, period_b);
        let mut cycles: Vec<RhythmicCycle> = Vec::new();
        cycles.push(a);
        cycles.push(b);
        Polyrhythm { cycles, name: name.to_owned() }
    }

    /// All trigger points from all cycles up to `max_beat`, as (voice index, beat) pairs
    /// ordered by beat (voices that trigger together in voice order).
    pub fn all_triggers(&self, max_beat: Beat) -> (r: Vec<(usize, Beat)>)
        requires
            all_listable(self.cycles@, max_beat),
        ensures
            in_trigger_order(r@),
            forall|e: (usize, Beat)| #[trigger]
                r@.contains(e) <==> voice_trigger(self.cycles@, max_beat, e),
            r@.len() == total_trigger_count(self.cycles@, max_beat),
    {
        merged_triggers(self.cycles.as_slice(), max_beat)
    }

    /// Number of cycles/voices.
    pub fn voice_count(&self) -> (r: usize)
        ensures
            r == self.cycles@.len(),
    {
        self.cycles.len()
    }

    /// The full pattern period: the groove point of the cycles (the least common
    /// multiple of their periods rounded to whole beats).
    pub fn full_cycle_period(&self) -> (r: Beat)
        requires
            fits_i64(periods_lcm(self.cycles@) * TICKS_PER_BEAT),
        ensures
            r.0 == spec_groove_point(self.cycles@),
    {
        groove_point(self.cycles.as_slice())
    }
}

} // verus!
