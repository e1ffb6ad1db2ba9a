//! Alignment points: beats at which two or more cycles trigger together.
use crate::beat::Beat;
use crate::seq_facts::{
    count_where, lemma_count_where_ignores_order, lemma_count_where_two, lemma_ordered_listing_unique,
    strictly_ordered,
};
use crate::cycle::RhythmicCycle;
use crate::groups::{group_by_beat, groups_upto, keys_in_order, take_group};
use crate::polyrhythm::{all_listable, voice_trigger};
use vstd::prelude::*;

verus! {

/// Cycle alignment info: details about when cycles sync.
#[derive(Debug, Clone)]
pub struct CycleAlignment {
    /// The beat at which alignment occurs.
    pub beat: Beat,
    /// Which cycle indices are aligned at this point (ascending).
    pub aligned_cycles: Vec<usize>,
    /// Is this the groove point of the listing (all cycles aligned)?
    pub is_full_sync: bool,
}

/// Two different voices both have a listed trigger at `t`.
pub open spec fn voices_align_at(cycles: Seq<RhythmicCycle>, max_beat: Beat, t: Beat) -> bool {
    exists|i: usize, j: usize|
        i < j && #[trigger] voice_trigger(cycles, max_beat, (i, t)) && #[trigger] voice_trigger(
            cycles,
            max_beat,
            (j, t),
        )
}

/// The voices among the first `n`, ascending, with a listed trigger at tick `t`.
pub open spec fn voices_upto(cycles: Seq<RhythmicCycle>, max_beat: Beat, t: i64, n: int) -> Seq<usize>
    decreases n,
{
    if n <= 0 {
        Seq::empty()
    } else if cycles[n - 1].trigger_list(max_beat).contains(Beat(t)) {
        voices_upto(cycles, max_beat, t, n - 1).push((n - 1) as usize)
    } else {
        voices_upto(cycles, max_beat, t, n - 1)
    }
}

/// `voices_upto` lists, in ascending order, exactly the voices below `n` that have a listed
/// trigger at `t`.
pub proof fn lemma_voices_upto(cycles: Seq<RhythmicCycle>, max_beat: Beat, t: i64, n: int)
    requires
        0 <= n <= cycles.len() <= usize::MAX,
    ensures
        ascending(voices_upto(cycles, max_beat, t, n)),
        forall|k: int|
            0 <= k < voices_upto(cycles, max_beat, t, n).len() ==> #[trigger] voices_upto(
                cycles,
                max_beat,
                t,
                n,
            )[k] < n,
        forall|i: usize|
            #[trigger] voices_upto(cycles, max_beat, t, n).contains(i) <==> (i < n && voice_trigger(
                cycles,
                max_beat,
                (i, Beat(t)),
            )),
    decreases n,
{
    if n > 0 {
        lemma_voices_upto(cycles, max_beat, t, n - 1);
        let prev = voices_upto(cycles, max_beat, t, n - 1);
        let s = voices_upto(cycles, max_beat, t, n);
        assert forall|i: usize| #[trigger] s.contains(i) <==> (i < n && voice_trigger(cycles, max_beat, (i, Beat(t)))) by {
            if cycles[n - 1].trigger_list(max_beat).contains(Beat(t)) {
                assert(s == prev.push((n - 1) as usize));
                if s.contains(i) && i != n - 1 {
                    let k = choose|k: int| 0 <= k < s.len() && s[k] == i;
                    assert(k < prev.len());
                    assert(prev.contains(i));
                }
                if prev.contains(i) {
                    let k = choose|k: int| 0 <= k < prev.len() && prev[k] == i;
                    assert(s[k] == i);
                }
                if i == n - 1 {
                    assert(s[s.len() - 1] == i);
                }
            }
        }
    }
}

/// Strictly increasing indices.
pub open spec fn ascending(s: Seq<usize>) -> bool {
    forall|i: int, j: int| 0 <= i < j < s.len() ==> #[trigger] s[i] < #[trigger] s[j]
}

/// `a` describes the alignment at its beat: exactly the voices with a listed trigger
/// there, in ascending order, at least two of them, and full sync when every voice is
/// among them.
pub open spec fn describes_alignment(
    cycles: Seq<RhythmicCycle>,
    max_beat: Beat,
    a: CycleAlignment,
) -> bool {
    &&& ascending(a.aligned_cycles@)
    &&& forall|i: usize| #[trigger]
        a.aligned_cycles@.contains(i) <==> voice_trigger(cycles, max_beat, (i, a.beat))
    &&& a.aligned_cycles@.len() >= 2
    &&& a.is_full_sync == (a.aligned_cycles@.len() == cycles.len())
}

/// In an ascending sequence of indices, each entry is at least its position.
proof fn lemma_ascending_lower(s: Seq<usize>, k: int)
    requires
        ascending(s),
        0 <= k < s.len(),
    ensures
        s[k] >= k,
    decreases k,
{
    if k > 0 {
        lemma_ascending_lower(s, k - 1);
        assert(s[k - 1] < s[k]);
    }
}

/// An alignment is a full sync exactly when every voice triggers at its beat.
pub proof fn lemma_full_sync_iff_all_voices(cycles: Seq<RhythmicCycle>, max_beat: Beat, a: CycleAlignment)
    requires
        describes_alignment(cycles, max_beat, a),
        cycles.len() <= usize::MAX,
    ensures
        a.is_full_sync <==> forall|i: usize| i < cycles.len() ==> #[trigger] voice_trigger(cycles, max_beat, (i, a.beat)),
{
    let s = a.aligned_cycles@;
    let n = cycles.len();
    // every entry names a voice, so the entries lie below n
    assert forall|k: int| 0 <= k < s.len() implies #[trigger] s[k] < n by {
        assert(s.contains(s[k]));
    }
    if s.len() == n {
        // an ascending sequence of n indices below n is 0, 1, ..., n - 1
        assert forall|k: int| 0 <= k < n implies #[trigger] s[k] == k by {
            lemma_ascending_lower(s, k);
            if s[k] > k {
                // then the entries after k would not fit below n
                lemma_ascending_upper(s, k, n as int);
            }
        }
        assert forall|i: usize| i < n implies #[trigger] voice_trigger(cycles, max_beat, (i, a.beat)) by {
            assert(s[i as int] == i);
            assert(s.contains(i));
        }
    }
    if forall|i: usize| i < cycles.len() ==> #[trigger] voice_trigger(cycles, max_beat, (i, a.beat)) {
        // the entries start 0, 1, ..., n - 1
        assert(s[0] < n);
        lemma_prefix_is_identity(cycles, max_beat, a, n - 1);
        if s.len() > n {
            assert(s[n as int] < n);
            lemma_ascending_lower(s, n as int);
        }
        assert(s.len() == n);
    }
}

/// In an ascending sequence of indices below `n`, the entry at position `k` is at most
/// `n - (len - k)`.
proof fn lemma_ascending_upper(s: Seq<usize>, k: int, n: int)
    requires
        ascending(s),
        0 <= k < s.len(),
        forall|j: int| 0 <= j < s.len() ==> #[trigger] s[j] < n,
    ensures
        s[k] <= n - (s.len() - k),
    decreases s.len() - k,
{
    if k < s.len() - 1 {
        lemma_ascending_upper(s, k + 1, n);
        assert(s[k] < s[k + 1]);
    }
}

/// When every voice triggers at the alignment's beat, its first `k + 1` entries are
/// 0, 1, ..., k.
proof fn lemma_prefix_is_identity(cycles: Seq<RhythmicCycle>, max_beat: Beat, a: CycleAlignment, k: int)
    requires
        describes_alignment(cycles, max_beat, a),
        cycles.len() <= usize::MAX,
        forall|i: usize| i < cycles.len() ==> #[trigger] voice_trigger(cycles, max_beat, (i, a.beat)),
        0 <= k < cycles.len(),
    ensures
        k < a.aligned_cycles@.len(),
        a.aligned_cycles@[k] == k,
    decreases k,
{
    let s = a.aligned_cycles@;
    if k > 0 {
        lemma_prefix_is_identity(cycles, max_beat, a, k - 1);
    }
    assert(voice_trigger(cycles, max_beat, (k as usize, a.beat)));
    assert(s.contains(k as usize));
    let j = choose|j: int| 0 <= j < s.len() && s[j] == k as usize;
    lemma_ascending_lower(s, j);
    if j < k {
        if j < k - 1 {
            assert(s[j] < s[k - 1]);
        }
        assert(false);
    }
}

/// `x` comes before `y` on the timeline.
pub open spec fn beat_before() -> spec_fn(Beat, Beat) -> bool {
    |x: Beat, y: Beat| x.0 < y.0
}

/// Strictly increasing beats.
pub open spec fn increasing_beats(s: Seq<Beat>) -> bool {
    strictly_ordered(s, beat_before())
}

/// The alignment points are exactly the beats of the detailed alignments, in the same
/// order: whatever `find_alignments` and `detect_alignments` return for the same cycles
/// and limit satisfies this.
pub proof fn lemma_found_beats_are_detected_beats(
    cycles: Seq<RhythmicCycle>,
    max_beat: Beat,
    details: Seq<CycleAlignment>,
    beats: Seq<Beat>,
)
    requires
        forall|k: int| 0 <= k < details.len() ==> describes_alignment(cycles, max_beat, #[trigger] details[k]),
        forall|k: int, l: int| 0 <= k < l < details.len() ==> (#[trigger] details[k]).beat.0 < (#[trigger] details[l]).beat.0,
        forall|t: Beat|
            #[trigger] voices_align_at(cycles, max_beat, t) ==> exists|k: int|
                0 <= k < details.len() && (#[trigger] details[k]).beat == t,
        increasing_beats(beats),
        forall|t: Beat| #[trigger] beats.contains(t) <==> voices_align_at(cycles, max_beat, t),
    ensures
        beats == details.map_values(|a: CycleAlignment| a.beat),
{
    let db = details.map_values(|a: CycleAlignment| a.beat);
    assert forall|k: int, l: int| 0 <= k < l < db.len() implies (#[trigger] db[k]).0 < (#[trigger] db[l]).0 by {
        assert(details[k].beat.0 < details[l].beat.0);
    }
    assert forall|t: Beat| #[trigger] beats.contains(t) <==> db.contains(t) by {
        if db.contains(t) {
            let k = choose|k: int| 0 <= k < db.len() && db[k] == t;
            let a = details[k];
            assert(describes_alignment(cycles, max_beat, a));
            let i = a.aligned_cycles@[0];
            let j = a.aligned_cycles@[1];
            assert(a.aligned_cycles@.contains(i));
            assert(a.aligned_cycles@.contains(j));
            assert(voice_trigger(cycles, max_beat, (i, t)));
            assert(voice_trigger(cycles, max_beat, (j, t)));
            assert(voices_align_at(cycles, max_beat, t));
        }
        if beats.contains(t) {
            assert(voices_align_at(cycles, max_beat, t));
            let k = choose|k: int| 0 <= k < details.len() && (#[trigger] details[k]).beat == t;
            assert(db[k] == t);
        }
    }
    lemma_ordered_listing_unique(beats, db, beat_before());
}

/// Detect all cycle alignments up to `max_beat`, with details, by ascending beat.
pub fn detect_alignments(cycles: &[RhythmicCycle], max_beat: Beat) -> (r: Vec<CycleAlignment>)
    requires
        all_listable(cycles@, max_beat),
    ensures
        forall|k: int| 0 <= k < r@.len() ==> describes_alignment(cycles@, max_beat, #[trigger] r@[k]),
        forall|k: int, l: int| 0 <= k < l < r@.len() ==> (#[trigger] r@[k]).beat.0 < (#[trigger] r@[l]).beat.0,
        forall|t: Beat|
            #[trigger] voices_align_at(cycles@, max_beat, t) ==> exists|k: int|
                0 <= k < r@.len() && (#[trigger] r@[k]).beat == t,
{
    let mut groups = group_by_beat(cycles, max_beat);
    let keys = keys_in_order(&groups);
    let ghost g0 = groups@;
    let count = cycles.len();
    let ghost n = count as int;
    proof {
        assert forall|a: int| 0 <= a < keys@.len() implies #[trigger] groups@.contains_key(keys@[a]) by {
            assert(keys@.contains(keys@[a]));
        }
    }
    let mut result: Vec<CycleAlignment> = Vec::new();
    let mut q: usize = 0;
    while q < keys.len()
        invariant
            n == cycles@.len(),
            n == count,
            groups_upto(g0, cycles@, max_beat, n),
            forall|t: i64| #[trigger] keys@.contains(t) <==> g0.contains_key(t),
            forall|a: int, b: int| 0 <= a < b < keys@.len() ==> #[trigger] keys@[a] < #[trigger] keys@[b],
            0 <= q <= keys@.len(),
            forall|a: int| q <= a < keys@.len() ==> #[trigger] groups@.contains_key(keys@[a]) && groups@[keys@[a]]
                == g0[keys@[a]],
            forall|k: int| 0 <= k < result@.len() ==> describes_alignment(cycles@, max_beat, #[trigger] result@[k]),
            forall|k: int, l: int| 0 <= k < l < result@.len() ==> (#[trigger] result@[k]).beat.0 < (#[trigger] result@[l]).beat.0,
            q < keys@.len() ==> forall|k: int| 0 <= k < result@.len() ==> (#[trigger] result@[k]).beat.0 < keys@[q as int],
            forall|a: int|
                0 <= a < q && (#[trigger] g0[keys@[a]])@.len() >= 2 ==> exists|k: int|
                    0 <= k < result@.len() && (#[trigger] result@[k]).beat.0 == keys@[a],
        decreases keys@.len() - q,
    {
        let key = keys[q];
        let ghost before = groups@;
        let ghost old_result = result@;
        let taken = take_group(&mut groups, key);
        proof {
            assert(before.contains_key(keys@[q as int]));
            assert forall|a: int| q + 1 <= a < keys@.len() implies #[trigger] groups@.contains_key(keys@[a])
                && groups@[keys@[a]] == g0[keys@[a]] by {
                assert(keys@[q as int] < keys@[a]);
                assert(before.contains_key(keys@[a]));
            }
        }
        match taken {
            Some(v) => {
                proof {
                    assert(keys@.contains(key));
                    assert(g0.contains_key(key));
                    assert(v@ == voices_upto(cycles@, max_beat, key, n));
                    lemma_voices_upto(cycles@, max_beat, key, n);
                }
                if v.len() >= 2 {
                    let full = v.len() == count;
                    let entry = CycleAlignment { beat: Beat(key), aligned_cycles: v, is_full_sync: full };
                    result.push(entry);
                    proof {
                        assert forall|i: usize| #[trigger] entry.aligned_cycles@.contains(i) <==> voice_trigger(
                            cycles@,
                            max_beat,
                            (i, entry.beat),
                        ) by {
                            assert(entry.aligned_cycles@ == voices_upto(cycles@, max_beat, key, n));
                        }
                        assert(describes_alignment(cycles@, max_beat, entry));
                        assert(result@[result@.len() - 1] == entry);
                    }
                }
            },
            None => {},
        }
        proof {
            if q + 1 < keys@.len() {
                assert(keys@[q as int] < keys@[q + 1]);
            }
            assert forall|a: int|
                0 <= a < q + 1 && (#[trigger] g0[keys@[a]])@.len() >= 2 implies exists|k: int|
                    0 <= k < result@.len() && (#[trigger] result@[k]).beat.0 == keys@[a] by {
                if a < q {
                    let k = choose|k: int| 0 <= k < old_result.len() && (#[trigger] old_result[k]).beat.0 == keys@[a];
                    assert(result@[k] == old_result[k]);
                } else {
                    assert(result@[result@.len() - 1].beat.0 == keys@[a]);
                }
            }
        }
        q += 1;
    }
    proof {
        assert forall|t: Beat| #[trigger] voices_align_at(cycles@, max_beat, t) implies exists|k: int|
            0 <= k < result@.len() && (#[trigger] result@[k]).beat == t by {
            let (i, j) = choose|i: usize, j: usize|
                i < j && #[trigger] voice_trigger(cycles@, max_beat, (i, t)) && #[trigger] voice_trigger(
                    cycles@,
                    max_beat,
                    (j, t),
                );
            let s = voices_upto(cycles@, max_beat, t.0, n);
            lemma_voices_upto(cycles@, max_beat, t.0, n);
            assert(Beat(t.0) == t);
            assert(s.contains(i) && s.contains(j));
            let x = choose|x: int| 0 <= x < s.len() && s[x] == i;
            let y = choose|y: int| 0 <= y < s.len() && s[y] == j;
            assert(s.len() >= 2);
            assert(g0.contains_key(t.0));
            assert(keys@.contains(t.0));
            let a = choose|a: int| 0 <= a < keys@.len() && keys@[a] == t.0;
            assert(g0[keys@[a]]@.len() >= 2);
            let k = choose|k: int| 0 <= k < result@.len() && (#[trigger] result@[k]).beat.0 == keys@[a];
            assert(result@[k].beat == t);
        }
    }
    result
}

/// Find all alignment points: the beats up to `max_beat` at which two or more cycles
/// trigger together, in ascending order.
pub fn find_alignments(cycles: &[RhythmicCycle], max_beat: Beat) -> (r: Vec<Beat>)
    requires
        all_listable(cycles@, max_beat),
    ensures
        increasing_beats(r@),
        forall|t: Beat| #[trigger] r@.contains(t) <==> voices_align_at(cycles@, max_beat, t),
{
    let details = detect_alignments(cycles, max_beat);
    let mut beats: Vec<Beat> = Vec::new();
    let mut k: usize = 0;
    while k < details.len()
        invariant
            0 <= k <= details@.len(),
            beats@.len() == k,
            forall|m: int| 0 <= m < k ==> #[trigger] beats@[m] == details@[m].beat,
        decreases details@.len() - k,
    {
        beats.push(details[k].beat);
        k += 1;
    }
    proof {
        assert forall|t: Beat| #[trigger] beats@.contains(t) <==> voices_align_at(cycles@, max_beat, t) by {
            if beats@.contains(t) {
                let m = choose|m: int| 0 <= m < beats@.len() && beats@[m] == t;
                let a = details@[m];
                assert(describes_alignment(cycles@, max_beat, a));
                let i = a.aligned_cycles@[0];
                let j = a.aligned_cycles@[1];
                assert(a.aligned_cycles@.contains(i));
                assert(a.aligned_cycles@.contains(j));
                assert(voice_trigger(cycles@, max_beat, (i, t)));
                assert(voice_trigger(cycles@, max_beat, (j, t)));
            }
            if voices_align_at(cycles@, max_beat, t) {
                let m = choose|m: int| 0 <= m < details@.len() && (#[trigger] details@[m]).beat == t;
                assert(beats@[m] == t);
            }
        }
    }
    beats
}

/// The cycle has a listed trigger at `t`.
pub open spec fn lists_beat(max_beat: Beat, t: Beat) -> spec_fn(RhythmicCycle) -> bool {
    |c: RhythmicCycle| c.trigger_list(max_beat).contains(t)
}

/// Two voices align at `t` exactly when at least two cycles have a listed trigger there.
proof fn lemma_align_iff_two_listing(cycles: Seq<RhythmicCycle>, max_beat: Beat, t: Beat)
    requires
        cycles.len() <= usize::MAX,
    ensures
        voices_align_at(cycles, max_beat, t) <==> count_where(cycles, lists_beat(max_beat, t)) >= 2,
{
    let pred = lists_beat(max_beat, t);
    lemma_count_where_two(cycles, pred);
    if voices_align_at(cycles, max_beat, t) {
        let (i, j) = choose|i: usize, j: usize|
            i < j && #[trigger] voice_trigger(cycles, max_beat, (i, t)) && #[trigger] voice_trigger(
                cycles,
                max_beat,
                (j, t),
            );
        assert(pred(cycles[i as int]) && pred(cycles[j as int]));
    }
    if count_where(cycles, pred) >= 2 {
        let (i, j) = choose|i: int, j: int|
            0 <= i < j < cycles.len() && #[trigger] pred(cycles[i]) && #[trigger] pred(cycles[j]);
        assert(voice_trigger(cycles, max_beat, (i as usize, t)));
        assert(voice_trigger(cycles, max_beat, (j as usize, t)));
    }
}

/// Whether voices align at a beat does not depend on the order of the cycles.
pub proof fn lemma_alignment_ignores_voice_order(
    cycles: Seq<RhythmicCycle>,
    reordered: Seq<RhythmicCycle>,
    max_beat: Beat,
    t: Beat,
)
    requires
        cycles.to_multiset() == reordered.to_multiset(),
        cycles.len() <= usize::MAX,
    ensures
        voices_align_at(cycles, max_beat, t) == voices_align_at(reordered, max_beat, t),
{
    lemma_count_where_ignores_order(cycles, reordered, lists_beat(max_beat, t));
    lemma_align_iff_two_listing(cycles, max_beat, t);
    lemma_align_iff_two_listing(reordered, max_beat, t);
}

/// The alignment points do not depend on the order of the cycles: whatever
/// `find_alignments` returns for the cycles and for a reordering of them is the same.
pub proof fn lemma_found_beats_ignore_voice_order(
    cycles: Seq<RhythmicCycle>,
    reordered: Seq<RhythmicCycle>,
    max_beat: Beat,
    found: Seq<Beat>,
    found_reordered: Seq<Beat>,
)
    requires
        cycles.to_multiset() == reordered.to_multiset(),
        cycles.len() <= usize::MAX,
        increasing_beats(found),
        forall|t: Beat| #[trigger] found.contains(t) <==> voices_align_at(cycles, max_beat, t),
        increasing_beats(found_reordered),
        forall|t: Beat|
            #[trigger] found_reordered.contains(t) <==> voices_align_at(reordered, max_beat, t),
    ensures
        found == found_reordered,
{
    assert forall|t: Beat| #[trigger] found.contains(t) <==> found_reordered.contains(t) by {
        lemma_alignment_ignores_voice_order(cycles, reordered, max_beat, t);
    }
    lemma_ordered_listing_unique(found, found_reordered, beat_before());
}

} // verus!
