//! Grouping of voices by the beats at which they trigger, in an ordered map keyed by tick.
use crate::alignment::{lemma_voices_upto, voices_upto};
use crate::beat::Beat;
use crate::cycle::{lemma_trigger_list_increasing, RhythmicCycle};
use crate::polyrhythm::all_listable;
use std::collections::BTreeMap;
use vstd::prelude::*;
use vstd::std_specs::cmp::OrdSpec;
use vstd::std_specs::iter::IteratorSpec;

verus! {

broadcast use {vstd::std_specs::btree::group_btree_axioms, vstd::laws_cmp::group_laws_cmp};

/// `m` maps each tick at which one of the first `n` voices has a listed trigger to those
/// voices (by index, ascending), and holds no other tick.
pub open spec fn groups_upto(
    m: Map<i64, Vec<usize>>,
    cycles: Seq<RhythmicCycle>,
    max_beat: Beat,
    n: int,
) -> bool {
    forall|t: i64|
        #![trigger m.contains_key(t)]
        #![trigger voices_upto(cycles, max_beat, t, n)]
        (m.contains_key(t) <==> voices_upto(cycles, max_beat, t, n).len() > 0) && (m.contains_key(t)
            ==> m[t]@ == voices_upto(cycles, max_beat, t, n))
}

/// Map each tick to the voices that trigger there up to `max_beat`, in voice order.
pub(crate) fn group_by_beat(cycles: &[RhythmicCycle], max_beat: Beat) -> (m: BTreeMap<i64, Vec<usize>>)
    requires
        all_listable(cycles@, max_beat),
    ensures
        groups_upto(m@, cycles@, max_beat, cycles@.len() as int),
{
    let mut m: BTreeMap<i64, Vec<usize>> = BTreeMap::new();
    let mut i: usize = 0;
    while i < cycles.len()
        invariant
            0 <= i <= cycles@.len(),
            all_listable(cycles@, max_beat),
            groups_upto(m@, cycles@, max_beat, i as int),
        decreases cycles@.len() - i,
    {
        let ghost c = cycles@[i as int];
        assert(c.listable(max_beat));
        let ts = cycles[i].triggers_up_to(max_beat);
        let mut k: usize = 0;
        while k < ts.len()
            invariant
                0 <= i < cycles@.len(),
                c == cycles@[i as int],
                c.listable(max_beat),
                ts@ == c.trigger_list(max_beat),
                0 <= k <= ts@.len(),
                forall|t: i64|
                    #![trigger m@.contains_key(t)]
                    #![trigger voices_upto(cycles@, max_beat, t, i as int)]
                    ({
                        let cur = if ts@.take(k as int).contains(Beat(t)) {
                            voices_upto(cycles@, max_beat, t, i as int).push(i)
                        } else {
                            voices_upto(cycles@, max_beat, t, i as int)
                        };
                        (m@.contains_key(t) <==> cur.len() > 0) && (m@.contains_key(t) ==> m@[t]@ == cur)
                    }),
            decreases ts@.len() - k,
        {
            let key = ts[k].0;
            proof {
                if ts@.take(k as int).contains(Beat(key)) {
                    let a = choose|a: int| 0 <= a < k && ts@.take(k as int)[a] == Beat(key);
                    lemma_trigger_list_increasing(c, max_beat, a, k as int);
                }
                assert(ts@[k as int] == Beat(key));
            }
            let mut v: Vec<usize> = match m.remove(&key) {
                Some(v) => v,
                None => Vec::new(),
            };
            v.push(i);
            m.insert(key, v);
            proof {
                assert forall|t: i64|
                    #![trigger m@.contains_key(t)]
                    #![trigger voices_upto(cycles@, max_beat, t, i as int)]
                    ({
                        let cur = if ts@.take(k + 1).contains(Beat(t)) {
                            voices_upto(cycles@, max_beat, t, i as int).push(i)
                        } else {
                            voices_upto(cycles@, max_beat, t, i as int)
                        };
                        (m@.contains_key(t) <==> cur.len() > 0) && (m@.contains_key(t) ==> m@[t]@ == cur)
                    }) by {
                    assert(ts@.take(k + 1) =~= ts@.take(k as int).push(Beat(key)));
                    if t != key {
                        assert(ts@.take(k + 1).contains(Beat(t)) == ts@.take(k as int).contains(Beat(t)));
                    } else {
                        assert(ts@.take(k + 1)[k as int] == Beat(t));
                    }
                }
            }
            k += 1;
        }
        proof {
            assert(ts@.take(ts@.len() as int) =~= ts@);
            assert forall|t: i64|
                #![trigger m@.contains_key(t)]
                #![trigger voices_upto(cycles@, max_beat, t, i + 1)]
                (m@.contains_key(t) <==> voices_upto(cycles@, max_beat, t, i + 1).len() > 0) && (
                m@.contains_key(t) ==> m@[t]@ == voices_upto(cycles@, max_beat, t, i + 1)) by {
                assert(voices_upto(cycles@, max_beat, t, i as int) == voices_upto(cycles@, max_beat, t, i as int));
            }
        }
        i += 1;
    }
    m
}

/// The keys of the map, in increasing order.
pub(crate) fn keys_in_order(m: &BTreeMap<i64, Vec<usize>>) -> (r: Vec<i64>)
    ensures
        forall|t: i64| #[trigger] r@.contains(t) <==> m@.contains_key(t),
        forall|i: int, j: int| 0 <= i < j < r@.len() ==> #[trigger] r@[i] < #[trigger] r@[j],
{
    let mut r: Vec<i64> = Vec::new();
    let ghost ks = vstd::std_specs::btree::spec_keys_iter(m).remaining();
    proof {
        vstd::std_specs::btree::axiom_spec_keys_iter(m);
    }
    for k in it: m.keys()
        invariant
            r@.len() == it.index(),
            forall|q: int| 0 <= q < it.index() ==> r@[q] == *it.seq()[q],
            it.seq() == ks,
            ks.unref().to_set() == m@.dom(),
            vstd::std_specs::btree::increasing_seq(ks),
            ks.len() == m@.dom().len(),
    {
        r.push(*k);
    }
    proof {
        assert(vstd::laws_cmp::obeys_cmp::<i64>());
        assert(vstd::laws_cmp::obeys_cmp::<&i64>());
        assert(r@ =~= ks.unref());
        assert forall|i: int, j: int| 0 <= i < j < r@.len() implies #[trigger] r@[i] < #[trigger] r@[j] by {
            assert(vstd::std_specs::btree::increasing_seq(ks));
            assert(OrdSpec::cmp_spec(&ks[i], &ks[j]) is Less);
        }
        assert forall|t: i64| #[trigger] r@.contains(t) <==> m@.contains_key(t) by {
            assert(ks.unref().to_set().contains(t) <==> r@.contains(t));
        }
    }
    r
}

/// Take the voices at tick `key` out of the map.
pub(crate) fn take_group(m: &mut BTreeMap<i64, Vec<usize>>, key: i64) -> (r: Option<Vec<usize>>)
    ensures
        final(m)@ == old(m)@.remove(key),
        match r {
            Some(v) => old(m)@.contains_key(key) && v == old(m)@[key],
            None => !old(m)@.contains_key(key),
        },
{
    m.remove(&key)
}

} // verus!
