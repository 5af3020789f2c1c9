//! Voiced runs for the energy-based voice activity detector.
//!
//! The detector marks each analysis frame as voiced when its energy lies
//! above a threshold.  A speech segment then starts at a voiced frame that
//! follows an unvoiced one (or opens the signal) and ends at the first
//! unvoiced frame after it (or at the end of the signal).
use vstd::prelude::*;

verus! {

/// `[start, end)` is a maximal run of voiced frames: non-empty, voiced
/// throughout, and bounded on each side by an unvoiced frame or the edge.
pub open spec fn is_voiced_run(voiced: Seq<bool>, start: int, end: int) -> bool {
    &&& 0 <= start < end <= voiced.len()
    &&& forall|k: int| start <= k < end ==> #[trigger] voiced[k]
    &&& (start == 0 || !voiced[start - 1])
    &&& (end == voiced.len() || !voiced[end])
}

/// `runs` lists exactly the maximal voiced runs of `voiced`, in order.
pub open spec fn is_run_list(voiced: Seq<bool>, runs: Seq<(usize, usize)>) -> bool {
    &&& forall|i: int|
        0 <= i < runs.len() ==> is_voiced_run(voiced, #[trigger] runs[i].0 as int, runs[i].1 as int)
    &&& forall|i: int, j: int|
        0 <= i < j < runs.len() ==> #[trigger] runs[i].1 < #[trigger] runs[j].0
    &&& forall|k: int|
        0 <= k < voiced.len() && #[trigger] voiced[k] ==> exists|i: int|
            0 <= i < runs.len() && #[trigger] runs[i].0 <= k < runs[i].1
}

/// How a frame's energy compares with the detection threshold.  Energies
/// that do not compare at all (not-a-number) are `Unordered`.
#[derive(PartialEq, Eq, Structural, Clone, Copy, Debug)]
pub enum EnergyLevel {
    Above,
    AtOrBelow,
    Unordered,
}

/// Whether the detector is inside a speech segment after frame `i`: a
/// frame above the threshold opens or continues one, a frame at or below
/// it closes it, and a frame that does not compare leaves it as it was.
pub open spec fn in_segment_after(levels: Seq<EnergyLevel>, i: int) -> bool
    decreases i + 1,
{
    if i < 0 || i >= levels.len() {
        false
    } else {
        match levels[i] {
            EnergyLevel::Above => true,
            EnergyLevel::AtOrBelow => false,
            EnergyLevel::Unordered => in_segment_after(levels, i - 1),
        }
    }
}

/// For each frame, whether it belongs to a speech segment.
pub fn voiced_flags(levels: &Vec<EnergyLevel>) -> (r: Vec<bool>)
    ensures
        r@.len() == levels@.len(),
        forall|i: int| 0 <= i < levels@.len() ==> #[trigger] r@[i] == in_segment_after(levels@, i),
{
    let mut r: Vec<bool> = Vec::new();
    let mut state = false;
    let mut i: usize = 0;
    while i < levels.len()
        invariant
            i <= levels@.len(),
            r@.len() == i,
            state == in_segment_after(levels@, i - 1),
            forall|k: int| 0 <= k < i ==> #[trigger] r@[k] == in_segment_after(levels@, k),
        decreases levels@.len() - i,
    {
        state = match levels[i] {
            EnergyLevel::Above => true,
            EnergyLevel::AtOrBelow => false,
            EnergyLevel::Unordered => state,
        };
        r.push(state);
        i = i + 1;
    }
    r
}

/// The speech segments of a frame sequence, as frame index ranges
/// `[start, end)`, in order: each maximal run of voiced frames once.
pub fn voiced_runs(voiced: &Vec<bool>) -> (runs: Vec<(usize, usize)>)
    ensures
        is_run_list(voiced@, runs@),
{
    let n = voiced.len();
    let mut runs: Vec<(usize, usize)> = Vec::new();
    let mut open: Option<usize> = None;
    let mut i: usize = 0;
    while i < n
        invariant
            n == voiced@.len(),
            i <= n,
            forall|r: int|
                0 <= r < runs@.len() ==> is_voiced_run(
                    voiced@,
                    #[trigger] runs@[r].0 as int,
                    runs@[r].1 as int,
                ),
            forall|r: int| 0 <= r < runs@.len() ==> #[trigger] runs@[r].1 < i,
            forall|a: int, b: int|
                0 <= a < b < runs@.len() ==> #[trigger] runs@[a].1 < #[trigger] runs@[b].0,
            match open {
                Some(s) => {
                    &&& s < i
                    &&& forall|k: int| s <= k < i ==> #[trigger] voiced@[k]
                    &&& (s == 0 || !voiced@[s - 1])
                    &&& forall|r: int| 0 <= r < runs@.len() ==> #[trigger] runs@[r].1 < s
                },
                None => i == 0 || !voiced@[i - 1],
            },
            forall|k: int|
                0 <= k < i && #[trigger] voiced@[k] ==> (exists|r: int|
                    0 <= r < runs@.len() && #[trigger] runs@[r].0 <= k < runs@[r].1) || (
                open matches Some(s) && s <= k),
        decreases n - i,
    {
        let v = voiced[i];
        let ghost old_runs = runs@;
        if v && open.is_none() {
            open = Some(i);
        } else if !v && open.is_some() {
            let s = open.unwrap();
            runs.push((s, i));
            open = None;
            assert forall|k: int| 0 <= k < i + 1 && #[trigger] voiced@[k] implies exists|r: int|
                0 <= r < runs@.len() && #[trigger] runs@[r].0 <= k < runs@[r].1 by {
                if s <= k {
                    assert(runs@[runs@.len() - 1].0 <= k < runs@[runs@.len() - 1].1);
                } else {
                    let r = choose|r: int|
                        0 <= r < old_runs.len() && #[trigger] old_runs[r].0 <= k < old_runs[r].1;
                    assert(runs@[r] == old_runs[r]);
                }
            }
        }
        i = i + 1;
    }
    if let Some(s) = open {
        let ghost old_runs = runs@;
        runs.push((s, n));
        assert forall|k: int| 0 <= k < n && #[trigger] voiced@[k] implies exists|r: int|
            0 <= r < runs@.len() && #[trigger] runs@[r].0 <= k < runs@[r].1 by {
            if s <= k {
                assert(runs@[runs@.len() - 1].0 <= k < runs@[runs@.len() - 1].1);
            } else {
                let r = choose|r: int|
                    0 <= r < old_runs.len() && #[trigger] old_runs[r].0 <= k < old_runs[r].1;
                assert(runs@[r] == old_runs[r]);
            }
        }
    }
    runs
}

/// The runs whose `keep` flag is set, in order.
pub open spec fn kept_runs(runs: Seq<(usize, usize)>, keep: Seq<bool>) -> Seq<(usize, usize)>
    decreases runs.len(),
{
    if runs.len() == 0 {
        Seq::empty()
    } else {
        let rest = kept_runs(runs.drop_last(), keep.subrange(0, runs.len() - 1));
        if keep[runs.len() - 1] {
            rest.push(runs.last())
        } else {
            rest
        }
    }
}

/// Keeps the runs whose flag is set (the detector keeps the segments that
/// last long enough), in order.
pub fn keep_runs(runs: &Vec<(usize, usize)>, keep: &Vec<bool>) -> (r: Vec<(usize, usize)>)
    requires
        keep@.len() == runs@.len(),
    ensures
        r@ == kept_runs(runs@, keep@),
{
    let mut r: Vec<(usize, usize)> = Vec::new();
    let mut i: usize = 0;
    while i < runs.len()
        invariant
            keep@.len() == runs@.len(),
            i <= runs@.len(),
            r@ == kept_runs(runs@.subrange(0, i as int), keep@.subrange(0, i as int)),
        decreases runs@.len() - i,
    {
        proof {
            let rs = runs@.subrange(0, i + 1);
            let ks = keep@.subrange(0, i + 1);
            assert(rs.drop_last() =~= runs@.subrange(0, i as int));
            assert(ks.subrange(0, i as int) =~= keep@.subrange(0, i as int));
            assert(rs.last() == runs@[i as int]);
            assert(ks[i as int] == keep@[i as int]);
        }
        if keep[i] {
            r.push(runs[i]);
        }
        i = i + 1;
    }
    assert(runs@.subrange(0, runs@.len() as int) =~= runs@);
    assert(keep@.subrange(0, keep@.len() as int) =~= keep@);
    r
}

/// Runs after merging: walking the runs in order, a run whose `join` flag
/// is set (it starts close enough after the previous one ends) extends the
/// last merged run to its own end; any other run, and the first one,
/// starts a new merged run.
pub open spec fn merged_runs(runs: Seq<(usize, usize)>, join: Seq<bool>) -> Seq<(usize, usize)>
    decreases runs.len(),
{
    if runs.len() == 0 {
        Seq::empty()
    } else {
        let k = runs.len() - 1;
        let prev = merged_runs(runs.drop_last(), join.subrange(0, k));
        if k > 0 && join[k] {
            prev.update(prev.len() - 1, (prev.last().0, runs[k].1))
        } else {
            prev.push(runs[k])
        }
    }
}

proof fn lemma_merged_runs_len(runs: Seq<(usize, usize)>, join: Seq<bool>)
    requires
        join.len() == runs.len(),
    ensures
        runs.len() > 0 ==> merged_runs(runs, join).len() > 0,
        merged_runs(runs, join).len() <= runs.len(),
    decreases runs.len(),
{
    if runs.len() > 0 {
        lemma_merged_runs_len(runs.drop_last(), join.subrange(0, runs.len() - 1));
    }
}

/// Merges the runs whose `join` flag is set into the run before them; the
/// flag of the first run is not read.
pub fn merge_runs(runs: &Vec<(usize, usize)>, join: &Vec<bool>) -> (r: Vec<(usize, usize)>)
    requires
        join@.len() == runs@.len(),
    ensures
        r@ == merged_runs(runs@, join@),
{
    let mut r: Vec<(usize, usize)> = Vec::new();
    let mut i: usize = 0;
    while i < runs.len()
        invariant
            join@.len() == runs@.len(),
            i <= runs@.len(),
            r@ == merged_runs(runs@.subrange(0, i as int), join@.subrange(0, i as int)),
        decreases runs@.len() - i,
    {
        proof {
            let rs = runs@.subrange(0, i + 1);
            let js = join@.subrange(0, i + 1);
            assert(rs.drop_last() =~= runs@.subrange(0, i as int));
            assert(js.subrange(0, i as int) =~= join@.subrange(0, i as int));
            assert(rs[i as int] == runs@[i as int]);
            assert(js[i as int] == join@[i as int]);
            lemma_merged_runs_len(runs@.subrange(0, i as int), join@.subrange(0, i as int));
        }
        if i > 0 && join[i] {
            let last = r.len() - 1;
            let first = r[last].0;
            r.set(last, (first, runs[i].1));
        } else {
            r.push(runs[i]);
        }
        i = i + 1;
    }
    assert(runs@.subrange(0, runs@.len() as int) =~= runs@);
    assert(join@.subrange(0, join@.len() as int) =~= join@);
    r
}

/// `runs` are ordered and apart: each is non-empty and ends before the
/// next one starts.
pub open spec fn ordered_runs(runs: Seq<(usize, usize)>) -> bool {
    &&& forall|i: int| 0 <= i < runs.len() ==> #[trigger] runs[i].0 < runs[i].1
    &&& forall|i: int, j: int| 0 <= i < j < runs.len() ==> #[trigger] runs[i].1 < #[trigger] runs[j].0
}

proof fn lemma_merged_bounds(runs: Seq<(usize, usize)>, join: Seq<bool>)
    requires
        join.len() == runs.len(),
        ordered_runs(runs),
        runs.len() > 0,
    ensures
        ordered_runs(merged_runs(runs, join)),
        merged_runs(runs, join).last().1 == runs.last().1,
        merged_runs(runs, join)[0].0 == runs[0].0,
    decreases runs.len(),
{
    let k = runs.len() - 1;
    let prev_runs = runs.drop_last();
    let prev_join = join.subrange(0, k);
    if k == 0 {
        assert(merged_runs(prev_runs, prev_join) =~= Seq::<(usize, usize)>::empty());
        assert(merged_runs(runs, join) =~= seq![runs[0]]);
    } else {
        assert(ordered_runs(prev_runs)) by {
            assert forall|i: int, j: int| 0 <= i < j < prev_runs.len() implies #[trigger] prev_runs[i].1
                < #[trigger] prev_runs[j].0 by {
                assert(prev_runs[i] == runs[i] && prev_runs[j] == runs[j]);
            }
        }
        lemma_merged_bounds(prev_runs, prev_join);
        lemma_merged_runs_len(prev_runs, prev_join);
        let prev = merged_runs(prev_runs, prev_join);
        let m = merged_runs(runs, join);
        assert(prev_runs.last() == runs[k - 1]);
        assert(prev_runs[0] == runs[0]);
        assert(runs[k - 1].0 < runs[k - 1].1 && runs[k - 1].1 < runs[k].0);
        assert(prev.last().1 == runs[k - 1].1);
        assert forall|i: int| 0 <= i < prev.len() implies #[trigger] prev[i].1 <= prev.last().1 by {
            if i < prev.len() - 1 {
                assert(prev[i].1 < prev[prev.len() - 1].0);
                assert(prev[prev.len() - 1].0 < prev[prev.len() - 1].1);
            }
        }
        assert(m[0].0 == prev[0].0);
        if join[k] {
            assert forall|i: int, j: int| 0 <= i < j < m.len() implies #[trigger] m[i].1
                < #[trigger] m[j].0 by {
                assert(m[i] == prev[i]);
                if j < m.len() - 1 {
                    assert(m[j] == prev[j]);
                } else {
                    assert(m[j].0 == prev[j].0);
                }
            }
        } else {
            assert forall|i: int, j: int| 0 <= i < j < m.len() implies #[trigger] m[i].1
                < #[trigger] m[j].0 by {
                assert(m[i] == prev[i]);
                if j < m.len() - 1 {
                    assert(m[j] == prev[j]);
                } else {
                    assert(m[j] == runs[k]);
                    assert(prev[i].1 <= prev.last().1);
                    assert(prev[i].1 < runs[k].0);
                }
            }
        }
        assert forall|i: int| 0 <= i < m.len() implies #[trigger] m[i].0 < m[i].1 by {
            if i < m.len() - 1 {
                assert(m[i] == prev[i]);
            } else if join[k] {
                assert(m[i].0 == prev[i].0);
                assert(prev[i].1 == runs[k - 1].1);
            }
        }
    }
}

/// Law: merging keeps ordered runs ordered and apart, starts where the
/// first run starts and ends where the last run ends.
pub proof fn lemma_merge_keeps_order(runs: Seq<(usize, usize)>, join: Seq<bool>)
    requires
        join.len() == runs.len(),
        ordered_runs(runs),
    ensures
        ordered_runs(merged_runs(runs, join)),
        merged_runs(runs, join).len() <= runs.len(),
        runs.len() > 0 ==> merged_runs(runs, join).len() > 0 && merged_runs(runs, join)[0].0
            == runs[0].0 && merged_runs(runs, join).last().1 == runs.last().1,
{
    lemma_merged_runs_len(runs, join);
    if runs.len() > 0 {
        lemma_merged_bounds(runs, join);
    }
}

/// Law: the voiced runs of any frame sequence are ordered and apart.
pub proof fn lemma_voiced_runs_ordered(voiced: Seq<bool>, runs: Seq<(usize, usize)>)
    requires
        is_run_list(voiced, runs),
    ensures
        ordered_runs(runs),
{
    assert forall|i: int| 0 <= i < runs.len() implies #[trigger] runs[i].0 < runs[i].1 by {
        assert(is_voiced_run(voiced, runs[i].0 as int, runs[i].1 as int));
    }
}

proof fn lemma_kept_runs_subseq(runs: Seq<(usize, usize)>, keep: Seq<bool>)
    requires
        keep.len() == runs.len(),
    ensures
        ({
            let k = kept_runs(runs, keep);
            exists|idx: Seq<int>|
                {
                    &&& #[trigger] idx.len() == k.len()
                    &&& forall|a: int| 0 <= a < idx.len() ==> 0 <= #[trigger] idx[a] < runs.len() && k[a]
                        == runs[idx[a]]
                    &&& forall|a: int, b: int|
                        0 <= a < b < idx.len() ==> #[trigger] idx[a] < #[trigger] idx[b]
                }
        }),
    decreases runs.len(),
{
    if runs.len() == 0 {
        let idx: Seq<int> = Seq::empty();
        assert(idx.len() == kept_runs(runs, keep).len());
    } else {
        let n = runs.len() - 1;
        let pr = runs.drop_last();
        let pk = keep.subrange(0, n);
        lemma_kept_runs_subseq(pr, pk);
        let prev = kept_runs(pr, pk);
        let idx0 = choose|idx: Seq<int>|
            {
                &&& #[trigger] idx.len() == prev.len()
                &&& forall|a: int| 0 <= a < idx.len() ==> 0 <= #[trigger] idx[a] < pr.len() && prev[a]
                    == pr[idx[a]]
                &&& forall|a: int, b: int|
                    0 <= a < b < idx.len() ==> #[trigger] idx[a] < #[trigger] idx[b]
            };
        let k = kept_runs(runs, keep);
        if keep[n] {
            let idx = idx0.push(n);
            assert(idx.len() == k.len());
            assert forall|a: int| 0 <= a < idx.len() implies 0 <= #[trigger] idx[a] < runs.len() && k[a]
                == runs[idx[a]] by {
                if a < idx0.len() {
                    assert(idx[a] == idx0[a]);
                    assert(pr[idx0[a]] == runs[idx0[a]]);
                }
            }
            assert forall|a: int, b: int| 0 <= a < b < idx.len() implies #[trigger] idx[a]
                < #[trigger] idx[b] by {
                if b < idx0.len() {
                    assert(idx[a] == idx0[a] && idx[b] == idx0[b]);
                } else {
                    assert(idx[a] == idx0[a]);
                }
            }
        } else {
            assert forall|a: int| 0 <= a < idx0.len() implies 0 <= #[trigger] idx0[a] < runs.len() && k[a]
                == runs[idx0[a]] by {
                assert(pr[idx0[a]] == runs[idx0[a]]);
            }
            assert(idx0.len() == k.len());
        }
    }
}

/// Law: keeping some of an ordered list of runs leaves them ordered and
/// apart.
pub proof fn lemma_keep_keeps_order(runs: Seq<(usize, usize)>, keep: Seq<bool>)
    requires
        keep.len() == runs.len(),
        ordered_runs(runs),
    ensures
        ordered_runs(kept_runs(runs, keep)),
{
    lemma_kept_runs_subseq(runs, keep);
    let k = kept_runs(runs, keep);
    let idx = choose|idx: Seq<int>|
        {
            &&& #[trigger] idx.len() == k.len()
            &&& forall|a: int| 0 <= a < idx.len() ==> 0 <= #[trigger] idx[a] < runs.len() && k[a]
                == runs[idx[a]]
            &&& forall|a: int, b: int|
                0 <= a < b < idx.len() ==> #[trigger] idx[a] < #[trigger] idx[b]
        };
    assert forall|i: int| 0 <= i < k.len() implies #[trigger] k[i].0 < k[i].1 by {
        assert(k[i] == runs[idx[i]]);
    }
    assert forall|i: int, j: int| 0 <= i < j < k.len() implies #[trigger] k[i].1 < #[trigger] k[j].0 by {
        assert(k[i] == runs[idx[i]]);
        assert(k[j] == runs[idx[j]]);
        assert(idx[i] < idx[j]);
    }
}

proof fn lemma_run_in_other_list(
    voiced: Seq<bool>,
    r1: Seq<(usize, usize)>,
    r2: Seq<(usize, usize)>,
    i: int,
) -> (j: int)
    requires
        is_run_list(voiced, r1),
        is_run_list(voiced, r2),
        0 <= i < r1.len(),
    ensures
        0 <= j < r2.len(),
        r2[j] == r1[i],
{
    let s = r1[i].0 as int;
    let e = r1[i].1 as int;
    assert(is_voiced_run(voiced, s, e));
    assert(voiced[s]);
    let j = choose|j: int| 0 <= j < r2.len() && #[trigger] r2[j].0 <= s < r2[j].1;
    let s2 = r2[j].0 as int;
    let e2 = r2[j].1 as int;
    assert(is_voiced_run(voiced, s2, e2));
    if s2 < s {
        assert(voiced[s - 1]);
    }
    if e < e2 {
        assert(voiced[e]);
    }
    if e2 < e {
        assert(voiced[e2]);
    }
    j
}

proof fn lemma_run_lists_agree_below(
    voiced: Seq<bool>,
    r1: Seq<(usize, usize)>,
    r2: Seq<(usize, usize)>,
    n: int,
)
    requires
        is_run_list(voiced, r1),
        is_run_list(voiced, r2),
        0 <= n <= r1.len(),
    ensures
        n <= r2.len(),
        forall|k: int| 0 <= k < n ==> #[trigger] r1[k] == r2[k],
    decreases n,
{
    if n > 0 {
        let i = n - 1;
        lemma_run_lists_agree_below(voiced, r1, r2, i);
        let j = lemma_run_in_other_list(voiced, r1, r2, i);
        assert(is_voiced_run(voiced, r1[i].0 as int, r1[i].1 as int));
        if j < i {
            assert(r1[j] == r2[j]);
            assert(r1[j].1 < r1[i].0);
        } else if j > i {
            let m = lemma_run_in_other_list(voiced, r2, r1, i);
            assert(is_voiced_run(voiced, r2[i].0 as int, r2[i].1 as int));
            if m < i {
                assert(r1[m] == r2[m]);
                assert(r2[m].1 < r2[i].0);
            } else if m == i {
                assert(r2[i].1 < r2[j].0);
            } else {
                assert(r1[i].1 < r1[m].0);
                assert(r2[i].1 < r2[j].0);
            }
        }
    }
}

/// The description of the voiced runs determines them: two lists that
/// both list exactly the maximal voiced runs of the same frames are equal.
pub proof fn lemma_run_list_unique(voiced: Seq<bool>, r1: Seq<(usize, usize)>, r2: Seq<(usize, usize)>)
    requires
        is_run_list(voiced, r1),
        is_run_list(voiced, r2),
    ensures
        r1 == r2,
{
    lemma_run_lists_agree_below(voiced, r1, r2, r1.len() as int);
    lemma_run_lists_agree_below(voiced, r2, r1, r2.len() as int);
    assert(r1 =~= r2);
}

} // verus!
