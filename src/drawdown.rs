use vstd::prelude::*;

verus! {

/// A run of consecutive periods, from `start` up to but not including `end`.
#[derive(Clone, Copy, Debug, PartialEq, Eq, Structural)]
pub struct Run {
    pub start: usize,
    pub end: usize,
}

/// `r` is a maximal run of losses in `l`: non-empty, every period in it is a
/// loss, and the periods just before and just after it are not.
pub open spec fn is_loss_run(l: Seq<bool>, r: Run) -> bool {
    &&& r.start < r.end <= l.len()
    &&& forall|k: int| r.start <= k < r.end ==> #[trigger] l[k]
    &&& (r.start == 0 || !l[r.start - 1])
    &&& (r.end == l.len() || !l[r.end as int])
}

/// Some run of `runs` contains period `k`.
pub open spec fn covered(runs: Seq<Run>, k: int) -> bool {
    exists|j: int| 0 <= j < runs.len() && #[trigger] runs[j].start <= k && k < runs[j].end
}

/// `runs` lists every maximal run of losses in `l`, in chronological order.
pub open spec fn loss_runs_of(l: Seq<bool>, runs: Seq<Run>) -> bool {
    &&& forall|j: int| 0 <= j < runs.len() ==> is_loss_run(l, #[trigger] runs[j])
    &&& forall|j: int| 0 <= j < runs.len() - 1 ==> #[trigger] runs[j].end < runs[j + 1].start
    &&& forall|k: int| 0 <= k < l.len() && #[trigger] l[k] ==> covered(runs, k)
}

/// Splits a window into its maximal runs of consecutive losses; `losses[k]`
/// says whether period `k` lost.
pub fn loss_runs(losses: &[bool]) -> (runs: Vec<Run>)
    ensures
        loss_runs_of(losses@, runs@),
{
    let n = losses.len();
    let mut runs: Vec<Run> = Vec::new();
    let mut i: usize = 0;
    while i < n
        invariant
            n == losses@.len(),
            i <= n,
            forall|j: int| 0 <= j < runs@.len() ==> is_loss_run(losses@, #[trigger] runs@[j]),
            forall|j: int|
                0 <= j < runs@.len() - 1 ==> #[trigger] runs@[j].end < runs@[j + 1].start,
            forall|j: int| 0 <= j < runs@.len() ==> #[trigger] runs@[j].end <= i,
            forall|k: int| 0 <= k < i && #[trigger] losses@[k] ==> covered(runs@, k),
            i == 0 || !losses@[i - 1] || (runs@.len() > 0 && runs@.last().end == i),
        decreases n - i,
    {
        if losses[i] {
            let start = i;
            let ghost before = runs@;
            while i < n && losses[i]
                invariant
                    n == losses@.len(),
                    start <= i <= n,
                    forall|k: int| start <= k < i ==> #[trigger] losses@[k],
                decreases n - i,
            {
                i = i + 1;
            }
            let run = Run { start, end: i };
            runs.push(run);
            proof {
                assert(start == 0 || !losses@[start - 1]);
                assert(is_loss_run(losses@, run));
                if before.len() > 0 {
                    let e = before.last().end;
                    assert(e <= start);
                    assert(e != start) by {
                        assert(is_loss_run(losses@, before[before.len() - 1]));
                    }
                }
                assert forall|j: int| 0 <= j < runs@.len() implies is_loss_run(
                    losses@,
                    #[trigger] runs@[j],
                ) by {
                    if j < before.len() {
                        assert(runs@[j] == before[j]);
                    }
                }
                assert forall|j: int| 0 <= j < runs@.len() - 1 implies #[trigger] runs@[j].end
                    < runs@[j + 1].start by {
                    if j + 1 < before.len() {
                        assert(runs@[j] == before[j]);
                        assert(runs@[j + 1] == before[j + 1]);
                    } else {
                        assert(runs@[j] == before[before.len() - 1]);
                    }
                }
                assert forall|k: int| 0 <= k < i && #[trigger] losses@[k] implies covered(
                    runs@,
                    k,
                ) by {
                    if k < start {
                        let j = choose|j: int|
                            0 <= j < before.len() && #[trigger] before[j].start <= k && k
                                < before[j].end;
                        assert(runs@[j] == before[j]);
                    } else {
                        assert(runs@[runs@.len() - 1] == run);
                    }
                }
            }
        } else {
            i = i + 1;
        }
    }
    runs
}

/// A window without a single loss has no loss run.
pub proof fn lemma_no_loss_no_run(l: Seq<bool>, runs: Seq<Run>)
    requires
        loss_runs_of(l, runs),
        forall|k: int| 0 <= k < l.len() ==> !#[trigger] l[k],
    ensures
        runs.len() == 0,
{
    if runs.len() > 0 {
        assert(is_loss_run(l, runs[0]));
        assert(l[runs[0].start as int]);
    }
}

/// A non-empty window of nothing but losses is one single loss run, the
/// whole window.
pub proof fn lemma_all_loss_one_run(l: Seq<bool>, runs: Seq<Run>)
    requires
        loss_runs_of(l, runs),
        l.len() > 0,
        forall|k: int| 0 <= k < l.len() ==> #[trigger] l[k],
    ensures
        runs == seq![Run { start: 0, end: l.len() as usize }],
{
    assert(l[0]);
    assert(covered(runs, 0));
    assert(runs.len() > 0);
    assert(is_loss_run(l, runs[0]));
    if runs[0].start > 0 {
        assert(l[runs[0].start - 1]);
    }
    if runs[0].end < l.len() {
        assert(l[runs[0].end as int]);
    }
    if runs.len() > 1 {
        assert(runs[0].end < runs[1].start);
        assert(is_loss_run(l, runs[1]));
    }
    assert(runs =~= seq![Run { start: 0, end: l.len() as usize }]);
}

/// Runs listed earlier end before later ones start.
proof fn lemma_runs_ordered(l: Seq<bool>, runs: Seq<Run>, i: int, j: int)
    requires
        loss_runs_of(l, runs),
        0 <= i < j < runs.len(),
    ensures
        runs[i].end < runs[j].start,
    decreases j - i,
{
    if i + 1 < j {
        lemma_runs_ordered(l, runs, i, j - 1);
        assert(is_loss_run(l, runs[j - 1]));
        assert(runs[j - 1].end < runs[j].start);
    }
}

/// Two maximal loss runs that start together end together.
proof fn lemma_same_start_same_run(l: Seq<bool>, a: Run, b: Run)
    requires
        is_loss_run(l, a),
        is_loss_run(l, b),
        a.start == b.start,
    ensures
        a == b,
{
    if a.end < b.end {
        assert(l[a.end as int]);
    }
    if b.end < a.end {
        assert(l[b.end as int]);
    }
}

/// Where two listings agree up to run `j`, the `j`-th run of the second
/// starts no later than that of the first.
proof fn lemma_start_bound(l: Seq<bool>, r1: Seq<Run>, r2: Seq<Run>, j: int)
    requires
        loss_runs_of(l, r1),
        loss_runs_of(l, r2),
        0 <= j < r1.len(),
        j < r2.len(),
        j > 0 ==> r1[j - 1] == r2[j - 1],
    ensures
        r2[j].start <= r1[j].start,
{
    let s1 = r1[j].start as int;
    assert(is_loss_run(l, r1[j]));
    assert(l[s1]);
    assert(covered(r2, s1));
    let i = choose|i: int| 0 <= i < r2.len() && #[trigger] r2[i].start <= s1 && s1 < r2[i].end;
    assert(is_loss_run(l, r2[i]));
    assert(is_loss_run(l, r2[j]));
    if i > j {
        lemma_runs_ordered(l, r2, j, i);
    } else if i < j {
        lemma_runs_ordered(l, r1, j - 1, j);
        assert(is_loss_run(l, r2[j - 1]));
        if i < j - 1 {
            lemma_runs_ordered(l, r2, i, j - 1);
        }
        assert(false);
    }
}

proof fn lemma_prefix_agrees(l: Seq<bool>, r1: Seq<Run>, r2: Seq<Run>, j: int)
    requires
        loss_runs_of(l, r1),
        loss_runs_of(l, r2),
        0 <= j <= r1.len(),
        j <= r2.len(),
    ensures
        forall|i: int| 0 <= i < j ==> r1[i] == r2[i],
    decreases j,
{
    if j > 0 {
        lemma_prefix_agrees(l, r1, r2, j - 1);
        lemma_start_bound(l, r1, r2, j - 1);
        lemma_start_bound(l, r2, r1, j - 1);
        assert(is_loss_run(l, r1[j - 1]));
        assert(is_loss_run(l, r2[j - 1]));
        lemma_same_start_same_run(l, r1[j - 1], r2[j - 1]);
    }
}

/// Where a listing agrees with another on all of its own runs, the other
/// has no further run.
proof fn lemma_no_extra_run(l: Seq<bool>, r1: Seq<Run>, r2: Seq<Run>)
    requires
        loss_runs_of(l, r1),
        loss_runs_of(l, r2),
        r2.len() <= r1.len(),
        forall|i: int| 0 <= i < r2.len() ==> r1[i] == r2[i],
    ensures
        r1.len() == r2.len(),
{
    if r2.len() < r1.len() {
        let n = r2.len() as int;
        let s = r1[n].start as int;
        assert(is_loss_run(l, r1[n]));
        assert(l[s]);
        assert(covered(r2, s));
        let i = choose|i: int| 0 <= i < r2.len() && #[trigger] r2[i].start <= s && s < r2[i].end;
        assert(r1[i] == r2[i]);
        lemma_runs_ordered(l, r1, i, n);
        assert(is_loss_run(l, r1[i]));
    }
}

/// The maximal loss runs of a window are determined by the window: two
/// listings of them are the same.
pub proof fn lemma_loss_runs_unique(l: Seq<bool>, r1: Seq<Run>, r2: Seq<Run>)
    requires
        loss_runs_of(l, r1),
        loss_runs_of(l, r2),
    ensures
        r1 == r2,
{
    if r1.len() <= r2.len() {
        lemma_prefix_agrees(l, r1, r2, r1.len() as int);
        lemma_no_extra_run(l, r2, r1);
    } else {
        lemma_prefix_agrees(l, r1, r2, r2.len() as int);
        lemma_no_extra_run(l, r1, r2);
    }
    assert(r1 =~= r2);
}

/// The values of the present slots of `s`, in order.
pub open spec fn present<U>(s: Seq<Option<U>>) -> Seq<U>
    decreases s.len(),
{
    if s.len() == 0 {
        Seq::empty()
    } else {
        match s.last() {
            Some(v) => present(s.drop_last()).push(v),
            None => present(s.drop_last()),
        }
    }
}

/// `flags` is what `is_loss` says of each period of `w`.
pub open spec fn classified<T, C: Fn(&T) -> bool>(is_loss: C, w: Seq<T>, flags: Seq<bool>) -> bool {
    &&& flags.len() == w.len()
    &&& forall|k: int| 0 <= k < w.len() ==> call_ensures(is_loss, (&w[k],), #[trigger] flags[k])
}

/// `m` is what `magnitude` may give for the periods `p` of a loss run.
pub open spec fn measured<T, U, M: Fn(&[T]) -> Option<U>>(magnitude: M, p: Seq<T>, m: Option<U>) -> bool {
    exists|s: &[T]| #[trigger] s@ == p && call_ensures(magnitude, (s,), m)
}

/// `out` holds the episodes of window `w`: `w` is split into its maximal runs
/// of losses, each run is measured, and the runs whose measure is present
/// are kept, in order.
pub open spec fn episodes_from<T, U, C: Fn(&T) -> bool, M: Fn(&[T]) -> Option<U>>(
    is_loss: C,
    magnitude: M,
    w: Seq<T>,
    flags: Seq<bool>,
    runs: Seq<Run>,
    mags: Seq<Option<U>>,
    out: Seq<U>,
) -> bool {
    &&& classified(is_loss, w, flags)
    &&& loss_runs_of(flags, runs)
    &&& mags.len() == runs.len()
    &&& forall|j: int|
        0 <= j < runs.len() ==> measured(
            magnitude,
            w.subrange(runs[j].start as int, runs[j].end as int),
            #[trigger] mags[j],
        )
    &&& out == present(mags)
}

/// Says, for each period of `window`, whether it lost.
pub fn classify<T, C: Fn(&T) -> bool>(window: &[T], is_loss: C) -> (flags: Vec<bool>)
    requires
        forall|x: &T| #[trigger] is_loss.requires((x,)),
    ensures
        classified(is_loss, window@, flags@),
{
    let mut flags: Vec<bool> = Vec::new();
    let mut k: usize = 0;
    while k < window.len()
        invariant
            k <= window@.len(),
            flags@.len() == k,
            forall|x: &T| #[trigger] is_loss.requires((x,)),
            forall|i: int| 0 <= i < k ==> call_ensures(is_loss, (&window@[i],), #[trigger] flags@[i]),
        decreases window@.len() - k,
    {
        let b = is_loss(&window[k]);
        flags.push(b);
        k = k + 1;
    }
    flags
}

/// The drawdown episodes of a window: its maximal runs of consecutive losses,
/// each measured by `magnitude`, keeping those whose measure is present.
pub fn episodes<T, U, C: Fn(&T) -> bool, M: Fn(&[T]) -> Option<U>>(
    window: &[T],
    is_loss: C,
    magnitude: M,
) -> (out: Vec<U>)
    requires
        forall|x: &T| #[trigger] is_loss.requires((x,)),
        forall|s: &[T]| #[trigger] magnitude.requires((s,)),
    ensures
        exists|flags: Seq<bool>, runs: Seq<Run>, mags: Seq<Option<U>>|
            #[trigger] episodes_from(is_loss, magnitude, window@, flags, runs, mags, out@),
{
    let flags = classify(window, is_loss);
    let runs = loss_runs(flags.as_slice());
    let mut out: Vec<U> = Vec::new();
    let ghost mut mags: Seq<Option<U>> = Seq::empty();
    let mut j: usize = 0;
    while j < runs.len()
        invariant
            j <= runs@.len(),
            mags.len() == j,
            flags@.len() == window@.len(),
            loss_runs_of(flags@, runs@),
            forall|s: &[T]| #[trigger] magnitude.requires((s,)),
            forall|i: int|
                0 <= i < j ==> measured(
                    magnitude,
                    window@.subrange(runs@[i].start as int, runs@[i].end as int),
                    #[trigger] mags[i],
                ),
            out@ == present(mags),
        decreases runs@.len() - j,
    {
        let run = runs[j];
        proof {
            assert(is_loss_run(flags@, runs@[j as int]));
        }
        let part = vstd::slice::slice_subrange(window, run.start, run.end);
        let m = magnitude(part);
        let ghost before = mags;
        proof {
            mags = mags.push(m);
            assert(mags.drop_last() =~= before);
        }
        match m {
            Some(v) => out.push(v),
            None => {},
        }
        j = j + 1;
    }
    proof {
        assert(episodes_from(is_loss, magnitude, window@, flags@, runs@, mags, out@));
    }
    out
}

/// Where `is_loss` rejects every period of the window, the window has no
/// episode.
pub proof fn lemma_episodes_without_loss<T, U, C: Fn(&T) -> bool, M: Fn(&[T]) -> Option<U>>(
    is_loss: C,
    magnitude: M,
    w: Seq<T>,
    flags: Seq<bool>,
    runs: Seq<Run>,
    mags: Seq<Option<U>>,
    out: Seq<U>,
)
    requires
        episodes_from(is_loss, magnitude, w, flags, runs, mags, out),
        forall|k: int, b: bool| 0 <= k < w.len() && #[trigger] call_ensures(is_loss, (&w[k],), b) ==> !b,
    ensures
        out.len() == 0,
{
    assert forall|k: int| 0 <= k < flags.len() implies !#[trigger] flags[k] by {
        assert(call_ensures(is_loss, (&w[k],), flags[k]));
    }
    lemma_no_loss_no_run(flags, runs);
    assert(mags =~= Seq::<Option<U>>::empty());
}

/// Where `is_loss` accepts every period of a non-empty window, the window is
/// one single episode: the whole window, measured once.
pub proof fn lemma_episodes_all_loss<T, U, C: Fn(&T) -> bool, M: Fn(&[T]) -> Option<U>>(
    is_loss: C,
    magnitude: M,
    w: Seq<T>,
    flags: Seq<bool>,
    runs: Seq<Run>,
    mags: Seq<Option<U>>,
    out: Seq<U>,
)
    requires
        episodes_from(is_loss, magnitude, w, flags, runs, mags, out),
        w.len() > 0,
        forall|k: int, b: bool| 0 <= k < w.len() && #[trigger] call_ensures(is_loss, (&w[k],), b) ==> b,
    ensures
        mags.len() == 1,
        measured(magnitude, w, mags[0]),
        out == (match mags[0] {
            Some(v) => seq![v],
            None => Seq::<U>::empty(),
        }),
{
    assert forall|k: int| 0 <= k < flags.len() implies #[trigger] flags[k] by {
        assert(call_ensures(is_loss, (&w[k],), flags[k]));
    }
    lemma_all_loss_one_run(flags, runs);
    assert(runs[0] == Run { start: 0, end: w.len() as usize });
    assert(w.subrange(0, w.len() as int) =~= w);
    assert(measured(magnitude, w.subrange(runs[0].start as int, runs[0].end as int), mags[0]));
    assert(mags.drop_last() =~= Seq::<Option<U>>::empty());
    assert(present(mags.drop_last()) =~= Seq::<U>::empty());
}

} // verus!
