//! Predictive makespan scheduling: assign jobs to identical machines,
//! processing jobs in ascending order of their *predicted* lengths while
//! accounting loads with their *true* lengths, so that prediction error
//! affects only the processing order, never the final load arithmetic.
//!
//! Each job goes to the machine with the lowest accumulated true load at
//! the moment it is processed; ties — between equal predictions and
//! between equally loaded machines — go to the lowest index.

use vstd::prelude::*;

use crate::errors::EngineError;

verus! {

/// The strict processing order on job indices: by predicted length, ties
/// by original position. Distinct indices always compare, so the order is
/// total and the sorted sequence is unique — a stable sort by prediction.
pub open spec fn key_lt(preds: Seq<u32>, a: int, b: int) -> bool {
    preds[a] < preds[b] || (preds[a] == preds[b] && a < b)
}

/// Index `j` inserted into the sorted index sequence `s`: before the first
/// entry it precedes in the processing order.
pub open spec fn insert_ord(preds: Seq<u32>, j: usize, s: Seq<usize>) -> Seq<usize>
    decreases s.len(),
{
    if s.len() == 0 {
        seq![j]
    } else if key_lt(preds, j as int, s[0] as int) {
        seq![j] + s
    } else {
        seq![s[0]] + insert_ord(preds, j, s.drop_first())
    }
}

/// The first `k` job indices, sorted into processing order by repeated
/// insertion.
pub open spec fn sort_prefix(preds: Seq<u32>, k: nat) -> Seq<usize>
    decreases k,
{
    if k == 0 {
        Seq::empty()
    } else {
        insert_ord(preds, (k - 1) as usize, sort_prefix(preds, (k - 1) as nat))
    }
}

/// All job indices sorted into processing order.
pub open spec fn sort_order(preds: Seq<u32>) -> Seq<usize> {
    sort_prefix(preds, preds.len())
}

/// The true lengths of the jobs in processing order.
pub open spec fn ordered_lengths(jobs: Seq<u32>, ord: Seq<usize>) -> Seq<int> {
    Seq::new(ord.len(), |k: int| jobs[ord[k] as int] as int)
}

/// The first index holding the minimum of `s`: the machine a greedy step
/// picks from the load vector `s`.
pub open spec fn min_index(s: Seq<int>) -> int
    decreases s.len(),
{
    if s.len() <= 1 {
        0
    } else {
        let r = min_index(s.drop_last());
        if s.last() < s[r] {
            s.len() - 1
        } else {
            r
        }
    }
}

/// The picked index is in bounds, holds a minimal load, and every earlier
/// load is strictly larger: ties for the least load go to the lowest
/// machine index.
pub proof fn lemma_min_index_is_first_min(s: Seq<int>)
    requires
        s.len() >= 1,
    ensures
        0 <= min_index(s) < s.len(),
        forall|j: int| 0 <= j < s.len() ==> s[min_index(s)] <= #[trigger] s[j],
        forall|j: int| 0 <= j < min_index(s) ==> s[min_index(s)] < #[trigger] s[j],
    decreases s.len(),
{
    if s.len() > 1 {
        lemma_min_index_is_first_min(s.drop_last());
        assert(forall|j: int| 0 <= j < s.len() - 1 ==> #[trigger] s[j] == s.drop_last()[j]);
    }
}

/// One greedy step: the next true length lands on the first least-loaded
/// machine.
pub open spec fn greedy_step(s: Seq<int>, p: int) -> Seq<int> {
    s.update(min_index(s), s[min_index(s)] + p)
}

/// The machine loads after greedily placing each length of `ps` in turn,
/// starting from `m` idle machines.
pub open spec fn greedy_loads(m: nat, ps: Seq<int>) -> Seq<int>
    decreases ps.len(),
{
    if ps.len() == 0 {
        Seq::new(m, |i: int| 0int)
    } else {
        greedy_step(greedy_loads(m, ps.drop_last()), ps.last())
    }
}

/// The per-job machine assignments after the first `k` greedy steps, with
/// machine `0` standing for the jobs not yet processed.
pub open spec fn assign_prefix(m: nat, jobs: Seq<u32>, ord: Seq<usize>, k: nat) -> Seq<usize>
    decreases k,
{
    if k == 0 {
        Seq::new(jobs.len(), |j: int| 0usize)
    } else {
        let prev = assign_prefix(m, jobs, ord, (k - 1) as nat);
        let loads = greedy_loads(m, ordered_lengths(jobs, ord).take(k - 1));
        prev.update(ord[k - 1] as int, min_index(loads) as usize)
    }
}

/// The complete schedule: one machine index per job, jobs processed in
/// prediction-sorted order, every job placed on the machine with the least
/// accumulated true load.
pub open spec fn spec_assignments(m: nat, jobs: Seq<u32>, preds: Seq<u32>) -> Seq<usize> {
    assign_prefix(m, jobs, sort_order(preds), jobs.len())
}

/// The learning-augmented scheduling engine.
pub struct Scheduling {
    /// The number of identical machines. Positive.
    pub num_machines: usize,
}

/// Compares two job indices in the processing order.
fn key_lt_exec(preds: &Vec<u32>, a: usize, b: usize) -> (r: bool)
    requires
        a < preds@.len(),
        b < preds@.len(),
    ensures
        r == key_lt(preds@, a as int, b as int),
{
    preds[a] < preds[b] || (preds[a] == preds[b] && a < b)
}

/// The position where `j` is inserted into the sorted index vector: the
/// first entry `j` precedes in the processing order, or the end.
fn find_insert_pos(preds: &Vec<u32>, order: &Vec<usize>, j: usize) -> (pos: usize)
    requires
        j < preds@.len(),
        forall|p: int| 0 <= p < order@.len() ==> (#[trigger] order@[p]) < preds@.len(),
    ensures
        pos <= order@.len(),
        forall|p: int| 0 <= p < pos ==> !key_lt(preds@, j as int, (#[trigger] order@[p]) as int),
        pos < order@.len() ==> key_lt(preds@, j as int, order@[pos as int] as int),
{
    let n: usize = order.len();
    let mut pos: usize = 0;
    while pos < n
        invariant
            pos <= n == order@.len(),
            j < preds@.len(),
            forall|p: int| 0 <= p < order@.len() ==> (#[trigger] order@[p]) < preds@.len(),
            forall|p: int|
                0 <= p < pos ==> !key_lt(preds@, j as int, (#[trigger] order@[p]) as int),
        decreases n - pos,
    {
        if key_lt_exec(preds, j, order[pos]) {
            return pos;
        }
        pos = pos + 1;
    }
    pos
}

/// Inserting at the first position whose entry follows `j` in the
/// processing order is exactly the recursive insertion.
proof fn lemma_insert_ord_at(preds: Seq<u32>, j: usize, s: Seq<usize>, pos: int)
    requires
        0 <= pos <= s.len(),
        forall|p: int| 0 <= p < pos ==> !key_lt(preds, j as int, (#[trigger] s[p]) as int),
        pos < s.len() ==> key_lt(preds, j as int, s[pos] as int),
    ensures
        insert_ord(preds, j, s) == s.insert(pos, j),
    decreases s.len(),
{
    if s.len() == 0 {
        assert(insert_ord(preds, j, s) =~= s.insert(pos, j));
    } else if key_lt(preds, j as int, s[0] as int) {
        assert(pos == 0);
        assert(insert_ord(preds, j, s) =~= s.insert(0, j));
    } else {
        assert(pos >= 1);
        assert(forall|p: int|
            0 <= p < pos - 1 ==> #[trigger] s.drop_first()[p] == s[p + 1]);
        lemma_insert_ord_at(preds, j, s.drop_first(), pos - 1);
        assert(insert_ord(preds, j, s) == seq![s[0]] + s.drop_first().insert(pos - 1, j));
        assert(seq![s[0]] + s.drop_first().insert(pos - 1, j) =~= s.insert(pos, j));
    }
}

impl Scheduling {
    /// The configuration invariant established at construction.
    pub open spec fn wf(&self) -> bool {
        self.num_machines > 0
    }

    /// Creates an engine, rejecting a machine count of zero.
    pub fn new(num_machines: usize) -> (r: Result<Scheduling, EngineError>)
        ensures
            num_machines == 0 ==> r == Err::<Scheduling, EngineError>(
                EngineError::InvalidConfiguration,
            ),
            num_machines > 0 ==> r == Ok::<Scheduling, EngineError>((Scheduling { num_machines })),
    {
        if num_machines == 0 {
            Err(EngineError::InvalidConfiguration)
        } else {
            Ok(Scheduling { num_machines })
        }
    }

    /// Assigns each job a machine: element `i` of the result is the
    /// machine for job `i`. The two inputs are index-aligned — true length
    /// and predicted length of the same job — and must agree in length.
    ///
    /// The result is a function of the arguments alone: repeated calls
    /// with identical inputs return identical outputs.
    pub fn decide(&self, job_lengths: Vec<u32>, predictions: Vec<u32>) -> (r: Result<
        Vec<usize>,
        EngineError,
    >)
        requires
            self.wf(),
        ensures
            match r {
                Ok(asg) => {
                    &&& job_lengths@.len() == predictions@.len()
                    &&& asg@ == spec_assignments(
                        self.num_machines as nat,
                        job_lengths@,
                        predictions@,
                    )
                    &&& asg@.len() == job_lengths@.len()
                    &&& forall|j: int|
                        0 <= j < asg@.len() ==> (#[trigger] asg@[j]) < self.num_machines
                },
                Err(e) => job_lengths@.len() != predictions@.len() && e
                    == EngineError::LengthMismatch,
            },
    {
        let n: usize = job_lengths.len();
        if n != predictions.len() {
            return Err(EngineError::LengthMismatch);
        }
        let m: usize = self.num_machines;

        let mut order: Vec<usize> = Vec::new();
        let mut idx: usize = 0;
        while idx < n
            invariant
                idx <= n == predictions@.len(),
                order@ == sort_prefix(predictions@, idx as nat),
                order@.len() == idx,
                forall|p: int| 0 <= p < order@.len() ==> (#[trigger] order@[p]) < idx,
            decreases n - idx,
        {
            let pos: usize = find_insert_pos(&predictions, &order, idx);
            proof {
                lemma_insert_ord_at(predictions@, idx, order@, pos as int);
                lemma_insert_ord_len(predictions@, idx, order@);
            }
            order.insert(pos, idx);
            idx = idx + 1;
        }

        let ghost ord = order@;
        let ghost jobs = job_lengths@;
        let ghost ps = ordered_lengths(jobs, ord);
        assert(ord == sort_order(predictions@));

        let mut loads: Vec<u128> = Vec::new();
        let mut l: usize = 0;
        while l < m
            invariant
                l <= m,
                loads@.len() == l,
                forall|i: int| 0 <= i < l ==> loads@[i] == 0,
            decreases m - l,
        {
            loads.push(0);
            l = l + 1;
        }
        assert(loads@.map_values(|x: u128| x as int) =~= greedy_loads(m as nat, ps.take(0)));

        let mut assignments: Vec<usize> = Vec::new();
        let mut a: usize = 0;
        while a < n
            invariant
                a <= n,
                assignments@.len() == a,
                forall|i: int| 0 <= i < a ==> assignments@[i] == 0,
            decreases n - a,
        {
            assignments.push(0);
            a = a + 1;
        }
        assert(assignments@ =~= assign_prefix(m as nat, jobs, ord, 0));

        let mut k: usize = 0;
        while k < n
            invariant
                self.num_machines == m,
                k <= n,
                m >= 1,
                n == jobs.len() == predictions@.len(),
                job_lengths@ == jobs,
                ord == sort_order(predictions@),
                order@ == ord,
                ord.len() == n,
                forall|p: int| 0 <= p < ord.len() ==> (#[trigger] ord[p]) < n,
                ps == ordered_lengths(jobs, ord),
                loads@.len() == m,
                loads@.map_values(|x: u128| x as int) == greedy_loads(m as nat, ps.take(k as int)),
                forall|i: int| 0 <= i < m ==> (#[trigger] loads@[i]) <= k * 0xffff_ffff,
                assignments@ == assign_prefix(m as nat, jobs, ord, k as nat),
                assignments@.len() == n,
                forall|j: int| 0 <= j < n ==> (#[trigger] assignments@[j]) < m,
            decreases n - k,
        {
            let ghost loads_int = loads@.map_values(|x: u128| x as int);
            let mut best: usize = 0;
            let mut min_load: u128 = loads[0];
            let mut j: usize = 1;
            while j < m
                invariant
                    1 <= j <= m == loads@.len(),
                    best < j,
                    min_load == loads@[best as int],
                    loads_int == loads@.map_values(|x: u128| x as int),
                    best == min_index(loads_int.take(j as int)),
                decreases m - j,
            {
                proof {
                    assert(loads_int.take(j + 1).drop_last() =~= loads_int.take(j as int));
                }
                if loads[j] < min_load {
                    best = j;
                    min_load = loads[j];
                }
                j = j + 1;
            }
            proof {
                assert(loads_int.take(m as int) =~= loads_int);
                lemma_min_index_is_first_min(loads_int);
            }

            let job: usize = order[k];
            let len: u32 = job_lengths[job];
            assignments[job] = best;
            let new_load: u128 = min_load + (len as u128);
            loads[best] = new_load;
            proof {
                assert(ps.take(k + 1).drop_last() =~= ps.take(k as int));
                assert(ps.take(k + 1).last() == ps[k as int]);
                assert(loads@.map_values(|x: u128| x as int) =~= loads_int.update(
                    best as int,
                    loads_int[best as int] + ps[k as int],
                ));
            }
            k = k + 1;
        }
        Ok(assignments)
    }
}

/// Inserting one index grows the sorted sequence by one.
proof fn lemma_insert_ord_len(preds: Seq<u32>, j: usize, s: Seq<usize>)
    ensures
        insert_ord(preds, j, s).len() == s.len() + 1,
    decreases s.len(),
{
    if s.len() > 0 && !key_lt(preds, j as int, s[0] as int) {
        lemma_insert_ord_len(preds, j, s.drop_first());
    }
}

/// The largest machine load; zero for no machines.
pub open spec fn max_load(s: Seq<int>) -> int
    decreases s.len(),
{
    if s.len() == 0 {
        0
    } else if s.len() == 1 {
        s[0]
    } else {
        vstd::math::max(s.last(), max_load(s.drop_last()))
    }
}

/// The makespan of the schedule: the largest accumulated true load over
/// the machines, after all jobs are placed in prediction-sorted order.
pub open spec fn spec_makespan(m: nat, jobs: Seq<u32>, preds: Seq<u32>) -> int {
    max_load(greedy_loads(m, ordered_lengths(jobs, sort_order(preds))))
}

/// The largest load bounds every load and is attained.
proof fn lemma_max_load_props(s: Seq<int>)
    requires
        s.len() >= 1,
    ensures
        forall|j: int| 0 <= j < s.len() ==> #[trigger] s[j] <= max_load(s),
        exists|j: int| 0 <= j < s.len() && #[trigger] s[j] == max_load(s),
    decreases s.len(),
{
    if s.len() == 1 {
        assert(s[0] == max_load(s));
    } else {
        lemma_max_load_props(s.drop_last());
        assert(forall|j: int| 0 <= j < s.len() - 1 ==> #[trigger] s[j] == s.drop_last()[j]);
        if s.last() >= max_load(s.drop_last()) {
            assert(s[s.len() - 1] == max_load(s));
        } else {
            let j = choose|j: int|
                0 <= j < s.drop_last().len() && #[trigger] s.drop_last()[j] == max_load(
                    s.drop_last(),
                );
            assert(s[j] == max_load(s));
        }
    }
}

/// Number of machines in `s` loaded strictly above `t`.
pub open spec fn count_gt(s: Seq<int>, t: int) -> int
    decreases s.len(),
{
    if s.len() == 0 {
        0
    } else {
        count_gt(s.drop_last(), t) + if s.last() > t {
            1int
        } else {
            0int
        }
    }
}

/// The coupling between a greedy run on `a.len()` machines and one on one
/// machine more, `b`: above any threshold `b` keeps at most one more
/// machine than `a`, and above no threshold does `b` alone keep machines.
/// It is preserved by simultaneous greedy steps and at the end bounds the
/// largest load of `b` by that of `a`.
pub open spec fn dominates(a: Seq<int>, b: Seq<int>) -> bool {
    forall|t: int|
        #![trigger count_gt(b, t)]
        count_gt(b, t) <= count_gt(a, t) + 1 && (count_gt(b, t) >= 1 ==> count_gt(a, t) >= 1)
}

proof fn lemma_count_gt_bounds(s: Seq<int>, t: int)
    ensures
        0 <= count_gt(s, t) <= s.len(),
    decreases s.len(),
{
    if s.len() > 0 {
        lemma_count_gt_bounds(s.drop_last(), t);
    }
}

/// Counting after one entry changes: the old entry leaves the count, the
/// new one enters it.
proof fn lemma_count_gt_update(s: Seq<int>, t: int, i: int, v: int)
    requires
        0 <= i < s.len(),
    ensures
        count_gt(s.update(i, v), t) == count_gt(s, t) - (if s[i] > t {
            1int
        } else {
            0int
        }) + (if v > t {
            1int
        } else {
            0int
        }),
    decreases s.len(),
{
    if i == s.len() - 1 {
        assert(s.update(i, v).drop_last() =~= s.drop_last());
    } else {
        assert(s.update(i, v).drop_last() =~= s.drop_last().update(i, v));
        lemma_count_gt_update(s.drop_last(), t, i, v);
    }
}

/// Every machine above `t` makes the count full.
proof fn lemma_count_gt_all(s: Seq<int>, t: int)
    requires
        forall|j: int| 0 <= j < s.len() ==> #[trigger] s[j] > t,
    ensures
        count_gt(s, t) == s.len(),
    decreases s.len(),
{
    if s.len() > 0 {
        assert(forall|j: int| 0 <= j < s.len() - 1 ==> #[trigger] s.drop_last()[j] == s[j]);
        lemma_count_gt_all(s.drop_last(), t);
    }
}

/// A machine at or below `t` keeps the count short of full.
proof fn lemma_count_gt_missing(s: Seq<int>, t: int, i: int)
    requires
        0 <= i < s.len(),
        s[i] <= t,
    ensures
        count_gt(s, t) <= s.len() - 1,
    decreases s.len(),
{
    lemma_count_gt_bounds(s.drop_last(), t);
    if i < s.len() - 1 {
        lemma_count_gt_missing(s.drop_last(), t, i);
    }
}

/// A machine above `t` makes the count positive.
proof fn lemma_count_gt_present(s: Seq<int>, t: int, i: int)
    requires
        0 <= i < s.len(),
        s[i] > t,
    ensures
        count_gt(s, t) >= 1,
    decreases s.len(),
{
    lemma_count_gt_bounds(s.drop_last(), t);
    if i < s.len() - 1 {
        lemma_count_gt_present(s.drop_last(), t, i);
    }
}

/// A positive count names a machine above `t`.
proof fn lemma_count_gt_nonzero(s: Seq<int>, t: int)
    requires
        count_gt(s, t) >= 1,
    ensures
        exists|j: int| 0 <= j < s.len() && #[trigger] s[j] > t,
    decreases s.len(),
{
    if s.len() > 0 && !(s.last() > t) {
        lemma_count_gt_nonzero(s.drop_last(), t);
    }
}

/// Under the coupling, the extra machine never hurts the least load: the
/// run with one machine more has a least-loaded machine no fuller than
/// the shorter run's.
proof fn lemma_dominates_min(a: Seq<int>, b: Seq<int>)
    requires
        a.len() >= 1,
        b.len() == a.len() + 1,
        dominates(a, b),
    ensures
        b[min_index(b)] <= a[min_index(a)],
{
    let ia = min_index(a);
    let ib = min_index(b);
    lemma_min_index_is_first_min(a);
    lemma_min_index_is_first_min(b);
    if b[ib] > a[ia] {
        assert(forall|j: int| 0 <= j < b.len() ==> #[trigger] b[j] > a[ia]);
        lemma_count_gt_all(b, a[ia]);
        lemma_count_gt_missing(a, a[ia], ia);
        assert(count_gt(b, a[ia]) <= count_gt(a, a[ia]) + 1);
        assert(false);
    }
}

/// Under the coupling, the extra machine never hurts the largest load.
proof fn lemma_dominates_max(a: Seq<int>, b: Seq<int>)
    requires
        a.len() >= 1,
        b.len() == a.len() + 1,
        dominates(a, b),
    ensures
        max_load(b) <= max_load(a),
{
    lemma_max_load_props(a);
    lemma_max_load_props(b);
    if max_load(b) > max_load(a) {
        let i = choose|i: int| 0 <= i < b.len() && #[trigger] b[i] == max_load(b);
        lemma_count_gt_present(b, max_load(a), i);
        assert(count_gt(b, max_load(a)) >= 1);
        lemma_count_gt_nonzero(a, max_load(a));
        assert(false);
    }
}

/// One simultaneous greedy step preserves the coupling.
proof fn lemma_greedy_step_preserves(a: Seq<int>, b: Seq<int>, p: int)
    requires
        a.len() >= 1,
        b.len() == a.len() + 1,
        p >= 0,
        dominates(a, b),
    ensures
        dominates(greedy_step(a, p), greedy_step(b, p)),
{
    let ia = min_index(a);
    let ib = min_index(b);
    lemma_min_index_is_first_min(a);
    lemma_min_index_is_first_min(b);
    lemma_dominates_min(a, b);
    let x = a[ia] + p;
    let y = b[ib] + p;
    let ap = greedy_step(a, p);
    let bp = greedy_step(b, p);
    assert forall|t: int|
        #![trigger count_gt(bp, t)]
        count_gt(bp, t) <= count_gt(ap, t) + 1 && (count_gt(bp, t) >= 1 ==> count_gt(ap, t)
            >= 1) by {
        lemma_count_gt_update(a, t, ia, x);
        lemma_count_gt_update(b, t, ib, y);
        assert(count_gt(b, t) <= count_gt(a, t) + 1);
        assert(count_gt(b, t) >= 1 ==> count_gt(a, t) >= 1);
        if t < b[ib] {
            // Both runs lose one machine above `t` and gain one back.
        } else if t >= a[ia] {
            // Neither updated machine was above `t`; if the taller run's
            // new load clears `t`, so does the shorter run's, since its
            // least-loaded machine was at most as full.
            lemma_count_gt_bounds(a, t);
        } else {
            // Between the two least loads: every machine of the shorter
            // run is above `t`, while the taller run sits one below full.
            assert(forall|j: int| 0 <= j < a.len() ==> #[trigger] a[j] > t);
            lemma_count_gt_all(a, t);
            lemma_count_gt_missing(b, t, ib);
        }
    }
}

/// Greedy load vectors keep one entry per machine.
proof fn lemma_greedy_loads_len(m: nat, ps: Seq<int>)
    requires
        m >= 1,
    ensures
        greedy_loads(m, ps).len() == m,
    decreases ps.len(),
{
    if ps.len() > 0 {
        lemma_greedy_loads_len(m, ps.drop_last());
        lemma_min_index_is_first_min(greedy_loads(m, ps.drop_last()));
    }
}

proof fn lemma_count_gt_zeros(m: nat, t: int)
    ensures
        count_gt(Seq::new(m, |i: int| 0int), t) == if t < 0 {
            m as int
        } else {
            0int
        },
    decreases m,
{
    if m > 0 {
        assert(Seq::new(m, |i: int| 0int).drop_last() =~= Seq::new((m - 1) as nat, |i: int| 0int));
        lemma_count_gt_zeros((m - 1) as nat, t);
    }
}

/// Idle machines satisfy the coupling.
proof fn lemma_dominates_zeros(m: nat)
    requires
        m >= 1,
    ensures
        dominates(Seq::new(m, |i: int| 0int), Seq::new((m + 1) as nat, |i: int| 0int)),
{
    let a = Seq::new(m, |i: int| 0int);
    let b = Seq::new((m + 1) as nat, |i: int| 0int);
    assert forall|t: int|
        #![trigger count_gt(b, t)]
        count_gt(b, t) <= count_gt(a, t) + 1 && (count_gt(b, t) >= 1 ==> count_gt(a, t)
            >= 1) by {
        lemma_count_gt_zeros(m, t);
        lemma_count_gt_zeros((m + 1) as nat, t);
    }
}

/// A whole greedy run on one machine more stays coupled to the run on `m`
/// machines, job for job.
proof fn lemma_greedy_dominates(m: nat, ps: Seq<int>)
    requires
        m >= 1,
        forall|k: int| 0 <= k < ps.len() ==> #[trigger] ps[k] >= 0,
    ensures
        dominates(greedy_loads(m, ps), greedy_loads((m + 1) as nat, ps)),
    decreases ps.len(),
{
    if ps.len() == 0 {
        lemma_dominates_zeros(m);
    } else {
        assert(forall|k: int|
            0 <= k < ps.len() - 1 ==> #[trigger] ps.drop_last()[k] == ps[k]);
        lemma_greedy_dominates(m, ps.drop_last());
        lemma_greedy_loads_len(m, ps.drop_last());
        lemma_greedy_loads_len((m + 1) as nat, ps.drop_last());
        lemma_greedy_step_preserves(
            greedy_loads(m, ps.drop_last()),
            greedy_loads((m + 1) as nat, ps.drop_last()),
            ps.last(),
        );
    }
}

/// Every entry of a sorted index prefix is one of the first `k` indices.
proof fn lemma_insert_ord_entries(preds: Seq<u32>, j: usize, s: Seq<usize>)
    ensures
        forall|p: int|
            0 <= p < insert_ord(preds, j, s).len() ==> (#[trigger] insert_ord(preds, j, s)[p]) == j
                || s.contains(insert_ord(preds, j, s)[p]),
    decreases s.len(),
{
    if s.len() == 0 {
    } else if key_lt(preds, j as int, s[0] as int) {
    } else {
        lemma_insert_ord_entries(preds, j, s.drop_first());
        let res = insert_ord(preds, j, s);
        let rest = insert_ord(preds, j, s.drop_first());
        assert(res == seq![s[0]] + rest);
        assert forall|p: int| 0 <= p < res.len() implies (#[trigger] res[p]) == j || s.contains(
            res[p],
        ) by {
            if p == 0 {
                assert(res[0] == s[0]);
                assert(s.contains(s[0]));
            } else {
                assert(res[p] == rest[p - 1]);
                if rest[p - 1] != j {
                    assert(s.drop_first().contains(rest[p - 1]));
                    let q = choose|q: int|
                        0 <= q < s.drop_first().len() && #[trigger] s.drop_first()[q] == rest[p
                            - 1];
                    assert(s[q + 1] == rest[p - 1]);
                    assert(s.contains(rest[p - 1]));
                }
            }
        }
    }
}

/// Job indices in the processing order all point into the job sequence.
proof fn lemma_sort_prefix_entries(preds: Seq<u32>, k: nat)
    ensures
        forall|p: int|
            0 <= p < sort_prefix(preds, k).len() ==> (#[trigger] sort_prefix(preds, k)[p]) < k,
    decreases k,
{
    if k > 0 {
        lemma_sort_prefix_entries(preds, (k - 1) as nat);
        lemma_insert_ord_entries(preds, (k - 1) as usize, sort_prefix(preds, (k - 1) as nat));
    }
}

/// The load the assignment places on `machine`, counting the first `k`
/// jobs in their natural order.
pub open spec fn assigned_load_prefix(
    jobs: Seq<u32>,
    asg: Seq<usize>,
    machine: int,
    k: nat,
) -> int
    decreases k,
{
    if k == 0 {
        0
    } else {
        assigned_load_prefix(jobs, asg, machine, (k - 1) as nat) + if asg[k - 1] as int
            == machine {
            jobs[k - 1] as int
        } else {
            0int
        }
    }
}

/// The load every machine carries under an assignment: entry `i` is the
/// sum of the true lengths of the jobs assigned to machine `i`.
pub open spec fn assignment_loads(m: nat, jobs: Seq<u32>, asg: Seq<usize>) -> Seq<int> {
    Seq::new(m, |i: int| assigned_load_prefix(jobs, asg, i, jobs.len()))
}

/// Sum of the true lengths of the first `k` jobs in processing order.
pub open spec fn ord_sum(jobs: Seq<u32>, ord: Seq<usize>, k: nat) -> int
    decreases k,
{
    if k == 0 {
        0
    } else {
        ord_sum(jobs, ord, (k - 1) as nat) + jobs[ord[k - 1] as int] as int
    }
}

/// Sum of the true lengths of the first `k` jobs in natural order.
pub open spec fn total_len(jobs: Seq<u32>, k: nat) -> int
    decreases k,
{
    if k == 0 {
        0
    } else {
        total_len(jobs, (k - 1) as nat) + jobs[k - 1] as int
    }
}

/// No job index occurs twice.
pub open spec fn distinct_indices(s: Seq<usize>) -> bool {
    forall|p: int, q: int| 0 <= p < q < s.len() ==> s[p] != s[q]
}

/// An ordered sum reads only the first `k` positions of the order and the
/// entries of the job sequence those positions name.
proof fn lemma_ord_sum_congruent(
    jobs1: Seq<u32>,
    ord1: Seq<usize>,
    jobs2: Seq<u32>,
    ord2: Seq<usize>,
    k: nat,
)
    requires
        forall|t: int| 0 <= t < k ==> (#[trigger] ord1[t]) == ord2[t],
        forall|t: int|
            0 <= t < k ==> (#[trigger] jobs1[ord1[t] as int]) == jobs2[ord1[t] as int],
    ensures
        ord_sum(jobs1, ord1, k) == ord_sum(jobs2, ord2, k),
    decreases k,
{
    if k > 0 {
        lemma_ord_sum_congruent(jobs1, ord1, jobs2, ord2, (k - 1) as nat);
    }
}

/// A natural sum reads only the first `k` entries.
proof fn lemma_total_len_congruent(jobs1: Seq<u32>, jobs2: Seq<u32>, k: nat)
    requires
        forall|j: int| 0 <= j < k ==> (#[trigger] jobs1[j]) == jobs2[j],
    ensures
        total_len(jobs1, k) == total_len(jobs2, k),
    decreases k,
{
    if k > 0 {
        lemma_total_len_congruent(jobs1, jobs2, (k - 1) as nat);
    }
}

/// Taking one position out of an ordered sum takes out its job's length.
proof fn lemma_ord_sum_remove(jobs: Seq<u32>, ord: Seq<usize>, p: int, k: nat)
    requires
        0 <= p < k <= ord.len(),
    ensures
        ord_sum(jobs, ord, k) == ord_sum(jobs, ord.remove(p), (k - 1) as nat) + jobs[ord[p] as int],
    decreases k,
{
    if p == k - 1 {
        assert(forall|t: int| 0 <= t < k - 1 ==> (#[trigger] ord.remove(p)[t]) == ord[t]);
        lemma_ord_sum_congruent(jobs, ord.remove(p), jobs, ord, (k - 1) as nat);
    } else {
        lemma_ord_sum_remove(jobs, ord, p, (k - 1) as nat);
        assert(ord.remove(p)[k - 2] == ord[k - 1]);
    }
}

/// Removing an entry keeps the remaining entries distinct.
proof fn lemma_remove_distinct(s: Seq<usize>, q: int)
    requires
        0 <= q < s.len(),
        distinct_indices(s),
    ensures
        distinct_indices(s.remove(q)),
{
    assert forall|p1: int, p2: int| 0 <= p1 < p2 < s.remove(q).len() implies s.remove(q)[p1]
        != s.remove(q)[p2] by {
        assert(s.remove(q)[p1] == if p1 < q {
            s[p1]
        } else {
            s[p1 + 1]
        });
        assert(s.remove(q)[p2] == if p2 < q {
            s[p2]
        } else {
            s[p2 + 1]
        });
    }
}

/// Distinct indices below a bound are no more numerous than the bound.
proof fn lemma_distinct_bounded_len(s: Seq<usize>, bound: nat)
    requires
        distinct_indices(s),
        forall|p: int| 0 <= p < s.len() ==> (#[trigger] s[p]) < bound,
    ensures
        s.len() <= bound,
    decreases bound,
{
    if s.len() > 0 {
        assert(s[0] < bound);
        if exists|q: int| 0 <= q < s.len() && (#[trigger] s[q]) as int == bound - 1 {
            let q = choose|q: int| 0 <= q < s.len() && (#[trigger] s[q]) as int == bound - 1;
            let s2 = s.remove(q);
            lemma_remove_distinct(s, q);
            assert forall|p: int| 0 <= p < s2.len() implies (#[trigger] s2[p]) < bound - 1 by {
                assert(s2[p] == if p < q {
                    s[p]
                } else {
                    s[p + 1]
                });
            }
            lemma_distinct_bounded_len(s2, (bound - 1) as nat);
        } else {
            lemma_distinct_bounded_len(s, (bound - 1) as nat);
        }
    }
}

/// Processing each job exactly once, in any order, accumulates the total
/// length of all jobs.
proof fn lemma_ord_sum_is_total(jobs: Seq<u32>, ord: Seq<usize>)
    requires
        ord.len() == jobs.len(),
        distinct_indices(ord),
        forall|p: int| 0 <= p < ord.len() ==> (#[trigger] ord[p]) < jobs.len(),
    ensures
        ord_sum(jobs, ord, ord.len()) == total_len(jobs, jobs.len()),
    decreases jobs.len(),
{
    let n = jobs.len();
    if n > 0 {
        lemma_distinct_bounded_len(ord, n);
        if !(exists|q: int| 0 <= q < n && (#[trigger] ord[q]) as int == n - 1) {
            assert(forall|p: int| 0 <= p < n ==> (#[trigger] ord[p]) < n - 1);
            lemma_distinct_bounded_len(ord, (n - 1) as nat);
            assert(false);
        }
        let p = choose|q: int| 0 <= q < n && (#[trigger] ord[q]) as int == n - 1;
        let ord2 = ord.remove(p);
        let jobs2 = jobs.drop_last();
        lemma_remove_distinct(ord, p);
        assert forall|t: int| 0 <= t < ord2.len() implies (#[trigger] ord2[t]) < n - 1 by {
            assert(ord2[t] == if t < p {
                ord[t]
            } else {
                ord[t + 1]
            });
        }
        lemma_ord_sum_remove(jobs, ord, p, n);
        assert(forall|t: int|
            0 <= t < ord2.len() ==> (#[trigger] jobs[ord2[t] as int]) == jobs2[ord2[t] as int]);
        lemma_ord_sum_congruent(jobs, ord2, jobs2, ord2, (n - 1) as nat);
        lemma_ord_sum_is_total(jobs2, ord2);
        assert(forall|j: int| 0 <= j < n - 1 ==> (#[trigger] jobs2[j]) == jobs[j]);
        lemma_total_len_congruent(jobs2, jobs, (n - 1) as nat);
    }
}

/// Reassigning one job moves its length from its old machine to the new
/// one.
proof fn lemma_assigned_load_update(
    jobs: Seq<u32>,
    asg: Seq<usize>,
    machine: int,
    k: nat,
    j0: int,
    v: usize,
)
    requires
        asg.len() == jobs.len(),
        0 <= j0 < asg.len(),
        k <= asg.len(),
    ensures
        assigned_load_prefix(jobs, asg.update(j0, v), machine, k) == assigned_load_prefix(
            jobs,
            asg,
            machine,
            k,
        ) - (if j0 < k && asg[j0] as int == machine {
            jobs[j0] as int
        } else {
            0int
        }) + (if j0 < k && v as int == machine {
            jobs[j0] as int
        } else {
            0int
        }),
    decreases k,
{
    if k > 0 {
        lemma_assigned_load_update(jobs, asg, machine, (k - 1) as nat, j0, v);
    }
}

/// Before any job is processed every length sits, by convention, on
/// machine zero.
proof fn lemma_assigned_load_zeros(jobs: Seq<u32>, machine: int, k: nat)
    requires
        k <= jobs.len(),
    ensures
        assigned_load_prefix(jobs, Seq::new(jobs.len(), |j: int| 0usize), machine, k) == if machine
            == 0 {
            total_len(jobs, k)
        } else {
            0int
        },
    decreases k,
{
    if k > 0 {
        lemma_assigned_load_zeros(jobs, machine, (k - 1) as nat);
    }
}

/// Partial schedules keep one entry per job.
proof fn lemma_assign_prefix_len(m: nat, jobs: Seq<u32>, ord: Seq<usize>, k: nat)
    requires
        k <= ord.len(),
        forall|p: int| 0 <= p < ord.len() ==> (#[trigger] ord[p]) < jobs.len(),
    ensures
        assign_prefix(m, jobs, ord, k).len() == jobs.len(),
    decreases k,
{
    if k > 0 {
        lemma_assign_prefix_len(m, jobs, ord, (k - 1) as nat);
    }
}

/// A job outside the first `k` of the processing order still sits on
/// machine zero.
proof fn lemma_assign_prefix_untouched(m: nat, jobs: Seq<u32>, ord: Seq<usize>, k: nat, j: int)
    requires
        k <= ord.len(),
        forall|p: int| 0 <= p < ord.len() ==> (#[trigger] ord[p]) < jobs.len(),
        0 <= j < jobs.len(),
        forall|t: int| 0 <= t < k ==> (#[trigger] ord[t]) as int != j,
    ensures
        assign_prefix(m, jobs, ord, k)[j] == 0,
    decreases k,
{
    if k > 0 {
        lemma_assign_prefix_len(m, jobs, ord, (k - 1) as nat);
        lemma_assign_prefix_untouched(m, jobs, ord, (k - 1) as nat, j);
    }
}

/// A sorted index prefix holds one entry per job considered.
proof fn lemma_sort_prefix_len(preds: Seq<u32>, k: nat)
    ensures
        sort_prefix(preds, k).len() == k,
    decreases k,
{
    if k > 0 {
        lemma_sort_prefix_len(preds, (k - 1) as nat);
        lemma_insert_ord_len(preds, (k - 1) as usize, sort_prefix(preds, (k - 1) as nat));
    }
}

/// Inserting a fresh index keeps the entries distinct.
proof fn lemma_insert_ord_distinct(preds: Seq<u32>, j: usize, s: Seq<usize>)
    requires
        distinct_indices(s),
        !s.contains(j),
    ensures
        distinct_indices(insert_ord(preds, j, s)),
    decreases s.len(),
{
    let res = insert_ord(preds, j, s);
    if s.len() == 0 {
    } else if key_lt(preds, j as int, s[0] as int) {
        assert forall|p: int, q: int| 0 <= p < q < res.len() implies res[p] != res[q] by {
            if p == 0 {
                assert(res[q] == s[q - 1]);
                assert(s.contains(s[q - 1]));
            }
        }
    } else {
        assert(forall|t: int| 0 <= t < s.drop_first().len() ==> #[trigger] s.drop_first()[t] == s[t
            + 1]);
        assert(!s.drop_first().contains(j)) by {
            if s.drop_first().contains(j) {
                let t = choose|t: int|
                    0 <= t < s.drop_first().len() && #[trigger] s.drop_first()[t] == j;
                assert(s[t + 1] == j);
                assert(s.contains(j));
            }
        }
        lemma_insert_ord_distinct(preds, j, s.drop_first());
        lemma_insert_ord_entries(preds, j, s.drop_first());
        let rest = insert_ord(preds, j, s.drop_first());
        assert(res == seq![s[0]] + rest);
        assert forall|p: int, q: int| 0 <= p < q < res.len() implies res[p] != res[q] by {
            if p == 0 {
                assert(res[q] == rest[q - 1]);
                if rest[q - 1] == j {
                    assert(s.contains(s[0]));
                } else {
                    assert(s.drop_first().contains(rest[q - 1]));
                    let t = choose|t: int|
                        0 <= t < s.drop_first().len() && #[trigger] s.drop_first()[t] == rest[q
                            - 1];
                    assert(s[t + 1] == rest[q - 1]);
                }
            } else {
                assert(res[p] == rest[p - 1] && res[q] == rest[q - 1]);
            }
        }
    }
}

/// The processing order never repeats a job, as long as the job indices
/// fit the machine's word.
proof fn lemma_sort_prefix_distinct(preds: Seq<u32>, k: nat)
    requires
        k <= usize::MAX as nat + 1,
    ensures
        distinct_indices(sort_prefix(preds, k)),
    decreases k,
{
    if k > 0 {
        let s = sort_prefix(preds, (k - 1) as nat);
        lemma_sort_prefix_distinct(preds, (k - 1) as nat);
        lemma_sort_prefix_entries(preds, (k - 1) as nat);
        assert(!s.contains((k - 1) as usize)) by {
            if s.contains((k - 1) as usize) {
                let t = choose|t: int| 0 <= t < s.len() && #[trigger] s[t] == (k - 1) as usize;
                assert(s[t] as int == k - 1);
                assert(s[t] < (k - 1) as nat);
            }
        }
        lemma_insert_ord_distinct(preds, (k - 1) as usize, s);
    }
}

/// After `k` greedy steps the loads the partial schedule induces match
/// the greedy loads, except that machine zero still carries the lengths
/// of the jobs not yet processed.
proof fn lemma_assign_loads_match(m: nat, jobs: Seq<u32>, ord: Seq<usize>, k: nat)
    requires
        1 <= m <= usize::MAX,
        ord.len() == jobs.len(),
        forall|p: int| 0 <= p < ord.len() ==> (#[trigger] ord[p]) < jobs.len(),
        distinct_indices(ord),
        k <= ord.len(),
    ensures
        forall|i: int|
            1 <= i < m ==> assigned_load_prefix(jobs, assign_prefix(m, jobs, ord, k), i, jobs.len())
                == greedy_loads(m, ordered_lengths(jobs, ord).take(k as int))[i],
        assigned_load_prefix(jobs, assign_prefix(m, jobs, ord, k), 0, jobs.len()) == greedy_loads(
            m,
            ordered_lengths(jobs, ord).take(k as int),
        )[0] + total_len(jobs, jobs.len()) - ord_sum(jobs, ord, k),
    decreases k,
{
    let olens = ordered_lengths(jobs, ord);
    if k == 0 {
        assert forall|i: int| 0 <= i < m implies assigned_load_prefix(
            jobs,
            assign_prefix(m, jobs, ord, 0),
            i,
            jobs.len(),
        ) == if i == 0 {
            total_len(jobs, jobs.len())
        } else {
            0int
        } by {
            lemma_assigned_load_zeros(jobs, i, jobs.len());
        }
    } else {
        lemma_assign_loads_match(m, jobs, ord, (k - 1) as nat);
        let prev_asg = assign_prefix(m, jobs, ord, (k - 1) as nat);
        let prev_loads = greedy_loads(m, olens.take(k - 1));
        let pick = min_index(prev_loads);
        let j0 = ord[k - 1] as int;
        let load = jobs[j0] as int;
        lemma_greedy_loads_len(m, olens.take(k - 1));
        lemma_min_index_is_first_min(prev_loads);
        lemma_assign_prefix_len(m, jobs, ord, (k - 1) as nat);
        assert(prev_asg[j0] == 0) by {
            lemma_assign_prefix_untouched(m, jobs, ord, (k - 1) as nat, j0);
        }
        assert(olens.take(k as int).drop_last() =~= olens.take(k - 1));
        assert(olens.take(k as int).last() == load);
        assert(greedy_loads(m, olens.take(k as int)) == prev_loads.update(
            pick,
            prev_loads[pick] + load,
        ));
        assert(assign_prefix(m, jobs, ord, k) == prev_asg.update(j0, pick as usize));
        assert forall|i: int| 0 <= i < m implies assigned_load_prefix(
            jobs,
            prev_asg.update(j0, pick as usize),
            i,
            jobs.len(),
        ) == assigned_load_prefix(jobs, prev_asg, i, jobs.len()) - (if prev_asg[j0] as int == i {
            load
        } else {
            0int
        }) + (if pick == i {
            load
        } else {
            0int
        }) by {
            lemma_assigned_load_update(jobs, prev_asg, i, jobs.len(), j0, pick as usize);
        }
    }
}

/// The schedule the engine returns induces exactly the greedy loads: the
/// load of every machine under [`spec_assignments`] is the corresponding
/// entry of [`greedy_loads`] over the prediction-sorted true lengths.
pub proof fn lemma_assignment_loads_are_greedy(m: nat, jobs: Seq<u32>, preds: Seq<u32>)
    requires
        1 <= m <= usize::MAX,
        jobs.len() == preds.len() <= usize::MAX,
    ensures
        assignment_loads(m, jobs, spec_assignments(m, jobs, preds)) == greedy_loads(
            m,
            ordered_lengths(jobs, sort_order(preds)),
        ),
{
    let ord = sort_order(preds);
    let olens = ordered_lengths(jobs, ord);
    lemma_sort_prefix_len(preds, preds.len());
    lemma_sort_prefix_entries(preds, preds.len());
    lemma_sort_prefix_distinct(preds, preds.len());
    lemma_assign_loads_match(m, jobs, ord, jobs.len());
    lemma_ord_sum_is_total(jobs, ord);
    lemma_greedy_loads_len(m, olens);
    assert(olens.take(jobs.len() as int) =~= olens);
    assert(assignment_loads(m, jobs, spec_assignments(m, jobs, preds)) =~= greedy_loads(m, olens));
}

/// Adding machines never increases the largest machine load of the
/// returned schedule: for fixed jobs and predictions, the maximum load
/// induced by the assignments computed with `m2 >= m1` machines is at
/// most the maximum load induced by the assignments computed with `m1`.
pub proof fn lemma_assignment_makespan_monotone(m1: nat, m2: nat, jobs: Seq<u32>, preds: Seq<u32>)
    requires
        1 <= m1 <= m2 <= usize::MAX,
        jobs.len() == preds.len() <= usize::MAX,
    ensures
        max_load(assignment_loads(m2, jobs, spec_assignments(m2, jobs, preds))) <= max_load(
            assignment_loads(m1, jobs, spec_assignments(m1, jobs, preds)),
        ),
{
    lemma_assignment_loads_are_greedy(m1, jobs, preds);
    lemma_assignment_loads_are_greedy(m2, jobs, preds);
    lemma_more_machines_no_worse(m1, m2, jobs, preds);
}

/// Adding machines never increases the makespan: with the same jobs, the
/// same predictions and therefore the same processing order, the greedy
/// schedule on more machines ends with a largest machine load no larger
/// than on fewer machines.
pub proof fn lemma_more_machines_no_worse(m1: nat, m2: nat, jobs: Seq<u32>, preds: Seq<u32>)
    requires
        1 <= m1 <= m2,
        jobs.len() == preds.len(),
    ensures
        spec_makespan(m2, jobs, preds) <= spec_makespan(m1, jobs, preds),
    decreases m2 - m1,
{
    if m1 < m2 {
        lemma_more_machines_no_worse(m1, (m2 - 1) as nat, jobs, preds);
        let ord = sort_order(preds);
        let ps = ordered_lengths(jobs, ord);
        lemma_sort_prefix_entries(preds, preds.len());
        assert(forall|k: int| 0 <= k < ps.len() ==> #[trigger] ps[k] >= 0);
        lemma_greedy_dominates((m2 - 1) as nat, ps);
        lemma_greedy_loads_len((m2 - 1) as nat, ps);
        lemma_greedy_loads_len(m2, ps);
        lemma_dominates_max(greedy_loads((m2 - 1) as nat, ps), greedy_loads(m2, ps));
    }
}

} // verus!
