//! When to retry a failed model call, and how the outcomes of parallel calls
//! are put back in task and sample order.

use vstd::prelude::*;

verus! {

/// What to do after attempt `attempt` (counting from 0) of a call failed.
#[derive(Debug, Clone, Copy, PartialEq, Eq, Structural)]
pub enum RetryStep {
    /// Wait this many milliseconds, then try again.
    Wait { millis: u64 },
    /// No retries are left: report the last error.
    GiveUp,
}

/// Linear backoff: with retries left, wait 250 ms times the number of the
/// attempt that failed (counting from 1); otherwise give up.
pub open spec fn retry_step_of(attempt: nat, retries: nat) -> RetryStep {
    if attempt < retries {
        RetryStep::Wait { millis: (250 * (attempt + 1)) as u64 }
    } else {
        RetryStep::GiveUp
    }
}

/// The step after attempt `attempt` failed, with `retries` retries in all.
pub fn after_failure(attempt: usize, retries: usize) -> (r: RetryStep)
    requires
        attempt < retries ==> 250 * (attempt + 1) <= u64::MAX,
    ensures
        r == retry_step_of(attempt as nat, retries as nat),
{
    if attempt < retries {
        RetryStep::Wait { millis: 250 * (attempt as u64 + 1) }
    } else {
        RetryStep::GiveUp
    }
}


/// `a` comes no later than `b` in (task, sample) order.
pub open spec fn slot_le<T>(a: (usize, usize, T), b: (usize, usize, T)) -> bool {
    a.0 < b.0 || (a.0 == b.0 && a.1 <= b.1)
}

/// Where a stable insertion puts `x` into `s`: after the last element that
/// does not come after it.
pub open spec fn slot_index<T>(s: Seq<(usize, usize, T)>, x: (usize, usize, T)) -> int
    decreases s.len(),
{
    if s.len() == 0 {
        0
    } else if slot_le(s.last(), x) {
        s.len() as int
    } else {
        slot_index(s.drop_last(), x)
    }
}

/// Stable sort by (task, sample).
pub open spec fn sort_slots<T>(s: Seq<(usize, usize, T)>) -> Seq<(usize, usize, T)>
    decreases s.len(),
{
    if s.len() == 0 {
        s
    } else {
        let r = sort_slots(s.drop_last());
        r.insert(slot_index(r, s.last()), s.last())
    }
}

/// The results of task `t` among `s`, in order.
pub open spec fn results_of<T>(s: Seq<(usize, usize, T)>, t: usize) -> Seq<T>
    decreases s.len(),
{
    if s.len() == 0 {
        seq![]
    } else if s.last().0 == t {
        results_of(s.drop_last(), t).push(s.last().2)
    } else {
        results_of(s.drop_last(), t)
    }
}

proof fn lemma_slot_index_at<T>(s: Seq<(usize, usize, T)>, x: (usize, usize, T), j: int)
    requires
        0 <= j <= s.len(),
        j > 0 ==> slot_le(s[j - 1], x),
        forall|k: int| j <= k < s.len() ==> !slot_le(#[trigger] s[k], x),
    ensures
        slot_index(s, x) == j,
    decreases s.len(),
{
    if s.len() > 0 && j < s.len() {
        assert(!slot_le(s[s.len() - 1], x));
        let d = s.drop_last();
        assert forall|k: int| j <= k < d.len() implies !slot_le(#[trigger] d[k], x) by {
            assert(d[k] == s[k]);
        }
        lemma_slot_index_at(d, x, j);
    }
}

/// Every element comes no later than each element after it.
pub open spec fn slots_ordered<T>(s: Seq<(usize, usize, T)>) -> bool {
    forall|i: int, j: int| 0 <= i < j < s.len() ==> slot_le(#[trigger] s[i], #[trigger] s[j])
}

/// On an ordered sequence, a stable insertion point has every element before
/// it no later than `x`, and every element from it on later than `x`.
proof fn lemma_slot_index_splits<T>(s: Seq<(usize, usize, T)>, x: (usize, usize, T))
    requires
        slots_ordered(s),
    ensures
        0 <= slot_index(s, x) <= s.len(),
        forall|k: int| 0 <= k < slot_index(s, x) ==> slot_le(#[trigger] s[k], x),
        forall|k: int| slot_index(s, x) <= k < s.len() ==> !slot_le(#[trigger] s[k], x),
    decreases s.len(),
{
    if s.len() > 0 {
        let d = s.drop_last();
        if slot_le(s.last(), x) {
            assert forall|k: int| 0 <= k < s.len() implies slot_le(#[trigger] s[k], x) by {
                if k < s.len() - 1 {
                    assert(slot_le(s[k], s[s.len() - 1]));
                }
            }
        } else {
            assert(slots_ordered(d)) by {
                assert forall|i: int, j: int| 0 <= i < j < d.len() implies slot_le(#[trigger] d[i], #[trigger] d[j]) by {
                    assert(d[i] == s[i] && d[j] == s[j]);
                }
            }
            lemma_slot_index_splits(d, x);
            assert forall|k: int| 0 <= k < slot_index(s, x) implies slot_le(#[trigger] s[k], x) by {
                assert(s[k] == d[k]);
            }
            assert forall|k: int| slot_index(s, x) <= k < s.len() implies !slot_le(#[trigger] s[k], x) by {
                if k < d.len() {
                    assert(s[k] == d[k]);
                }
            }
        }
    }
}

/// Regrouping sorts the outcomes into (task, sample) order and keeps each of
/// them: the sorted sequence is ordered and holds the same outcomes, each as
/// often as before.
pub proof fn sorted_outcomes_are_ordered<T>(s: Seq<(usize, usize, T)>)
    ensures
        slots_ordered(sort_slots(s)),
        sort_slots(s).to_multiset() == s.to_multiset(),
    decreases s.len(),
{
    if s.len() > 0 {
        let d = s.drop_last();
        let x = s.last();
        sorted_outcomes_are_ordered(d);
        let r = sort_slots(d);
        lemma_slot_index_splits(r, x);
        let j = slot_index(r, x);
        let out = r.insert(j, x);
        assert(out == sort_slots(s));
        assert forall|a: int, b: int| 0 <= a < b < out.len() implies slot_le(#[trigger] out[a], #[trigger] out[b]) by {
            if a < j && b < j {
                assert(out[a] == r[a] && out[b] == r[b]);
            } else if a < j && b == j {
                assert(out[a] == r[a]);
            } else if a < j {
                assert(out[a] == r[a] && out[b] == r[b - 1]);
            } else if a == j {
                assert(out[b] == r[b - 1]);
                assert(!slot_le(r[b - 1], x));
            } else {
                assert(out[a] == r[a - 1] && out[b] == r[b - 1]);
            }
        }
        vstd::seq_lib::to_multiset_insert(r, j, x);
        vstd::seq_lib::to_multiset_build(d, x);
        assert(d.push(x) =~= s);
    }
}

/// Stable sort of outcomes by (task, sample).
fn sort_outcomes<T>(v: Vec<(usize, usize, T)>) -> (r: Vec<(usize, usize, T)>)
    ensures
        r@ == sort_slots(v@),
{
    let ghost orig = v@;
    let mut rest = v;
    let mut res: Vec<(usize, usize, T)> = Vec::new();
    let ghost mut k: int = 0;
    assert(orig.take(0) =~= Seq::<(usize, usize, T)>::empty());
    assert(orig.skip(0) =~= orig);
    while rest.len() > 0
        invariant
            0 <= k <= orig.len(),
            res@ == sort_slots(orig.take(k)),
            rest@ == orig.skip(k),
        decreases rest@.len(),
    {
        let x = rest.remove(0);
        assert(rest@ =~= orig.skip(k + 1));
        let mut j = res.len();
        while j > 0 && !(res[j - 1].0 < x.0 || (res[j - 1].0 == x.0 && res[j - 1].1 <= x.1))
            invariant
                j <= res@.len(),
                forall|q: int| j <= q < res@.len() ==> !slot_le(#[trigger] res@[q], x),
            decreases j,
        {
            j = j - 1;
        }
        proof {
            lemma_slot_index_at(res@, x, j as int);
            assert(orig.take(k + 1).drop_last() =~= orig.take(k));
            assert(orig.take(k + 1).last() == x);
        }
        res.insert(j, x);
        proof {
            k = k + 1;
        }
    }
    assert(orig.take(k) =~= orig);
    res
}

/// Regroup the outcomes of `(task, sample)` calls per task: `n_tasks`
/// groups in task order, each holding its task's results in sample order
/// (outcomes with equal keys keep their order). An outcome whose task is not
/// below `n_tasks` belongs to no group.
pub fn regroup<T>(n_tasks: usize, outcomes: Vec<(usize, usize, T)>) -> (r: Vec<Vec<T>>)
    ensures
        r@.len() == n_tasks,
        forall|t: int|
            0 <= t < n_tasks ==> (#[trigger] r@[t])@ == results_of(sort_slots(outcomes@), t as usize),
{
    let sorted = sort_outcomes(outcomes);
    let ghost all = sorted@;
    let mut groups: Vec<Vec<T>> = Vec::new();
    while groups.len() < n_tasks
        invariant
            groups@.len() <= n_tasks,
            forall|q: int| 0 <= q < groups@.len() ==> (#[trigger] groups@[q])@ == Seq::<T>::empty(),
        decreases n_tasks - groups@.len(),
    {
        groups.push(Vec::new());
    }
    let mut rest = sorted;
    let ghost mut c: int = 0;
    assert(all.skip(0) =~= all);
    assert forall|q: int| 0 <= q < n_tasks implies (#[trigger] groups@[q])@ == results_of(all.take(0), q as usize) by {
        assert(all.take(0) =~= Seq::<(usize, usize, T)>::empty());
    }
    while rest.len() > 0
        invariant
            0 <= c <= all.len(),
            rest@ == all.skip(c),
            groups@.len() == n_tasks,
            forall|q: int|
                0 <= q < n_tasks ==> (#[trigger] groups@[q])@ == results_of(all.take(c), q as usize),
        decreases rest@.len(),
    {
        let (ti, si, res) = rest.remove(0);
        proof {
            assert(all[c] == (ti, si, res));
            assert(rest@ =~= all.skip(c + 1));
            assert(all.take(c + 1).drop_last() =~= all.take(c));
            assert(all.take(c + 1).last() == all[c]);
        }
        let ghost before = groups@;
        if ti < n_tasks {
            let mut g = groups.remove(ti);
            g.push(res);
            groups.insert(ti, g);
        }
        proof {
            c = c + 1;
            assert forall|q: int| 0 <= q < n_tasks implies (#[trigger] groups@[q])@ == results_of(all.take(c), q as usize) by {
                if q != ti {
                    assert(groups@[q] == before[q]);
                }
            }
        }
    }
    assert(all.take(c) =~= all);
    groups
}

} // verus!
