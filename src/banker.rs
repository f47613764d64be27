use vstd::prelude::*;

verus! {

/// A matrix of counts, one row per task and one column per resource.
pub open spec fn rows(m: Seq<Vec<u64>>) -> Seq<Seq<u64>> {
    m.map_values(|v: Vec<u64>| v@)
}

/// Every row of `m` has `width` columns.
pub open spec fn has_width(m: Seq<Seq<u64>>, width: nat) -> bool {
    forall|i: int| 0 <= i < m.len() ==> #[trigger] m[i].len() == width
}

/// The inputs of the check have consistent dimensions.
pub open spec fn well_shaped(alloc: Seq<Seq<u64>>, need: Seq<Seq<u64>>, avail: Seq<u64>) -> bool {
    &&& alloc.len() == need.len()
    &&& has_width(alloc, avail.len())
    &&& has_width(need, avail.len())
}

pub open spec fn ints(s: Seq<u64>) -> Seq<int> {
    s.map_values(|x: u64| x as int)
}

/// Task `i` can run to completion with the resources in `work`.
pub open spec fn can_finish(need: Seq<Seq<u64>>, work: Seq<int>, i: int) -> bool {
    forall|j: int| 0 <= j < work.len() ==> need[i][j] <= #[trigger] work[j]
}

/// `work` after task `i` has returned what it holds.
pub open spec fn release(work: Seq<int>, row: Seq<u64>) -> Seq<int> {
    Seq::new(work.len(), |j: int| work[j] + row[j])
}

/// The first unfinished task at index `i` or later that can finish, or `fin.len()`.
pub open spec fn pick(fin: Seq<bool>, need: Seq<Seq<u64>>, work: Seq<int>, i: int) -> int
    decreases fin.len() - i,
{
    if i >= fin.len() || i < 0 {
        fin.len() as int
    } else if !fin[i] && can_finish(need, work, i) {
        i
    } else {
        pick(fin, need, work, i + 1)
    }
}

/// Finished flags and free resources after `k` rounds of the check.
pub open spec fn rounds(alloc: Seq<Seq<u64>>, need: Seq<Seq<u64>>, avail: Seq<u64>, k: nat) -> (Seq<bool>, Seq<int>)
    decreases k,
{
    if k == 0 {
        (Seq::new(alloc.len(), |i: int| false), ints(avail))
    } else {
        let (fin, work) = rounds(alloc, need, avail, (k - 1) as nat);
        let p = pick(fin, need, work, 0);
        if p < fin.len() {
            (fin.update(p, true), release(work, alloc[p]))
        } else {
            (fin, work)
        }
    }
}

/// The Banker's check: after one round per task, every task has finished.
pub open spec fn is_safe(alloc: Seq<Seq<u64>>, need: Seq<Seq<u64>>, avail: Seq<u64>) -> bool {
    let fin = rounds(alloc, need, avail, alloc.len()).0;
    forall|i: int| 0 <= i < fin.len() ==> fin[i]
}

/// Free resources after the tasks of `done` have finished, in that order.
pub open spec fn work_after(alloc: Seq<Seq<u64>>, avail: Seq<u64>, done: Seq<int>) -> Seq<int>
    decreases done.len(),
{
    if done.len() == 0 {
        ints(avail)
    } else {
        release(work_after(alloc, avail, done.drop_last()), alloc[done.last()])
    }
}

/// `order` runs every task once, each with what it needs at its turn.
pub open spec fn is_completion_schedule(
    alloc: Seq<Seq<u64>>,
    need: Seq<Seq<u64>>,
    avail: Seq<u64>,
    order: Seq<int>,
) -> bool {
    &&& order.no_duplicates()
    &&& forall|k: int| 0 <= k < order.len() ==> 0 <= #[trigger] order[k] < alloc.len()
    &&& forall|t: int| 0 <= t < alloc.len() ==> order.contains(t)
    &&& forall|k: int|
        0 <= k < order.len() ==> can_finish(need, work_after(alloc, avail, order.take(k)), #[trigger] order[k])
}

proof fn lemma_pick_range(fin: Seq<bool>, need: Seq<Seq<u64>>, work: Seq<int>, i: int)
    requires
        0 <= i <= fin.len(),
    ensures
        i <= pick(fin, need, work, i) <= fin.len(),
        pick(fin, need, work, i) < fin.len() ==> !fin[pick(fin, need, work, i)] && can_finish(
            need,
            work,
            pick(fin, need, work, i),
        ),
        forall|q: int| i <= q < pick(fin, need, work, i) ==> fin[q] || !can_finish(need, work, q),
    decreases fin.len() - i,
{
    if i < fin.len() && !(!fin[i] && can_finish(need, work, i)) {
        lemma_pick_range(fin, need, work, i + 1);
    }
}

/// The tasks finished after `k` rounds, in the order in which they finished.
proof fn lemma_rounds_order(alloc: Seq<Seq<u64>>, need: Seq<Seq<u64>>, avail: Seq<u64>, k: nat) -> (order: Seq<int>)
    requires
        well_shaped(alloc, need, avail),
    ensures
        rounds(alloc, need, avail, k).0.len() == alloc.len(),
        rounds(alloc, need, avail, k).1 == work_after(alloc, avail, order),
        rounds(alloc, need, avail, k).1.len() == avail.len(),
        order.no_duplicates(),
        forall|q: int| 0 <= q < order.len() ==> 0 <= #[trigger] order[q] < alloc.len(),
        forall|t: int| 0 <= t < alloc.len() ==> (rounds(alloc, need, avail, k).0[t] <==> order.contains(t)),
        forall|q: int|
            0 <= q < order.len() ==> can_finish(need, work_after(alloc, avail, order.take(q)), #[trigger] order[q]),
    decreases k,
{
    if k == 0 {
        Seq::empty()
    } else {
        let prev = lemma_rounds_order(alloc, need, avail, (k - 1) as nat);
        let (fin, work) = rounds(alloc, need, avail, (k - 1) as nat);
        lemma_pick_range(fin, need, work, 0);
        let p = pick(fin, need, work, 0);
        if p < fin.len() {
            let order = prev.push(p);
            assert(order.drop_last() == prev);
            assert(!prev.contains(p));
            assert forall|a: int, b: int| 0 <= a < order.len() && 0 <= b < order.len() && a != b implies order[a]
                != order[b] by {
                if a == prev.len() {
                    assert(prev[b] == order[b]);
                } else if b == prev.len() {
                    assert(prev[a] == order[a]);
                }
            }
            assert forall|q: int| 0 <= q < order.len() implies can_finish(
                need,
                work_after(alloc, avail, order.take(q)),
                #[trigger] order[q],
            ) by {
                if q < prev.len() {
                    assert(order.take(q) == prev.take(q));
                } else {
                    assert(order.take(q) == prev);
                }
            }
            assert forall|t: int| 0 <= t < alloc.len() implies (rounds(alloc, need, avail, k).0[t]
                <==> order.contains(t)) by {
                let fin2 = rounds(alloc, need, avail, k).0;
                assert(fin2 == fin.update(p, true));
                if t == p {
                    assert(order[prev.len() as int] == p);
                } else {
                    if order.contains(t) {
                        let q = choose|q: int| 0 <= q < order.len() && order[q] == t;
                        assert(prev[q] == t);
                    }
                    if prev.contains(t) {
                        let q = choose|q: int| 0 <= q < prev.len() && prev[q] == t;
                        assert(order[q] == t);
                    }
                }
            }
            order
        } else {
            prev
        }
    }
}

/// When the Banker's check passes, some order lets every task run to completion,
/// so no deadlock can follow from the state it accepted.
pub proof fn lemma_safe_state_has_schedule(alloc: Seq<Seq<u64>>, need: Seq<Seq<u64>>, avail: Seq<u64>)
    requires
        well_shaped(alloc, need, avail),
        is_safe(alloc, need, avail),
    ensures
        exists|order: Seq<int>| is_completion_schedule(alloc, need, avail, order),
{
    let order = lemma_rounds_order(alloc, need, avail, alloc.len());
    assert(is_completion_schedule(alloc, need, avail, order));
}

/// Runs the Banker's check: round after round, the first unfinished task whose
/// needs fit in the free resources finishes and returns what it holds.
/// Returns whether every task finished within one round per task.
pub fn is_safe_state(alloc: &Vec<Vec<u64>>, need: &Vec<Vec<u64>>, avail: &Vec<u64>) -> (r: bool)
    requires
        well_shaped(rows(alloc@), rows(need@), avail@),
    ensures
        r == is_safe(rows(alloc@), rows(need@), avail@),
{
    let ghost a = rows(alloc@);
    let ghost nd = rows(need@);
    let tn = alloc.len();
    let rn = avail.len();
    let mut finished: Vec<bool> = Vec::new();
    let mut t: usize = 0;
    while t < tn
        invariant
            t <= tn,
            finished@ == Seq::new(t as nat, |i: int| false),
        decreases tn - t,
    {
        finished.push(false);
        t += 1;
        assert(finished@ =~= Seq::new(t as nat, |i: int| false));
    }
    let mut work: Vec<u128> = Vec::new();
    let mut j: usize = 0;
    while j < rn
        invariant
            j <= rn,
            rn == avail.len(),
            work@.len() == j,
            forall|q: int| 0 <= q < j ==> work@[q] as int == avail@[q] as int,
        decreases rn - j,
    {
        work.push(avail[j] as u128);
        j += 1;
    }
    assert(finished@ =~= rounds(a, nd, avail@, 0).0);
    let mut k: usize = 0;
    while k < tn
        invariant
            k <= tn,
            tn == alloc.len(),
            tn == a.len(),
            rn == avail.len(),
            a == rows(alloc@),
            nd == rows(need@),
            well_shaped(a, nd, avail@),
            finished@ == rounds(a, nd, avail@, k as nat).0,
            finished@.len() == tn,
            rounds(a, nd, avail@, k as nat).1.len() == rn,
            work@.len() == rn,
            forall|q: int| 0 <= q < rn ==> work@[q] as int == #[trigger] rounds(a, nd, avail@, k as nat).1[q],
            forall|q: int| 0 <= q < rn ==> #[trigger] work@[q] <= (k + 1) * 0xffff_ffff_ffff_ffff,
        decreases tn - k,
    {
        let ghost fin0 = finished@;
        let ghost w0 = rounds(a, nd, avail@, k as nat).1;
        proof {
            lemma_pick_range(fin0, nd, w0, 0);
        }
        let mut picked = false;
        let mut i: usize = 0;
        while i < tn
            invariant
                i <= tn,
                tn == alloc.len(),
                tn == a.len(),
                rn == avail.len(),
                a == rows(alloc@),
                nd == rows(need@),
                well_shaped(a, nd, avail@),
                k < tn,
                fin0 == rounds(a, nd, avail@, k as nat).0,
                w0 == rounds(a, nd, avail@, k as nat).1,
                fin0.len() == tn,
                w0.len() == rn,
                finished@.len() == tn,
                work@.len() == rn,
                picked ==> i == tn,
                !picked ==> finished@ == fin0,
                !picked ==> forall|q: int| 0 <= q < rn ==> work@[q] as int == #[trigger] w0[q],
                !picked ==> forall|q: int| 0 <= q < rn ==> #[trigger] work@[q] <= (k + 1) * 0xffff_ffff_ffff_ffff,
                !picked ==> pick(fin0, nd, w0, 0) == pick(fin0, nd, w0, i as int),
                picked ==> finished@ == rounds(a, nd, avail@, (k + 1) as nat).0,
                picked ==> forall|q: int| 0 <= q < rn ==> work@[q] as int == #[trigger] rounds(
                    a,
                    nd,
                    avail@,
                    (k + 1) as nat,
                ).1[q],
                picked ==> forall|q: int| 0 <= q < rn ==> #[trigger] work@[q] <= (k + 2) * 0xffff_ffff_ffff_ffff,
                picked ==> rounds(a, nd, avail@, (k + 1) as nat).1.len() == rn,
            decreases tn - i,
        {
            if !finished[i] {
                let mut flag = true;
                let mut j: usize = 0;
                assert(need@[i as int]@ == nd[i as int]);
                while j < rn
                    invariant
                        j <= rn,
                        rn == avail.len(),
                        i < tn,
                        tn == a.len(),
                        nd == rows(need@),
                        well_shaped(a, nd, avail@),
                        w0.len() == rn,
                        work@.len() == rn,
                        forall|q: int| 0 <= q < rn ==> work@[q] as int == #[trigger] w0[q],
                        flag == forall|q: int| 0 <= q < j ==> nd[i as int][q] <= #[trigger] w0[q],
                    decreases rn - j,
                {
                    assert(need@[i as int]@ == nd[i as int]);
                    assert(work@[j as int] as int == w0[j as int]);
                    assert(need[i as int][j as int] == nd[i as int][j as int]);
                    if need[i][j] as u128 > work[j] {
                        flag = false;
                    }
                    j += 1;

                }
                if flag {
                    assert(can_finish(nd, w0, i as int));
                    assert(pick(fin0, nd, w0, i as int) == i);
                    finished.set(i, true);
                    let ghost w1 = release(w0, a[i as int]);
                    assert(alloc@[i as int]@ == a[i as int]);
                    let mut j: usize = 0;
                    while j < rn
                        invariant
                            j <= rn,
                            rn == avail.len(),
                            i < tn,
                            k < tn,
                            tn == a.len(),
                            a == rows(alloc@),
                            well_shaped(a, nd, avail@),
                            w0.len() == rn,
                            w1 == release(w0, a[i as int]),
                            work@.len() == rn,
                            forall|q: int| j <= q < rn ==> work@[q] as int == #[trigger] w0[q],
                            forall|q: int| 0 <= q < j ==> work@[q] as int == #[trigger] w1[q],
                            forall|q: int| j <= q < rn ==> #[trigger] work@[q] <= (k + 1) * 0xffff_ffff_ffff_ffff,
                            forall|q: int| 0 <= q < j ==> #[trigger] work@[q] <= (k + 2) * 0xffff_ffff_ffff_ffff,
                        decreases rn - j,
                    {
                        assert(alloc@[i as int]@ == a[i as int]);
                        let v = work[j] + alloc[i][j] as u128;
                        work.set(j, v);
                        j += 1;
                    }
                    picked = true;
                    i = tn;
                } else {
                    i += 1;
                }
            } else {
                i += 1;
            }
        }
        if !picked {
            assert(pick(fin0, nd, w0, tn as int) == tn);
        }
        k += 1;
    }
    let mut all = true;
    let mut i: usize = 0;
    while i < tn
        invariant
            i <= tn,
            finished@.len() == tn,
            all == forall|q: int| 0 <= q < i ==> finished@[q],
        decreases tn - i,
    {
        if !finished[i] {
            all = false;
        }
        i += 1;
    }
    all
}

} // verus!
