//! The augmenting-path core of the assignment solver, on a square matrix of
//! non-negative reduced costs.
use vstd::prelude::*;
use crate::permutation::{is_permutation, sum_range, sum_over, lemma_sum_over_permutation};
use crate::matching::{count_assigned, lemma_count_update, lemma_free_entry_count, lemma_count_free_entry, lemma_full_count, lemma_count_le_len, lemma_count_all_free};

verus! {

/// Upper bound on reduced costs and on the magnitude of the dual labels.
pub const BOUND: i64 = 0x200_0000_0000;

/// Entry `(w, j)` of a cost matrix.
pub open spec fn cell(c: Seq<Vec<i64>>, w: int, j: int) -> int {
    c[w]@[j] as int
}

/// How much the labels of worker `w` and job `j` fall short of their cost.
pub open spec fn slack(c: Seq<Vec<i64>>, u: Seq<i64>, v: Seq<i64>, w: int, j: int) -> int {
    cell(c, w, j) - u[w] - v[j]
}

/// `c` is an `n x n` matrix of costs in `[0, BOUND]`.
pub open spec fn square_bounded(c: Seq<Vec<i64>>, n: int) -> bool {
    &&& c.len() == n
    &&& forall|w: int| 0 <= w < n ==> #[trigger] c[w]@.len() == n
    &&& forall|w: int, j: int| 0 <= w < n && 0 <= j < n ==> 0 <= #[trigger] cell(c, w, j) <= BOUND
}

/// `mj` (job of each worker) and `mw` (worker of each job) describe the same partial matching.
pub open spec fn matching_consistent(mj: Seq<i32>, mw: Seq<i32>, n: int) -> bool {
    &&& mj.len() == n
    &&& mw.len() == n
    &&& forall|w: int| 0 <= w < n ==> (#[trigger] mj[w] == -1 || (0 <= mj[w] < n && mw[mj[w] as int] == w))
    &&& forall|j: int| 0 <= j < n ==> (#[trigger] mw[j] == -1 || (0 <= mw[j] < n && mj[mw[j] as int] == j))
}

/// The labels never exceed any cost: `u[w] + v[j] <= c[w][j]`.
pub open spec fn dual_feasible(c: Seq<Vec<i64>>, u: Seq<i64>, v: Seq<i64>, n: int) -> bool {
    &&& u.len() == n
    &&& v.len() == n
    &&& forall|w: int, j: int| 0 <= w < n && 0 <= j < n ==> u[w] + v[j] <= #[trigger] cell(c, w, j)
}

/// Every matched pair meets its cost exactly.
pub open spec fn tight_on_matching(c: Seq<Vec<i64>>, u: Seq<i64>, v: Seq<i64>, mj: Seq<i32>, n: int) -> bool {
    forall|w: int| 0 <= w < n && #[trigger] mj[w] != -1 ==> u[w] + v[mj[w] as int] == cell(c, w, mj[w] as int)
}

pub open spec fn labels_bounded(u: Seq<i64>, v: Seq<i64>, mw: Seq<i32>, n: int) -> bool {
    &&& forall|w: int| 0 <= w < n ==> 0 <= #[trigger] u[w] <= BOUND
    &&& forall|j: int| 0 <= j < n ==> -BOUND <= #[trigger] v[j] <= BOUND
    &&& forall|j: int| 0 <= j < n && #[trigger] mw[j] == -1 ==> v[j] >= 0
}

/// The state kept between augmenting phases.
pub open spec fn solver_state(
    c: Seq<Vec<i64>>,
    u: Seq<i64>,
    v: Seq<i64>,
    mj: Seq<i32>,
    mw: Seq<i32>,
    n: int,
) -> bool {
    &&& square_bounded(c, n)
    &&& matching_consistent(mj, mw, n)
    &&& dual_feasible(c, u, v, n)
    &&& tight_on_matching(c, u, v, mj, n)
    &&& labels_bounded(u, v, mw, n)
    &&& count_assigned(mj) == count_assigned(mw)
}

/// The alternating tree grown from root worker `r` during a phase.
pub open spec fn phase_state(
    c: Seq<Vec<i64>>,
    u: Seq<i64>,
    v: Seq<i64>,
    mj: Seq<i32>,
    mw: Seq<i32>,
    n: int,
    r: int,
    committed: Seq<bool>,
    parent: Seq<i32>,
    msv: Seq<i64>,
    msw: Seq<usize>,
    time: Seq<int>,
    nt: int,
) -> bool {
    &&& committed.len() == n
    &&& parent.len() == n
    &&& msv.len() == n
    &&& msw.len() == n
    &&& time.len() == n
    &&& 0 <= r < n
    &&& nt >= 0
    &&& committed[r]
    &&& mj[r] == -1
    &&& forall|j: int| 0 <= j < n && #[trigger] parent[j] != -1 ==> {
        &&& 0 <= parent[j] < n
        &&& committed[parent[j] as int]
        &&& mw[j] != -1
        &&& committed[mw[j] as int]
        &&& u[parent[j] as int] + v[j] == cell(c, parent[j] as int, j)
        &&& 0 <= time[j] < nt
        &&& (mj[parent[j] as int] == -1 || (parent[mj[parent[j] as int] as int] != -1
            && time[mj[parent[j] as int] as int] < time[j]))
    }
    &&& forall|w: int| 0 <= w < n && #[trigger] committed[w] ==> (w == r || (mj[w] != -1
        && parent[mj[w] as int] != -1))
    &&& forall|j: int| 0 <= j < n && #[trigger] parent[j] == -1 ==> {
        &&& msw[j] < n
        &&& committed[msw[j] as int]
        &&& msv[j] == cell(c, msw[j] as int, j) - u[msw[j] as int] - v[j]
    }
    &&& forall|j: int, w: int|
        #![trigger parent[j], committed[w]]
        0 <= j < n && 0 <= w < n && parent[j] == -1 && committed[w] ==> msv[j] <= cell(c, w, j) - u[w]
            - v[j]
}

/// Picks the uncommitted job of least slack (the first one among equals).
fn select_min_slack(n: usize, parent: &Vec<i32>, msv: &Vec<i64>, msw: &Vec<usize>) -> (res: (usize, usize, i64))
    requires
        parent.len() == n,
        msv.len() == n,
        msw.len() == n,
        exists|j: int| 0 <= j < n && parent[j] == -1,
    ensures
        res.0 < n,
        parent[res.0 as int] == -1,
        res.1 == msw[res.0 as int],
        res.2 == msv[res.0 as int],
        forall|j: int| 0 <= j < n && parent[j] == -1 ==> res.2 <= msv[j],
{
    let mut found = false;
    let mut best_job: usize = 0;
    let mut best_worker: usize = 0;
    let mut best: i64 = 0;
    let mut j: usize = 0;
    while j < n
        invariant
            j <= n,
            parent.len() == n,
            msv.len() == n,
            msw.len() == n,
            found ==> best_job < n && parent[best_job as int] == -1 && best_worker == msw[best_job as int]
                && best == msv[best_job as int],
            found ==> forall|k: int| 0 <= k < j && parent[k] == -1 ==> best <= msv[k],
            !found ==> forall|k: int| 0 <= k < j ==> parent[k] != -1,
        decreases n - j,
    {
        if parent[j] == -1 && (!found || msv[j] < best) {
            found = true;
            best = msv[j];
            best_worker = msw[j];
            best_job = j;
        }
        j = j + 1;
    }
    (best_job, best_worker, best)
}


/// Shifts the labels by `delta`: up on committed workers, down on committed jobs,
/// and lowers the recorded slack of the uncommitted jobs by the same amount.
fn update_labels(
    n: usize,
    delta: i64,
    committed: &Vec<bool>,
    parent: &Vec<i32>,
    u: &mut Vec<i64>,
    v: &mut Vec<i64>,
    msv: &mut Vec<i64>,
)
    requires
        committed.len() == n,
        parent.len() == n,
        old(u).len() == n,
        old(v).len() == n,
        old(msv).len() == n,
        delta >= 0,
        forall|w: int| 0 <= w < n && committed[w] ==> old(u)[w] + delta <= BOUND,
        forall|j: int| 0 <= j < n && parent[j] != -1 ==> old(v)[j] - delta >= -BOUND,
        forall|j: int| 0 <= j < n && parent[j] == -1 ==> old(msv)[j] - delta >= 0,
    ensures
        final(u).len() == n,
        final(v).len() == n,
        final(msv).len() == n,
        forall|w: int| 0 <= w < n ==> #[trigger] final(u)[w] == old(u)[w] + if committed[w] { delta } else { 0 },
        forall|j: int| 0 <= j < n ==> #[trigger] final(v)[j] == old(v)[j] - if parent[j] != -1 { delta } else { 0 },
        forall|j: int| 0 <= j < n ==> #[trigger] final(msv)[j] == old(msv)[j] - if parent[j] == -1 { delta } else { 0 },
{
    let mut ww: usize = 0;
    while ww < n
        invariant
            ww <= n,
            committed.len() == n,
            u.len() == n,
            old(u).len() == n,
            delta >= 0,
            forall|w: int| 0 <= w < n && committed[w] ==> old(u)[w] + delta <= BOUND,
            forall|w: int| 0 <= w < ww ==> #[trigger] u[w] == old(u)[w] + if committed[w] { delta } else { 0 },
            forall|w: int| ww <= w < n ==> #[trigger] u[w] == old(u)[w],
        decreases n - ww,
    {
        if committed[ww] {
            assert(u[ww as int] == old(u)[ww as int]);
            let x = u[ww] + delta;
            u.set(ww, x);
        }
        ww = ww + 1;
    }
    let mut j: usize = 0;
    while j < n
        invariant
            j <= n,
            parent.len() == n,
            v.len() == n,
            msv.len() == n,
            old(v).len() == n,
            old(msv).len() == n,
            delta >= 0,
            forall|k: int| 0 <= k < n && parent[k] != -1 ==> old(v)[k] - delta >= -BOUND,
            forall|k: int| 0 <= k < n && parent[k] == -1 ==> old(msv)[k] - delta >= 0,
            forall|k: int| 0 <= k < j ==> #[trigger] v[k] == old(v)[k] - if parent[k] != -1 { delta } else { 0 },
            forall|k: int| j <= k < n ==> #[trigger] v[k] == old(v)[k],
            forall|k: int| 0 <= k < j ==> #[trigger] msv[k] == old(msv)[k] - if parent[k] == -1 { delta } else { 0 },
            forall|k: int| j <= k < n ==> #[trigger] msv[k] == old(msv)[k],
        decreases n - j,
    {
        if parent[j] != -1 {
            let x = v[j] - delta;
            v.set(j, x);
        } else {
            let x = msv[j] - delta;
            msv.set(j, x);
        }
        j = j + 1;
    }
}

/// Lowers the recorded slack of each uncommitted job to that of `worker`, where smaller.
fn commit_worker(
    n: usize,
    worker: usize,
    c: &Vec<Vec<i64>>,
    u: &Vec<i64>,
    v: &Vec<i64>,
    parent: &Vec<i32>,
    msv: &mut Vec<i64>,
    msw: &mut Vec<usize>,
)
    requires
        worker < n,
        square_bounded(c@, n as int),
        u.len() == n,
        v.len() == n,
        parent.len() == n,
        old(msv).len() == n,
        old(msw).len() == n,
        forall|w: int| 0 <= w < n ==> 0 <= #[trigger] u[w] <= BOUND,
        forall|j: int| 0 <= j < n ==> -BOUND <= #[trigger] v[j] <= BOUND,
    ensures
        final(msv).len() == n,
        final(msw).len() == n,
        forall|j: int|
            0 <= j < n && parent[j] == -1 && old(msv)[j] > slack(c@, u@, v@, worker as int, j) ==> #[trigger] final(msv)[j]
                == slack(c@, u@, v@, worker as int, j),
        forall|j: int|
            0 <= j < n && parent[j] == -1 && old(msv)[j] > slack(c@, u@, v@, worker as int, j) ==> #[trigger] final(msw)[j]
                == worker,
        forall|j: int|
            0 <= j < n && !(parent[j] == -1 && old(msv)[j] > slack(c@, u@, v@, worker as int, j)) ==> #[trigger] final(msv)[j]
                == old(msv)[j],
        forall|j: int|
            0 <= j < n && !(parent[j] == -1 && old(msv)[j] > slack(c@, u@, v@, worker as int, j)) ==> #[trigger] final(msw)[j]
                == old(msw)[j],
{
    let mut j: usize = 0;
    while j < n
        invariant
            j <= n,
            worker < n,
            square_bounded(c@, n as int),
            u.len() == n,
            v.len() == n,
            parent.len() == n,
            msv.len() == n,
            msw.len() == n,
            old(msv).len() == n,
            old(msw).len() == n,
            forall|w: int| 0 <= w < n ==> 0 <= #[trigger] u[w] <= BOUND,
            forall|k: int| 0 <= k < n ==> -BOUND <= #[trigger] v[k] <= BOUND,
            forall|k: int|
                0 <= k < j && parent[k] == -1 && old(msv)[k] > slack(c@, u@, v@, worker as int, k) ==> #[trigger] msv[k]
                    == slack(c@, u@, v@, worker as int, k),
            forall|k: int|
                0 <= k < j && parent[k] == -1 && old(msv)[k] > slack(c@, u@, v@, worker as int, k) ==> #[trigger] msw[k]
                    == worker,
            forall|k: int|
                0 <= k < j && !(parent[k] == -1 && old(msv)[k] > slack(c@, u@, v@, worker as int, k)) ==> #[trigger] msv[k]
                    == old(msv)[k],
            forall|k: int|
                0 <= k < j && !(parent[k] == -1 && old(msv)[k] > slack(c@, u@, v@, worker as int, k)) ==> #[trigger] msw[k]
                    == old(msw)[k],
            forall|k: int| j <= k < n ==> #[trigger] msv[k] == old(msv)[k],
            forall|k: int| j <= k < n ==> #[trigger] msw[k] == old(msw)[k],
        decreases n - j,
    {
        assert(msv[j as int] == old(msv)[j as int] && msw[j as int] == old(msw)[j as int]);
        let ghost pm = msv@;
        let ghost pmw = msw@;
        if parent[j] == -1 {
            assert(0 <= cell(c@, worker as int, j as int) <= BOUND);
            let slack = c[worker][j] - u[worker] - v[j];
            if msv[j] > slack {
                msv.set(j, slack);
                msw.set(j, worker);
            }
        }
        assert(forall|k: int| 0 <= k < n && k != j ==> msv[k] == pm[k] && msw[k] == pmw[k]);
        j = j + 1;
    }
}


/// Flips the matching along the alternating path that ends at the free job `last`:
/// every job on the path is handed to its parent worker, which frees the job that
/// worker held, up to the root worker `r`, which held none.
fn augment_path(
    n: usize,
    r: usize,
    last: usize,
    c: &Vec<Vec<i64>>,
    u: &Vec<i64>,
    v: &Vec<i64>,
    parent: &Vec<i32>,
    Ghost(time): Ghost<Seq<int>>,
    mj: &mut Vec<i32>,
    mw: &mut Vec<i32>,
)
    requires
        n <= i32::MAX,
        r < n,
        last < n,
        square_bounded(c@, n as int),
        u.len() == n,
        v.len() == n,
        parent.len() == n,
        time.len() == n,
        matching_consistent(old(mj)@, old(mw)@, n as int),
        tight_on_matching(c@, u@, v@, old(mj)@, n as int),
        count_assigned(old(mj)@) == count_assigned(old(mw)@),
        old(mj)[r as int] == -1,
        parent[last as int] != -1,
        old(mw)[last as int] == -1,
        forall|j: int| 0 <= j < n && #[trigger] parent[j] != -1 ==> {
            &&& 0 <= parent[j] < n
            &&& u[parent[j] as int] + v[j] == cell(c@, parent[j] as int, j)
            &&& 0 <= time[j]
            &&& (old(mj)[parent[j] as int] == -1 ==> parent[j] == r)
            &&& (old(mj)[parent[j] as int] != -1 ==> parent[old(mj)[parent[j] as int] as int] != -1
                && time[old(mj)[parent[j] as int] as int] < time[j])
        },
    ensures
        matching_consistent(final(mj)@, final(mw)@, n as int),
        tight_on_matching(c@, u@, v@, final(mj)@, n as int),
        count_assigned(final(mj)@) == count_assigned(final(mw)@),
        final(mj)[r as int] != -1,
        forall|w: int| 0 <= w < n && old(mj)[w] != -1 ==> #[trigger] final(mj)[w] != -1,
        forall|j: int| 0 <= j < n && old(mw)[j] != -1 ==> #[trigger] final(mw)[j] != -1,
{
    let ghost omj = mj@;
    let ghost omw = mw@;
    let mut cj: usize = last;
    let mut pw: usize = parent[last] as usize;
    loop
        invariant_except_break
            mw[cj as int] == -1 || (0 <= mw[cj as int] < n && mj[mw[cj as int] as int] != cj),
            forall|w: int|
                0 <= w < n && #[trigger] mj[w] != omj[w] ==> omj[w] != -1 && parent[omj[w] as int] != -1
                    && time[omj[w] as int] >= time[cj as int],
            count_assigned(mj@) == count_assigned(omj),
            count_assigned(mw@) + (if mw[cj as int] == -1 { 1int } else { 0int }) == count_assigned(omw) + 1,
        invariant
            n <= i32::MAX,
            r < n,
            square_bounded(c@, n as int),
            u.len() == n,
            v.len() == n,
            parent.len() == n,
            time.len() == n,
            omj.len() == n,
            omw.len() == n,
            omj[r as int] == -1,
            count_assigned(omj) == count_assigned(omw),
            forall|j: int| 0 <= j < n && #[trigger] parent[j] != -1 ==> {
                &&& 0 <= parent[j] < n
                &&& u[parent[j] as int] + v[j] == cell(c@, parent[j] as int, j)
                &&& 0 <= time[j]
                &&& (omj[parent[j] as int] == -1 ==> parent[j] == r)
                &&& (omj[parent[j] as int] != -1 ==> parent[omj[parent[j] as int] as int] != -1
                    && time[omj[parent[j] as int] as int] < time[j])
            },
            cj < n,
            parent[cj as int] != -1,
            pw == parent[cj as int],
            mj.len() == n,
            mw.len() == n,
            forall|w: int|
                0 <= w < n ==> (#[trigger] mj[w] == -1 || (0 <= mj[w] < n && mw[mj[w] as int] == w)),
            forall|j: int|
                0 <= j < n && j != cj ==> (#[trigger] mw[j] == -1 || (0 <= mw[j] < n && mj[mw[j] as int] == j)),
            forall|w: int| 0 <= w < n && omj[w] != -1 ==> #[trigger] mj[w] != -1,
            forall|j: int| 0 <= j < n && omw[j] != -1 ==> #[trigger] mw[j] != -1,
            tight_on_matching(c@, u@, v@, mj@, n as int),
        ensures
            matching_consistent(mj@, mw@, n as int),
            tight_on_matching(c@, u@, v@, mj@, n as int),
            count_assigned(mj@) == count_assigned(mw@),
            mj[r as int] != -1,
            forall|w: int| 0 <= w < n && omj[w] != -1 ==> #[trigger] mj[w] != -1,
            forall|j: int| 0 <= j < n && omw[j] != -1 ==> #[trigger] mw[j] != -1,
        decreases time[cj as int],
    {
        assert(parent[cj as int] != -1);
        assert(mj[pw as int] == omj[pw as int]);
        let temp = mj[pw];
        let ghost pmj = mj@;
        let ghost pmw = mw@;
        proof {
            lemma_count_update(mj@, pw as int, cj as i32);
            lemma_count_update(mw@, cj as int, pw as i32);
        }
        mj.set(pw, cj as i32);
        mw.set(cj, pw as i32);
        assert forall|w: int| 0 <= w < n implies (#[trigger] mj[w] == -1 || (0 <= mj[w] < n
            && mw[mj[w] as int] == w)) by {
            if w == pw {
                assert(mj[w] == cj);
                assert(mw[cj as int] == pw);
            } else {
                assert(mj[w] == pmj[w]);
                if pmj[w] != -1 {
                    assert(0 <= pmj[w] < n);
                    assert(pmw[pmj[w] as int] == w);
                    assert(pmj[w] != cj);
                    assert(mw[pmj[w] as int] == pmw[pmj[w] as int]);
                }
            }
        }
        assert forall|j: int| 0 <= j < n && j != temp implies (#[trigger] mw[j] == -1 || (0 <= mw[j]
            < n && mj[mw[j] as int] == j)) by {
            if j == cj {
                assert(mw[j] == pw);
                assert(mj[pw as int] == cj);
            } else {
                assert(mw[j] == pmw[j]);
                if pmw[j] != -1 {
                    assert(0 <= pmw[j] < n);
                    assert(pmj[pmw[j] as int] == j);
                    assert(pmw[j] != pw);
                    assert(mj[pmw[j] as int] == pmj[pmw[j] as int]);
                }
            }
        }
        if temp == -1 {
            assert(pw == r);
            break;
        }
        let ghost old_cj = cj;
        cj = temp as usize;
        pw = parent[cj] as usize;
        assert(mw[cj as int] == pmw[cj as int]);
        assert(time[cj as int] < time[old_cj as int]);
    }
}


/// While a phase runs, some job is still free, and every free job is outside the tree.
proof fn lemma_free_job(
    c: Seq<Vec<i64>>,
    u: Seq<i64>,
    v: Seq<i64>,
    mj: Seq<i32>,
    mw: Seq<i32>,
    n: int,
    r: int,
    committed: Seq<bool>,
    parent: Seq<i32>,
    msv: Seq<i64>,
    msw: Seq<usize>,
    time: Seq<int>,
    nt: int,
) -> (j0: int)
    requires
        solver_state(c, u, v, mj, mw, n),
        phase_state(c, u, v, mj, mw, n, r, committed, parent, msv, msw, time, nt),
    ensures
        0 <= j0 < n,
        mw[j0] == -1,
        parent[j0] == -1,
{
    lemma_free_entry_count(mj, r);
    let j0 = lemma_count_free_entry(mw);
    if parent[j0] != -1 {
        assert(mw[j0] != -1);
    }
    j0
}

/// The labels can move by the least slack without leaving their bounds.
proof fn lemma_shift_bounds(
    c: Seq<Vec<i64>>,
    u: Seq<i64>,
    v: Seq<i64>,
    mj: Seq<i32>,
    mw: Seq<i32>,
    n: int,
    r: int,
    committed: Seq<bool>,
    parent: Seq<i32>,
    msv: Seq<i64>,
    msw: Seq<usize>,
    time: Seq<int>,
    nt: int,
    delta: i64,
)
    requires
        solver_state(c, u, v, mj, mw, n),
        phase_state(c, u, v, mj, mw, n, r, committed, parent, msv, msw, time, nt),
        delta >= 0,
        forall|j: int| 0 <= j < n && parent[j] == -1 ==> delta <= msv[j],
    ensures
        forall|w: int| 0 <= w < n && committed[w] ==> u[w] + delta <= BOUND,
        forall|j: int| 0 <= j < n && parent[j] != -1 ==> v[j] - delta >= -BOUND,
        forall|j: int| 0 <= j < n && parent[j] == -1 ==> msv[j] - delta >= 0,
{
    let j0 = lemma_free_job(c, u, v, mj, mw, n, r, committed, parent, msv, msw, time, nt);
    assert forall|w: int| 0 <= w < n && committed[w] implies u[w] + delta <= BOUND by {
        assert(msv[j0] <= cell(c, w, j0) - u[w] - v[j0]);
    }
    assert forall|j: int| 0 <= j < n && parent[j] != -1 implies v[j] - delta >= -BOUND by {
        let w = mw[j] as int;
        assert(mj[w] == j);
        assert(u[w] + v[j] == cell(c, w, j));
        assert(msv[j0] <= cell(c, w, j0) - u[w] - v[j0]);
    }
}

/// Shifting the labels by the least slack keeps both the solver and the phase invariants.
proof fn lemma_label_shift(
    c: Seq<Vec<i64>>,
    u: Seq<i64>,
    v: Seq<i64>,
    mj: Seq<i32>,
    mw: Seq<i32>,
    n: int,
    r: int,
    committed: Seq<bool>,
    parent: Seq<i32>,
    msv: Seq<i64>,
    msw: Seq<usize>,
    time: Seq<int>,
    nt: int,
    delta: i64,
    u2: Seq<i64>,
    v2: Seq<i64>,
    msv2: Seq<i64>,
)
    requires
        solver_state(c, u, v, mj, mw, n),
        phase_state(c, u, v, mj, mw, n, r, committed, parent, msv, msw, time, nt),
        delta >= 0,
        forall|j: int| 0 <= j < n && parent[j] == -1 ==> delta <= msv[j],
        forall|w: int| 0 <= w < n && committed[w] ==> u[w] + delta <= BOUND,
        forall|j: int| 0 <= j < n && parent[j] != -1 ==> v[j] - delta >= -BOUND,
        u2.len() == n,
        v2.len() == n,
        msv2.len() == n,
        forall|w: int| 0 <= w < n ==> #[trigger] u2[w] == u[w] + if committed[w] { delta } else { 0 },
        forall|j: int| 0 <= j < n ==> #[trigger] v2[j] == v[j] - if parent[j] != -1 { delta } else { 0 },
        forall|j: int| 0 <= j < n ==> #[trigger] msv2[j] == msv[j] - if parent[j] == -1 { delta } else { 0 },
    ensures
        solver_state(c, u2, v2, mj, mw, n),
        phase_state(c, u2, v2, mj, mw, n, r, committed, parent, msv2, msw, time, nt),
{
    assert forall|w: int, j: int| 0 <= w < n && 0 <= j < n implies u2[w] + v2[j] <= #[trigger] cell(
        c,
        w,
        j,
    ) by {
        assert(u[w] + v[j] <= cell(c, w, j));
        if committed[w] && parent[j] == -1 {
            assert(msv[j] <= cell(c, w, j) - u[w] - v[j]);
        }
    }
    assert forall|w: int| 0 <= w < n && #[trigger] mj[w] != -1 implies u2[w] + v2[mj[w] as int]
        == cell(c, w, mj[w] as int) by {
        let j = mj[w] as int;
        assert(mw[j] == w);
        if parent[j] != -1 {
            assert(committed[w]);
        } else {
            if committed[w] {
                assert(w == r || parent[mj[w] as int] != -1);
            }
        }
    }
    assert forall|j: int| 0 <= j < n && #[trigger] mw[j] == -1 implies v2[j] >= 0 by {
        if parent[j] != -1 {
            assert(mw[j] != -1);
        }
    }
    assert forall|j: int| 0 <= j < n && #[trigger] parent[j] != -1 implies u2[parent[j] as int] + v2[j]
        == cell(c, parent[j] as int, j) by {
        assert(committed[parent[j] as int]);
    }
    assert forall|j: int| 0 <= j < n && #[trigger] parent[j] == -1 implies msv2[j] == cell(
        c,
        msw[j] as int,
        j,
    ) - u2[msw[j] as int] - v2[j] by {
        assert(committed[msw[j] as int]);
    }
    assert forall|j: int, w: int|
        #![trigger parent[j], committed[w]]
        0 <= j < n && 0 <= w < n && parent[j] == -1 && committed[w] implies msv2[j] <= cell(c, w, j)
            - u2[w] - v2[j] by {
        assert(msv[j] <= cell(c, w, j) - u[w] - v[j]);
    }
}


/// Adding job `bj` to the tree under worker `bw` keeps the parent links well ordered in time.
proof fn lemma_extend_tree(
    c: Seq<Vec<i64>>,
    u: Seq<i64>,
    v: Seq<i64>,
    mj: Seq<i32>,
    mw: Seq<i32>,
    n: int,
    r: int,
    committed: Seq<bool>,
    parent: Seq<i32>,
    msv: Seq<i64>,
    msw: Seq<usize>,
    time: Seq<int>,
    nt: int,
    bj: int,
    bw: int,
)
    requires
        n <= i32::MAX,
        solver_state(c, u, v, mj, mw, n),
        phase_state(c, u, v, mj, mw, n, r, committed, parent, msv, msw, time, nt),
        0 <= bj < n,
        parent[bj] == -1,
        bw == msw[bj] as int,
        u[bw] + v[bj] == cell(c, bw, bj),
    ensures
        ({
            let parent2 = parent.update(bj, bw as i32);
            let time2 = time.update(bj, nt);
            forall|j: int| 0 <= j < n && #[trigger] parent2[j] != -1 ==> {
                &&& 0 <= parent2[j] < n
                &&& committed[parent2[j] as int]
                &&& u[parent2[j] as int] + v[j] == cell(c, parent2[j] as int, j)
                &&& 0 <= time2[j] < nt + 1
                &&& (mj[parent2[j] as int] == -1 ==> parent2[j] == r)
                &&& (mj[parent2[j] as int] != -1 ==> parent2[mj[parent2[j] as int] as int] != -1
                    && time2[mj[parent2[j] as int] as int] < time2[j])
            }
        }),
{
    let parent2 = parent.update(bj, bw as i32);
    let time2 = time.update(bj, nt);
    assert forall|j: int| 0 <= j < n && #[trigger] parent2[j] != -1 implies {
        &&& 0 <= parent2[j] < n
        &&& committed[parent2[j] as int]
        &&& u[parent2[j] as int] + v[j] == cell(c, parent2[j] as int, j)
        &&& 0 <= time2[j] < nt + 1
        &&& (mj[parent2[j] as int] == -1 ==> parent2[j] == r)
        &&& (mj[parent2[j] as int] != -1 ==> parent2[mj[parent2[j] as int] as int] != -1
            && time2[mj[parent2[j] as int] as int] < time2[j])
    } by {
        let p = parent2[j] as int;
        if j == bj {
            assert(committed[bw]);
            if bw != r {
                assert(mj[bw] != -1 && parent[mj[bw] as int] != -1);
                assert(mj[bw] != bj);
            }
        } else {
            assert(parent[j] != -1);
            assert(committed[p]);
            if p != r {
                assert(mj[p] != -1 && parent[mj[p] as int] != -1);
                assert(mj[p] != bj);
            }
        }
    }
}

/// Committing the worker matched to the newly reached job restores the phase invariant.
proof fn lemma_commit(
    c: Seq<Vec<i64>>,
    u: Seq<i64>,
    v: Seq<i64>,
    mj: Seq<i32>,
    mw: Seq<i32>,
    n: int,
    r: int,
    committed: Seq<bool>,
    parent: Seq<i32>,
    msv: Seq<i64>,
    msw: Seq<usize>,
    time: Seq<int>,
    nt: int,
    bj: int,
    bw: int,
    msv2: Seq<i64>,
    msw2: Seq<usize>,
)
    requires
        n <= i32::MAX,
        solver_state(c, u, v, mj, mw, n),
        phase_state(c, u, v, mj, mw, n, r, committed, parent, msv, msw, time, nt),
        0 <= bj < n,
        parent[bj] == -1,
        bw == msw[bj] as int,
        u[bw] + v[bj] == cell(c, bw, bj),
        mw[bj] != -1,
        msv2.len() == n,
        msw2.len() == n,
        forall|j: int|
            0 <= j < n && parent.update(bj, bw as i32)[j] == -1 && msv[j] > slack(c, u, v, mw[bj] as int, j) ==> #[trigger] msv2[j]
                == slack(c, u, v, mw[bj] as int, j),
        forall|j: int|
            0 <= j < n && parent.update(bj, bw as i32)[j] == -1 && msv[j] > slack(c, u, v, mw[bj] as int, j) ==> #[trigger] msw2[j]
                == mw[bj] as usize,
        forall|j: int|
            0 <= j < n && !(parent.update(bj, bw as i32)[j] == -1 && msv[j] > slack(c, u, v, mw[bj] as int, j)) ==> #[trigger] msv2[j]
                == msv[j],
        forall|j: int|
            0 <= j < n && !(parent.update(bj, bw as i32)[j] == -1 && msv[j] > slack(c, u, v, mw[bj] as int, j)) ==> #[trigger] msw2[j]
                == msw[j],
    ensures
        phase_state(
            c,
            u,
            v,
            mj,
            mw,
            n,
            r,
            committed.update(mw[bj] as int, true),
            parent.update(bj, bw as i32),
            msv2,
            msw2,
            time.update(bj, nt),
            nt + 1,
        ),
{
    let worker = mw[bj] as int;
    let committed2 = committed.update(worker, true);
    let parent2 = parent.update(bj, bw as i32);
    let time2 = time.update(bj, nt);
    lemma_extend_tree(c, u, v, mj, mw, n, r, committed, parent, msv, msw, time, nt, bj, bw);
    assert(mj[worker] == bj);
    assert forall|j: int| 0 <= j < n && #[trigger] parent2[j] != -1 implies {
        &&& 0 <= parent2[j] < n
        &&& committed2[parent2[j] as int]
        &&& mw[j] != -1
        &&& committed2[mw[j] as int]
        &&& u[parent2[j] as int] + v[j] == cell(c, parent2[j] as int, j)
        &&& 0 <= time2[j] < nt + 1
        &&& (mj[parent2[j] as int] == -1 || (parent2[mj[parent2[j] as int] as int] != -1
            && time2[mj[parent2[j] as int] as int] < time2[j]))
    } by {
        if j != bj {
            assert(parent[j] != -1);
        }
    }
    assert forall|w: int| 0 <= w < n && #[trigger] committed2[w] implies (w == r || (mj[w] != -1
        && parent2[mj[w] as int] != -1)) by {
        if w != worker {
            assert(committed[w]);
        }
    }
    assert forall|j: int| 0 <= j < n && #[trigger] parent2[j] == -1 implies {
        &&& msw2[j] < n
        &&& committed2[msw2[j] as int]
        &&& msv2[j] == cell(c, msw2[j] as int, j) - u[msw2[j] as int] - v[j]
    } by {
        assert(parent[j] == -1);
        let s = slack(c, u, v, worker, j);
        if msv[j] > s {
            assert(msv2[j] == s);
            assert(msw2[j] == worker as usize);
        } else {
            assert(!(parent.update(bj, bw as i32)[j] == -1 && msv[j] > slack(c, u, v, mw[bj] as int, j)));
            assert(msv2[j] == msv[j]);
            assert(msw2[j] == msw[j]);
        }
    }
    assert forall|j: int, w: int|
        #![trigger parent2[j], committed2[w]]
        0 <= j < n && 0 <= w < n && parent2[j] == -1 && committed2[w] implies msv2[j] <= cell(c, w, j)
            - u[w] - v[j] by {
        assert(parent[j] == -1);
        if w != worker {
            assert(committed[w]);
            assert(msv[j] <= cell(c, w, j) - u[w] - v[j]);
        }
    }
}

/// One augmenting phase: grows an alternating tree from the free worker `r`,
/// moving the labels whenever no tight edge leaves the tree, until a free job
/// is reached; then the matching is flipped along the path to it.
fn run_phase(
    n: usize,
    r: usize,
    c: &Vec<Vec<i64>>,
    u: &mut Vec<i64>,
    v: &mut Vec<i64>,
    mj: &mut Vec<i32>,
    mw: &mut Vec<i32>,
    committed: &mut Vec<bool>,
    parent: &mut Vec<i32>,
    msv: &mut Vec<i64>,
    msw: &mut Vec<usize>,
)
    requires
        n <= i32::MAX,
        r < n,
        solver_state(c@, old(u)@, old(v)@, old(mj)@, old(mw)@, n as int),
        old(mj)[r as int] == -1,
        old(committed).len() == n,
        old(parent).len() == n,
        old(msv).len() == n,
        old(msw).len() == n,
    ensures
        solver_state(c@, final(u)@, final(v)@, final(mj)@, final(mw)@, n as int),
        final(mj)[r as int] != -1,
        forall|w: int| 0 <= w < n && old(mj)[w] != -1 ==> #[trigger] final(mj)[w] != -1,
        final(committed).len() == n,
        final(parent).len() == n,
        final(msv).len() == n,
        final(msw).len() == n,
{
    let mut k: usize = 0;
    while k < n
        invariant
            k <= n,
            committed.len() == n,
            parent.len() == n,
            forall|i: int| 0 <= i < k ==> !#[trigger] committed[i],
            forall|i: int| 0 <= i < k ==> #[trigger] parent[i] == -1,
        decreases n - k,
    {
        committed.set(k, false);
        parent.set(k, -1);
        k = k + 1;
    }
    committed.set(r, true);
    let mut j: usize = 0;
    while j < n
        invariant
            j <= n,
            r < n,
            solver_state(c@, u@, v@, mj@, mw@, n as int),
            msv.len() == n,
            msw.len() == n,
            forall|i: int| 0 <= i < j ==> #[trigger] msw[i] == r,
            forall|i: int| 0 <= i < j ==> #[trigger] msv[i] == cell(c@, r as int, i) - u[r as int] - v[i],
        decreases n - j,
    {
        assert(0 <= cell(c@, r as int, j as int) <= BOUND);
        let s = c[r][j] - u[r] - v[j];
        msv.set(j, s);
        msw.set(j, r);
        j = j + 1;
    }
    let ghost mut time: Seq<int> = Seq::new(n as nat, |i: int| 0int);
    let ghost mut nt: int = 0;
    proof {
        lemma_count_all_free(parent@);
        assert forall|j: int, w: int|
            #![trigger parent[j], committed[w]]
            0 <= j < n && 0 <= w < n && parent[j] == -1 && committed[w] implies msv[j] <= cell(c@, w, j)
                - u[w] - v[j] by {
            assert(w == r);
        }
    }
    let ghost omj = mj@;
    loop
        invariant_except_break
            phase_state(c@, u@, v@, mj@, mw@, n as int, r as int, committed@, parent@, msv@, msw@, time, nt),
            mj@ == omj,
        invariant
            n <= i32::MAX,
            r < n,
            solver_state(c@, u@, v@, mj@, mw@, n as int),
            forall|w: int| 0 <= w < n && old(mj)[w] != -1 ==> #[trigger] omj[w] != -1,
            omj.len() == n,
            committed.len() == n,
            parent.len() == n,
            msv.len() == n,
            msw.len() == n,
        ensures
            solver_state(c@, u@, v@, mj@, mw@, n as int),
            mj[r as int] != -1,
            forall|w: int| 0 <= w < n && old(mj)[w] != -1 ==> #[trigger] mj[w] != -1,
            committed.len() == n,
            parent.len() == n,
            msv.len() == n,
            msw.len() == n,
        decreases n - count_assigned(parent@),
    {
        let ghost j0 = lemma_free_job(c@, u@, v@, mj@, mw@, n as int, r as int, committed@, parent@, msv@, msw@, time, nt);
        let (bj, bw, delta) = select_min_slack(n, parent, msv, msw);
        proof {
            assert(msv[bj as int] == cell(c@, bw as int, bj as int) - u[bw as int] - v[bj as int]);
            assert(u[bw as int] + v[bj as int] <= cell(c@, bw as int, bj as int));
            lemma_shift_bounds(c@, u@, v@, mj@, mw@, n as int, r as int, committed@, parent@, msv@, msw@, time, nt, delta);
        }
        if delta > 0 {
            let ghost u1 = u@;
            let ghost v1 = v@;
            let ghost m1 = msv@;
            update_labels(n, delta, committed, parent, u, v, msv);
            proof {
                lemma_label_shift(c@, u1, v1, mj@, mw@, n as int, r as int, committed@, parent@, m1, msw@, time, nt, delta, u@, v@, msv@);
            }
        }
        assert(msv[bj as int] == 0 || delta == 0);
        assert(u[bw as int] + v[bj as int] == cell(c@, bw as int, bj as int));
        proof {
            lemma_count_update(parent@, bj as int, bw as i32);
            lemma_count_le_len(parent@.update(bj as int, bw as i32));
        }
        let ghost pc = committed@;
        let ghost pp = parent@;
        let ghost pt = time;
        let ghost pnt = nt;
        proof {
            lemma_extend_tree(c@, u@, v@, mj@, mw@, n as int, r as int, committed@, parent@, msv@, msw@, time, nt, bj as int, bw as int);
        }
        parent.set(bj, bw as i32);
        proof {
            time = time.update(bj as int, nt);
            nt = nt + 1;
        }
        if mw[bj] == -1 {
            augment_path(n, r, bj, c, u, v, parent, Ghost(time), mj, mw);
            break;
        } else {
            let worker = mw[bj] as usize;
            committed.set(worker, true);
            let ghost m1 = msv@;
            let ghost w1 = msw@;
            commit_worker(n, worker, c, u, v, parent, msv, msw);
            proof {
                assert(worker as int == mw[bj as int] as int);
                assert(parent@ == pp.update(bj as int, bw as i32));
                lemma_commit(c@, u@, v@, mj@, mw@, n as int, r as int, pc, pp, m1, w1, pt, pnt, bj as int, bw as int, msv@, msw@);
            }
        }
    }
}


/// The job of each worker, as integers.
pub open spec fn as_ints(s: Seq<i32>) -> Seq<int> {
    s.map_values(|x: i32| x as int)
}

/// Cost of the first `k` workers under assignment `p`, for the matrix `m`.
pub open spec fn total_cost(m: spec_fn(int, int) -> int, p: Seq<int>, k: int) -> int
    decreases k,
{
    if k <= 0 {
        0
    } else {
        total_cost(m, p, k - 1) + m(k - 1, p[k - 1])
    }
}

/// The entries of a square matrix, as a function.
pub open spec fn cells(c: Seq<Vec<i64>>) -> spec_fn(int, int) -> int {
    |w: int, j: int| cell(c, w, j)
}

/// `p` is a cheapest permutation of `0..n` for the matrix `m`.
pub open spec fn is_optimal(m: spec_fn(int, int) -> int, p: Seq<int>, n: int) -> bool {
    &&& is_permutation(p, n)
    &&& forall|q: Seq<int>| is_permutation(q, n) ==> total_cost(m, p, n) <= #[trigger] total_cost(m, q, n)
}

proof fn lemma_weak_duality(c: Seq<Vec<i64>>, u: Seq<i64>, v: Seq<i64>, n: int, p: Seq<int>, k: int)
    requires
        dual_feasible(c, u, v, n),
        is_permutation(p, n),
        0 <= k <= n,
    ensures
        total_cost(cells(c), p, k) >= sum_range(|w: int| u[w] as int, k) + sum_over(
            p.take(k),
            |j: int| v[j] as int,
        ),
    decreases k,
{
    if k > 0 {
        lemma_weak_duality(c, u, v, n, p, k - 1);
        assert(p.take(k).drop_last() =~= p.take(k - 1));
        assert(u[k - 1] + v[p[k - 1]] <= cell(c, k - 1, p[k - 1]));
    }
}

proof fn lemma_tight_cost(c: Seq<Vec<i64>>, u: Seq<i64>, v: Seq<i64>, n: int, p: Seq<int>, k: int)
    requires
        u.len() == n,
        v.len() == n,
        is_permutation(p, n),
        forall|w: int| 0 <= w < n ==> u[w] + v[p[w]] == #[trigger] cell(c, w, p[w]),
        0 <= k <= n,
    ensures
        total_cost(cells(c), p, k) == sum_range(|w: int| u[w] as int, k) + sum_over(
            p.take(k),
            |j: int| v[j] as int,
        ),
    decreases k,
{
    if k > 0 {
        lemma_tight_cost(c, u, v, n, p, k - 1);
        assert(p.take(k).drop_last() =~= p.take(k - 1));
        assert(u[k - 1] + v[p[k - 1]] == cell(c, k - 1, p[k - 1]));
    }
}

/// A perfect matching with feasible labels that are tight on it is a cheapest assignment.
proof fn lemma_optimal(c: Seq<Vec<i64>>, u: Seq<i64>, v: Seq<i64>, mj: Seq<i32>, mw: Seq<i32>, n: int)
    requires
        solver_state(c, u, v, mj, mw, n),
        forall|w: int| 0 <= w < n ==> #[trigger] mj[w] != -1,
    ensures
        is_optimal(cells(c), as_ints(mj), n),
{
    let p = as_ints(mj);
    assert forall|i: int, k: int| 0 <= i < n && 0 <= k < n && i != k implies #[trigger] p[i] != #[trigger] p[k] by {
        assert(mj[i] != -1 && mj[k] != -1);
        assert(mw[mj[i] as int] == i);
        assert(mw[mj[k] as int] == k);
    }
    assert(is_permutation(p, n));
    assert forall|w: int| 0 <= w < n implies u[w] + v[p[w]] == #[trigger] cell(c, w, p[w]) by {
        assert(mj[w] != -1);
    }
    lemma_tight_cost(c, u, v, n, p, n);
    assert(p.take(n) =~= p);
    lemma_sum_over_permutation(p, n, |j: int| v[j] as int);
    assert forall|q: Seq<int>| is_permutation(q, n) implies total_cost(cells(c), p, n) <= #[trigger] total_cost(
        cells(c),
        q,
        n,
    ) by {
        lemma_weak_duality(c, u, v, n, q, n);
        assert(q.take(n) =~= q);
        lemma_sum_over_permutation(q, n, |j: int| v[j] as int);
    }
}

/// Finds a cheapest perfect matching of an `n x n` matrix of reduced costs:
/// the result gives the job of each worker.
pub fn solve_square(c: &Vec<Vec<i64>>, n: usize) -> (mj: Vec<i32>)
    requires
        n <= i32::MAX,
        square_bounded(c@, n as int),
    ensures
        mj.len() == n,
        is_optimal(cells(c@), as_ints(mj@), n as int),
{
    // Initial labels: zero for workers, the column minimum for jobs.
    let mut u: Vec<i64> = Vec::new();
    let mut v: Vec<i64> = Vec::new();
    let mut mj: Vec<i32> = Vec::new();
    let mut mw: Vec<i32> = Vec::new();
    let mut j: usize = 0;
    while j < n
        invariant
            j <= n,
            square_bounded(c@, n as int),
            u.len() == j,
            v.len() == j,
            mj.len() == j,
            mw.len() == j,
            forall|k: int| 0 <= k < j ==> #[trigger] u[k] == 0,
            forall|k: int| 0 <= k < j ==> #[trigger] mj[k] == -1,
            forall|k: int| 0 <= k < j ==> #[trigger] mw[k] == -1,
            forall|k: int| 0 <= k < j ==> 0 <= #[trigger] v[k] <= BOUND,
            forall|w: int, k: int| 0 <= w < n && 0 <= k < j ==> v[k] <= #[trigger] cell(c@, w, k),
        decreases n - j,
    {
        let mut m: i64 = BOUND;
        let mut w: usize = 0;
        while w < n
            invariant
                w <= n,
                j < n,
                square_bounded(c@, n as int),
                0 <= m <= BOUND,
                forall|x: int| 0 <= x < w ==> m <= #[trigger] cell(c@, x, j as int),
            decreases n - w,
        {
            assert(0 <= cell(c@, w as int, j as int) <= BOUND);
            if c[w][j] < m {
                m = c[w][j];
            }
            w = w + 1;
        }
        u.push(0);
        v.push(m);
        mj.push(-1);
        mw.push(-1);
        j = j + 1;
    }
    proof {
        lemma_count_all_free(mj@);
        lemma_count_all_free(mw@);
    }
    // Greedy matching along zero-slack entries.
    let mut w: usize = 0;
    while w < n
        invariant
            w <= n,
            n <= i32::MAX,
            solver_state(c@, u@, v@, mj@, mw@, n as int),
            forall|k: int| 0 <= k < n ==> #[trigger] u[k] == 0,
        decreases n - w,
    {
        let mut j: usize = 0;
        while j < n
            invariant
                j <= n,
                w < n,
                n <= i32::MAX,
                solver_state(c@, u@, v@, mj@, mw@, n as int),
                forall|k: int| 0 <= k < n ==> #[trigger] u[k] == 0,
            decreases n - j,
        {
            assert(0 <= cell(c@, w as int, j as int) <= BOUND);
            if mj[w] == -1 && mw[j] == -1 && c[w][j] - u[w] - v[j] == 0 {
                let ghost pj = mj@;
                let ghost pw = mw@;
                proof {
                    lemma_count_update(mj@, w as int, j as i32);
                    lemma_count_update(mw@, j as int, w as i32);
                }
                mj.set(w, j as i32);
                mw.set(j, w as i32);
                assert forall|x: int| 0 <= x < n implies (#[trigger] mj[x] == -1 || (0 <= mj[x] < n
                    && mw[mj[x] as int] == x)) by {
                    if x != w && pj[x] != -1 {
                        assert(pw[pj[x] as int] == x);
                    }
                }
                assert forall|y: int| 0 <= y < n implies (#[trigger] mw[y] == -1 || (0 <= mw[y] < n
                    && mj[mw[y] as int] == y)) by {
                    if y != j && pw[y] != -1 {
                        assert(pj[pw[y] as int] == y);
                    }
                }
            }
            j = j + 1;
        }
        w = w + 1;
    }
    // Augmenting phases, one per worker left free.
    let mut committed: Vec<bool> = Vec::new();
    let mut parent: Vec<i32> = Vec::new();
    let mut msv: Vec<i64> = Vec::new();
    let mut msw: Vec<usize> = Vec::new();
    let mut k: usize = 0;
    while k < n
        invariant
            k <= n,
            committed.len() == k,
            parent.len() == k,
            msv.len() == k,
            msw.len() == k,
        decreases n - k,
    {
        committed.push(false);
        parent.push(-1);
        msv.push(0);
        msw.push(0);
        k = k + 1;
    }
    let mut w: usize = 0;
    while w < n
        invariant
            w <= n,
            n <= i32::MAX,
            solver_state(c@, u@, v@, mj@, mw@, n as int),
            forall|x: int| 0 <= x < w ==> #[trigger] mj[x] != -1,
            committed.len() == n,
            parent.len() == n,
            msv.len() == n,
            msw.len() == n,
        ensures
            solver_state(c@, u@, v@, mj@, mw@, n as int),
            forall|x: int| 0 <= x < n ==> #[trigger] mj[x] != -1,
        decreases n - w,
    {
        while w < n && mj[w] != -1
            invariant
                w <= n,
                mj.len() == n,
                forall|x: int| 0 <= x < w ==> #[trigger] mj[x] != -1,
            decreases n - w,
        {
            w = w + 1;
        }
        if w >= n {
            break;
        }
        run_phase(n, w, c, &mut u, &mut v, &mut mj, &mut mw, &mut committed, &mut parent, &mut msv, &mut msw);
        w = w + 1;
    }
    proof {
        lemma_optimal(c@, u@, v@, mj@, mw@, n as int);
    }
    mj
}

} // verus!
