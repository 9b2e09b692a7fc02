//! The safety procedure run on a ledger before a request is let through:
//! it decides whether every task could still run to completion.
use vstd::prelude::*;
use crate::ledger::Ledger;

verus! {

/// Every entry of `row` is covered by `work`.
pub open spec fn fits(row: Seq<usize>, work: Seq<int>) -> bool {
    forall|r: int| 0 <= r < row.len() ==> #[trigger] row[r] <= work[r]
}

/// Task `t` has not finished and its whole need is covered by `work`.
pub open spec fn ready(need: Seq<Seq<usize>>, work: Seq<int>, finish: Seq<bool>, t: int) -> bool {
    0 <= t < finish.len() && !finish[t] && fits(need[t], work)
}

/// `t` is the lowest-indexed ready task.
pub open spec fn lowest_ready(need: Seq<Seq<usize>>, work: Seq<int>, finish: Seq<bool>, t: int) -> bool {
    &&& ready(need, work, finish, t)
    &&& forall|u: int| 0 <= u < t ==> !ready(need, work, finish, u)
}

/// `work` after a finished task hands back what it holds.
pub open spec fn absorb(work: Seq<int>, row: Seq<usize>) -> Seq<int> {
    Seq::new(work.len(), |r: int| work[r] + row[r])
}

/// Runs the safety procedure for at most `fuel` rounds: each round finishes
/// the lowest-indexed ready task and adds its allocation to `work`; it stops
/// when no task is ready. Gives the final `finish` marks.
pub open spec fn settle(
    need: Seq<Seq<usize>>,
    alloc: Seq<Seq<usize>>,
    work: Seq<int>,
    finish: Seq<bool>,
    fuel: nat,
) -> Seq<bool>
    decreases fuel,
{
    if fuel > 0 && exists|t: int| lowest_ready(need, work, finish, t) {
        let t = choose|t: int| lowest_ready(need, work, finish, t);
        settle(need, alloc, absorb(work, alloc[t]), finish.update(t, true), (fuel - 1) as nat)
    } else {
        finish
    }
}

/// The safety procedure leaves some task unfinished. Each round finishes one
/// task, so one round per task is enough.
pub open spec fn deadlocked(avail: Seq<usize>, need: Seq<Seq<usize>>, alloc: Seq<Seq<usize>>) -> bool {
    let fin = settle(need, alloc, start_work(avail), none_finished(need.len()), need.len());
    exists|t: int| 0 <= t < fin.len() && !fin[t]
}

/// The free units, as the procedure's starting `work`.
pub open spec fn start_work(avail: Seq<usize>) -> Seq<int> {
    Seq::new(avail.len(), |r: int| avail[r] as int)
}

/// `n` tasks, none finished.
pub open spec fn none_finished(n: nat) -> Seq<bool> {
    Seq::new(n, |t: int| false)
}

/// `w` held in a machine word: values past the top stay at the top.
pub open spec fn capped(w: int) -> int {
    if w > usize::MAX { usize::MAX as int } else { w }
}

proof fn lemma_lowest_unique(need: Seq<Seq<usize>>, work: Seq<int>, finish: Seq<bool>, t: int, u: int)
    requires
        lowest_ready(need, work, finish, t),
        lowest_ready(need, work, finish, u),
    ensures
        t == u,
{
}

impl Ledger {
    /// Lowest-indexed unfinished task whose need `work` covers.
    fn find_ready(&self, work: &Vec<usize>, finish: &Vec<bool>, Ghost(gw): Ghost<Seq<int>>) -> (o: Option<usize>)
        requires
            self.wf(),
            work@.len() == self.slots(),
            gw.len() == self.slots(),
            finish@.len() == self.tasks(),
            forall|r: int| 0 <= r < gw.len() ==> #[trigger] work@[r] == capped(gw[r]),
        ensures
            match o {
                Some(t) => lowest_ready(self.need_view(), gw, finish@, t as int),
                None => forall|t: int| !ready(self.need_view(), gw, finish@, t),
            },
    {
        let nt = self.need.len();
        let nr = self.available.len();
        let mut t: usize = 0;
        while t < nt
            invariant
                t <= nt,
                nt == self.tasks(),
                nr == self.slots(),
                self.wf(),
                work@.len() == nr,
                gw.len() == nr,
                finish@.len() == nt,
                forall|r: int| 0 <= r < gw.len() ==> #[trigger] work@[r] == capped(gw[r]),
                forall|u: int| 0 <= u < t ==> !ready(self.need_view(), gw, finish@, u),
            decreases nt - t,
        {
            assert(self.need@[t as int]@.len() == nr);
            let mut ok = true;
            let mut r: usize = 0;
            while r < nr
                invariant
                    r <= nr,
                    t < nt,
                    self.need@[t as int]@.len() == nr,
                    nt == self.need@.len(),
                    work@.len() == nr,
                    gw.len() == nr,
                    forall|k: int| 0 <= k < gw.len() ==> #[trigger] work@[k] == capped(gw[k]),
                    ok == forall|k: int| 0 <= k < r ==> #[trigger] self.need@[t as int]@[k] <= gw[k],
                decreases nr - r,
            {
                if self.need[t][r] > work[r] {
                    ok = false;
                }
                r = r + 1;
            }
            if ok && !finish[t] {
                return Some(t);
            }
            t = t + 1;
        }
        None
    }

    /// Runs the safety procedure on the current state: true when it ends
    /// with some task unfinished.
    pub fn is_deadlock(&self) -> (d: bool)
        requires
            self.wf(),
        ensures
            d == deadlocked(self.available@, self.need_view(), self.alloc_view()),
    {
        let nt = self.need.len();
        let nr = self.available.len();
        let ghost need = self.need_view();
        let ghost alloc = self.alloc_view();
        let ghost init_w = start_work(self.available@);
        let ghost init_f = none_finished(self.need_view().len());
        let mut work: Vec<usize> = Vec::new();
        let mut r: usize = 0;
        while r < nr
            invariant
                r <= nr,
                nr == self.slots(),
                work@.len() == r,
                forall|k: int| 0 <= k < r ==> #[trigger] work@[k] == self.available@[k],
            decreases nr - r,
        {
            work.push(self.available[r]);
            r = r + 1;
        }
        let mut finish: Vec<bool> = Vec::new();
        let mut t: usize = 0;
        while t < nt
            invariant
                t <= nt,
                finish@.len() == t,
                forall|k: int| 0 <= k < t ==> #[trigger] finish@[k] == false,
            decreases nt - t,
        {
            finish.push(false);
            t = t + 1;
        }
        assert(finish@ =~= init_f);
        let ghost mut gw = init_w;
        let mut fuel: usize = nt;
        loop
            invariant
                self.wf(),
                nt == self.tasks(),
                nr == self.slots(),
                need == self.need_view(),
                alloc == self.alloc_view(),
                work@.len() == nr,
                gw.len() == nr,
                finish@.len() == nt,
                forall|k: int| 0 <= k < gw.len() ==> #[trigger] work@[k] == capped(gw[k]),
                forall|k: int| 0 <= k < gw.len() ==> #[trigger] gw[k] >= 0,
                settle(need, alloc, init_w, init_f, need.len()) == settle(need, alloc, gw, finish@, fuel as nat),
            ensures
                settle(need, alloc, init_w, init_f, need.len()) == finish@,
            decreases fuel,
        {
            if fuel == 0 {
                break;
            }
            match self.find_ready(&work, &finish, Ghost(gw)) {
                None => {
                    break;
                },
                Some(t) => {
                    proof {
                        let c = choose|c: int| lowest_ready(need, gw, finish@, c);
                        lemma_lowest_unique(need, gw, finish@, c, t as int);
                    }
                    assert(self.allocation@[t as int]@.len() == nr);
                    let ghost row = self.allocation@[t as int]@;
                    let ghost nw = absorb(gw, row);
                    let mut r: usize = 0;
                    while r < nr
                        invariant
                            r <= nr,
                            t < nt,
                            nt == self.tasks(),
                            nt == self.allocation@.len(),
                            row == self.allocation@[t as int]@,
                            row.len() == nr,
                            work@.len() == nr,
                            gw.len() == nr,
                            nw == absorb(gw, row),
                            forall|k: int| 0 <= k < gw.len() ==> #[trigger] gw[k] >= 0,
                            forall|k: int| 0 <= k < r ==> #[trigger] work@[k] == capped(nw[k]),
                            forall|k: int| r <= k < nr ==> #[trigger] work@[k] == capped(gw[k]),
                        decreases nr - r,
                    {
                        let v = work[r].saturating_add(self.allocation[t][r]);
                        work[r] = v;
                        r = r + 1;
                    }
                    finish[t] = true;
                    proof {
                        gw = nw;
                    }
                    fuel = fuel - 1;
                },
            }
        }
        let ghost fin = settle(self.need_view(), self.alloc_view(), init_w, init_f, self.need_view().len());
        assert(fin == finish@);
        let mut i: usize = 0;
        while i < nt
            invariant
                i <= nt,
                finish@.len() == nt,
                fin == finish@,
                fin == settle(self.need_view(), self.alloc_view(), init_w, init_f, self.need_view().len()),
                init_w == start_work(self.available@),
                init_f == none_finished(self.need_view().len()),
                forall|k: int| 0 <= k < i ==> #[trigger] finish@[k],
            decreases nt - i,
        {
            if !finish[i] {
                assert(!fin[i as int]);
                return true;
            }
            i = i + 1;
        }
        false
    }
}

} // verus!
