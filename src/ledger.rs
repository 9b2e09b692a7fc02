//! Resource ledger: per-process accounting of available, needed and
//! allocated units for one resource class, and the safety check run on it.
use vstd::prelude::*;

verus! {

/// Sum of column `r` over a list of rows.
pub open spec fn col_sum(rows: Seq<Vec<usize>>, r: int) -> int
    decreases rows.len(),
{
    if rows.len() == 0 {
        0
    } else {
        col_sum(rows.drop_last(), r) + rows.last()@[r]
    }
}

/// Changing one row changes the column sum by the difference of its entries.
pub proof fn lemma_col_sum_update(rows: Seq<Vec<usize>>, t: int, row: Vec<usize>, r: int)
    requires
        0 <= t < rows.len(),
    ensures
        col_sum(rows.update(t, row), r) == col_sum(rows, r) - rows[t]@[r] + row@[r],
    decreases rows.len(),
{
    let up = rows.update(t, row);
    if t == rows.len() - 1 {
        assert(up.drop_last() =~= rows.drop_last());
    } else {
        assert(up.drop_last() =~= rows.drop_last().update(t, row));
        lemma_col_sum_update(rows.drop_last(), t, row, r);
    }
}

/// Two row lists that agree on column `r` have the same column sum.
pub proof fn lemma_col_sum_agree(a: Seq<Vec<usize>>, b: Seq<Vec<usize>>, r: int)
    requires
        a.len() == b.len(),
        forall|t: int| 0 <= t < a.len() ==> a[t]@[r] == b[t]@[r],
    ensures
        col_sum(a, r) == col_sum(b, r),
    decreases a.len(),
{
    if a.len() > 0 {
        lemma_col_sum_agree(a.drop_last(), b.drop_last(), r);
    }
}

/// A column of zeros sums to zero.
pub proof fn lemma_col_sum_zero(a: Seq<Vec<usize>>, r: int)
    requires
        forall|t: int| 0 <= t < a.len() ==> a[t]@[r] == 0,
    ensures
        col_sum(a, r) == 0,
    decreases a.len(),
{
    if a.len() > 0 {
        lemma_col_sum_zero(a.drop_last(), r);
    }
}

/// Each entry is at most its column sum.
pub proof fn lemma_entry_le_col_sum(a: Seq<Vec<usize>>, t: int, r: int)
    requires
        0 <= t < a.len(),
    ensures
        a[t]@[r] <= col_sum(a, r),
    decreases a.len(),
{
    if t < a.len() - 1 {
        lemma_entry_le_col_sum(a.drop_last(), t, r);
    }
    lemma_col_sum_nonneg(a.drop_last(), r);
}

/// Two entries of one column are at most its sum.
pub proof fn lemma_two_entries_le_col_sum(a: Seq<Vec<usize>>, t: int, u: int, r: int)
    requires
        0 <= t < a.len(),
        0 <= u < a.len(),
        t != u,
    ensures
        a[t]@[r] + a[u]@[r] <= col_sum(a, r),
    decreases a.len(),
{
    lemma_col_sum_nonneg(a.drop_last(), r);
    if t == a.len() - 1 {
        lemma_entry_le_col_sum(a.drop_last(), u, r);
    } else if u == a.len() - 1 {
        lemma_entry_le_col_sum(a.drop_last(), t, r);
    } else {
        lemma_two_entries_le_col_sum(a.drop_last(), t, u, r);
    }
}

/// Column sums of unsigned entries are not negative.
pub proof fn lemma_col_sum_nonneg(a: Seq<Vec<usize>>, r: int)
    ensures
        col_sum(a, r) >= 0,
    decreases a.len(),
{
    if a.len() > 0 {
        lemma_col_sum_nonneg(a.drop_last(), r);
    }
}

/// A unit that a task holds is not free: the slot's free units stay below
/// its total.
pub proof fn lemma_held_unit_not_free(l: Ledger, t: int, r: int)
    requires
        l.wf(),
        0 <= r < l.slots(),
        l.held(t, r) >= 1,
    ensures
        0 <= t < l.tasks(),
        l.available@[r] + l.held(t, r) <= l.total@[r],
{
    assert(l.conserved(r));
    lemma_entry_le_col_sum(l.allocation@, t, r);
}

/// `m` with zero rows of width `w` added until it has `n` rows.
pub open spec fn grown(m: Seq<Seq<usize>>, w: nat, n: nat) -> Seq<Seq<usize>> {
    if m.len() >= n {
        m
    } else {
        m + Seq::new((n - m.len()) as nat, |i: int| Seq::new(w, |r: int| 0usize))
    }
}

/// `m` with entry (`t`, `r`) one higher, held at the top of its range.
pub open spec fn bumped(m: Seq<Seq<usize>>, t: int, r: int) -> Seq<Seq<usize>> {
    m.update(t, m[t].update(r, if m[t][r] < usize::MAX { (m[t][r] + 1) as usize } else { usize::MAX }))
}

/// `m` with entry (`t`, `r`) one lower, held at zero.
pub open spec fn lowered(m: Seq<Seq<usize>>, t: int, r: int) -> Seq<Seq<usize>> {
    m.update(t, m[t].update(r, if m[t][r] > 0 { (m[t][r] - 1) as usize } else { 0usize }))
}

/// `l2` is `l` with slot `r` opened with `units` free units and no requests
/// or holdings: a new slot at the end, or an empty one reused in place.
/// Every other slot keeps its units, requests and holdings.
pub open spec fn slot_opened(l: Ledger, l2: Ledger, r: int, units: int) -> bool {
    &&& l2.tasks() == l.tasks()
    &&& l2.slots() == if r < l.slots() { l.slots() as int } else { r + 1 }
    &&& l2.available@[r] == units
    &&& l2.total@[r] == units
    &&& forall|t: int| 0 <= t < l2.tasks() ==> #[trigger] l2.need@[t]@[r] == 0
    &&& forall|t: int| 0 <= t < l2.tasks() ==> #[trigger] l2.allocation@[t]@[r] == 0
    &&& forall|k: int| 0 <= k < l.slots() && k != r ==> #[trigger] l2.available@[k] == l.available@[k]
    &&& forall|k: int| 0 <= k < l.slots() && k != r ==> #[trigger] l2.total@[k] == l.total@[k]
    &&& forall|t: int, k: int| 0 <= t < l2.tasks() && 0 <= k < l.slots() && k != r
        ==> #[trigger] l2.need@[t]@[k] == l.need@[t]@[k]
    &&& forall|t: int, k: int| 0 <= t < l2.tasks() && 0 <= k < l.slots() && k != r
        ==> #[trigger] l2.allocation@[t]@[k] == l.allocation@[t]@[k]
}

/// Raising an entry below the top of its range and lowering it again gives
/// back the matrix.
pub proof fn lemma_lowered_bumped(m: Seq<Seq<usize>>, t: int, r: int)
    requires
        0 <= t < m.len(),
        0 <= r < m[t].len(),
        m[t][r] < usize::MAX,
    ensures
        lowered(bumped(m, t, r), t, r) == m,
{
    assert(lowered(bumped(m, t, r), t, r)[t] =~= m[t]);
    assert(lowered(bumped(m, t, r), t, r) =~= m);
}

/// `l2` is `l` after one unit of slot `r` went to task `t`, whose request
/// was counted earlier (a row is added for `t` if it had none): the unit
/// leaves the free pool, the task's counted request goes down by one, and
/// it holds one more unit. Every other holding stays as it was.
pub open spec fn granted(l: Ledger, l2: Ledger, t: int, r: int) -> bool {
    &&& l2.wf()
    &&& l2.total == l.total
    &&& l2.slots() == l.slots()
    &&& t < l2.tasks()
    &&& l2.available@ == l.available@.update(r, (l.available@[r] - 1) as usize)
    &&& l2.need_view() == lowered(grown(l.need_view(), l.slots(), (t + 1) as nat), t, r)
    &&& l2.held(t, r) == l.held(t, r) + 1
    &&& forall|u: int| u != t ==> #[trigger] l2.held(u, r) == l.held(u, r)
    &&& forall|u: int, k: int| 0 <= k < l.slots() && k != r ==> #[trigger] l2.held(u, k) == l.held(u, k)
}

pub struct Ledger {
    /// Units each slot was created with.
    pub total: Vec<usize>,
    /// Free units of each slot.
    pub available: Vec<usize>,
    /// `need[task][slot]`: units requested and not yet granted.
    pub need: Vec<Vec<usize>>,
    /// `allocation[task][slot]`: units held.
    pub allocation: Vec<Vec<usize>>,
}

impl Ledger {
    /// Number of resource slots.
    pub open spec fn slots(&self) -> nat {
        self.available@.len()
    }

    /// Number of task rows.
    pub open spec fn tasks(&self) -> nat {
        self.need@.len()
    }

    /// `need` as a matrix.
    pub open spec fn need_view(&self) -> Seq<Seq<usize>> {
        self.need@.map_values(|v: Vec<usize>| v@)
    }

    /// `allocation` as a matrix.
    pub open spec fn alloc_view(&self) -> Seq<Seq<usize>> {
        self.allocation@.map_values(|v: Vec<usize>| v@)
    }

    /// Units of slot `r` that task `t` holds; none for a task without a row.
    pub open spec fn held(&self, t: int, r: int) -> int {
        if 0 <= t < self.tasks() { self.allocation@[t]@[r] as int } else { 0 }
    }

    /// The request matrix once task `t` has asked for one more unit of `r`.
    pub open spec fn need_after_request(&self, t: int, r: int) -> Seq<Seq<usize>> {
        bumped(grown(self.need_view(), self.slots(), (t + 1) as nat), t, r)
    }

    /// The allocation matrix with a row for task `t`.
    pub open spec fn alloc_with_row(&self, t: int) -> Seq<Seq<usize>> {
        grown(self.alloc_view(), self.slots(), (t + 1) as nat)
    }

    /// The units of slot `r` that are free or held: all of them.
    pub open spec fn conserved(&self, r: int) -> bool {
        self.available@[r] + col_sum(self.allocation@, r) == self.total@[r]
    }

    pub open spec fn wf(&self) -> bool {
        &&& self.total@.len() == self.slots()
        &&& self.allocation@.len() == self.tasks()
        &&& forall|t: int|
            0 <= t < self.tasks() ==> #[trigger] self.need@[t]@.len() == self.slots()
                && self.allocation@[t]@.len() == self.slots()
        &&& forall|r: int| 0 <= r < self.slots() ==> #[trigger] self.conserved(r)
    }

    pub fn new() -> (l: Ledger)
        ensures
            l.wf(),
            l.slots() == 0,
            l.tasks() == 0,
    {
        Ledger { total: Vec::new(), available: Vec::new(), need: Vec::new(), allocation: Vec::new() }
    }

    /// Records one more unit requested by task `tid` on slot `r`; the count
    /// stays at the top of its range once there.
    #[verifier::spinoff_prover]
    pub fn request(&mut self, tid: usize, r: usize)
        requires
            old(self).wf(),
            tid < old(self).tasks(),
            r < old(self).slots(),
        ensures
            final(self).wf(),
            final(self).total == old(self).total,
            final(self).available == old(self).available,
            final(self).allocation == old(self).allocation,
            final(self).need@ == old(self).need@.update(
                tid as int,
                final(self).need@[tid as int],
            ),
            final(self).need_view() == bumped(old(self).need_view(), tid as int, r as int),
            final(self).tasks() == old(self).tasks(),
            forall|t: int, k: int| #[trigger] final(self).held(t, k) == old(self).held(t, k),
    {
        assert(self.need@[tid as int]@.len() == self.slots());
        let v = self.need[tid][r].saturating_add(1);
        self.need[tid][r] = v;
        assert(self.need_view() =~= bumped(old(self).need_view(), tid as int, r as int));
        assert forall|t: int| 0 <= t < self.tasks() implies #[trigger] self.need@[t]@.len() == self.slots()
            && self.allocation@[t]@.len() == self.slots() by {
            assert(old(self).need@[t]@.len() == old(self).slots());
        }
        assert forall|r2: int| 0 <= r2 < self.slots() implies #[trigger] self.conserved(r2) by {
            assert(old(self).conserved(r2));
        }
    }

    /// Hands one unit of slot `r` to task `tid`: the unit leaves the free
    /// pool, one counted request of the task is consumed, and the task holds
    /// one more unit.
    #[verifier::spinoff_prover]
    pub fn grant(&mut self, tid: usize, r: usize)
        requires
            old(self).wf(),
            tid < old(self).tasks(),
            r < old(self).slots(),
            old(self).available@[r as int] >= 1,
        ensures
            final(self).wf(),
            final(self).total == old(self).total,
            final(self).available@ == old(self).available@.update(
                r as int,
                (old(self).available@[r as int] - 1) as usize,
            ),
            final(self).need@ == old(self).need@.update(tid as int, final(self).need@[tid as int]),
            final(self).need@[tid as int]@ == old(self).need@[tid as int]@.update(
                r as int,
                if old(self).need@[tid as int]@[r as int] > 0 {
                    (old(self).need@[tid as int]@[r as int] - 1) as usize
                } else {
                    0usize
                },
            ),
            final(self).allocation@ == old(self).allocation@.update(
                tid as int,
                final(self).allocation@[tid as int],
            ),
            final(self).allocation@[tid as int]@ == old(self).allocation@[tid as int]@.update(
                r as int,
                (old(self).allocation@[tid as int]@[r as int] + 1) as usize,
            ),
            final(self).allocation@[tid as int]@[r as int] == old(self).allocation@[tid as int]@[r as int] + 1,
            final(self).held(tid as int, r as int) == old(self).held(tid as int, r as int) + 1,
            forall|t: int| t != tid ==> #[trigger] final(self).held(t, r as int) == old(self).held(t, r as int),
            forall|t: int, k: int| 0 <= k < old(self).slots() && k != r ==> #[trigger] final(self).held(t, k) == old(self).held(t, k),
            final(self).tasks() == old(self).tasks(),
            final(self).need_view() == lowered(old(self).need_view(), tid as int, r as int),
    {
        assert(self.need@[tid as int]@.len() == self.slots());
        assert(old(self).conserved(r as int));
        proof {
            lemma_entry_le_col_sum(self.allocation@, tid as int, r as int);
        }
        self.available[r] = self.available[r] - 1;
        let nv = if self.need[tid][r] > 0 { self.need[tid][r] - 1 } else { 0 };
        self.need[tid][r] = nv;
        assert(self.need_view() =~= lowered(old(self).need_view(), tid as int, r as int));
        let a = self.allocation[tid][r] + 1;
        self.allocation[tid][r] = a;
        proof {
            lemma_col_sum_update(old(self).allocation@, tid as int, self.allocation@[tid as int], r as int);
            assert(self.allocation@ =~= old(self).allocation@.update(tid as int, self.allocation@[tid as int]));
        }
        assert forall|t: int| 0 <= t < self.tasks() implies #[trigger] self.need@[t]@.len() == self.slots()
            && self.allocation@[t]@.len() == self.slots() by {
            assert(old(self).need@[t]@.len() == old(self).slots());
        }
        assert forall|r2: int| 0 <= r2 < self.slots() implies #[trigger] self.conserved(r2) by {
            assert(old(self).conserved(r2));
            lemma_col_sum_update(old(self).allocation@, tid as int, self.allocation@[tid as int], r2);
        }
        assert forall|t: int, k: int| 0 <= k < old(self).slots() && k != r implies #[trigger] self.held(t, k) == old(self).held(t, k) by {
            if 0 <= t < self.tasks() && t != tid {
                assert(self.allocation@[t] == old(self).allocation@[t]);
            }
        }
    }

    /// Hands one free unit of slot `r` to task `tid`, adding a row for the
    /// task if it has none.
    pub fn give_unit(&mut self, tid: usize, r: usize)
        requires
            old(self).wf(),
            r < old(self).slots(),
            old(self).available@[r as int] >= 1,
        ensures
            granted(*old(self), *final(self), tid as int, r as int),
    {
        self.add_task_rows(tid);
        self.grant(tid, r);
    }

    /// Task `tid` gives back one unit of slot `r` to the free pool.
    #[verifier::spinoff_prover]
    pub fn release(&mut self, tid: usize, r: usize)
        requires
            old(self).wf(),
            tid < old(self).tasks(),
            r < old(self).slots(),
            old(self).allocation@[tid as int]@[r as int] >= 1,
        ensures
            final(self).wf(),
            final(self).total == old(self).total,
            final(self).need == old(self).need,
            final(self).available@ == old(self).available@.update(
                r as int,
                (old(self).available@[r as int] + 1) as usize,
            ),
            final(self).allocation@ == old(self).allocation@.update(
                tid as int,
                final(self).allocation@[tid as int],
            ),
            final(self).allocation@[tid as int]@ == old(self).allocation@[tid as int]@.update(
                r as int,
                (old(self).allocation@[tid as int]@[r as int] - 1) as usize,
            ),
            final(self).held(tid as int, r as int) == old(self).held(tid as int, r as int) - 1,
            forall|t: int| t != tid ==> #[trigger] final(self).held(t, r as int) == old(self).held(t, r as int),
            forall|t: int, k: int| 0 <= k < old(self).slots() && k != r ==> #[trigger] final(self).held(t, k) == old(self).held(t, k),
    {
        assert(self.need@[tid as int]@.len() == self.slots());
        assert(old(self).conserved(r as int));
        proof {
            lemma_entry_le_col_sum(self.allocation@, tid as int, r as int);
        }
        self.available[r] = self.available[r] + 1;
        let a = self.allocation[tid][r] - 1;
        self.allocation[tid][r] = a;
        assert forall|t: int| 0 <= t < self.tasks() implies #[trigger] self.need@[t]@.len() == self.slots()
            && self.allocation@[t]@.len() == self.slots() by {
            assert(old(self).need@[t]@.len() == old(self).slots());
        }
        assert forall|r2: int| 0 <= r2 < self.slots() implies #[trigger] self.conserved(r2) by {
            assert(old(self).conserved(r2));
            lemma_col_sum_update(old(self).allocation@, tid as int, self.allocation@[tid as int], r2);
        }
        assert forall|t: int, k: int| 0 <= k < old(self).slots() && k != r implies #[trigger] self.held(t, k) == old(self).held(t, k) by {
            if 0 <= t < self.tasks() && t != tid {
                assert(self.allocation@[t] == old(self).allocation@[t]);
            }
        }
    }

    /// Adds zero rows until task `tid` has one.
    #[verifier::spinoff_prover]
    pub fn add_task_rows(&mut self, tid: usize)
        requires
            old(self).wf(),
        ensures
            final(self).wf(),
            final(self).tasks() == if tid < old(self).tasks() { old(self).tasks() as int } else { tid + 1 },
            final(self).total == old(self).total,
            final(self).available == old(self).available,
            forall|t: int| 0 <= t < old(self).tasks() ==> #[trigger] final(self).need@[t] == old(self).need@[t]
                && final(self).allocation@[t] == old(self).allocation@[t],
            forall|t: int, r: int| old(self).tasks() <= t < final(self).tasks() && 0 <= r < final(self).slots()
                ==> #[trigger] final(self).need@[t]@[r] == 0 && final(self).allocation@[t]@[r] == 0,
            forall|t: int, r: int| 0 <= r < old(self).slots() ==> #[trigger] final(self).held(t, r) == old(self).held(t, r),
            final(self).need_view() == grown(old(self).need_view(), old(self).slots(), (tid + 1) as nat),
            final(self).alloc_view() == grown(old(self).alloc_view(), old(self).slots(), (tid + 1) as nat),
    {
        let n = self.available.len();
        while self.need.len() <= tid
            invariant
                self.wf(),
                old(self).tasks() > tid ==> self.tasks() == old(self).tasks(),
                old(self).tasks() <= tid ==> self.tasks() <= tid + 1,
                old(self).tasks() <= self.tasks(),
                self.available.len() == n,
                self.total == old(self).total,
                self.available == old(self).available,
                forall|t: int| 0 <= t < old(self).tasks() ==> #[trigger] self.need@[t] == old(self).need@[t]
                    && self.allocation@[t] == old(self).allocation@[t],
                forall|t: int, r: int| old(self).tasks() <= t < self.tasks() && 0 <= r < self.slots()
                    ==> #[trigger] self.need@[t]@[r] == 0 && self.allocation@[t]@[r] == 0,
            decreases tid + 1 - self.need.len(),
        {
            let ghost prev = *self;
            let z1 = zero_row(n);
            let z2 = zero_row(n);
            self.need.push(z1);
            self.allocation.push(z2);
            assert forall|r2: int| 0 <= r2 < self.slots() implies #[trigger] self.conserved(r2) by {
                assert(prev.conserved(r2));
                assert(self.allocation@.drop_last() =~= prev.allocation@);
            }
            assert forall|t: int| 0 <= t < old(self).tasks() implies #[trigger] self.need@[t] == old(self).need@[t]
                && self.allocation@[t] == old(self).allocation@[t] by {
                assert(prev.need@[t] == old(self).need@[t]);
            }
        }
        let ghost g = grown(old(self).need_view(), old(self).slots(), (tid + 1) as nat);
        let ghost ga = grown(old(self).alloc_view(), old(self).slots(), (tid + 1) as nat);
        assert(self.need_view().len() == g.len());
        assert forall|t: int| 0 <= t < g.len() implies #[trigger] self.need_view()[t] == g[t] by {
            if t < old(self).tasks() {
                assert(self.need@[t] == old(self).need@[t]);
            } else {
                assert(self.need@[t]@ =~= g[t]);
            }
        }
        assert(self.need_view() =~= g);
        assert forall|t: int| 0 <= t < ga.len() implies #[trigger] self.alloc_view()[t] == ga[t] by {
            if t < old(self).tasks() {
                assert(self.need@[t] == old(self).need@[t]);
            } else {
                assert(self.need@[t]@.len() == self.slots());
                assert forall|r: int| 0 <= r < self.slots() implies self.allocation@[t]@[r] == 0 by {
                    assert(self.need@[t]@[r] == 0);
                }
                assert(self.allocation@[t]@ =~= ga[t]);
            }
        }
        assert(self.alloc_view() =~= ga);
        assert forall|t: int, r: int| 0 <= r < old(self).slots() implies #[trigger] self.held(t, r) == old(self).held(t, r) by {
            if 0 <= t < old(self).tasks() {
                assert(self.need@[t] == old(self).need@[t]);
            } else if 0 <= t < self.tasks() {
                assert(self.need@[t]@[r] == 0);
            }
        }
    }

    /// Opens slot `r` with `units` free units and no requests or holdings:
    /// a new slot at the end, or a reused one in place.
    #[verifier::spinoff_prover]
    pub fn open_slot(&mut self, r: usize, units: usize)
        requires
            old(self).wf(),
            r <= old(self).slots(),
        ensures
            final(self).wf(),
            final(self).tasks() == old(self).tasks(),
            final(self).slots() == if r < old(self).slots() { old(self).slots() as int } else { r + 1 },
            final(self).available@[r as int] == units,
            final(self).total@[r as int] == units,
            forall|t: int| 0 <= t < final(self).tasks() ==> #[trigger] final(self).need@[t]@[r as int] == 0
                && final(self).allocation@[t]@[r as int] == 0,
            forall|r2: int| 0 <= r2 < old(self).slots() && r2 != r ==> {
                &&& #[trigger] final(self).available@[r2] == old(self).available@[r2]
                &&& final(self).total@[r2] == old(self).total@[r2]
            },
            forall|t: int, r2: int| 0 <= t < final(self).tasks() && 0 <= r2 < old(self).slots() && r2 != r
                ==> #[trigger] final(self).need@[t]@[r2] == old(self).need@[t]@[r2],
            forall|t: int, r2: int| 0 <= t < final(self).tasks() && 0 <= r2 < old(self).slots() && r2 != r
                ==> #[trigger] final(self).allocation@[t]@[r2] == old(self).allocation@[t]@[r2],
            slot_opened(*old(self), *final(self), r as int, units as int),
    {
        let fresh = r == self.total.len();
        if fresh {
            self.available.push(units);
            self.total.push(units);
        } else {
            self.available[r] = units;
            self.total[r] = units;
        }
        let ghost w = old(self).slots();
        assert forall|t: int| 0 <= t < self.tasks() implies #[trigger] self.need@[t]@.len() == w by {
            assert(old(self).need@[t]@.len() == w);
        }
        assert forall|t: int| 0 <= t < self.tasks() implies #[trigger] self.allocation@[t]@.len() == w by {
            assert(old(self).need@[t]@.len() == w);
        }
        clear_column(&mut self.need, r, fresh, Ghost(w as nat));
        clear_column(&mut self.allocation, r, fresh, Ghost(w as nat));
        assert forall|t: int| 0 <= t < self.tasks() implies #[trigger] self.need@[t]@[r as int] == 0
            && self.allocation@[t]@[r as int] == 0 by {
            assert(self.need@[t]@.len() == self.slots());
        }
        assert forall|t: int, r2: int| 0 <= t < self.tasks() && 0 <= r2 < old(self).slots() && r2 != r
            implies #[trigger] self.allocation@[t]@[r2] == old(self).allocation@[t]@[r2] by {
            assert(self.need@[t]@[r2] == old(self).need@[t]@[r2]);
        }
        assert forall|r2: int| 0 <= r2 < self.slots() implies #[trigger] self.conserved(r2) by {
            if r2 == r {
                assert forall|t: int| 0 <= t < self.allocation@.len() implies self.allocation@[t]@[r2] == 0 by {
                    assert(self.need@[t]@.len() == self.slots());
                }
                lemma_col_sum_zero(self.allocation@, r2);
            } else {
                assert(old(self).conserved(r2));
                assert forall|t: int| 0 <= t < self.allocation@.len() implies self.allocation@[t]@[r2]
                    == old(self).allocation@[t]@[r2] by {
                    assert(self.need@[t]@[r2] == old(self).need@[t]@[r2]);
                }
                lemma_col_sum_agree(self.allocation@, old(self).allocation@, r2);
            }
        }
        assert(slot_opened(*old(self), *self, r as int, units as int));
    }
}

/// Sets column `r` of `m` to zero, adding it when `fresh`.
fn clear_column(m: &mut Vec<Vec<usize>>, r: usize, fresh: bool, Ghost(w): Ghost<nat>)
    requires
        forall|t: int| 0 <= t < old(m)@.len() ==> #[trigger] old(m)@[t]@.len() == w,
        fresh ==> r == w,
        !fresh ==> r < w,
    ensures
        final(m)@.len() == old(m)@.len(),
        forall|t: int| 0 <= t < final(m)@.len() ==> #[trigger] final(m)@[t]@.len() == if fresh { w + 1 } else { w },
        forall|t: int| 0 <= t < final(m)@.len() ==> #[trigger] final(m)@[t]@[r as int] == 0,
        forall|t: int, k: int| 0 <= t < final(m)@.len() && 0 <= k < w && k != r
            ==> #[trigger] final(m)@[t]@[k] == old(m)@[t]@[k],
{
    let n = m.len();
    let mut i: usize = 0;
    while i < n
        invariant
            i <= n,
            n == m@.len(),
            n == old(m)@.len(),
            fresh ==> r == w,
            !fresh ==> r < w,
            forall|t: int| 0 <= t < n ==> #[trigger] old(m)@[t]@.len() == w,
            forall|t: int| 0 <= t < i ==> #[trigger] m@[t]@.len() == if fresh { w + 1 } else { w },
            forall|t: int| 0 <= t < i ==> #[trigger] m@[t]@[r as int] == 0,
            forall|t: int, k: int| 0 <= t < i && 0 <= k < w && k != r
                ==> #[trigger] m@[t]@[k] == old(m)@[t]@[k],
            forall|t: int| i <= t < n ==> #[trigger] m@[t] == old(m)@[t],
        decreases n - i,
    {
        let ghost prev = *m;
        assert(m@[i as int]@.len() == w);
        if fresh {
            m[i].push(0);
        } else {
            m[i][r] = 0;
        }
        assert(m@ =~= prev@.update(i as int, m@[i as int]));
        i = i + 1;
    }
}

/// A row of `n` zeros.
fn zero_row(n: usize) -> (v: Vec<usize>)
    ensures
        v@.len() == n,
        forall|r: int| 0 <= r < n ==> #[trigger] v@[r] == 0,
{
    let mut v: Vec<usize> = Vec::new();
    let mut i: usize = 0;
    while i < n
        invariant
            i <= n,
            v@.len() == i,
            forall|r: int| 0 <= r < i ==> #[trigger] v@[r] == 0,
        decreases n - i,
    {
        v.push(0);
        i = i + 1;
    }
    v
}

} // verus!
