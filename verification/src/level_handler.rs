//! Per-level reservation bookkeeping: which tables are consumed by which
//! in-flight compaction task. A table may be reserved by at most one task.

use vstd::prelude::*;

verus! {

/// The tables one in-flight task has reserved in this level.
#[derive(Clone, Debug, PartialEq)]
pub struct TaskReservation {
    pub task_id: u64,
    pub ssts: Vec<u64>,
}

pub ghost struct ReservationView {
    pub task_id: u64,
    pub ssts: Seq<u64>,
}

impl View for TaskReservation {
    type V = ReservationView;

    open spec fn view(&self) -> ReservationView {
        ReservationView { task_id: self.task_id, ssts: self.ssts@ }
    }
}

/// Reservation state of one level.
#[derive(Clone, Debug, PartialEq)]
pub struct LevelHandler {
    pub level_idx: u32,
    pub reserved: Vec<TaskReservation>,
}

pub ghost struct LevelHandlerView {
    pub level_idx: u32,
    pub reserved: Seq<ReservationView>,
}

impl View for LevelHandler {
    type V = LevelHandlerView;

    open spec fn view(&self) -> LevelHandlerView {
        LevelHandlerView {
            level_idx: self.level_idx,
            reserved: self.reserved@.map_values(|r: TaskReservation| r@),
        }
    }
}

/// Some task of the handler reserves the table.
pub open spec fn pending(h: LevelHandlerView, sst_id: u64) -> bool {
    exists|i: int| 0 <= i < h.reserved.len() && (#[trigger] h.reserved[i]).ssts.contains(sst_id)
}

/// The task id holds a reservation entry in the handler.
pub open spec fn task_present(h: LevelHandlerView, task_id: u64) -> bool {
    exists|i: int| 0 <= i < h.reserved.len() && (#[trigger] h.reserved[i]).task_id == task_id
}

/// Mutual exclusion: task ids are unique, and no table is reserved by two
/// different entries.
pub open spec fn wf_handler(h: LevelHandlerView) -> bool {
    &&& forall|i: int, j: int|
        0 <= i < j < h.reserved.len() ==> (#[trigger] h.reserved[i]).task_id != (
        #[trigger] h.reserved[j]).task_id
    &&& forall|i: int, j: int, s: u64|
        0 <= i < h.reserved.len() && 0 <= j < h.reserved.len() && i != j ==> !(
        #[trigger] h.reserved[i].ssts.contains(s) && #[trigger] h.reserved[j].ssts.contains(s))
}

/// The handler after all entries of one task id are dropped.
pub open spec fn remove_task_spec(s: Seq<ReservationView>, task_id: u64) -> Seq<ReservationView>
    decreases s.len(),
{
    if s.len() == 0 {
        Seq::empty()
    } else if s[0].task_id == task_id {
        remove_task_spec(s.drop_first(), task_id)
    } else {
        seq![s[0]] + remove_task_spec(s.drop_first(), task_id)
    }
}

/// Releasing a task that holds nothing changes nothing.
pub proof fn lemma_remove_absent_is_noop(s: Seq<ReservationView>, task_id: u64)
    requires
        forall|i: int| 0 <= i < s.len() ==> (#[trigger] s[i]).task_id != task_id,
    ensures
        remove_task_spec(s, task_id) == s,
    decreases s.len(),
{
    if s.len() > 0 {
        lemma_remove_absent_is_noop(s.drop_first(), task_id);
        assert(seq![s[0]] + s.drop_first() =~= s);
    }
}

/// The removed task is gone, and every other entry survives unchanged.
pub proof fn lemma_remove_task_spec_effect(s: Seq<ReservationView>, task_id: u64)
    ensures
        forall|i: int|
            0 <= i < remove_task_spec(s, task_id).len() ==> (#[trigger] remove_task_spec(
                s,
                task_id,
            )[i]).task_id != task_id && s.contains(remove_task_spec(s, task_id)[i]),
        forall|x: ReservationView|
            s.contains(x) && x.task_id != task_id ==> remove_task_spec(s, task_id).contains(x),
    decreases s.len(),
{
    let r = remove_task_spec(s, task_id);
    if s.len() > 0 {
        lemma_remove_task_spec_effect(s.drop_first(), task_id);
        let rr = remove_task_spec(s.drop_first(), task_id);
        assert forall|i: int| 0 <= i < r.len() implies (#[trigger] r[i]).task_id != task_id
            && s.contains(r[i]) by {
            if s[0].task_id == task_id {
                assert(s.drop_first().contains(r[i]));
                let k = choose|k: int| 0 <= k < s.drop_first().len() && s.drop_first()[k] == r[i];
                assert(s[k + 1] == r[i]);
            } else {
                if i == 0 {
                    assert(s[0] == r[0]);
                } else {
                    assert(r[i] == rr[i - 1]);
                    assert(s.drop_first().contains(rr[i - 1]));
                    let k = choose|k: int|
                        0 <= k < s.drop_first().len() && s.drop_first()[k] == rr[i - 1];
                    assert(s[k + 1] == r[i]);
                }
            }
        }
        assert forall|x: ReservationView| s.contains(x) && x.task_id != task_id implies r.contains(
            x,
        ) by {
            let k = choose|k: int| 0 <= k < s.len() && s[k] == x;
            if k == 0 {
                assert(r[0] == x);
            } else {
                assert(s.drop_first()[k - 1] == x);
                assert(s.drop_first().contains(x));
                assert(rr.contains(x));
                let m = choose|m: int| 0 <= m < rr.len() && rr[m] == x;
                if s[0].task_id == task_id {
                    assert(r[m] == x);
                } else {
                    assert(r[m + 1] == x);
                }
            }
        }
    }
}

/// Releasing a task twice is the same as releasing it once.
pub proof fn lemma_remove_task_idempotent(s: Seq<ReservationView>, task_id: u64)
    ensures
        remove_task_spec(remove_task_spec(s, task_id), task_id) == remove_task_spec(s, task_id),
{
    lemma_remove_task_spec_effect(s, task_id);
    lemma_remove_absent_is_noop(remove_task_spec(s, task_id), task_id);
}

proof fn lemma_wf_drop_first(h: LevelHandlerView)
    requires
        wf_handler(h),
        h.reserved.len() > 0,
    ensures
        wf_handler(LevelHandlerView { level_idx: h.level_idx, reserved: h.reserved.drop_first() }),
{
    let t = LevelHandlerView { level_idx: h.level_idx, reserved: h.reserved.drop_first() };
    assert forall|i: int, j: int| 0 <= i < j < t.reserved.len() implies (
    #[trigger] t.reserved[i]).task_id != (#[trigger] t.reserved[j]).task_id by {
        assert(t.reserved[i] == h.reserved[i + 1]);
        assert(t.reserved[j] == h.reserved[j + 1]);
    }
    assert forall|i: int, j: int, s: u64|
        0 <= i < t.reserved.len() && 0 <= j < t.reserved.len() && i != j implies !(
    #[trigger] t.reserved[i].ssts.contains(s) && #[trigger] t.reserved[j].ssts.contains(
        s,
    )) by {
        assert(t.reserved[i] == h.reserved[i + 1]);
        assert(t.reserved[j] == h.reserved[j + 1]);
    }
}

/// Removal keeps the mutual-exclusion invariant, and frees only tables of the
/// removed task.
pub proof fn lemma_remove_preserves_wf(h: LevelHandlerView, task_id: u64)
    requires
        wf_handler(h),
    ensures
        wf_handler(
            LevelHandlerView {
                level_idx: h.level_idx,
                reserved: remove_task_spec(h.reserved, task_id),
            },
        ),
    decreases h.reserved.len(),
{
    let r = remove_task_spec(h.reserved, task_id);
    if h.reserved.len() > 0 {
        lemma_wf_drop_first(h);
        let hrest = LevelHandlerView {
            level_idx: h.level_idx,
            reserved: h.reserved.drop_first(),
        };
        lemma_remove_preserves_wf(hrest, task_id);
        let rr = remove_task_spec(h.reserved.drop_first(), task_id);
        lemma_remove_task_spec_effect(h.reserved.drop_first(), task_id);
        let wr = LevelHandlerView { level_idx: h.level_idx, reserved: rr };
        assert(wf_handler(wr));
        assert(forall|a: int, b: int|
            0 <= a < b < rr.len() ==> (#[trigger] rr[a]).task_id != (#[trigger] rr[b]).task_id) by {
            assert(forall|a: int| 0 <= a < rr.len() ==> #[trigger] rr[a] == wr.reserved[a]);
        }
        assert(forall|a: int, b: int, s: u64|
            0 <= a < rr.len() && 0 <= b < rr.len() && a != b ==> !(#[trigger] rr[a].ssts.contains(s)
                && #[trigger] rr[b].ssts.contains(s))) by {
            assert(forall|a: int| 0 <= a < rr.len() ==> #[trigger] rr[a] == wr.reserved[a]);
        }
        if h.reserved[0].task_id != task_id {
            assert(r == seq![h.reserved[0]] + rr);
            assert forall|i: int, j: int| 0 <= i < j < r.len() implies (
            #[trigger] r[i]).task_id != (#[trigger] r[j]).task_id by {
                if i == 0 {
                    assert(r[j] == rr[j - 1]);
                    assert(h.reserved.drop_first().contains(rr[j - 1]));
                    let k = choose|k: int|
                        0 <= k < h.reserved.drop_first().len() && h.reserved.drop_first()[k]
                            == rr[j - 1];
                    assert(h.reserved[k + 1] == r[j]);
                    assert((h.reserved[0]).task_id != (h.reserved[k + 1]).task_id);
                } else {
                    assert(r[i] == rr[i - 1] && r[j] == rr[j - 1]);
                }
            }
            assert forall|i: int, j: int, s: u64|
                0 <= i < r.len() && 0 <= j < r.len() && i != j implies !(
            #[trigger] r[i].ssts.contains(s) && #[trigger] r[j].ssts.contains(s)) by {
                if i == 0 || j == 0 {
                    let a = if i == 0 { j } else { i };
                    assert(r[a] == rr[a - 1]);
                    assert(h.reserved.drop_first().contains(rr[a - 1]));
                    let k = choose|k: int|
                        0 <= k < h.reserved.drop_first().len() && h.reserved.drop_first()[k]
                            == rr[a - 1];
                    assert(h.reserved[k + 1] == r[a]);
                    assert(h.reserved[0] == r[0]);
                    assert(!(h.reserved[0].ssts.contains(s) && h.reserved[k + 1].ssts.contains(
                        s,
                    )));
                } else {
                    assert(r[i] == rr[i - 1] && r[j] == rr[j - 1]);
                }
            }
        }
    }
}

/// Membership test on a list of table ids.
pub fn ids_contain(ids: &Vec<u64>, x: u64) -> (r: bool)
    ensures
        r == ids@.contains(x),
{
    let mut k: usize = 0;
    while k < ids.len()
        invariant
            k <= ids.len(),
            forall|j: int| 0 <= j < k ==> ids@[j] != x,
        decreases ids.len() - k,
    {
        if ids[k] == x {
            return true;
        }
        k = k + 1;
    }
    false
}

impl LevelHandler {
    pub fn new(level_idx: u32) -> (r: LevelHandler)
        ensures
            r@.level_idx == level_idx,
            r@.reserved =~= Seq::<ReservationView>::empty(),
            wf_handler(r@),
    {
        LevelHandler { level_idx, reserved: Vec::new() }
    }

    /// Is the table reserved by any in-flight task?
    pub fn is_pending(&self, sst_id: u64) -> (r: bool)
        ensures
            r == pending(self@, sst_id),
    {
        let mut i: usize = 0;
        while i < self.reserved.len()
            invariant
                i <= self.reserved.len(),
                forall|j: int| 0 <= j < i ==> !(#[trigger] self@.reserved[j]).ssts.contains(sst_id),
            decreases self.reserved.len() - i,
        {
            if ids_contain(&self.reserved[i].ssts, sst_id) {
                assert(self@.reserved[i as int].ssts.contains(sst_id));
                return true;
            }
            i = i + 1;
        }
        false
    }

    /// Does the task hold a reservation entry here?
    pub fn has_task(&self, task_id: u64) -> (r: bool)
        ensures
            r == task_present(self@, task_id),
    {
        let mut i: usize = 0;
        while i < self.reserved.len()
            invariant
                i <= self.reserved.len(),
                forall|j: int| 0 <= j < i ==> (#[trigger] self@.reserved[j]).task_id != task_id,
            decreases self.reserved.len() - i,
        {
            if self.reserved[i].task_id == task_id {
                assert(self@.reserved[i as int].task_id == task_id);
                return true;
            }
            i = i + 1;
        }
        false
    }

    /// Records a reservation. Conflicts must have been ruled out by the
    /// caller at pick time: every table handed in must still be free.
    pub fn add_task(&mut self, task_id: u64, table_ids: Vec<u64>)
        requires
            wf_handler(old(self)@),
            !task_present(old(self)@, task_id),
            forall|k: int| 0 <= k < table_ids@.len() ==> !pending(old(self)@, table_ids@[k]),
        ensures
            final(self)@.level_idx == old(self)@.level_idx,
            final(self)@.reserved == old(self)@.reserved.push(
                ReservationView { task_id, ssts: table_ids@ },
            ),
            wf_handler(final(self)@),
    {
        let ghost pre = self@;
        let ghost entry = ReservationView { task_id, ssts: table_ids@ };
        self.reserved.push(TaskReservation { task_id, ssts: table_ids });
        assert(self@.reserved =~= pre.reserved.push(entry));
        assert forall|i: int, j: int| 0 <= i < j < self@.reserved.len() implies (
        #[trigger] self@.reserved[i]).task_id != (#[trigger] self@.reserved[j]).task_id by {
            if j == pre.reserved.len() {
                assert(self@.reserved[i] == pre.reserved[i]);
            }
        }
        assert forall|i: int, j: int, s: u64|
            0 <= i < self@.reserved.len() && 0 <= j < self@.reserved.len() && i != j implies !(
        #[trigger] self@.reserved[i].ssts.contains(s) && #[trigger] self@.reserved[j].ssts.contains(
            s,
        )) by {
            let n = pre.reserved.len() as int;
            if i < n && j < n {
            } else if i == n && j < n {
                if self@.reserved[i].ssts.contains(s) && self@.reserved[j].ssts.contains(s) {
                    let k = choose|k: int| 0 <= k < table_ids@.len() && table_ids@[k] == s;
                    assert(!pending(pre, table_ids@[k]));
                    assert(pre.reserved[j].ssts.contains(s));
                }
            } else if j == n && i < n {
                if self@.reserved[i].ssts.contains(s) && self@.reserved[j].ssts.contains(s) {
                    let k = choose|k: int| 0 <= k < table_ids@.len() && table_ids@[k] == s;
                    assert(!pending(pre, table_ids@[k]));
                    assert(pre.reserved[i].ssts.contains(s));
                }
            }
        }
    }

    /// Releases every reservation of the task. Idempotent: a task id that is
    /// not present is a no-op, so completion reports may arrive twice.
    pub fn remove_task(&mut self, task_id: u64)
        ensures
            final(self)@.level_idx == old(self)@.level_idx,
            final(self)@.reserved == remove_task_spec(old(self)@.reserved, task_id),
            wf_handler(old(self)@) ==> wf_handler(final(self)@),
    {
        let ghost pre = self@;
        let mut kept: Vec<TaskReservation> = Vec::new();
        let mut i: usize = 0;
        assert(pre.reserved.skip(0) =~= pre.reserved);
        while i < self.reserved.len()
            invariant
                i <= self.reserved.len(),
                self@ == pre,
                remove_task_spec(pre.reserved, task_id) == kept@.map_values(
                    |r: TaskReservation| r@,
                ) + remove_task_spec(pre.reserved.skip(i as int), task_id),
            decreases self.reserved.len() - i,
        {
            let ghost rem = pre.reserved.skip(i as int);
            assert(rem[0] == pre.reserved[i as int]);
            assert(rem.drop_first() =~= pre.reserved.skip(i as int + 1));
            if self.reserved[i].task_id != task_id {
                let ghost kv = kept@.map_values(|r: TaskReservation| r@);
                kept.push(self.reserved[i].clone_entry());
                assert(kept@.map_values(|r: TaskReservation| r@) =~= kv.push(
                    pre.reserved[i as int],
                ));
                assert(kv.push(pre.reserved[i as int]) + remove_task_spec(
                    pre.reserved.skip(i as int + 1),
                    task_id,
                ) =~= kv + (seq![pre.reserved[i as int]] + remove_task_spec(
                    pre.reserved.skip(i as int + 1),
                    task_id,
                )));
            }
            i = i + 1;
        }
        assert(pre.reserved.skip(pre.reserved.len() as int) =~= Seq::<ReservationView>::empty());
        assert(kept@.map_values(|r: TaskReservation| r@) + Seq::<ReservationView>::empty()
            =~= kept@.map_values(|r: TaskReservation| r@));
        self.reserved = kept;
        proof {
            if wf_handler(pre) {
                lemma_remove_preserves_wf(pre, task_id);
            }
        }
    }
}

impl TaskReservation {
    /// A field-for-field copy of the reservation entry.
    pub fn clone_entry(&self) -> (r: TaskReservation)
        ensures
            r@ == self@,
    {
        let mut ssts: Vec<u64> = Vec::new();
        let mut k: usize = 0;
        while k < self.ssts.len()
            invariant
                k <= self.ssts.len(),
                ssts@ == self.ssts@.subrange(0, k as int),
            decreases self.ssts.len() - k,
        {
            ssts.push(self.ssts[k]);
            assert(ssts@ =~= self.ssts@.subrange(0, k as int + 1));
            k = k + 1;
        }
        assert(ssts@ =~= self.ssts@);
        TaskReservation { task_id: self.task_id, ssts }
    }
}

} // verus!
