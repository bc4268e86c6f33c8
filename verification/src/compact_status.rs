//! The persisted compaction aggregate: per-level reservation handlers and the
//! monotonic task-id counter, with the pick / report / apply lifecycle.

use vstd::prelude::*;
use crate::key_range::KeyRange;
use crate::level::{
    Level, LevelView, HummockVersion, HummockVersionView, SstableInfo, SstableInfoView,
    clone_tables, contains_table_id, distinct_ids, insert_table_sorted, nonoverlapping,
    remove_stale, retain_live, sorted_run, wf_version,
};
use crate::level_handler::{
    LevelHandler, LevelHandlerView, lemma_remove_absent_is_noop, lemma_remove_task_idempotent,
    pending, remove_task_spec, task_present, wf_handler,
};
use crate::picker::{SearchResult, TierCompactionPicker, ids_of, valid_pick};

verus! {

/// An in-flight merge descriptor: one pick-to-report cycle.
#[derive(Clone, Debug, PartialEq)]
pub struct CompactTask {
    pub input_ssts: Vec<Level>,
    pub splits: Vec<KeyRange>,
    pub watermark: u64,
    pub sorted_output_ssts: Vec<SstableInfo>,
    pub task_id: u64,
    pub target_level: u32,
    pub is_target_ultimate_and_leveling: bool,
    pub task_status: bool,
}

pub ghost struct CompactTaskView {
    pub input_ssts: Seq<LevelView>,
    pub splits: Seq<crate::key_range::KeyRangeView>,
    pub watermark: u64,
    pub sorted_output_ssts: Seq<SstableInfoView>,
    pub task_id: u64,
    pub target_level: u32,
    pub is_target_ultimate_and_leveling: bool,
    pub task_status: bool,
}

impl View for CompactTask {
    type V = CompactTaskView;

    open spec fn view(&self) -> CompactTaskView {
        CompactTaskView {
            input_ssts: self.input_ssts@.map_values(|l: Level| l@),
            splits: self.splits@.map_values(|r: KeyRange| r@),
            watermark: self.watermark,
            sorted_output_ssts: self.sorted_output_ssts@.map_values(|t: SstableInfo| t@),
            task_id: self.task_id,
            target_level: self.target_level,
            is_target_ultimate_and_leveling: self.is_target_ultimate_and_leveling,
            task_status: self.task_status,
        }
    }
}

/// The whole persisted compaction state of one group.
#[derive(Clone, Debug, PartialEq)]
pub struct CompactStatus {
    pub level_handlers: Vec<LevelHandler>,
    pub next_compact_task_id: u64,
}

pub ghost struct CompactStatusView {
    pub level_handlers: Seq<LevelHandlerView>,
    pub next_compact_task_id: u64,
}

impl View for CompactStatus {
    type V = CompactStatusView;

    open spec fn view(&self) -> CompactStatusView {
        CompactStatusView {
            level_handlers: self.level_handlers@.map_values(|h: LevelHandler| h@),
            next_compact_task_id: self.next_compact_task_id,
        }
    }
}

/// Every handler keeps mutual exclusion, sits at its level index, and no
/// reservation carries a task id at or above the counter: ids are never
/// reused.
pub open spec fn wf_status(s: CompactStatusView) -> bool {
    &&& forall|i: int|
        0 <= i < s.level_handlers.len() ==> wf_handler(#[trigger] s.level_handlers[i])
            && s.level_handlers[i].level_idx == i
    &&& forall|i: int, k: int|
        0 <= i < s.level_handlers.len() && 0 <= k < s.level_handlers[i].reserved.len() ==> (
        #[trigger] s.level_handlers[i].reserved[k]).task_id < s.next_compact_task_id
}

/// One successful pick: the handed-out task carries the old counter value and
/// the counter advances by exactly one.
pub open spec fn picked(pre: CompactStatusView, post: CompactStatusView, t: CompactTaskView) -> bool {
    &&& t.task_id == pre.next_compact_task_id
    &&& post.next_compact_task_id == pre.next_compact_task_id + 1
}

/// Does the task consume tables of level `i`?
pub open spec fn touches_level(inputs: Seq<LevelView>, i: int) -> bool {
    exists|k: int| 0 <= k < inputs.len() && (#[trigger] inputs[k]).level_idx == i
}

/// The state after a completion report: every level the task consumed from
/// drops the task's reservations; nothing else changes.
pub open spec fn report_spec(s: CompactStatusView, t: CompactTaskView) -> CompactStatusView {
    CompactStatusView {
        level_handlers: Seq::new(
            s.level_handlers.len(),
            |i: int|
                if touches_level(t.input_ssts, i) {
                    LevelHandlerView {
                        level_idx: s.level_handlers[i].level_idx,
                        reserved: remove_task_spec(s.level_handlers[i].reserved, t.task_id),
                    }
                } else {
                    s.level_handlers[i]
                },
        ),
        next_compact_task_id: s.next_compact_task_id,
    }
}

/// Reporting the same task twice leaves exactly the state one report leaves.
pub proof fn lemma_report_idempotent(s: CompactStatusView, t: CompactTaskView)
    ensures
        report_spec(report_spec(s, t), t) == report_spec(s, t),
{
    let once = report_spec(s, t);
    let twice = report_spec(once, t);
    assert forall|i: int| 0 <= i < once.level_handlers.len() implies #[trigger] twice.level_handlers[i]
        == once.level_handlers[i] by {
        if touches_level(t.input_ssts, i) {
            lemma_remove_task_idempotent(s.level_handlers[i].reserved, t.task_id);
        }
    }
    assert(twice.level_handlers =~= once.level_handlers);
}

/// Reporting a task that holds no reservation anywhere changes nothing.
pub proof fn lemma_report_absent_is_noop(s: CompactStatusView, t: CompactTaskView)
    requires
        forall|i: int|
            0 <= i < s.level_handlers.len() ==> !task_present(
                #[trigger] s.level_handlers[i],
                t.task_id,
            ),
    ensures
        report_spec(s, t) == s,
{
    let r = report_spec(s, t);
    assert forall|i: int| 0 <= i < s.level_handlers.len() implies #[trigger] r.level_handlers[i]
        == s.level_handlers[i] by {
        if touches_level(t.input_ssts, i) {
            assert(!task_present(s.level_handlers[i], t.task_id));
            assert forall|k: int|
                0 <= k < s.level_handlers[i].reserved.len() implies (
            #[trigger] s.level_handlers[i].reserved[k]).task_id != t.task_id by {}
            lemma_remove_absent_is_noop(s.level_handlers[i].reserved, t.task_id);
        }
    }
    assert(r.level_handlers =~= s.level_handlers);
}

/// A report keeps the status invariant: entries only disappear.
pub proof fn lemma_report_preserves_wf(s: CompactStatusView, t: CompactTaskView)
    requires
        wf_status(s),
    ensures
        wf_status(report_spec(s, t)),
{
    let r = report_spec(s, t);
    assert forall|i: int| 0 <= i < r.level_handlers.len() implies wf_handler(
        #[trigger] r.level_handlers[i],
    ) && r.level_handlers[i].level_idx == i by {
        if touches_level(t.input_ssts, i) {
            crate::level_handler::lemma_remove_preserves_wf(s.level_handlers[i], t.task_id);
        }
    }
    assert forall|i: int, k: int|
        0 <= i < r.level_handlers.len() && 0 <= k < r.level_handlers[i].reserved.len() implies (
    #[trigger] r.level_handlers[i].reserved[k]).task_id < r.next_compact_task_id by {
        if touches_level(t.input_ssts, i) {
            crate::level_handler::lemma_remove_task_spec_effect(
                s.level_handlers[i].reserved,
                t.task_id,
            );
            assert(s.level_handlers[i].reserved.contains(r.level_handlers[i].reserved[k]));
            let m = choose|m: int|
                0 <= m < s.level_handlers[i].reserved.len() && s.level_handlers[i].reserved[m]
                    == r.level_handlers[i].reserved[k];
            assert(s.level_handlers[i].reserved[m].task_id < s.next_compact_task_id);
        }
    }
}

/// After N successful picks the counter stands exactly N above where it
/// began, and the handed-out task ids strictly increase: no id is ever
/// reused.
pub proof fn lemma_task_ids_monotonic(states: Seq<CompactStatusView>, tasks: Seq<CompactTaskView>)
    requires
        states.len() == tasks.len() + 1,
        forall|i: int|
            0 <= i < tasks.len() ==> picked(states[i], states[i + 1], #[trigger] tasks[i]),
    ensures
        forall|i: int|
            0 <= i < states.len() ==> (#[trigger] states[i]).next_compact_task_id
                == states[0].next_compact_task_id + i,
        states.last().next_compact_task_id == states[0].next_compact_task_id + tasks.len(),
        forall|i: int|
            0 <= i < tasks.len() ==> (#[trigger] tasks[i]).task_id
                == states[0].next_compact_task_id + i,
        forall|i: int, j: int|
            0 <= i < j < tasks.len() ==> (#[trigger] tasks[i]).task_id < (
            #[trigger] tasks[j]).task_id,
    decreases tasks.len(),
{
    if tasks.len() > 0 {
        let n = tasks.len() as int;
        lemma_task_ids_monotonic(states.drop_last(), tasks.drop_last());
        assert forall|i: int| 0 <= i < states.len() - 1 implies #[trigger] states[i]
            == states.drop_last()[i] by {}
        assert(states[n - 1].next_compact_task_id == states[0].next_compact_task_id + (n - 1));
        assert(picked(states[n - 1], states[n], tasks[n - 1]));
        assert forall|i: int| 0 <= i < tasks.len() implies (#[trigger] tasks[i]).task_id
            == states[0].next_compact_task_id + i by {
            if i < n - 1 {
                assert(tasks.drop_last()[i] == tasks[i]);
            }
        }
    }
}

/// Along any run of picks from a well-formed state, every state stays
/// well-formed: at no point is a table reserved by two different tasks.
pub proof fn lemma_pick_sequence_keeps_exclusion(states: Seq<CompactStatusView>)
    requires
        states.len() >= 1,
        wf_status(states[0]),
        forall|i: int|
            0 <= i < states.len() - 1 ==> (wf_status(#[trigger] states[i]) ==> wf_status(
                states[i + 1],
            )),
    ensures
        forall|i: int| 0 <= i < states.len() ==> wf_status(#[trigger] states[i]),
    decreases states.len(),
{
    if states.len() > 1 {
        lemma_pick_sequence_keeps_exclusion(states.drop_last());
        assert forall|i: int| 0 <= i < states.len() - 1 implies #[trigger] states[i]
            == states.drop_last()[i] by {}
        assert(wf_status(states[states.len() - 2]));
        assert(wf_status(states[states.len() - 1]));
    }
}

/// Level-0 rewrite: walk the old level-0 list, drop consumed tables, and
/// splice the outputs in once, at the first consumed position.
pub open spec fn splice_l0(
    s: Seq<SstableInfoView>,
    stale: Seq<SstableInfoView>,
    outs: Seq<SstableInfoView>,
    placed: bool,
) -> Seq<SstableInfoView>
    decreases s.len(),
{
    if s.len() == 0 {
        Seq::empty()
    } else if !crate::level::has_table_id(stale, s[0].id) {
        seq![s[0]] + splice_l0(s.drop_first(), stale, outs, placed)
    } else if !placed {
        outs + splice_l0(s.drop_first(), stale, outs, true)
    } else {
        splice_l0(s.drop_first(), stale, outs, true)
    }
}

/// The exact shape of the version a completed task produces.
pub open spec fn apply_rel(
    pre: HummockVersionView,
    t: CompactTaskView,
    post: HummockVersionView,
) -> bool {
    &&& post.safe_epoch == if pre.safe_epoch >= t.watermark {
        pre.safe_epoch
    } else {
        t.watermark
    }
    &&& post.levels.len() == pre.levels.len()
    &&& forall|i: int|
        0 <= i < post.levels.len() ==> (#[trigger] post.levels[i]).level_idx == pre.levels[i].level_idx
    &&& if t.target_level == 0 {
        &&& post.levels[0].table_infos == splice_l0(
            pre.levels[0].table_infos,
            t.input_ssts[0].table_infos,
            t.sorted_output_ssts,
            false,
        )
        &&& forall|i: int|
            1 <= i < post.levels.len() ==> (#[trigger] post.levels[i]).table_infos
                == pre.levels[i].table_infos
    } else {
        &&& forall|i: int|
            0 <= i < t.input_ssts.len() && i != t.target_level ==> (
            #[trigger] post.levels[i]).table_infos == remove_stale(
                pre.levels[i].table_infos,
                t.input_ssts[i].table_infos,
            )
        &&& forall|i: int|
            t.input_ssts.len() <= i < post.levels.len() && i != t.target_level ==> (
            #[trigger] post.levels[i]).table_infos == pre.levels[i].table_infos
        &&& sorted_run(post.levels[t.target_level as int].table_infos)
        &&& post.levels[t.target_level as int].table_infos.to_multiset() == apply_target_base(
            pre,
            t,
        ).to_multiset().add(t.sorted_output_ssts.to_multiset())
    }
}

/// What remains of the target level before the outputs are merged in.
pub open spec fn apply_target_base(
    pre: HummockVersionView,
    t: CompactTaskView,
) -> Seq<SstableInfoView> {
    if t.target_level < t.input_ssts.len() {
        remove_stale(
            pre.levels[t.target_level as int].table_infos,
            t.input_ssts[t.target_level as int].table_infos,
        )
    } else {
        pre.levels[t.target_level as int].table_infos
    }
}

impl CompactStatus {
    /// A fresh status: a level-0 and a level-1 handler, first task id 1.
    pub fn new() -> (r: CompactStatus)
        ensures
            r@.level_handlers.len() == 2,
            r@.level_handlers[0].level_idx == 0,
            r@.level_handlers[1].level_idx == 1,
            r@.level_handlers[0].reserved.len() == 0,
            r@.level_handlers[1].reserved.len() == 0,
            r@.next_compact_task_id == 1,
            wf_status(r@),
    {
        let mut vec_handler_having_l0: Vec<LevelHandler> = Vec::new();
        vec_handler_having_l0.push(LevelHandler::new(0));
        vec_handler_having_l0.push(LevelHandler::new(1));
        let r = CompactStatus { level_handlers: vec_handler_having_l0, next_compact_task_id: 1 };
        assert forall|i: int| 0 <= i < r@.level_handlers.len() implies wf_handler(
            #[trigger] r@.level_handlers[i],
        ) && r@.level_handlers[i].level_idx == i by {}
        r
    }

    /// Column family that holds the persisted status.
    pub fn cf_name() -> (r: &'static str)
        ensures
            r@ == "hummock_default"@,
    {
        "hummock_default"
    }

    /// Key the persisted status is stored under.
    pub fn key() -> (r: &'static str)
        ensures
            r@ == "compact_status"@,
    {
        "compact_status"
    }

    /// Asks the tier picker for a candidate under the next task id, reserving
    /// its input tables on success.
    fn pick_compaction(&mut self, levels: &Vec<Level>) -> (r: Option<SearchResult>)
        requires
            levels@.len() >= 2,
            levels@[0]@.level_idx == 0,
            levels@[1]@.level_idx == 1,
            distinct_ids(levels@[0]@.table_infos),
            distinct_ids(levels@[1]@.table_infos),
            old(self)@.level_handlers.len() >= 2,
            wf_status(old(self)@),
        ensures
            final(self)@.next_compact_task_id == old(self)@.next_compact_task_id,
            final(self)@.level_handlers.len() == old(self)@.level_handlers.len(),
            ({
                let l0 = levels@[0]@.table_infos;
                let l1 = levels@[1]@.table_infos;
                let h0 = old(self)@.level_handlers[0];
                let h1 = old(self)@.level_handlers[1];
                match r {
                    None => {
                        &&& *final(self) == *old(self)
                        &&& (h0.reserved.len() == 0 && h1.reserved.len() == 0) ==> forall|
                            i: int,
                            j: int,
                        |
                            0 <= i < j < l0.len() ==> !(#[trigger] crate::key_range::overlap(
                                l0[i].key_range,
                                l0[j].key_range,
                            ))
                    },
                    Some(sr) => {
                        let sel = sr.select_level@.table_infos;
                        let tgt = sr.target_level@.table_infos;
                        &&& sr.select_level@.level_idx == 0
                        &&& sr.target_level@.level_idx == 1
                        &&& valid_pick(
                            sel,
                            tgt,
                            sr.split_ranges@.map_values(|x: KeyRange| x@),
                            l0,
                            l1,
                            h0,
                            h1,
                        )
                        &&& final(self)@.level_handlers[0] == LevelHandlerView {
                            level_idx: h0.level_idx,
                            reserved: h0.reserved.push(
                                crate::level_handler::ReservationView {
                                    task_id: old(self)@.next_compact_task_id,
                                    ssts: ids_of(sel),
                                },
                            ),
                        }
                        &&& final(self)@.level_handlers[1] == LevelHandlerView {
                            level_idx: h1.level_idx,
                            reserved: h1.reserved.push(
                                crate::level_handler::ReservationView {
                                    task_id: old(self)@.next_compact_task_id,
                                    ssts: ids_of(tgt),
                                },
                            ),
                        }
                        &&& forall|i: int|
                            2 <= i < final(self)@.level_handlers.len()
                                ==> final(self)@.level_handlers[i] == old(self)@.level_handlers[i]
                        &&& wf_handler(final(self)@.level_handlers[0])
                        &&& wf_handler(final(self)@.level_handlers[1])
                    },
                }
            }),
    {
        // only the level-0 tiering shape is supported
        let picker = TierCompactionPicker::new(self.next_compact_task_id);
        proof {
            let h0 = self@.level_handlers[0];
            let h1 = self@.level_handlers[1];
            assert(!task_present(h0, self.next_compact_task_id)) by {
                if task_present(h0, self.next_compact_task_id) {
                    let k = choose|k: int|
                        0 <= k < h0.reserved.len() && (#[trigger] h0.reserved[k]).task_id
                            == self.next_compact_task_id;
                }
            }
            assert(!task_present(h1, self.next_compact_task_id)) by {
                if task_present(h1, self.next_compact_task_id) {
                    let k = choose|k: int|
                        0 <= k < h1.reserved.len() && (#[trigger] h1.reserved[k]).task_id
                            == self.next_compact_task_id;
                }
            }
            assert(self@.level_handlers[0] == self.level_handlers@[0]@);
            assert(self@.level_handlers[1] == self.level_handlers@[1]@);
        }
        let r = picker.pick_compaction(levels, &mut self.level_handlers);
        proof {
            if r is Some {
                assert(self@.level_handlers[0] == self.level_handlers@[0]@);
                assert(self@.level_handlers[1] == self.level_handlers@[1]@);
                assert forall|i: int| 2 <= i < self@.level_handlers.len() implies #[trigger] self@.level_handlers[i]
                    == old(self)@.level_handlers[i] by {
                    assert(self.level_handlers@[i] == old(self).level_handlers@[i]);
                }
            } else {
                assert(self.level_handlers@ =~= old(self).level_handlers@);
            }
        }
        r
    }

    /// Hands out one compaction task, or nothing if no eligible batch exists.
    /// On success the task's input tables are reserved under the assigned id
    /// and the id counter advances; on failure the state is untouched.
    pub fn get_compact_task(&mut self, levels: Vec<Level>) -> (r: Option<CompactTask>)
        requires
            levels@.len() >= 2,
            levels@[0]@.level_idx == 0,
            levels@[1]@.level_idx == 1,
            distinct_ids(levels@[0]@.table_infos),
            distinct_ids(levels@[1]@.table_infos),
            old(self)@.level_handlers.len() >= 2,
            wf_status(old(self)@),
            old(self)@.next_compact_task_id < u64::MAX,
        ensures
            ({
                let l0 = levels@[0]@.table_infos;
                let l1 = levels@[1]@.table_infos;
                let h0 = old(self)@.level_handlers[0];
                let h1 = old(self)@.level_handlers[1];
                match r {
                    None => {
                        &&& *final(self) == *old(self)
                        &&& (h0.reserved.len() == 0 && h1.reserved.len() == 0) ==> forall|
                            i: int,
                            j: int,
                        |
                            0 <= i < j < l0.len() ==> !(#[trigger] crate::key_range::overlap(
                                l0[i].key_range,
                                l0[j].key_range,
                            ))
                    },
                    Some(t) => {
                        let sel = t@.input_ssts[0].table_infos;
                        let tgt = t@.input_ssts[1].table_infos;
                        &&& picked(old(self)@, final(self)@, t@)
                        &&& t@.task_id == old(self)@.next_compact_task_id
                        &&& final(self)@.next_compact_task_id == old(self)@.next_compact_task_id
                            + 1
                        &&& wf_status(final(self)@)
                        &&& t@.input_ssts.len() == 2
                        &&& t@.input_ssts[0].level_idx == 0
                        &&& t@.input_ssts[1].level_idx == 1
                        &&& t@.target_level == 1
                        &&& valid_pick(sel, tgt, t@.splits, l0, l1, h0, h1)
                        &&& t@.watermark == u64::MAX
                        &&& t@.sorted_output_ssts.len() == 0
                        &&& t@.task_status == false
                        &&& t@.is_target_ultimate_and_leveling == false
                        &&& final(self)@.level_handlers.len() == old(self)@.level_handlers.len()
                        &&& final(self)@.level_handlers[0] == LevelHandlerView {
                            level_idx: h0.level_idx,
                            reserved: h0.reserved.push(
                                crate::level_handler::ReservationView {
                                    task_id: t@.task_id,
                                    ssts: ids_of(sel),
                                },
                            ),
                        }
                        &&& final(self)@.level_handlers[1] == LevelHandlerView {
                            level_idx: h1.level_idx,
                            reserved: h1.reserved.push(
                                crate::level_handler::ReservationView {
                                    task_id: t@.task_id,
                                    ssts: ids_of(tgt),
                                },
                            ),
                        }
                        &&& forall|i: int|
                            2 <= i < final(self)@.level_handlers.len()
                                ==> final(self)@.level_handlers[i] == old(self)@.level_handlers[i]
                    },
                }
            }),
    {
        // For any user key, the epoch of its entry in a deeper level must be
        // older: mutually overlapping level-0 files are merged atomically.
        let ret = match self.pick_compaction(&levels) {
            Some(ret) => ret,
            None => {
                return None;
            },
        };
        let SearchResult { select_level, target_level, split_ranges } = ret;
        let select_level_id: u32 = select_level.level_idx;
        let target_level_id: u32 = target_level.level_idx;
        let is_ultimate = target_level_id as usize == self.level_handlers.len() - 1
            && select_level_id > 0;
        let mut input_ssts: Vec<Level> = Vec::new();
        input_ssts.push(select_level);
        input_ssts.push(target_level);
        let compact_task = CompactTask {
            input_ssts,
            splits: split_ranges,
            watermark: u64::MAX,
            sorted_output_ssts: Vec::new(),
            task_id: self.next_compact_task_id,
            target_level: target_level_id,
            is_target_ultimate_and_leveling: is_ultimate,
            task_status: false,
        };
        self.next_compact_task_id = self.next_compact_task_id + 1;
        proof {
            let f = self@;
            let pre = old(self)@;
            assert(compact_task@.input_ssts.len() == 2);
            assert forall|i: int| 0 <= i < f.level_handlers.len() implies wf_handler(
                #[trigger] f.level_handlers[i],
            ) && f.level_handlers[i].level_idx == i by {
                if i >= 2 {
                    assert(f.level_handlers[i] == pre.level_handlers[i]);
                }
            }
            assert forall|i: int, k: int|
                0 <= i < f.level_handlers.len() && 0 <= k < f.level_handlers[i].reserved.len()
                    implies (#[trigger] f.level_handlers[i].reserved[k]).task_id
                < f.next_compact_task_id by {
                if i >= 2 {
                    assert(f.level_handlers[i] == pre.level_handlers[i]);
                } else if i == 0 {
                    if k < pre.level_handlers[0].reserved.len() {
                        assert(f.level_handlers[0].reserved[k] == pre.level_handlers[0].reserved[k]);
                    }
                } else {
                    if k < pre.level_handlers[1].reserved.len() {
                        assert(f.level_handlers[1].reserved[k] == pre.level_handlers[1].reserved[k]);
                    }
                }
            }
        }
        Some(compact_task)
    }

    /// Declares a task finished or canceled: releases its reservations in
    /// every level it consumed from. Safe to call again for the same task.
    pub fn report_compact_task(&mut self, compact_task: &CompactTask)
        requires
            forall|k: int|
                0 <= k < compact_task@.input_ssts.len() ==> (
                #[trigger] compact_task@.input_ssts[k]).level_idx < old(self)@.level_handlers.len(),
        ensures
            final(self)@ == report_spec(old(self)@, compact_task@),
            wf_status(old(self)@) ==> wf_status(final(self)@),
    {
        let ghost pre = self@;
        let ghost tv = compact_task@;
        let mut k: usize = 0;
        while k < compact_task.input_ssts.len()
            invariant
                k <= compact_task@.input_ssts.len(),
                tv == compact_task@,
                forall|m: int|
                    0 <= m < tv.input_ssts.len() ==> (#[trigger] tv.input_ssts[m]).level_idx
                        < pre.level_handlers.len(),
                self@.next_compact_task_id == pre.next_compact_task_id,
                self@.level_handlers.len() == pre.level_handlers.len(),
                forall|i: int|
                    0 <= i < pre.level_handlers.len() ==> #[trigger] self@.level_handlers[i] == (
                    if touches_level(tv.input_ssts.subrange(0, k as int), i) {
                        LevelHandlerView {
                            level_idx: pre.level_handlers[i].level_idx,
                            reserved: remove_task_spec(pre.level_handlers[i].reserved, tv.task_id),
                        }
                    } else {
                        pre.level_handlers[i]
                    }),
            decreases compact_task@.input_ssts.len() - k,
        {
            let idx: usize = compact_task.input_ssts[k].level_idx as usize;
            proof {
                assert(tv.input_ssts[k as int].level_idx == compact_task.input_ssts@[k as int].level_idx);
                assert((idx as int) < pre.level_handlers.len());
            }
            let ghost before = self@.level_handlers;
            let mut h = self.level_handlers.remove(idx);
            h.remove_task(compact_task.task_id);
            self.level_handlers.insert(idx, h);
            proof {
                assert forall|i: int|
                    0 <= i < pre.level_handlers.len() implies #[trigger] self@.level_handlers[i]
                    == (if touches_level(tv.input_ssts.subrange(0, k as int + 1), i) {
                    LevelHandlerView {
                        level_idx: pre.level_handlers[i].level_idx,
                        reserved: remove_task_spec(pre.level_handlers[i].reserved, tv.task_id),
                    }
                } else {
                    pre.level_handlers[i]
                }) by {
                    let prefix = tv.input_ssts.subrange(0, k as int);
                    let prefix1 = tv.input_ssts.subrange(0, k as int + 1);
                    assert(prefix1.drop_last() =~= prefix);
                    assert(prefix1.last() == tv.input_ssts[k as int]);
                    if i != idx as int {
                        assert(self@.level_handlers[i] == before[i]);
                        assert(touches_level(prefix1, i) == touches_level(prefix, i)) by {
                            if touches_level(prefix, i) {
                                let w = choose|w: int|
                                    0 <= w < prefix.len() && (#[trigger] prefix[w]).level_idx == i;
                                assert(prefix1[w] == prefix[w]);
                            }
                            if touches_level(prefix1, i) {
                                let w = choose|w: int|
                                    0 <= w < prefix1.len() && (#[trigger] prefix1[w]).level_idx
                                        == i;
                                assert(w < prefix.len());
                                assert(prefix[w] == prefix1[w]);
                            }
                        }
                    } else {
                        assert(touches_level(prefix1, i)) by {
                            assert(prefix1[k as int].level_idx == i);
                        }
                        if touches_level(prefix, i) {
                            assert(before[i] == LevelHandlerView {
                                level_idx: pre.level_handlers[i].level_idx,
                                reserved: remove_task_spec(
                                    pre.level_handlers[i].reserved,
                                    tv.task_id,
                                ),
                            });
                            lemma_remove_task_idempotent(
                                pre.level_handlers[i].reserved,
                                tv.task_id,
                            );
                        } else {
                            assert(before[i] == pre.level_handlers[i]);
                        }
                    }
                }
            }
            k = k + 1;
        }
        proof {
            assert(tv.input_ssts.subrange(0, tv.input_ssts.len() as int) =~= tv.input_ssts);
            assert(self@.level_handlers =~= report_spec(pre, tv).level_handlers);
            if wf_status(pre) {
                lemma_report_preserves_wf(pre, tv);
            }
        }
    }

    /// Applies a completed task to a version snapshot and returns the new
    /// version: the consumed tables leave their levels, the outputs join the
    /// target level in key-range order, and the safe epoch rises to the
    /// task's watermark if that is higher.
    pub fn apply_compact_result(
        compact_task: &CompactTask,
        based_hummock_version: HummockVersion,
    ) -> (r: HummockVersion)
        requires
            wf_version(based_hummock_version@),
            (compact_task.target_level as int) < based_hummock_version@.levels.len(),
            compact_task@.input_ssts.len() <= based_hummock_version@.levels.len(),
            compact_task.target_level == 0 ==> compact_task@.input_ssts.len() >= 1
                && compact_task@.input_ssts[0].level_idx == 0,
        ensures
            apply_rel(based_hummock_version@, compact_task@, r@),
    {
        let ghost pre = based_hummock_version@;
        let ghost tv = compact_task@;
        let safe_epoch: u64 = if based_hummock_version.safe_epoch >= compact_task.watermark {
            based_hummock_version.safe_epoch
        } else {
            compact_task.watermark
        };
        let nlevels: usize = based_hummock_version.levels.len();
        if compact_task.target_level == 0 {
            let l0tab = &based_hummock_version.levels[0].table_infos;
            let stale = &compact_task.input_ssts[0].table_infos;
            let ghost l0v = pre.levels[0].table_infos;
            let ghost sv = tv.input_ssts[0].table_infos;
            let ghost outs = tv.sorted_output_ssts;
            proof {
                assert(l0v =~= l0tab@.map_values(|x: SstableInfo| x@));
                assert(sv =~= stale@.map_values(|x: SstableInfo| x@));
                assert(l0v.skip(0) =~= l0v);
            }
            let mut new_infos: Vec<SstableInfo> = Vec::new();
            let mut placed: bool = false;
            let mut k: usize = 0;
            while k < l0tab.len()
                invariant
                    k <= l0v.len(),
                    l0v == l0tab@.map_values(|x: SstableInfo| x@),
                    sv == stale@.map_values(|x: SstableInfo| x@),
                    outs == compact_task@.sorted_output_ssts,
                    compact_task@ == tv,
                    splice_l0(l0v, sv, outs, false) == new_infos@.map_values(|x: SstableInfo| x@)
                        + splice_l0(l0v.skip(k as int), sv, outs, placed),
                decreases l0v.len() - k,
            {
                let ghost rem = l0v.skip(k as int);
                proof {
                    assert(rem[0] == l0v[k as int]);
                    assert(rem.drop_first() =~= l0v.skip(k as int + 1));
                    assert(l0tab@[k as int]@ == l0v[k as int]);
                }
                let ghost ov = new_infos@.map_values(|x: SstableInfo| x@);
                if !contains_table_id(stale, l0tab[k].id) {
                    let picked = l0tab[k].duplicate();
                    assert(picked@ == l0v[k as int]);
                    new_infos.push(picked);
                    proof {
                        assert(new_infos@.map_values(|x: SstableInfo| x@) =~= ov.push(
                            l0v[k as int],
                        ));
                        assert(ov.push(l0v[k as int]) + splice_l0(
                            l0v.skip(k as int + 1),
                            sv,
                            outs,
                            placed,
                        ) =~= ov + (seq![l0v[k as int]] + splice_l0(
                            l0v.skip(k as int + 1),
                            sv,
                            outs,
                            placed,
                        )));
                    }
                } else if !placed {
                    let mut j: usize = 0;
                    while j < compact_task.sorted_output_ssts.len()
                        invariant
                            j <= outs.len(),
                            outs == compact_task@.sorted_output_ssts,
                            compact_task@ == tv,
                            new_infos@.map_values(|x: SstableInfo| x@) == ov + outs.subrange(
                                0,
                                j as int,
                            ),
                        decreases outs.len() - j,
                    {
                        let ghost cur = new_infos@.map_values(|x: SstableInfo| x@);
                        let picked = compact_task.sorted_output_ssts[j].duplicate();
                        assert(picked@ == outs[j as int]);
                        new_infos.push(picked);
                        proof {
                            assert(new_infos@.map_values(|x: SstableInfo| x@) =~= cur.push(
                                outs[j as int],
                            ));
                            assert(cur.push(outs[j as int]) =~= ov + outs.subrange(0, j as int + 1));
                        }
                        j = j + 1;
                    }
                    placed = true;
                    proof {
                        assert(outs.subrange(0, outs.len() as int) =~= outs);
                        assert((ov + outs) + splice_l0(l0v.skip(k as int + 1), sv, outs, true)
                            =~= ov + (outs + splice_l0(l0v.skip(k as int + 1), sv, outs, true)));
                    }
                } else {
                }
                k = k + 1;
            }
            proof {
                assert(l0v.skip(l0v.len() as int) =~= Seq::<SstableInfoView>::empty());
                assert(new_infos@.map_values(|x: SstableInfo| x@) + Seq::<
                    SstableInfoView,
                >::empty() =~= new_infos@.map_values(|x: SstableInfo| x@));
            }
            let mut new_levels: Vec<Level> = Vec::new();
            let first_idx: u32 = based_hummock_version.levels[0].level_idx;
            new_levels.push(Level { level_idx: first_idx, table_infos: new_infos });
            let mut i: usize = 1;
            while i < nlevels
                invariant
                    1 <= i <= nlevels,
                    nlevels == pre.levels.len(),
                    pre == based_hummock_version@,
                    new_levels@.len() == i,
                    new_levels@[0]@.level_idx == pre.levels[0].level_idx,
                    new_levels@[0]@.table_infos == splice_l0(
                        pre.levels[0].table_infos,
                        tv.input_ssts[0].table_infos,
                        tv.sorted_output_ssts,
                        false,
                    ),
                    forall|m: int|
                        1 <= m < i ==> (#[trigger] new_levels@[m])@.level_idx
                            == pre.levels[m].level_idx && new_levels@[m]@.table_infos
                            == pre.levels[m].table_infos,
                decreases nlevels - i,
            {
                let tables = clone_tables(&based_hummock_version.levels[i].table_infos);
                proof {
                    assert(based_hummock_version.levels@[i as int]@ == pre.levels[i as int]);
                }
                new_levels.push(
                    Level {
                        level_idx: based_hummock_version.levels[i].level_idx,
                        table_infos: tables,
                    },
                );
                i = i + 1;
            }
            let r = HummockVersion { levels: new_levels, safe_epoch };
            proof {
                assert forall|m: int| 0 <= m < r@.levels.len() implies (
                #[trigger] r@.levels[m]).level_idx == pre.levels[m].level_idx by {
                    assert(r@.levels[m] == new_levels@[m]@);
                }
                assert(r@.levels[0].table_infos == splice_l0(
                    pre.levels[0].table_infos,
                    tv.input_ssts[0].table_infos,
                    tv.sorted_output_ssts,
                    false,
                ));
                assert forall|m: int| 1 <= m < r@.levels.len() implies (
                #[trigger] r@.levels[m]).table_infos == pre.levels[m].table_infos by {
                    assert(r@.levels[m] == new_levels@[m]@);
                }
            }
            r
        } else {
            let mut new_levels: Vec<Level> = Vec::new();
            let mut i: usize = 0;
            while i < nlevels
                invariant
                    i <= nlevels,
                    nlevels == pre.levels.len(),
                    pre == based_hummock_version@,
                    tv == compact_task@,
                    tv.input_ssts.len() <= nlevels,
                    new_levels@.len() == i,
                    forall|m: int|
                        0 <= m < i ==> (#[trigger] new_levels@[m])@.level_idx
                            == pre.levels[m].level_idx && new_levels@[m]@.table_infos == (if m
                            < tv.input_ssts.len() {
                            remove_stale(
                                pre.levels[m].table_infos,
                                tv.input_ssts[m].table_infos,
                            )
                        } else {
                            pre.levels[m].table_infos
                        }),
                decreases nlevels - i,
            {
                proof {
                    assert(based_hummock_version.levels@[i as int]@ == pre.levels[i as int]);
                }
                let tables = if i < compact_task.input_ssts.len() {
                    proof {
                        assert(compact_task.input_ssts@[i as int]@ == tv.input_ssts[i as int]);
                    }
                    retain_live(
                        &based_hummock_version.levels[i].table_infos,
                        &compact_task.input_ssts[i].table_infos,
                    )
                } else {
                    clone_tables(&based_hummock_version.levels[i].table_infos)
                };
                new_levels.push(
                    Level {
                        level_idx: based_hummock_version.levels[i].level_idx,
                        table_infos: tables,
                    },
                );
                i = i + 1;
            }
            let tgt: usize = compact_task.target_level as usize;
            let ghost base = apply_target_base(pre, tv);
            let ghost pre_levels = new_levels@;
            let removed = new_levels.remove(tgt);
            let Level { level_idx: tgt_idx, table_infos: mut tt } = removed;
            proof {
                assert(pre_levels[tgt as int]@.table_infos == base);
                assert(tt@.map_values(|x: SstableInfo| x@) == base);
                assert(sorted_run(base)) by {
                    assert(pre.levels[tgt as int].level_idx == tgt as int);
                    assert(crate::level::wf_level(pre.levels[tgt as int]));
                    if tv.input_ssts.len() > tgt as int {
                        crate::level::lemma_remove_stale_preserves(
                            pre.levels[tgt as int].table_infos,
                            tv.input_ssts[tgt as int].table_infos,
                        );
                    }
                }
                assert(base.to_multiset().add(
                    tv.sorted_output_ssts.subrange(0, 0).to_multiset(),
                ) =~= base.to_multiset()) by {
                    broadcast use vstd::seq_lib::group_to_multiset_ensures;

                    let e = tv.sorted_output_ssts.subrange(0, 0);
                    assert(e =~= Seq::<SstableInfoView>::empty());
                    assert forall|x: SstableInfoView| #[trigger] e.to_multiset().count(x)
                        == 0 by {
                        if e.to_multiset().count(x) > 0 {
                            assert(e.contains(x));
                        }
                    }
                }
            }
            let ghost outs = tv.sorted_output_ssts;
            let mut j: usize = 0;
            while j < compact_task.sorted_output_ssts.len()
                invariant
                    j <= outs.len(),
                    outs == compact_task@.sorted_output_ssts,
                    tv == compact_task@,
                    sorted_run(tt@.map_values(|x: SstableInfo| x@)),
                    tt@.map_values(|x: SstableInfo| x@).to_multiset() == base.to_multiset().add(
                        outs.subrange(0, j as int).to_multiset(),
                    ),
                decreases outs.len() - j,
            {
                broadcast use vstd::seq_lib::to_multiset_build;

                let picked = compact_task.sorted_output_ssts[j].duplicate();
                assert(picked@ == outs[j as int]);
                let ghost before_ms = tt@.map_values(|x: SstableInfo| x@).to_multiset();
                insert_table_sorted(&mut tt, picked);
                proof {
                    assert(outs.subrange(0, j as int + 1) =~= outs.subrange(0, j as int).push(
                        outs[j as int],
                    ));
                    assert(outs.subrange(0, j as int).push(outs[j as int]).to_multiset()
                        =~= outs.subrange(0, j as int).to_multiset().insert(outs[j as int]));
                    assert(tt@.map_values(|x: SstableInfo| x@).to_multiset() =~= base.to_multiset()
                        .add(outs.subrange(0, j as int + 1).to_multiset()));
                }
                j = j + 1;
            }
            proof {
                assert(outs.subrange(0, outs.len() as int) =~= outs);
            }
            new_levels.insert(tgt, Level { level_idx: tgt_idx, table_infos: tt });
            let r = HummockVersion { levels: new_levels, safe_epoch };
            proof {
                assert(new_levels@.len() == pre_levels.len());
                assert forall|m: int|
                    0 <= m < pre_levels.len() && m != tgt as int implies #[trigger] new_levels@[m]
                    == pre_levels[m] by {}
                assert(r@.levels[tgt as int].table_infos == tt@.map_values(
                    |x: SstableInfo| x@,
                ));
                assert forall|m: int| 0 <= m < r@.levels.len() implies (
                #[trigger] r@.levels[m]).level_idx == pre.levels[m].level_idx by {
                    assert(r@.levels[m] == new_levels@[m]@);
                    if m != tgt as int {
                        assert(new_levels@[m]@ == pre_levels[m]@);
                    }
                }
                assert forall|m: int|
                    0 <= m < tv.input_ssts.len() && m != tv.target_level as int implies (
                #[trigger] r@.levels[m]).table_infos == remove_stale(
                    pre.levels[m].table_infos,
                    tv.input_ssts[m].table_infos,
                ) by {
                    assert(r@.levels[m] == new_levels@[m]@);
                    assert(new_levels@[m]@ == pre_levels[m]@);
                }
                assert forall|m: int|
                    tv.input_ssts.len() <= m < r@.levels.len() && m != tv.target_level as int
                    implies (#[trigger] r@.levels[m]).table_infos
                    == pre.levels[m].table_infos by {
                    assert(r@.levels[m] == new_levels@[m]@);
                    assert(new_levels@[m]@ == pre_levels[m]@);
                }
            }
            r
        }
    }
}

impl Default for CompactStatus {
    fn default() -> (r: CompactStatus)
        ensures
            r@.level_handlers.len() == 2,
            r@.next_compact_task_id == 1,
            wf_status(r@),
    {
        CompactStatus::new()
    }
}

/// After a completed task is applied, every level at depth one or more is
/// again a sorted, disjoint, duplicate-free run, and the safe epoch never
/// moves backwards. Where the task rewrites a target level, its outputs
/// together with the surviving target tables must themselves be disjoint.
pub proof fn lemma_apply_preserves_version_invariant(
    pre: HummockVersionView,
    t: CompactTaskView,
    post: HummockVersionView,
)
    requires
        wf_version(pre),
        apply_rel(pre, t, post),
        (t.target_level as int) < pre.levels.len(),
        t.input_ssts.len() <= pre.levels.len(),
        t.target_level != 0 ==> nonoverlapping(apply_target_base(pre, t) + t.sorted_output_ssts)
            && distinct_ids(apply_target_base(pre, t) + t.sorted_output_ssts),
    ensures
        post.safe_epoch >= pre.safe_epoch,
        forall|i: int|
            1 <= i < post.levels.len() ==> sorted_run((#[trigger] post.levels[i]).table_infos)
                && nonoverlapping(post.levels[i].table_infos) && distinct_ids(
                post.levels[i].table_infos,
            ),
{
    assert forall|i: int|
        1 <= i < post.levels.len() implies sorted_run((#[trigger] post.levels[i]).table_infos)
        && nonoverlapping(post.levels[i].table_infos) && distinct_ids(
        post.levels[i].table_infos,
    ) by {
        assert(pre.levels[i].level_idx == i);
        assert(crate::level::wf_level(pre.levels[i]));
        if t.target_level == 0 {
            assert(post.levels[i].table_infos == pre.levels[i].table_infos);
        } else if i == t.target_level as int {
            let base = apply_target_base(pre, t);
            let combined = base + t.sorted_output_ssts;
            if t.target_level < t.input_ssts.len() {
                crate::level::lemma_remove_stale_preserves(
                    pre.levels[i].table_infos,
                    t.input_ssts[i].table_infos,
                );
            }
            vstd::seq_lib::lemma_multiset_commutative(base, t.sorted_output_ssts);
            assert(post.levels[i].table_infos.to_multiset() == combined.to_multiset());
            crate::level::lemma_permutation_keeps_disjoint(combined, post.levels[i].table_infos);
        } else if i < t.input_ssts.len() {
            crate::level::lemma_remove_stale_preserves(
                pre.levels[i].table_infos,
                t.input_ssts[i].table_infos,
            );
        } else {
            assert(post.levels[i].table_infos == pre.levels[i].table_infos);
        }
    }
}

} // verus!
