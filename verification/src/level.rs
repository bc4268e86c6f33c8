//! SST descriptors, levels and immutable version snapshots, with the
//! sorted-run invariant that every level above level 0 must keep.

use vstd::prelude::*;
use crate::key_range::{
    KeyRange, KeyRangeView, lemma_range_le_total, lemma_range_le_trans, overlap, range_le,
};

verus! {

/// Descriptor of one immutable sorted file.
#[derive(Clone, Debug, PartialEq)]
pub struct SstableInfo {
    pub id: u64,
    pub key_range: KeyRange,
    pub file_size: u64,
}

pub ghost struct SstableInfoView {
    pub id: u64,
    pub key_range: KeyRangeView,
    pub file_size: u64,
}

impl View for SstableInfo {
    type V = SstableInfoView;

    open spec fn view(&self) -> SstableInfoView {
        SstableInfoView { id: self.id, key_range: self.key_range@, file_size: self.file_size }
    }
}

/// One tier of the LSM hierarchy.
#[derive(Clone, Debug, PartialEq)]
pub struct Level {
    pub level_idx: u32,
    pub table_infos: Vec<SstableInfo>,
}

pub ghost struct LevelView {
    pub level_idx: u32,
    pub table_infos: Seq<SstableInfoView>,
}

impl View for Level {
    type V = LevelView;

    open spec fn view(&self) -> LevelView {
        LevelView {
            level_idx: self.level_idx,
            table_infos: self.table_infos@.map_values(|t: SstableInfo| t@),
        }
    }
}

/// An immutable snapshot of the whole file hierarchy.
#[derive(Clone, Debug, PartialEq)]
pub struct HummockVersion {
    pub levels: Vec<Level>,
    pub safe_epoch: u64,
}

pub ghost struct HummockVersionView {
    pub levels: Seq<LevelView>,
    pub safe_epoch: u64,
}

impl View for HummockVersion {
    type V = HummockVersionView;

    open spec fn view(&self) -> HummockVersionView {
        HummockVersionView {
            levels: self.levels@.map_values(|l: Level| l@),
            safe_epoch: self.safe_epoch,
        }
    }
}

impl SstableInfo {
    /// A field-for-field copy of the descriptor.
    pub fn duplicate(&self) -> (r: SstableInfo)
        ensures
            r@ == self@,
    {
        SstableInfo { id: self.id, key_range: self.key_range.duplicate(), file_size: self.file_size }
    }
}

/// The tables stand in (left bound, right bound) order.
pub open spec fn sorted_run(s: Seq<SstableInfoView>) -> bool {
    forall|i: int, j: int|
        0 <= i < j < s.len() ==> range_le(#[trigger] s[i].key_range, #[trigger] s[j].key_range)
}

/// No two tables of the run share a key.
pub open spec fn nonoverlapping(s: Seq<SstableInfoView>) -> bool {
    forall|i: int, j: int|
        0 <= i < j < s.len() ==> !overlap(#[trigger] s[i].key_range, #[trigger] s[j].key_range)
}

/// Table ids are unique within the run.
pub open spec fn distinct_ids(s: Seq<SstableInfoView>) -> bool {
    forall|i: int, j: int| 0 <= i < j < s.len() ==> (#[trigger] s[i]).id != (#[trigger] s[j]).id
}

/// The classic LSM invariant: level 0 may hold overlapping flushes, every
/// deeper level is a sorted, non-overlapping run; ids never repeat.
pub open spec fn wf_level(l: LevelView) -> bool {
    &&& distinct_ids(l.table_infos)
    &&& l.level_idx >= 1 ==> sorted_run(l.table_infos) && nonoverlapping(l.table_infos)
}

pub open spec fn wf_version(v: HummockVersionView) -> bool {
    forall|i: int|
        0 <= i < v.levels.len() ==> (#[trigger] v.levels[i]).level_idx == i && wf_level(
            v.levels[i],
        )
}

/// Some table of `s` carries the id.
pub open spec fn has_table_id(s: Seq<SstableInfoView>, id: u64) -> bool {
    exists|k: int| 0 <= k < s.len() && (#[trigger] s[k]).id == id
}

/// Looks up whether any table of the slice carries the id.
pub fn contains_table_id(tables: &Vec<SstableInfo>, id: u64) -> (r: bool)
    ensures
        r == has_table_id(tables@.map_values(|t: SstableInfo| t@), id),
{
    let ghost view = tables@.map_values(|t: SstableInfo| t@);
    let mut k: usize = 0;
    while k < tables.len()
        invariant
            k <= tables.len(),
            view == tables@.map_values(|t: SstableInfo| t@),
            forall|j: int| 0 <= j < k ==> (#[trigger] view[j]).id != id,
        decreases tables.len() - k,
    {
        if tables[k].id == id {
            assert(view[k as int].id == id);
            return true;
        }
        k = k + 1;
    }
    false
}

/// Inserts a table at its place in a sorted run, keeping the run sorted.
pub fn insert_table_sorted(tables: &mut Vec<SstableInfo>, t: SstableInfo)
    requires
        sorted_run(old(tables)@.map_values(|x: SstableInfo| x@)),
    ensures
        final(tables)@.map_values(|x: SstableInfo| x@) == old(tables)@.map_values(
            |x: SstableInfo| x@,
        ).insert(choose_insert_pos(old(tables)@.map_values(|x: SstableInfo| x@), t@), t@),
        sorted_run(final(tables)@.map_values(|x: SstableInfo| x@)),
        final(tables)@.map_values(|x: SstableInfo| x@).to_multiset() == old(tables)@.map_values(
            |x: SstableInfo| x@,
        ).to_multiset().insert(t@),
{
    broadcast use vstd::seq_lib::to_multiset_insert;

    let ghost pre = tables@.map_values(|x: SstableInfo| x@);
    let mut idx: usize = 0;
    while idx < tables.len() && !t.key_range.le(&tables[idx].key_range)
        invariant
            idx <= tables.len(),
            pre == tables@.map_values(|x: SstableInfo| x@),
            sorted_run(pre),
            forall|k: int| 0 <= k < idx ==> !range_le(t@.key_range, (#[trigger] pre[k]).key_range),
        decreases tables.len() - idx,
    {
        idx = idx + 1;
    }
    assert(idx < pre.len() ==> range_le(t@.key_range, pre[idx as int].key_range));
    assert forall|k: int| 0 <= k < idx implies range_le(
        (#[trigger] pre[k]).key_range,
        t@.key_range,
    ) by {
        lemma_range_le_total(t@.key_range, pre[k].key_range);
    }
    assert(is_insert_pos(pre, t@, idx as int));
    proof {
        lemma_choose_insert_pos(pre, t@, idx as int);
    }
    tables.insert(idx, t);
    let ghost post = tables@.map_values(|x: SstableInfo| x@);
    assert(post =~= pre.insert(idx as int, t@));
    assert forall|i: int, j: int| 0 <= i < j < post.len() implies range_le(
        (#[trigger] post[i]).key_range,
        (#[trigger] post[j]).key_range,
    ) by {
        if i < idx && j == idx {
        } else if i == idx && j > idx {
            if !range_le(t@.key_range, post[j].key_range) {
                assert(post[j] == pre[j - 1]);
                assert(range_le(t@.key_range, pre[idx as int].key_range));
                assert(range_le(pre[idx as int].key_range, pre[j - 1].key_range));
                lemma_range_le_trans(
                    t@.key_range,
                    pre[idx as int].key_range,
                    pre[j - 1].key_range,
                );
            }
        } else if i < idx && j > idx {
            assert(post[i] == pre[i]);
            assert(post[j] == pre[j - 1]);
        }
    }
}

/// The tables that survive a compaction: those whose id is not among the
/// consumed input tables.
pub open spec fn remove_stale(
    s: Seq<SstableInfoView>,
    stale: Seq<SstableInfoView>,
) -> Seq<SstableInfoView>
    decreases s.len(),
{
    if s.len() == 0 {
        Seq::empty()
    } else if has_table_id(stale, s[0].id) {
        remove_stale(s.drop_first(), stale)
    } else {
        seq![s[0]] + remove_stale(s.drop_first(), stale)
    }
}

/// Removing consumed tables keeps every run property: order, disjointness and
/// id uniqueness, and introduces no table that was not there.
pub proof fn lemma_remove_stale_preserves(s: Seq<SstableInfoView>, stale: Seq<SstableInfoView>)
    ensures
        forall|x: SstableInfoView| remove_stale(s, stale).contains(x) ==> s.contains(x),
        sorted_run(s) ==> sorted_run(remove_stale(s, stale)),
        nonoverlapping(s) ==> nonoverlapping(remove_stale(s, stale)),
        distinct_ids(s) ==> distinct_ids(remove_stale(s, stale)),
    decreases s.len(),
{
    let r = remove_stale(s, stale);
    if s.len() > 0 {
        let rest = s.drop_first();
        lemma_remove_stale_preserves(rest, stale);
        let rr = remove_stale(rest, stale);
        assert forall|x: SstableInfoView| rr.contains(x) implies rest.contains(x) && s.contains(
            x,
        ) by {
            assert(remove_stale(rest, stale).contains(x));
            assert(rest.contains(x));
            let k = choose|k: int| 0 <= k < rest.len() && rest[k] == x;
            assert(rest[k] == s[k + 1]);
            assert(s.contains(x));
        }
        assert forall|x: SstableInfoView| r.contains(x) implies s.contains(x) by {
            if !has_table_id(stale, s[0].id) {
                let k = choose|k: int| 0 <= k < r.len() && r[k] == x;
                if k == 0 {
                    assert(s[0] == x);
                } else {
                    assert(rr.contains(r[k]));
                }
            } else {
                assert(rr.contains(x));
            }
        }
        assert(sorted_run(rest) && nonoverlapping(rest) && distinct_ids(rest) <== sorted_run(s)
            && nonoverlapping(s) && distinct_ids(s)) by {
            assert forall|i: int| 0 <= i < rest.len() implies rest[i] == s[i + 1] by {}
        }
        if sorted_run(s) {
            assert forall|i: int| 0 <= i < rest.len() implies #[trigger] rest[i] == s[i + 1] by {}
            assert(sorted_run(rest));
            if !has_table_id(stale, s[0].id) {
                assert forall|i: int, j: int| 0 <= i < j < r.len() implies range_le(
                    (#[trigger] r[i]).key_range,
                    (#[trigger] r[j]).key_range,
                ) by {
                    if i == 0 {
                        assert(r[j] == rr[j - 1]);
                        assert(rest.contains(rr[j - 1]));
                        let k = choose|k: int| 0 <= k < rest.len() && rest[k] == rr[j - 1];
                        assert(s[k + 1] == r[j]);
                        assert(range_le(s[0].key_range, s[k + 1].key_range));
                    } else {
                        assert(r[i] == rr[i - 1] && r[j] == rr[j - 1]);
                    }
                }
            }
        }
        if nonoverlapping(s) {
            assert forall|i: int| 0 <= i < rest.len() implies #[trigger] rest[i] == s[i + 1] by {}
            assert(nonoverlapping(rest));
            if !has_table_id(stale, s[0].id) {
                assert forall|i: int, j: int| 0 <= i < j < r.len() implies !overlap(
                    (#[trigger] r[i]).key_range,
                    (#[trigger] r[j]).key_range,
                ) by {
                    if i == 0 {
                        assert(r[j] == rr[j - 1]);
                        assert(rest.contains(rr[j - 1]));
                        let k = choose|k: int| 0 <= k < rest.len() && rest[k] == rr[j - 1];
                        assert(s[k + 1] == r[j]);
                        assert(!overlap(s[0].key_range, s[k + 1].key_range));
                    } else {
                        assert(r[i] == rr[i - 1] && r[j] == rr[j - 1]);
                    }
                }
            }
        }
        if distinct_ids(s) {
            assert forall|i: int| 0 <= i < rest.len() implies #[trigger] rest[i] == s[i + 1] by {}
            assert(distinct_ids(rest));
            if !has_table_id(stale, s[0].id) {
                assert forall|i: int, j: int| 0 <= i < j < r.len() implies (#[trigger] r[i]).id != (
                #[trigger] r[j]).id by {
                    if i == 0 {
                        assert(r[j] == rr[j - 1]);
                        assert(rest.contains(rr[j - 1]));
                        let k = choose|k: int| 0 <= k < rest.len() && rest[k] == rr[j - 1];
                        assert(s[k + 1] == r[j]);
                        assert(s[0].id != s[k + 1].id);
                    } else {
                        assert(r[i] == rr[i - 1] && r[j] == rr[j - 1]);
                    }
                }
            }
        }
    }
}

/// A sorted rearrangement of a disjoint, duplicate-free set of tables is
/// still disjoint and duplicate-free: the run invariant survives re-sorting.
pub proof fn lemma_permutation_keeps_disjoint(s: Seq<SstableInfoView>, t: Seq<SstableInfoView>)
    requires
        nonoverlapping(s),
        distinct_ids(s),
        t.to_multiset() == s.to_multiset(),
    ensures
        nonoverlapping(t),
        distinct_ids(t),
{
    broadcast use vstd::seq_lib::group_to_multiset_ensures;

    assert(s.no_duplicates()) by {
        assert forall|i: int, j: int| 0 <= i < s.len() && 0 <= j < s.len() && i != j implies s[i]
            != s[j] by {
            if i < j {
                assert(s[i].id != s[j].id);
            } else {
                assert(s[j].id != s[i].id);
            }
        }
    }
    s.lemma_multiset_has_no_duplicates();
    assert forall|x: SstableInfoView| t.to_multiset().contains(x) implies t.to_multiset().count(x)
        == 1 by {
        assert(s.to_multiset().contains(x));
    }
    t.lemma_multiset_has_no_duplicates_conv();
    assert forall|i: int, j: int| 0 <= i < j < t.len() implies !overlap(
        (#[trigger] t[i]).key_range,
        (#[trigger] t[j]).key_range,
    ) && (#[trigger] t[i]).id != (#[trigger] t[j]).id by {
        assert(t[i] != t[j]);
        assert(t.contains(t[i]) && t.contains(t[j]));
        assert(t.to_multiset().count(t[i]) > 0);
        assert(t.to_multiset().count(t[j]) > 0);
        assert(s.contains(t[i]) && s.contains(t[j]));
        let k = choose|k: int| 0 <= k < s.len() && s[k] == t[i];
        let l = choose|l: int| 0 <= l < s.len() && s[l] == t[j];
        assert(k != l);
        if k < l {
            assert(!overlap(s[k].key_range, s[l].key_range));
            assert(s[k].id != s[l].id);
        } else {
            assert(!overlap(s[l].key_range, s[k].key_range));
            crate::key_range::lemma_overlap_symmetric(s[l].key_range, s[k].key_range);
            assert(s[l].id != s[k].id);
        }
    }
}

/// The surviving tables, in their original order.
pub fn retain_live(tables: &Vec<SstableInfo>, stale: &Vec<SstableInfo>) -> (r: Vec<SstableInfo>)
    ensures
        r@.map_values(|x: SstableInfo| x@) == remove_stale(
            tables@.map_values(|x: SstableInfo| x@),
            stale@.map_values(|x: SstableInfo| x@),
        ),
{
    let ghost tv = tables@.map_values(|x: SstableInfo| x@);
    let ghost sv = stale@.map_values(|x: SstableInfo| x@);
    let mut out: Vec<SstableInfo> = Vec::new();
    let mut k: usize = 0;
    assert(tv.skip(0) =~= tv);
    while k < tables.len()
        invariant
            k <= tables@.len(),
            tv == tables@.map_values(|x: SstableInfo| x@),
            sv == stale@.map_values(|x: SstableInfo| x@),
            remove_stale(tv, sv) == out@.map_values(|x: SstableInfo| x@) + remove_stale(
                tv.skip(k as int),
                sv,
            ),
        decreases tables@.len() - k,
    {
        let ghost rem = tv.skip(k as int);
        assert(rem[0] == tv[k as int]);
        assert(rem.drop_first() =~= tv.skip(k as int + 1));
        if !contains_table_id(stale, tables[k].id) {
            let ghost ov = out@.map_values(|x: SstableInfo| x@);
            let picked = tables[k].duplicate();
            assert(picked@ == tv[k as int]);
            out.push(picked);
            assert(out@.map_values(|x: SstableInfo| x@) =~= ov.push(tv[k as int]));
            assert(ov.push(tv[k as int]) + remove_stale(tv.skip(k as int + 1), sv) =~= ov + (seq![
                tv[k as int],
            ] + remove_stale(tv.skip(k as int + 1), sv)));
        } else {
            assert(tables@[k as int]@ == tv[k as int]);
        }
        k = k + 1;
    }
    assert(tv.skip(tv.len() as int) =~= Seq::<SstableInfoView>::empty());
    assert(out@.map_values(|x: SstableInfo| x@) + Seq::<SstableInfoView>::empty()
        =~= out@.map_values(|x: SstableInfo| x@));
    out
}

/// A table-for-table copy of the list.
pub fn clone_tables(tables: &Vec<SstableInfo>) -> (r: Vec<SstableInfo>)
    ensures
        r@.map_values(|x: SstableInfo| x@) == tables@.map_values(|x: SstableInfo| x@),
{
    let ghost tv = tables@.map_values(|x: SstableInfo| x@);
    let mut out: Vec<SstableInfo> = Vec::new();
    let mut k: usize = 0;
    while k < tables.len()
        invariant
            k <= tables@.len(),
            tv == tables@.map_values(|x: SstableInfo| x@),
            out@.map_values(|x: SstableInfo| x@) == tv.subrange(0, k as int),
        decreases tables@.len() - k,
    {
        let ghost ov = out@.map_values(|x: SstableInfo| x@);
        let picked = tables[k].duplicate();
        assert(picked@ == tv[k as int]);
        out.push(picked);
        assert(out@.map_values(|x: SstableInfo| x@) =~= ov.push(picked@));
        assert(ov.push(picked@) =~= tv.subrange(0, k as int + 1));
        k = k + 1;
    }
    assert(tv.subrange(0, tv.len() as int) =~= tv);
    out
}

/// The position where a table lands in a sorted run: everything before it
/// comes earlier in the order, and it comes no later than what follows.
pub open spec fn is_insert_pos(s: Seq<SstableInfoView>, t: SstableInfoView, i: int) -> bool {
    &&& 0 <= i <= s.len()
    &&& forall|k: int| 0 <= k < i ==> range_le((#[trigger] s[k]).key_range, t.key_range)
    &&& forall|k: int| 0 <= k < i ==> !range_le(t.key_range, (#[trigger] s[k]).key_range)
    &&& i < s.len() ==> range_le(t.key_range, s[i].key_range)
}

pub open spec fn choose_insert_pos(s: Seq<SstableInfoView>, t: SstableInfoView) -> int {
    choose|i: int| is_insert_pos(s, t, i)
}

proof fn lemma_choose_insert_pos(s: Seq<SstableInfoView>, t: SstableInfoView, i: int)
    requires
        is_insert_pos(s, t, i),
    ensures
        choose_insert_pos(s, t) == i,
{
    let j = choose_insert_pos(s, t);
    assert(is_insert_pos(s, t, j));
    if j < i {
        assert(!range_le(t.key_range, s[j].key_range));
        assert(range_le(t.key_range, s[j].key_range));
    } else if i < j {
        assert(!range_le(t.key_range, s[i].key_range));
        assert(range_le(t.key_range, s[i].key_range));
    }
}

} // verus!
