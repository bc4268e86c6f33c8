//! Tier compaction picker: selects a batch of mutually overlapping level-0
//! files (a connected component under the range-overlap relation), together
//! with the level-1 files their key space touches, and reserves all of them
//! under a fresh task id.

use vstd::prelude::*;
use crate::key_range::{
    KeyRange, KeyRangeView, bytes_lt, clone_bytes, lemma_lex_total, lex_le, overlap,
};
use crate::level::{Level, SstableInfo, SstableInfoView, distinct_ids};
use crate::level_handler::{LevelHandler, LevelHandlerView, pending, task_present, wf_handler};

verus! {

/// Every table after the first overlaps an earlier member: the batch is
/// connected under the overlap relation.
/// Some earlier member of the batch overlaps the member at `k`.
pub open spec fn has_earlier_overlap(s: Seq<SstableInfoView>, k: int) -> bool {
    exists|m: int| 0 <= m < k && overlap(s[k].key_range, (#[trigger] s[m]).key_range)
}

pub open spec fn chain_connected(s: Seq<SstableInfoView>) -> bool {
    forall|k: int| 1 <= k < s.len() ==> #[trigger] has_earlier_overlap(s, k)
}

/// No free table outside the batch overlaps any member: mutually overlapping
/// files are merged atomically, or not at all.
pub open spec fn closed_component(
    sel: Seq<SstableInfoView>,
    l0: Seq<SstableInfoView>,
    h0: LevelHandlerView,
) -> bool {
    forall|m: int, k: int|
        0 <= m < l0.len() && 0 <= k < sel.len() && !pending(h0, l0[m].id) && !sel.contains(l0[m])
            ==> !(#[trigger] overlap(l0[m].key_range, sel[k].key_range))
}

/// The table's range intersects some member of the batch.
pub open spec fn overlaps_some(t: SstableInfoView, sel: Seq<SstableInfoView>) -> bool {
    exists|k: int| 0 <= k < sel.len() && overlap(t.key_range, (#[trigger] sel[k]).key_range)
}

/// The target-level tables whose ranges intersect the batch, in level order.
pub open spec fn filter_overlapping(
    l1: Seq<SstableInfoView>,
    sel: Seq<SstableInfoView>,
) -> Seq<SstableInfoView>
    decreases l1.len(),
{
    if l1.len() == 0 {
        Seq::empty()
    } else if overlaps_some(l1[0], sel) {
        seq![l1[0]] + filter_overlapping(l1.drop_first(), sel)
    } else {
        filter_overlapping(l1.drop_first(), sel)
    }
}

/// A compaction candidate: the batch to merge, the target-level files it
/// rewrites, and the key sub-ranges the worker may split its output by.
pub struct SearchResult {
    pub select_level: Level,
    pub target_level: Level,
    pub split_ranges: Vec<KeyRange>,
}

/// The ids of the tables, in order.
pub open spec fn ids_of(s: Seq<SstableInfoView>) -> Seq<u64> {
    Seq::new(s.len(), |k: int| s[k].id)
}

/// The tables of `l0` at the given component indices.
pub open spec fn tables_at(l0: Seq<SstableInfoView>, comp: Seq<usize>) -> Seq<SstableInfoView> {
    Seq::new(comp.len(), |k: int| l0[comp[k] as int])
}

/// What a returned compaction candidate promises: a free, connected, closed
/// batch of at least two level-0 files; exactly the overlapping target files,
/// all free; and one split range covering every input.
pub open spec fn valid_pick(
    sel: Seq<SstableInfoView>,
    tgt: Seq<SstableInfoView>,
    splits: Seq<KeyRangeView>,
    l0: Seq<SstableInfoView>,
    l1: Seq<SstableInfoView>,
    h0: LevelHandlerView,
    h1: LevelHandlerView,
) -> bool {
    &&& sel.len() >= 2
    &&& distinct_ids(sel)
    &&& forall|k: int| 0 <= k < sel.len() ==> l0.contains(#[trigger] sel[k])
    &&& forall|k: int| 0 <= k < sel.len() ==> !pending(h0, (#[trigger] sel[k]).id)
    &&& chain_connected(sel)
    &&& closed_component(sel, l0, h0)
    &&& tgt == filter_overlapping(l1, sel)
    &&& forall|k: int| 0 <= k < tgt.len() ==> !pending(h1, (#[trigger] tgt[k]).id)
    &&& splits.len() == 1
    &&& forall|k: int|
        0 <= k < (sel + tgt).len() ==> lex_le(splits[0].left, ((sel + tgt)[k]).key_range.left)
            && lex_le((#[trigger] (sel + tgt)[k]).key_range.right, splits[0].right)
}

proof fn lemma_distinct_bounded_len(s: Seq<int>, n: int)
    requires
        n >= 0,
        s.no_duplicates(),
        forall|k: int| 0 <= k < s.len() ==> 0 <= #[trigger] s[k] < n,
    ensures
        s.len() <= n,
{
    broadcast use vstd::set::group_set_axioms;
    broadcast use vstd::seq_lib::group_seq_properties;

    s.unique_seq_to_set();
    assert(s.to_set().subset_of(vstd::set_lib::set_int_range(0, n))) by {
        assert forall|x: int| s.to_set().contains(x) implies vstd::set_lib::set_int_range(
            0,
            n,
        ).contains(x) by {
            assert(s.contains(x));
        }
    }
    vstd::set_lib::lemma_int_range(0, n);
    vstd::set_lib::lemma_len_subset(s.to_set(), vstd::set_lib::set_int_range(0, n));
}

/// The indices of the connected component of `seed` among the free tables,
/// grown breadth-first, together with its membership markers.
fn component_of(
    tables: &Vec<SstableInfo>,
    free: &Vec<bool>,
    seed: usize,
) -> (r: (Vec<usize>, Vec<bool>))
    requires
        free@.len() == tables@.len(),
        seed < tables@.len(),
        free@[seed as int],
    ensures
        ({
            let l0 = tables@.map_values(|t: SstableInfo| t@);
            let comp = r.0@;
            let inset = r.1@;
            &&& inset.len() == l0.len()
            &&& comp.len() >= 1 && comp[0] == seed
            &&& comp.no_duplicates()
            &&& forall|k: int| 0 <= k < comp.len() ==> (#[trigger] comp[k]) < l0.len()
            &&& forall|k: int| 0 <= k < comp.len() ==> free@[#[trigger] comp[k] as int]
            &&& forall|t: int| 0 <= t < l0.len() ==> (inset[t] == comp.contains(t as usize))
            &&& forall|k: int|
                1 <= k < comp.len() ==> exists|m: int|
                    0 <= m < k && overlap(
                        (#[trigger] l0[comp[k] as int]).key_range,
                        l0[comp[m] as int].key_range,
                    )
            &&& forall|t: int, k: int|
                0 <= t < l0.len() && 0 <= k < comp.len() && free@[t] && !inset[t] ==> !(
                #[trigger] overlap(l0[t].key_range, l0[comp[k] as int].key_range))
        }),
{
    let ghost l0 = tables@.map_values(|t: SstableInfo| t@);
    let n: usize = tables.len();
    let mut comp: Vec<usize> = Vec::new();
    let mut inset: Vec<bool> = Vec::new();
    let mut t0: usize = 0;
    while t0 < n
        invariant
            t0 <= n,
            inset@.len() == t0,
            forall|t: int| 0 <= t < t0 ==> !(#[trigger] inset@[t]),
        decreases n - t0,
    {
        inset.push(false);
        t0 = t0 + 1;
    }
    comp.push(seed);
    inset.set(seed, true);
    proof {
        assert(comp@ =~= seq![seed]);
        assert forall|u: int| 0 <= u < l0.len() implies (inset@[u] == comp@.contains(
            u as usize,
        )) by {
            if u == seed as int {
                assert(comp@[0] == seed);
            } else if comp@.contains(u as usize) {
                let w = choose|w: int| 0 <= w < comp@.len() && comp@[w] == u as usize;
                assert(w == 0);
            }
        }
    }
    let mut head: usize = 0;
    while head < comp.len()
        invariant
            free@.len() == l0.len(),
            l0 == tables@.map_values(|t: SstableInfo| t@),
            n == l0.len(),
            inset@.len() == l0.len(),
            head <= comp@.len(),
            comp@.len() >= 1 && comp@[0] == seed,
            comp@.no_duplicates(),
            forall|k: int| 0 <= k < comp@.len() ==> (#[trigger] comp@[k]) < l0.len(),
            forall|k: int| 0 <= k < comp@.len() ==> free@[#[trigger] comp@[k] as int],
            forall|t: int| 0 <= t < l0.len() ==> (inset@[t] == comp@.contains(t as usize)),
            forall|k: int|
                1 <= k < comp@.len() ==> exists|m: int|
                    0 <= m < k && overlap(
                        (#[trigger] l0[comp@[k] as int]).key_range,
                        l0[comp@[m] as int].key_range,
                    ),
            forall|t: int, k: int|
                0 <= t < l0.len() && 0 <= k < head && free@[t] && !inset@[t] ==> !(
                #[trigger] overlap(l0[t].key_range, l0[comp@[k] as int].key_range)),
            comp@.len() <= n,
        decreases n - head,
    {
        let c: usize = comp[head];
        let mut t: usize = 0;
        while t < n
            invariant
                free@.len() == l0.len(),
                l0 == tables@.map_values(|x: SstableInfo| x@),
                n == l0.len(),
                inset@.len() == l0.len(),
                head < comp@.len(),
                c == comp@[head as int],
                t <= n,
                comp@.len() >= 1 && comp@[0] == seed,
                comp@.no_duplicates(),
                forall|k: int| 0 <= k < comp@.len() ==> (#[trigger] comp@[k]) < l0.len(),
                forall|k: int| 0 <= k < comp@.len() ==> free@[#[trigger] comp@[k] as int],
                forall|u: int| 0 <= u < l0.len() ==> (inset@[u] == comp@.contains(u as usize)),
                forall|k: int|
                    1 <= k < comp@.len() ==> exists|m: int|
                        0 <= m < k && overlap(
                            (#[trigger] l0[comp@[k] as int]).key_range,
                            l0[comp@[m] as int].key_range,
                        ),
                forall|u: int, k: int|
                    0 <= u < l0.len() && 0 <= k < head && free@[u] && !inset@[u] ==> !(
                    #[trigger] overlap(l0[u].key_range, l0[comp@[k] as int].key_range)),
                forall|u: int|
                    0 <= u < t && free@[u] && !inset@[u] ==> !(#[trigger] overlap(
                        l0[u].key_range,
                        l0[c as int].key_range,
                    )),
                comp@.len() <= n,
            decreases n - t,
        {
            if free[t] && !inset[t] {
                if tables[t].key_range.overlaps(&tables[c].key_range) {
                    proof {
                        assert(!comp@.contains(t as usize));
                    }
                    let ghost pre_comp = comp@;
                    comp.push(t);
                    inset.set(t, true);
                    proof {
                        assert(comp@ =~= pre_comp.push(t as usize));
                        assert forall|u: int| 0 <= u < l0.len() implies (inset@[u] == comp@.contains(
                            u as usize,
                        )) by {
                            if u == t as int {
                                assert(comp@[comp@.len() - 1] == t as usize);
                            } else {
                                assert(comp@.contains(u as usize) == pre_comp.contains(u as usize))
                                    by {
                                    if pre_comp.contains(u as usize) {
                                        let w = choose|w: int|
                                            0 <= w < pre_comp.len() && pre_comp[w] == u as usize;
                                        assert(comp@[w] == u as usize);
                                    }
                                    if comp@.contains(u as usize) {
                                        let w = choose|w: int|
                                            0 <= w < comp@.len() && comp@[w] == u as usize;
                                        assert(w < pre_comp.len());
                                        assert(pre_comp[w] == u as usize);
                                    }
                                }
                            }
                        }
                        let newk = comp@.len() - 1;
                        assert(overlap(l0[comp@[newk] as int].key_range, l0[c as int].key_range));
                        assert(comp@[head as int] == c);
                        assert forall|k: int| 1 <= k < comp@.len() implies exists|m: int|
                            0 <= m < k && overlap(
                                (#[trigger] l0[comp@[k] as int]).key_range,
                                l0[comp@[m] as int].key_range,
                            ) by {
                            if k < newk {
                                assert(comp@[k] == pre_comp[k]);
                                let m = choose|m: int|
                                    0 <= m < k && overlap(
                                        l0[pre_comp[k] as int].key_range,
                                        l0[pre_comp[m] as int].key_range,
                                    );
                                assert(comp@[m] == pre_comp[m]);
                                assert(overlap(
                                    l0[comp@[k] as int].key_range,
                                    l0[comp@[m] as int].key_range,
                                ));
                            } else {
                                assert(overlap(
                                    l0[comp@[k] as int].key_range,
                                    l0[comp@[head as int] as int].key_range,
                                ));
                            }
                        }
                        assert(comp@.no_duplicates()) by {
                            assert forall|a: int, b: int| 0 <= a < b < comp@.len() implies comp@[a]
                                != comp@[b] by {
                                if b == comp@.len() - 1 {
                                    assert(comp@[a] == pre_comp[a]);
                                    assert(pre_comp.contains(pre_comp[a]));
                                }
                            }
                        }
                        let mapped = comp@.map_values(|x: usize| x as int);
                        assert(mapped.no_duplicates()) by {
                            assert forall|a: int, b: int| 0 <= a < b < mapped.len() implies mapped[a]
                                != mapped[b] by {
                                assert(comp@[a] != comp@[b]);
                            }
                        }
                        lemma_distinct_bounded_len(mapped, n as int);
                        assert(comp@.len() <= n);
                    }
                }
            }
            t = t + 1;
        }
        proof {
            assert forall|u: int, k: int|
                0 <= u < l0.len() && 0 <= k < head + 1 && free@[u] && !inset@[u] implies !(
            #[trigger] overlap(l0[u].key_range, l0[comp@[k] as int].key_range)) by {
                if k == head as int {
                    assert(comp@[k] == c);
                }
            }
        }
        head = head + 1;
    }
    (comp, inset)
}

/// Which tables of the level are still free (not reserved by any task).
fn compute_free(tables: &Vec<SstableInfo>, h: &LevelHandler) -> (free: Vec<bool>)
    ensures
        free@.len() == tables@.len(),
        forall|t: int|
            0 <= t < tables@.len() ==> #[trigger] free@[t] == !pending(h@, tables@[t]@.id),
{
    let mut free: Vec<bool> = Vec::new();
    let mut t: usize = 0;
    while t < tables.len()
        invariant
            t <= tables@.len(),
            free@.len() == t,
            forall|u: int| 0 <= u < t ==> #[trigger] free@[u] == !pending(h@, tables@[u]@.id),
        decreases tables@.len() - t,
    {
        free.push(!h.is_pending(tables[t].id));
        t = t + 1;
    }
    free
}

/// Does the table's range intersect any member of the batch?
fn overlaps_batch(t: &SstableInfo, sel: &Vec<SstableInfo>) -> (r: bool)
    ensures
        r == overlaps_some(t@, sel@.map_values(|x: SstableInfo| x@)),
{
    let ghost sv = sel@.map_values(|x: SstableInfo| x@);
    let mut k: usize = 0;
    while k < sel.len()
        invariant
            k <= sel@.len(),
            sv == sel@.map_values(|x: SstableInfo| x@),
            forall|m: int| 0 <= m < k ==> !overlap(t@.key_range, (#[trigger] sv[m]).key_range),
        decreases sel@.len() - k,
    {
        if t.key_range.overlaps(&sel[k].key_range) {
            assert(overlap(t@.key_range, sv[k as int].key_range));
            return true;
        }
        k = k + 1;
    }
    false
}

/// The target-level tables the batch's key space touches, in level order.
fn filter_overlapping_exec(l1: &Vec<SstableInfo>, sel: &Vec<SstableInfo>) -> (r: Vec<SstableInfo>)
    ensures
        r@.map_values(|x: SstableInfo| x@) == filter_overlapping(
            l1@.map_values(|x: SstableInfo| x@),
            sel@.map_values(|x: SstableInfo| x@),
        ),
{
    let ghost lv = l1@.map_values(|x: SstableInfo| x@);
    let ghost sv = sel@.map_values(|x: SstableInfo| x@);
    let mut out: Vec<SstableInfo> = Vec::new();
    let mut k: usize = 0;
    assert(lv.skip(0) =~= lv);
    while k < l1.len()
        invariant
            k <= l1@.len(),
            lv == l1@.map_values(|x: SstableInfo| x@),
            sv == sel@.map_values(|x: SstableInfo| x@),
            filter_overlapping(lv, sv) == out@.map_values(|x: SstableInfo| x@)
                + filter_overlapping(lv.skip(k as int), sv),
        decreases l1@.len() - k,
    {
        let ghost rem = lv.skip(k as int);
        assert(rem[0] == lv[k as int]);
        assert(rem.drop_first() =~= lv.skip(k as int + 1));
        if overlaps_batch(&l1[k], sel) {
            let ghost ov = out@.map_values(|x: SstableInfo| x@);
            out.push(l1[k].duplicate());
            assert(out@.map_values(|x: SstableInfo| x@) =~= ov.push(lv[k as int]));
            assert(ov.push(lv[k as int]) + filter_overlapping(lv.skip(k as int + 1), sv) =~= ov + (
            seq![lv[k as int]] + filter_overlapping(lv.skip(k as int + 1), sv)));
        }
        k = k + 1;
    }
    assert(lv.skip(lv.len() as int) =~= Seq::<SstableInfoView>::empty());
    assert(out@.map_values(|x: SstableInfo| x@) + Seq::<SstableInfoView>::empty()
        =~= out@.map_values(|x: SstableInfo| x@));
    out
}

/// Is any of the tables reserved in the handler?
fn any_pending(tables: &Vec<SstableInfo>, h: &LevelHandler) -> (r: bool)
    ensures
        r == exists|k: int| 0 <= k < tables@.len() && pending(h@, (#[trigger] tables@[k])@.id),
{
    let mut k: usize = 0;
    while k < tables.len()
        invariant
            k <= tables@.len(),
            forall|m: int| 0 <= m < k ==> !pending(h@, (#[trigger] tables@[m])@.id),
        decreases tables@.len() - k,
    {
        if h.is_pending(tables[k].id) {
            assert(pending(h@, tables@[k as int]@.id));
            return true;
        }
        k = k + 1;
    }
    false
}

/// Copies the tables at the given component indices, in component order.
fn collect_selected(tables: &Vec<SstableInfo>, comp: &Vec<usize>) -> (r: Vec<SstableInfo>)
    requires
        forall|k: int| 0 <= k < comp@.len() ==> (#[trigger] comp@[k]) < tables@.len(),
    ensures
        r@.map_values(|x: SstableInfo| x@) == Seq::new(
            comp@.len(),
            |k: int| tables@.map_values(|x: SstableInfo| x@)[comp@[k] as int],
        ),
{
    let ghost l0 = tables@.map_values(|x: SstableInfo| x@);
    let ghost goal = Seq::new(comp@.len(), |k: int| l0[comp@[k] as int]);
    let mut out: Vec<SstableInfo> = Vec::new();
    let mut k: usize = 0;
    while k < comp.len()
        invariant
            k <= comp@.len(),
            l0 == tables@.map_values(|x: SstableInfo| x@),
            goal == Seq::new(comp@.len(), |k: int| l0[comp@[k] as int]),
            forall|m: int| 0 <= m < comp@.len() ==> (#[trigger] comp@[m]) < l0.len(),
            out@.map_values(|x: SstableInfo| x@) == goal.subrange(0, k as int),
        decreases comp@.len() - k,
    {
        let picked = tables[comp[k]].duplicate();
        assert(picked@ == l0[comp@[k as int] as int]);
        assert(goal[k as int] == l0[comp@[k as int] as int]);
        let ghost prevm = out@.map_values(|x: SstableInfo| x@);
        out.push(picked);
        assert(out@.map_values(|x: SstableInfo| x@) =~= prevm.push(picked@));
        assert(prevm.push(picked@) =~= goal.subrange(0, k as int + 1));
        k = k + 1;
    }
    assert(goal.subrange(0, comp@.len() as int) =~= goal);
    out
}

/// The smallest table id of the batch, for the deterministic tie-break.
fn min_table_id(sel: &Vec<SstableInfo>) -> (r: u64)
    requires
        sel@.len() >= 1,
    ensures
        forall|k: int| 0 <= k < sel@.len() ==> r <= (#[trigger] sel@[k])@.id,
        exists|k: int| 0 <= k < sel@.len() && r == (#[trigger] sel@[k])@.id,
{
    let mut best: u64 = sel[0].id;
    assert(best == sel@[0]@.id);
    let mut k: usize = 1;
    while k < sel.len()
        invariant
            1 <= k <= sel@.len(),
            forall|m: int| 0 <= m < k ==> best <= (#[trigger] sel@[m])@.id,
            exists|m: int| 0 <= m < k && best == (#[trigger] sel@[m])@.id,
        decreases sel@.len() - k,
    {
        if sel[k].id < best {
            best = sel[k].id;
            assert(best == sel@[k as int]@.id);
        }
        k = k + 1;
    }
    best
}

/// One key range covering every input table: the least left bound up to the
/// greatest right bound.
fn compute_split(inputs: &Vec<SstableInfo>) -> (r: KeyRange)
    requires
        inputs@.len() >= 1,
    ensures
        ({
            let iv = inputs@.map_values(|x: SstableInfo| x@);
            &&& forall|k: int| 0 <= k < iv.len() ==> lex_le(r@.left, (#[trigger] iv[k]).key_range.left)
            &&& forall|k: int|
                0 <= k < iv.len() ==> lex_le((#[trigger] iv[k]).key_range.right, r@.right)
            &&& exists|k: int| 0 <= k < iv.len() && r@.left == (#[trigger] iv[k]).key_range.left
            &&& exists|k: int| 0 <= k < iv.len() && r@.right == (#[trigger] iv[k]).key_range.right
        }),
{
    let ghost iv = inputs@.map_values(|x: SstableInfo| x@);
    let mut left = clone_bytes(&inputs[0].key_range.left);
    let mut right = clone_bytes(&inputs[0].key_range.right);
    assert(left@ == iv[0].key_range.left);
    assert(right@ == iv[0].key_range.right);
    let mut k: usize = 1;
    while k < inputs.len()
        invariant
            1 <= k <= iv.len(),
            iv == inputs@.map_values(|x: SstableInfo| x@),
            forall|m: int| 0 <= m < k ==> lex_le(left@, (#[trigger] iv[m]).key_range.left),
            forall|m: int| 0 <= m < k ==> lex_le((#[trigger] iv[m]).key_range.right, right@),
            exists|m: int| 0 <= m < k && left@ == (#[trigger] iv[m]).key_range.left,
            exists|m: int| 0 <= m < k && right@ == (#[trigger] iv[m]).key_range.right,
        decreases iv.len() - k,
    {
        let ghost old_left = left@;
        let ghost old_right = right@;
        if bytes_lt(&inputs[k].key_range.left, &left) {
            left = clone_bytes(&inputs[k].key_range.left);
            assert(left@ == iv[k as int].key_range.left);
            assert forall|m: int| 0 <= m < k + 1 implies lex_le(
                left@,
                (#[trigger] iv[m]).key_range.left,
            ) by {
                if m < k {
                    if old_left == iv[m].key_range.left {
                    } else {
                        crate::key_range::lemma_lex_trans(left@, old_left, iv[m].key_range.left);
                    }
                }
            }
        } else {
            proof {
                lemma_lex_total(left@, iv[k as int].key_range.left);
            }
        }
        if bytes_lt(&right, &inputs[k].key_range.right) {
            right = clone_bytes(&inputs[k].key_range.right);
            assert(right@ == iv[k as int].key_range.right);
            assert forall|m: int| 0 <= m < k + 1 implies lex_le(
                (#[trigger] iv[m]).key_range.right,
                right@,
            ) by {
                if m < k {
                    if iv[m].key_range.right == old_right {
                    } else {
                        crate::key_range::lemma_lex_trans(iv[m].key_range.right, old_right, right@);
                    }
                }
            }
        } else {
            proof {
                lemma_lex_total(iv[k as int].key_range.right, right@);
            }
        }
        k = k + 1;
    }
    KeyRange { left, right }
}

/// The two input lists, one after the other.
fn concat_tables(a: &Vec<SstableInfo>, b: &Vec<SstableInfo>) -> (r: Vec<SstableInfo>)
    ensures
        r@.map_values(|x: SstableInfo| x@) == a@.map_values(|x: SstableInfo| x@) + b@.map_values(
            |x: SstableInfo| x@,
        ),
{
    let ghost av = a@.map_values(|x: SstableInfo| x@);
    let ghost bv = b@.map_values(|x: SstableInfo| x@);
    let mut out: Vec<SstableInfo> = Vec::new();
    let mut k: usize = 0;
    while k < a.len()
        invariant
            k <= a@.len(),
            av == a@.map_values(|x: SstableInfo| x@),
            out@.map_values(|x: SstableInfo| x@) == av.subrange(0, k as int),
        decreases a@.len() - k,
    {
        let ghost prevm = out@.map_values(|x: SstableInfo| x@);
        let picked = a[k].duplicate();
        assert(picked@ == av[k as int]);
        out.push(picked);
        assert(out@.map_values(|x: SstableInfo| x@) =~= prevm.push(picked@));
        assert(prevm.push(picked@) =~= av.subrange(0, k as int + 1));
        k = k + 1;
    }
    assert(av.subrange(0, av.len() as int) =~= av);
    let mut m: usize = 0;
    while m < b.len()
        invariant
            m <= b@.len(),
            av == a@.map_values(|x: SstableInfo| x@),
            bv == b@.map_values(|x: SstableInfo| x@),
            out@.map_values(|x: SstableInfo| x@) == av + bv.subrange(0, m as int),
        decreases b@.len() - m,
    {
        let ghost prevm = out@.map_values(|x: SstableInfo| x@);
        let picked = b[m].duplicate();
        assert(picked@ == bv[m as int]);
        out.push(picked);
        assert(out@.map_values(|x: SstableInfo| x@) =~= prevm.push(picked@));
        assert(prevm.push(picked@) =~= av + bv.subrange(0, m as int + 1));
        m = m + 1;
    }
    assert(av + bv.subrange(0, bv.len() as int) =~= av + bv);
    out
}

/// The ids of the tables, in order.
fn collect_ids(tables: &Vec<SstableInfo>) -> (r: Vec<u64>)
    ensures
        r@ == ids_of(tables@.map_values(|x: SstableInfo| x@)),
{
    let ghost tv = tables@.map_values(|x: SstableInfo| x@);
    let mut out: Vec<u64> = Vec::new();
    let mut k: usize = 0;
    while k < tables.len()
        invariant
            k <= tables@.len(),
            tv == tables@.map_values(|x: SstableInfo| x@),
            out@ == ids_of(tv).subrange(0, k as int),
        decreases tables@.len() - k,
    {
        out.push(tables[k].id);
        assert(out@ =~= ids_of(tv).subrange(0, k as int + 1));
        k = k + 1;
    }
    assert(ids_of(tv).subrange(0, tv.len() as int) =~= ids_of(tv));
    out
}

/// Level-0 tiering: the only compaction shape this picker produces.
pub struct TierCompactionPicker {
    pub task_id: u64,
}

impl TierCompactionPicker {
    pub fn new(task_id: u64) -> (r: TierCompactionPicker)
        ensures
            r.task_id == task_id,
    {
        TierCompactionPicker { task_id }
    }

    /// Picks one eligible batch — the largest connected component of free
    /// level-0 files, ties broken by the smallest table id — and reserves its
    /// tables, together with the overlapping target-level tables, under the
    /// picker's task id. Returns nothing if no component of at least two free
    /// files exists whose target-level overlaps are all free.
    pub fn pick_compaction(
        &self,
        levels: &Vec<Level>,
        level_handlers: &mut Vec<LevelHandler>,
    ) -> (r: Option<SearchResult>)
        requires
            levels@.len() >= 2,
            levels@[0]@.level_idx == 0,
            levels@[1]@.level_idx == 1,
            distinct_ids(levels@[0]@.table_infos),
            distinct_ids(levels@[1]@.table_infos),
            old(level_handlers)@.len() >= 2,
            wf_handler(old(level_handlers)@[0]@),
            wf_handler(old(level_handlers)@[1]@),
            !task_present(old(level_handlers)@[0]@, self.task_id),
            !task_present(old(level_handlers)@[1]@, self.task_id),
        ensures
            ({
                let l0 = levels@[0]@.table_infos;
                let l1 = levels@[1]@.table_infos;
                let h0 = old(level_handlers)@[0]@;
                let h1 = old(level_handlers)@[1]@;
                match r {
                    None => {
                        &&& *final(level_handlers) == *old(level_handlers)
                        &&& (h0.reserved.len() == 0 && h1.reserved.len() == 0) ==> forall|
                            i: int,
                            j: int,
                        |
                            0 <= i < j < l0.len() ==> !(#[trigger] overlap(
                                l0[i].key_range,
                                l0[j].key_range,
                            ))
                    },
                    Some(sr) => {
                        let sel = sr.select_level@.table_infos;
                        let tgt = sr.target_level@.table_infos;
                        &&& sr.select_level@.level_idx == 0
                        &&& sr.target_level@.level_idx == 1
                        &&& valid_pick(
                            sel,
                            tgt,
                            sr.split_ranges@.map_values(|x: KeyRange| x@),
                            l0,
                            l1,
                            h0,
                            h1,
                        )
                        &&& final(level_handlers)@.len() == old(level_handlers)@.len()
                        &&& final(level_handlers)@[0]@ == LevelHandlerView {
                            level_idx: h0.level_idx,
                            reserved: h0.reserved.push(
                                crate::level_handler::ReservationView {
                                    task_id: self.task_id,
                                    ssts: ids_of(sel),
                                },
                            ),
                        }
                        &&& final(level_handlers)@[1]@ == LevelHandlerView {
                            level_idx: h1.level_idx,
                            reserved: h1.reserved.push(
                                crate::level_handler::ReservationView {
                                    task_id: self.task_id,
                                    ssts: ids_of(tgt),
                                },
                            ),
                        }
                        &&& forall|i: int|
                            2 <= i < final(level_handlers)@.len() ==> final(level_handlers)@[i]
                                == old(level_handlers)@[i]
                        &&& wf_handler(final(level_handlers)@[0]@)
                        &&& wf_handler(final(level_handlers)@[1]@)
                    },
                }
            }),
    {
        let ghost l0 = levels@[0]@.table_infos;
        let ghost l1 = levels@[1]@.table_infos;
        let ghost h0v = old(level_handlers)@[0]@;
        let ghost h1v = old(level_handlers)@[1]@;
        let ghost emp = h0v.reserved.len() == 0 && h1v.reserved.len() == 0;
        let tables0 = &levels[0].table_infos;
        proof {
            assert(l0 =~= tables0@.map_values(|x: SstableInfo| x@));
        }
        let n: usize = tables0.len();
        let free = compute_free(tables0, &level_handlers[0]);
        proof {
            assert forall|u: int| 0 <= u < n && emp implies #[trigger] free@[u] by {
                assert(free@[u] == !pending(h0v, tables0@[u]@.id));
            }
        }
        let mut visited: Vec<bool> = Vec::new();
        let mut t0: usize = 0;
        while t0 < n
            invariant
                t0 <= n,
                visited@.len() == t0,
                forall|t: int| 0 <= t < t0 ==> !(#[trigger] visited@[t]),
            decreases n - t0,
        {
            visited.push(false);
            t0 = t0 + 1;
        }
        let mut have_best: bool = false;
        let mut best_comp: Vec<usize> = Vec::new();
        let mut best_size: usize = 0;
        let mut best_min: u64 = 0;
        let mut s: usize = 0;
        while s < n
            invariant
                n == l0.len(),
                l0 == levels@[0]@.table_infos,
                l1 == levels@[1]@.table_infos,
                l0 == tables0@.map_values(|x: SstableInfo| x@),
                tables0 == &levels@[0].table_infos,
                levels@.len() >= 2,
                distinct_ids(l0),
                level_handlers@ == old(level_handlers)@,
                old(level_handlers)@.len() >= 2,
                h0v == old(level_handlers)@[0]@,
                h1v == old(level_handlers)@[1]@,
                emp == (h0v.reserved.len() == 0 && h1v.reserved.len() == 0),
                free@.len() == n,
                forall|t: int| 0 <= t < n ==> #[trigger] free@[t] == !pending(h0v, tables0@[t]@.id),
                forall|t: int| 0 <= t < n && emp ==> #[trigger] free@[t],
                visited@.len() == n,
                s <= n,
                forall|u: int| 0 <= u < s && emp ==> #[trigger] visited@[u],
                (emp && !have_best) ==> forall|u: int, w: int|
                    0 <= u < n && 0 <= w < n && u != w && visited@[u] ==> !(#[trigger] overlap(
                        l0[u].key_range,
                        l0[w].key_range,
                    )),
                have_best ==> ({
                    let sb = tables_at(l0, best_comp@);
                    &&& best_comp@.len() >= 2
                    &&& forall|k: int| 0 <= k < best_comp@.len() ==> (#[trigger] best_comp@[k]) < n
                    &&& distinct_ids(sb)
                    &&& chain_connected(sb)
                    &&& closed_component(sb, l0, h0v)
                    &&& forall|k: int| 0 <= k < sb.len() ==> l0.contains(#[trigger] sb[k])
                    &&& forall|k: int| 0 <= k < sb.len() ==> !pending(h0v, (#[trigger] sb[k]).id)
                    &&& forall|k: int|
                        0 <= k < filter_overlapping(l1, sb).len() ==> !pending(
                            h1v,
                            (#[trigger] filter_overlapping(l1, sb)[k]).id,
                        )
                }),
            decreases n - s,
        {
            if free[s] && !visited[s] {
                let cr = component_of(tables0, &free, s);
                let comp = cr.0;
                let inset = cr.1;
                let ghost pre_visited = visited@;
                let mut t: usize = 0;
                while t < n
                    invariant
                        n == l0.len(),
                        visited@.len() == n,
                        inset@.len() == n,
                        t <= n,
                        pre_visited.len() == n,
                        forall|u: int|
                            0 <= u < n ==> #[trigger] visited@[u] == (pre_visited[u] || (u < t
                                && inset@[u])),
                    decreases n - t,
                {
                    if inset[t] {
                        visited.set(t, true);
                    }
                    t = t + 1;
                }
                let ghost sb = tables_at(l0, comp@);
                proof {
                    assert(inset@[s as int]) by {
                        assert(comp@[0] == s);
                        assert(comp@.contains(s));
                    }
                    assert(visited@[s as int]);
                    assert forall|k: int| 0 <= k < sb.len() implies (#[trigger] sb[k])
                        == l0[comp@[k] as int] && l0.contains(sb[k]) && !pending(
                        h0v,
                        sb[k].id,
                    ) by {
                        assert(free@[comp@[k] as int]);
                        assert(tables0@[comp@[k] as int]@ == l0[comp@[k] as int]);
                    }
                    assert(distinct_ids(sb)) by {
                        assert forall|i: int, j: int| 0 <= i < j < sb.len() implies (
                        #[trigger] sb[i]).id != (#[trigger] sb[j]).id by {
                            let a = comp@[i] as int;
                            let b = comp@[j] as int;
                            assert(comp@[i] != comp@[j]);
                            if a < b {
                                assert(l0[a].id != l0[b].id);
                            } else {
                                assert(l0[b].id != l0[a].id);
                            }
                        }
                    }
                    assert(chain_connected(sb)) by {
                        assert forall|k: int| 1 <= k < sb.len() implies #[trigger] has_earlier_overlap(
                            sb,
                            k,
                        ) by {
                            assert((comp@[k] as int) < l0.len());
                            assert(exists|m: int|
                                0 <= m < k && overlap(
                                    l0[comp@[k] as int].key_range,
                                    l0[comp@[m] as int].key_range,
                                ));
                            let m = choose|m: int|
                                0 <= m < k && overlap(
                                    l0[comp@[k] as int].key_range,
                                    l0[comp@[m] as int].key_range,
                                );
                            assert(sb[m] == l0[comp@[m] as int]);
                            assert(overlap(sb[k].key_range, sb[m].key_range));
                        }
                    }
                    assert(closed_component(sb, l0, h0v)) by {
                        assert forall|m: int, k: int|
                            0 <= m < l0.len() && 0 <= k < sb.len() && !pending(h0v, l0[m].id)
                                && !sb.contains(l0[m]) implies !(#[trigger] overlap(
                            l0[m].key_range,
                            sb[k].key_range,
                        )) by {
                            assert(free@[m] == !pending(h0v, tables0@[m]@.id));
                            assert(tables0@[m]@ == l0[m]);
                            if inset@[m] {
                                assert(comp@.contains(m as usize));
                                let w = choose|w: int|
                                    0 <= w < comp@.len() && comp@[w] == m as usize;
                                assert(sb[w] == l0[m]);
                                assert(sb.contains(l0[m]));
                            } else {
                                assert(!(overlap(
                                    l0[m].key_range,
                                    l0[comp@[k] as int].key_range,
                                )));
                            }
                        }
                    }
                }
                if comp.len() >= 2 {
                    let sel = collect_selected(tables0, &comp);
                    proof {
                        assert(sel@.map_values(|x: SstableInfo| x@) =~= sb);
                    }
                    let tgt = filter_overlapping_exec(&levels[1].table_infos, &sel);
                    proof {
                        assert(l1 =~= levels@[1].table_infos@.map_values(|x: SstableInfo| x@));
                        assert(tgt@.map_values(|x: SstableInfo| x@) == filter_overlapping(l1, sb));
                    }
                    let blocked = any_pending(&tgt, &level_handlers[1]);
                    if !blocked {
                        let mid = min_table_id(&sel);
                        if !have_best || comp.len() > best_size || (comp.len() == best_size && mid
                            < best_min) {
                            proof {
                                assert forall|k: int|
                                    0 <= k < filter_overlapping(l1, sb).len() implies !pending(
                                    h1v,
                                    (#[trigger] filter_overlapping(l1, sb)[k]).id,
                                ) by {
                                    assert(tgt@[k]@ == filter_overlapping(l1, sb)[k]);
                                }
                            }
                            best_size = comp.len();
                            best_min = mid;
                            best_comp = comp;
                            have_best = true;
                        }
                    } else {
                        proof {
                            if emp {
                                let k = choose|k: int|
                                    0 <= k < tgt@.len() && pending(h1v, (#[trigger] tgt@[k])@.id);
                                assert(false);
                            }
                        }
                    }
                } else {
                    proof {
                        if emp && !have_best {
                            assert(comp@.len() == 1);
                        }
                    }
                }
                proof {
                    if emp && !have_best {
                        assert(comp@.len() == 1);
                        assert forall|u: int, w: int|
                            0 <= u < n && 0 <= w < n && u != w && visited@[u] implies !(
                        #[trigger] overlap(l0[u].key_range, l0[w].key_range)) by {
                            if pre_visited[u] {
                            } else {
                                assert(inset@[u]);
                                assert(comp@.contains(u as usize));
                                let q = choose|q: int| 0 <= q < comp@.len() && comp@[q] == u as usize;
                                assert(q == 0);
                                assert(u == comp@[0] as int);
                                assert(!inset@[w]) by {
                                    if inset@[w] {
                                        assert(comp@.contains(w as usize));
                                        let q2 = choose|q2: int|
                                            0 <= q2 < comp@.len() && comp@[q2] == w as usize;
                                        assert(q2 == 0);
                                    }
                                }
                                assert(free@[w]);
                                assert(!(overlap(
                                    l0[w].key_range,
                                    l0[comp@[0] as int].key_range,
                                )));
                                crate::key_range::lemma_overlap_symmetric(
                                    l0[u].key_range,
                                    l0[w].key_range,
                                );
                            }
                        }
                    }
                }
            }
            s = s + 1;
        }
        if !have_best {
            return None;
        }
        let ghost sb = tables_at(l0, best_comp@);
        let sel = collect_selected(tables0, &best_comp);
        proof {
            assert(sel@.map_values(|x: SstableInfo| x@) =~= sb);
        }
        let tgt = filter_overlapping_exec(&levels[1].table_infos, &sel);
        proof {
            assert(l1 =~= levels@[1].table_infos@.map_values(|x: SstableInfo| x@));
            assert(tgt@.map_values(|x: SstableInfo| x@) == filter_overlapping(l1, sb));
        }
        let all_inputs = concat_tables(&sel, &tgt);
        proof {
            assert(all_inputs@.map_values(|x: SstableInfo| x@).len() == all_inputs@.len());
            assert(sb.len() >= 2);
        }
        let split = compute_split(&all_inputs);
        let sel_ids = collect_ids(&sel);
        let tgt_ids = collect_ids(&tgt);
        proof {
            assert(sel_ids@ =~= ids_of(sb));
            assert(tgt_ids@ =~= ids_of(filter_overlapping(l1, sb)));
            assert forall|k: int| 0 <= k < sel_ids@.len() implies !pending(
                h0v,
                #[trigger] sel_ids@[k],
            ) by {
                assert(sel_ids@[k] == sb[k].id);
            }
            assert forall|k: int| 0 <= k < tgt_ids@.len() implies !pending(
                h1v,
                #[trigger] tgt_ids@[k],
            ) by {
                assert(tgt_ids@[k] == filter_overlapping(l1, sb)[k].id);
            }
        }
        let ghost pre_handlers = level_handlers@;
        let mut h0 = level_handlers.remove(0);
        h0.add_task(self.task_id, sel_ids);
        level_handlers.insert(0, h0);
        let ghost mid_handlers = level_handlers@;
        proof {
            assert(mid_handlers.len() == pre_handlers.len());
            assert(mid_handlers[1] == pre_handlers[1]);
            assert forall|i: int|
                2 <= i < mid_handlers.len() implies mid_handlers[i] == pre_handlers[i] by {}
        }
        let mut h1 = level_handlers.remove(1);
        h1.add_task(self.task_id, tgt_ids);
        level_handlers.insert(1, h1);
        proof {
            assert(level_handlers@.len() == pre_handlers.len());
            assert(level_handlers@[0] == mid_handlers[0]);
            assert forall|i: int|
                2 <= i < level_handlers@.len() implies level_handlers@[i] == pre_handlers[i] by {
                assert(level_handlers@[i] == mid_handlers[i]);
            }
        }
        let mut split_ranges: Vec<KeyRange> = Vec::new();
        split_ranges.push(split);
        let result = SearchResult {
            select_level: Level { level_idx: 0, table_infos: sel },
            target_level: Level { level_idx: 1, table_infos: tgt },
            split_ranges,
        };
        proof {
            assert(result.select_level@.table_infos == sb);
            assert(result.target_level@.table_infos == filter_overlapping(l1, sb));
            assert(result.split_ranges@.map_values(|x: KeyRange| x@) =~= seq![split@]);
            let selt = result.select_level@.table_infos;
            let tgtt = result.target_level@.table_infos;
            assert(all_inputs@.map_values(|x: SstableInfo| x@) == selt + tgtt);
            assert forall|k: int| 0 <= k < (selt + tgtt).len() implies lex_le(
                split@.left,
                ((selt + tgtt)[k]).key_range.left,
            ) && lex_le((#[trigger] (selt + tgtt)[k]).key_range.right, split@.right) by {
                assert((selt + tgtt)[k] == all_inputs@.map_values(|x: SstableInfo| x@)[k]);
            }
        }
        Some(result)
    }
}

} // verus!
