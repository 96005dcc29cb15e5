//! Preservation of table well-formedness by the five operations, and
//! step-by-step characterizations of the batch folds that the executable
//! loops are proved against.

use vstd::prelude::*;

use crate::model::{
    copied_at, copied_pred, copy_rows, copy_spec, insert_one, insert_seq, keep_pred, live_pred,
    live_values, match_count, rebound_row, region_ceiling, remove_one, remove_seq, row_value,
    valid_at, wf, DsValue, RowModel, TableModel,
};
use crate::range::{range_contains, range_wf, BlockRange};
use crate::seq_facts::{lemma_filter_index, lemma_filter_pair, lemma_filter_push};

verus! {

pub proof fn lemma_insert_one_wf(t: TableModel, d: DsValue, b: i32)
    requires
        wf(t),
    ensures
        wf(insert_one(t, d, b)),
        insert_one(t, d, b).namespace == t.namespace,
        insert_one(t, d, b).next_vid == t.next_vid + 1,
        t.next_causality_region <= insert_one(t, d, b).next_causality_region
            <= t.next_causality_region + 1,
{
    let t1 = insert_one(t, d, b);
    assert(forall|i: int| 0 <= i < t.rows.len() ==> #[trigger] t1.rows[i] == t.rows[i]);
    assert(t1.rows[t.rows.len() as int].vid == t.next_vid);
}

/// `insert_seq` keeps the table well formed, moves the counters by at most
/// one step per record, succeeds exactly when every record carries the
/// batch block, and reports the first offending record otherwise.
pub proof fn lemma_insert_seq_props(t: TableModel, ds: Seq<DsValue>, b: i32)
    requires
        wf(t),
    ensures
        ({
            let (t1, err) = insert_seq(t, ds, b);
            &&& wf(t1)
            &&& t1.namespace == t.namespace
            &&& t.next_vid <= t1.next_vid <= t.next_vid + ds.len()
            &&& t.next_causality_region <= t1.next_causality_region <= t.next_causality_region
                + ds.len()
            &&& (err is None <==> (forall|k: int|
                0 <= k < ds.len() ==> valid_at(#[trigger] ds[k], b)))
            &&& (err matches Some(k) ==> 0 <= k < ds.len() && !valid_at(ds[k], b) && (forall|
                m: int,
            |
                0 <= m < k ==> valid_at(#[trigger] ds[m], b)))
        }),
    decreases ds.len(),
{
    if ds.len() > 0 {
        let dl = ds.drop_last();
        lemma_insert_seq_props(t, dl, b);
        let (t1, err) = insert_seq(t, dl, b);
        if err is None && valid_at(ds.last(), b) {
            lemma_insert_one_wf(t1, ds.last(), b);
            assert forall|k: int| 0 <= k < ds.len() implies valid_at(#[trigger] ds[k], b) by {
                if k < ds.len() - 1 {
                    assert(valid_at(dl[k], b));
                } else {
                    assert(ds[k] == ds.last());
                }
            }
        } else {
            if forall|k: int| 0 <= k < ds.len() ==> valid_at(#[trigger] ds[k], b) {
                assert forall|m: int| 0 <= m < dl.len() implies valid_at(
                    #[trigger] dl[m],
                    b,
                ) by {
                    assert(valid_at(ds[m], b));
                }
                assert(valid_at(ds[ds.len() - 1], b));
                assert(false);
            }
            match err {
                Some(k0) => {
                    assert(!valid_at(ds[k0], b)) by {
                        assert(dl[k0] == ds[k0]);
                    }
                    assert forall|m: int| 0 <= m < k0 implies valid_at(#[trigger] ds[m], b) by {
                        assert(valid_at(dl[m], b));
                    }
                },
                None => {
                    assert(!valid_at(ds[ds.len() - 1], b));
                    assert forall|m: int| 0 <= m < ds.len() - 1 implies valid_at(
                        #[trigger] ds[m],
                        b,
                    ) by {
                        assert(valid_at(dl[m], b));
                    }
                },
            }
        }
    }
}

/// One step of the batch insert: extending the processed prefix by one
/// record.
pub proof fn lemma_insert_seq_take_step(t: TableModel, ds: Seq<DsValue>, b: i32, i: int)
    requires
        0 <= i < ds.len(),
    ensures
        ({
            let prev = insert_seq(t, ds.take(i), b);
            insert_seq(t, ds.take(i + 1), b) == if prev.1 is Some {
                prev
            } else if !valid_at(ds[i], b) {
                (prev.0, Some(i))
            } else {
                (insert_one(prev.0, ds[i], b), None::<int>)
            }
        }),
{
    let s = ds.take(i + 1);
    assert(s.drop_last() =~= ds.take(i));
    assert(s.last() == ds[i]);
    assert(s.len() - 1 == i);
}

/// Once a prefix has failed, the rest of the batch changes nothing.
pub proof fn lemma_insert_seq_err_stable(t: TableModel, ds: Seq<DsValue>, b: i32, i: int)
    requires
        0 <= i <= ds.len(),
        insert_seq(t, ds.take(i), b).1 is Some,
    ensures
        insert_seq(t, ds, b) == insert_seq(t, ds.take(i), b),
    decreases ds.len(),
{
    if i == ds.len() {
        assert(ds.take(i) =~= ds);
    } else {
        let dl = ds.drop_last();
        assert(ds.take(i) =~= dl.take(i));
        lemma_insert_seq_err_stable(t, dl, b, i);
    }
}

pub proof fn lemma_remove_one_wf(t: TableModel, d: DsValue)
    requires
        wf(t),
    ensures
        wf(remove_one(t, d)),
{
    let t1 = remove_one(t, d);
    assert(forall|i: int|
        0 <= i < t.rows.len() ==> (#[trigger] t1.rows[i]).vid == t.rows[i].vid
            && t1.rows[i].causality_region == t.rows[i].causality_region && range_wf(
            t1.rows[i].block_range,
        ));
}

/// One step of the batch removal.
pub proof fn lemma_remove_seq_take_step(t: TableModel, ds: Seq<DsValue>, i: int)
    requires
        0 <= i < ds.len(),
    ensures
        ({
            let prev = remove_seq(t, ds.take(i));
            remove_seq(t, ds.take(i + 1)) == if prev.1 is Some {
                prev
            } else if !ds[i].is_offchain {
                (prev.0, Some(i))
            } else if match_count(prev.0, ds[i]) > 1 {
                (prev.0, Some(i))
            } else {
                (remove_one(prev.0, ds[i]), None::<int>)
            }
        }),
{
    let s = ds.take(i + 1);
    assert(s.drop_last() =~= ds.take(i));
    assert(s.last() == ds[i]);
    assert(s.len() - 1 == i);
}

/// Once a prefix has failed, the rest of the batch changes nothing.
pub proof fn lemma_remove_seq_err_stable(t: TableModel, ds: Seq<DsValue>, i: int)
    requires
        0 <= i <= ds.len(),
        remove_seq(t, ds.take(i)).1 is Some,
    ensures
        remove_seq(t, ds) == remove_seq(t, ds.take(i)),
    decreases ds.len(),
{
    if i == ds.len() {
        assert(ds.take(i) =~= ds);
    } else {
        let dl = ds.drop_last();
        assert(ds.take(i) =~= dl.take(i));
        lemma_remove_seq_err_stable(t, dl, i);
    }
}

/// A fully valid batch appends its rows behind the existing ones, each
/// with the open-ended interval starting at the batch block.
pub proof fn lemma_insert_seq_rows(t: TableModel, ds: Seq<DsValue>, b: i32)
    requires
        wf(t),
        forall|k: int| 0 <= k < ds.len() ==> valid_at(#[trigger] ds[k], b),
    ensures
        ({
            let t2 = insert_seq(t, ds, b).0;
            &&& t2.rows.len() == t.rows.len() + ds.len()
            &&& forall|m: int| 0 <= m < t.rows.len() ==> #[trigger] t2.rows[m] == t.rows[m]
            &&& forall|m: int|
                t.rows.len() <= m < t2.rows.len() ==> (#[trigger] t2.rows[m]).block_range
                    == (BlockRange::OpenEnded { lower: b })
        }),
    decreases ds.len(),
{
    if ds.len() > 0 {
        let dl = ds.drop_last();
        assert forall|k: int| 0 <= k < dl.len() implies valid_at(#[trigger] dl[k], b) by {
            assert(valid_at(ds[k], b));
        }
        lemma_insert_seq_rows(t, dl, b);
        lemma_insert_seq_props(t, dl, b);
        assert(valid_at(ds[ds.len() - 1], b));
        let t1 = insert_seq(t, dl, b).0;
        let t2 = insert_seq(t, ds, b).0;
        assert(t2 == insert_one(t1, ds.last(), b));
        assert(forall|m: int| 0 <= m < t1.rows.len() ==> #[trigger] t2.rows[m] == t1.rows[m]);
    }
}

/// The values live at `b2` after a fully valid batch insert at `b`: the
/// previously live values, followed by the batch exactly when `b2` is at
/// or after `b`.
pub proof fn lemma_insert_seq_lives(t: TableModel, ds: Seq<DsValue>, b: i32, b2: i32)
    requires
        wf(t),
        forall|k: int| 0 <= k < ds.len() ==> valid_at(#[trigger] ds[k], b),
    ensures
        live_values(insert_seq(t, ds, b).0, b2) == if b2 >= b {
            live_values(t, b2) + ds
        } else {
            live_values(t, b2)
        },
    decreases ds.len(),
{
    if ds.len() == 0 {
        assert(live_values(t, b2) + ds =~= live_values(t, b2));
    } else {
        let dl = ds.drop_last();
        assert forall|k: int| 0 <= k < dl.len() implies valid_at(#[trigger] dl[k], b) by {
            assert(valid_at(ds[k], b));
        }
        assert(valid_at(ds[ds.len() - 1], b));
        lemma_insert_seq_lives(t, dl, b, b2);
        lemma_insert_seq_props(t, dl, b);
        let t1 = insert_seq(t, dl, b).0;
        let t2 = insert_one(t1, ds.last(), b);
        assert(insert_seq(t, ds, b).0 == t2);
        assert(t2.rows =~= t1.rows.push(t2.rows.last()));
        lemma_filter_push(t1.rows, live_pred(b2), t2.rows.last());
        assert(row_value(t2.rows.last()) =~= ds.last());
        if b2 >= b {
            assert(range_contains(t2.rows.last().block_range, b2));
            assert(live_values(t2, b2) =~= live_values(t1, b2).push(ds.last()));
            assert(live_values(t1, b2) == live_values(t, b2) + dl);
            assert((live_values(t, b2) + dl).push(ds.last()) =~= live_values(t, b2) + ds);
        } else {
            assert(!range_contains(t2.rows.last().block_range, b2));
            assert(live_values(t2, b2) =~= live_values(t1, b2));
        }
    }
}

/// When no row is selected, the region ceiling is the current counter.
pub proof fn lemma_region_ceiling_unselected(rows: Seq<RowModel>, target_block: i32, cur: int)
    requires
        forall|i: int| 0 <= i < rows.len() ==> !copied_at(#[trigger] rows[i], target_block),
    ensures
        region_ceiling(rows, target_block, cur) == cur,
    decreases rows.len(),
{
    if rows.len() > 0 {
        let dl = rows.drop_last();
        assert forall|i: int| 0 <= i < dl.len() implies !copied_at(
            #[trigger] dl[i],
            target_block,
        ) by {
            assert(!copied_at(rows[i], target_block));
        }
        lemma_region_ceiling_unselected(dl, target_block, cur);
        assert(!copied_at(rows[rows.len() - 1], target_block));
    }
}

/// A revert keeps the table well formed: the kept rows are a subsequence.
pub proof fn lemma_revert_wf(t: TableModel, b: i32)
    requires
        wf(t),
    ensures
        wf(crate::model::revert_spec(t, b)),
{
    let t1 = crate::model::revert_spec(t, b);
    let f = t.rows.filter(keep_pred(b));
    assert forall|k: int| 0 <= k < f.len() implies range_wf((#[trigger] f[k]).block_range) && 0
        <= f[k].causality_region < t.next_causality_region && 0 <= f[k].vid < t.next_vid by {
        lemma_filter_index(t.rows, keep_pred(b), k);
        let i = choose|i: int| 0 <= i < t.rows.len() && t.rows[i] == f[k];
        assert(range_wf(t.rows[i].block_range));
    }
    assert forall|k1: int, k2: int| 0 <= k1 < k2 < f.len() implies (#[trigger] f[k1]).vid < (
    #[trigger] f[k2]).vid && (f[k1].causality_region > 0 && f[k2].causality_region > 0
        ==> f[k1].causality_region != f[k2].causality_region) by {
        lemma_filter_pair(t.rows, keep_pred(b), k1, k2);
        let (i1, i2) = choose|i1: int, i2: int|
            0 <= i1 < i2 < t.rows.len() && t.rows[i1] == f[k1] && t.rows[i2] == f[k2];
        assert(t.rows[i1].vid < t.rows[i2].vid);
    }
}

/// The copied rows are exactly the selected rows, re-bounded, with fresh
/// consecutive vids starting at `base_vid`.
pub proof fn lemma_copy_rows_index(rows: Seq<RowModel>, target_block: i32, base_vid: int)
    ensures
        copy_rows(rows, target_block, base_vid).len() == rows.filter(
            copied_pred(target_block),
        ).len(),
        forall|k: int|
            0 <= k < copy_rows(rows, target_block, base_vid).len()
                ==> #[trigger] copy_rows(rows, target_block, base_vid)[k] == rebound_row(
                rows.filter(copied_pred(target_block))[k],
                target_block,
                base_vid + k,
            ),
    decreases rows.len(),
{
    if rows.len() > 0 {
        let dl = rows.drop_last();
        lemma_copy_rows_index(dl, target_block, base_vid);
        lemma_filter_push(dl, copied_pred(target_block), rows.last());
        assert(dl.push(rows.last()) =~= rows);
    }
}

/// The region ceiling sits above the current counter and above every
/// copied region.
pub proof fn lemma_region_ceiling(rows: Seq<RowModel>, target_block: i32, cur: int)
    ensures
        cur <= region_ceiling(rows, target_block, cur),
        forall|i: int|
            0 <= i < rows.len() && copied_at(#[trigger] rows[i], target_block)
                ==> rows[i].causality_region < region_ceiling(rows, target_block, cur),
    decreases rows.len(),
{
    if rows.len() > 0 {
        let dl = rows.drop_last();
        lemma_region_ceiling(dl, target_block, cur);
        assert forall|i: int|
            0 <= i < rows.len() && copied_at(#[trigger] rows[i], target_block) implies rows[i].causality_region
            < region_ceiling(rows, target_block, cur) by {
            if i < rows.len() - 1 {
                assert(dl[i] == rows[i]);
                assert(copied_at(dl[i], target_block));
            } else {
                assert(rows[i] == rows.last());
            }
        }
    }
}

/// A migration into an empty destination leaves the destination well
/// formed.
pub proof fn lemma_copy_wf(dst: TableModel, src: TableModel, target_block: i32)
    requires
        wf(dst),
        wf(src),
    ensures
        wf(copy_spec(dst, src, target_block)),
{
    if dst.rows.len() == 0 {
        let t1 = copy_spec(dst, src, target_block);
        let sel = copied_pred(target_block);
        let f = src.rows.filter(sel);
        lemma_copy_rows_index(src.rows, target_block, dst.next_vid);
        lemma_region_ceiling(src.rows, target_block, dst.next_causality_region);
        assert forall|k: int| 0 <= k < t1.rows.len() implies range_wf(
            (#[trigger] t1.rows[k]).block_range,
        ) && 0 <= t1.rows[k].causality_region < t1.next_causality_region && 0 <= t1.rows[k].vid
            < t1.next_vid by {
            lemma_filter_index(src.rows, sel, k);
            let i = choose|i: int| 0 <= i < src.rows.len() && src.rows[i] == f[k];
            assert(t1.rows[k] == rebound_row(f[k], target_block, dst.next_vid + k));
            assert(range_wf(src.rows[i].block_range));
            assert(copied_at(src.rows[i], target_block));
            assert(src.rows[i].causality_region < t1.next_causality_region);
        }
        assert forall|k1: int, k2: int| 0 <= k1 < k2 < t1.rows.len() implies (
        #[trigger] t1.rows[k1]).vid < (#[trigger] t1.rows[k2]).vid && (
        t1.rows[k1].causality_region > 0 && t1.rows[k2].causality_region > 0
            ==> t1.rows[k1].causality_region != t1.rows[k2].causality_region) by {
            assert(t1.rows[k1] == rebound_row(f[k1], target_block, dst.next_vid + k1));
            assert(t1.rows[k2] == rebound_row(f[k2], target_block, dst.next_vid + k2));
            lemma_filter_pair(src.rows, sel, k1, k2);
            let (i1, i2) = choose|i1: int, i2: int|
                0 <= i1 < i2 < src.rows.len() && src.rows[i1] == f[k1] && src.rows[i2] == f[k2];
            assert(src.rows[i1].causality_region > 0 && src.rows[i2].causality_region > 0
                ==> src.rows[i1].causality_region != src.rows[i2].causality_region);
        }
    }
}

} // verus!
