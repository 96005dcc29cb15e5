//! The laws the table maintains, stated and proved over the model:
//! ordering of loads, liveness of inserted records, revert as the inverse
//! of insert, uniqueness of causality regions, and idempotence and
//! correctness of migration.

use vstd::prelude::*;

use crate::invariants::{
    lemma_copy_rows_index, lemma_insert_seq_lives, lemma_insert_seq_rows,
    lemma_region_ceiling_unselected,
};
use crate::model::{
    copied_pred, copy_count, copy_rows, copy_spec, insert_seq, keep_pred, live_pred,
    live_rows, live_values, rebound_row, revert_spec, reverted_at, row_value, valid_at,
    value_fn, wf, DsValue, TableModel,
};
use crate::range::{range_contains, BlockRange};
use crate::seq_facts::{
    lemma_filter_all, lemma_filter_implied, lemma_filter_index, lemma_filter_map_pointwise,
    lemma_filter_none,
};
use crate::sort::{
    key_filter, lemma_ssort_contains, lemma_ssort_sorted, lemma_ssort_stable, load_spec,
    sorted_by_creation,
};

verus! {

/// Ordering: at every block, a load is sorted by creation block, and the
/// records of one creation block keep the order the live rows have in
/// `vid` order — together, `(creation_block, vid)` order.
pub proof fn lemma_load_ordering(t: TableModel, b: i32)
    ensures
        sorted_by_creation(load_spec(t, b)),
        forall|c: i32|
            #[trigger] key_filter(load_spec(t, b), c) == key_filter(live_values(t, b), c),
{
    lemma_ssort_sorted(live_values(t, b));
    assert forall|c: i32|
        #[trigger] key_filter(load_spec(t, b), c) == key_filter(live_values(t, b), c) by {
        lemma_ssort_stable(live_values(t, b), c);
    }
}

/// Every loaded value carries a creation block, at or before the queried
/// block.
pub proof fn lemma_load_creation_bounds(t: TableModel, b: i32)
    ensures
        forall|k: int|
            0 <= k < load_spec(t, b).len() ==> (#[trigger] load_spec(t, b)[k]).creation_block
                is Some && load_spec(t, b)[k].creation_block->0 <= b,
{
    let lives = live_values(t, b);
    assert forall|k: int|
        0 <= k < load_spec(t, b).len() implies (#[trigger] load_spec(t, b)[k]).creation_block
        is Some && load_spec(t, b)[k].creation_block->0 <= b by {
        let v = load_spec(t, b)[k];
        assert(load_spec(t, b).contains(v));
        lemma_ssort_contains(lives, v);
        let m = choose|m: int| 0 <= m < lives.len() && lives[m] == v;
        assert(v == row_value(live_rows(t, b)[m]));
        t.rows.lemma_filter_pred(live_pred(b), m);
        assert(range_contains(live_rows(t, b)[m].block_range, b));
    }
}

/// Liveness: after a fully valid batch insert at block `b`, every record
/// of the batch is in the load at any block `b2 >= b`; loads below `b`
/// are unchanged, and no value created at `b` appears in them.
pub proof fn lemma_insert_liveness(t: TableModel, ds: Seq<DsValue>, b: i32, b2: i32)
    requires
        wf(t),
        forall|k: int| 0 <= k < ds.len() ==> valid_at(#[trigger] ds[k], b),
    ensures
        ({
            let t2 = insert_seq(t, ds, b).0;
            &&& b2 >= b ==> forall|i: int|
                0 <= i < ds.len() ==> load_spec(t2, b2).contains(#[trigger] ds[i])
            &&& b2 < b ==> load_spec(t2, b2) == load_spec(t, b2)
            &&& b2 < b ==> forall|i: int|
                0 <= i < ds.len() ==> !load_spec(t2, b2).contains(#[trigger] ds[i])
        }),
{
    let t2 = insert_seq(t, ds, b).0;
    lemma_insert_seq_lives(t, ds, b, b2);
    if b2 >= b {
        assert forall|i: int| 0 <= i < ds.len() implies load_spec(t2, b2).contains(
            #[trigger] ds[i],
        ) by {
            let lives = live_values(t2, b2);
            assert(lives[live_values(t, b2).len() + i] == ds[i]);
            assert(lives.contains(ds[i]));
            lemma_ssort_contains(lives, ds[i]);
        }
    } else {
        lemma_load_creation_bounds(t2, b2);
        assert forall|i: int| 0 <= i < ds.len() implies !load_spec(t2, b2).contains(
            #[trigger] ds[i],
        ) by {
            if load_spec(t2, b2).contains(ds[i]) {
                let k = choose|k: int|
                    0 <= k < load_spec(t2, b2).len() && load_spec(t2, b2)[k] == ds[i];
                assert(load_spec(t2, b2)[k].creation_block->0 <= b2);
                assert(ds[i].creation_block == Some(b));
            }
        }
    }
}

/// Revert inverts insert: after a fully valid batch insert at `b`
/// followed by a revert of `b`, loads below `b` are as before the
/// insert; the load at `b` holds no record created at `b`; and when no
/// pre-existing row was created at `b` and still open, the rows are
/// exactly the rows before the insert.
pub proof fn lemma_revert_inverts_insert(t: TableModel, ds: Seq<DsValue>, b: i32, b2: i32)
    requires
        wf(t),
        forall|k: int| 0 <= k < ds.len() ==> valid_at(#[trigger] ds[k], b),
    ensures
        ({
            let t2 = insert_seq(t, ds, b).0;
            let t3 = revert_spec(t2, b);
            &&& b2 < b ==> load_spec(t3, b2) == load_spec(t, b2)
            &&& forall|v: DsValue|
                load_spec(t3, b).contains(v) ==> (#[trigger] v.creation_block) != Some(b)
            &&& (forall|m: int|
                0 <= m < t.rows.len() ==> !reverted_at(#[trigger] t.rows[m], b)) ==> t3.rows
                == t.rows
        }),
{
    let t2 = insert_seq(t, ds, b).0;
    let t3 = revert_spec(t2, b);
    lemma_insert_seq_rows(t, ds, b);

    // Loads below b are untouched: rows live below b are never reverted.
    if b2 < b {
        assert forall|m: int|
            0 <= m < t2.rows.len() && live_pred(b2)(#[trigger] t2.rows[m]) implies keep_pred(
            b,
        )(t2.rows[m]) by {
            assert(range_contains(t2.rows[m].block_range, b2));
        }
        lemma_filter_implied(t2.rows, keep_pred(b), live_pred(b2));
        assert(live_rows(t3, b2) == live_rows(t2, b2));
        assert(live_values(t3, b2) == live_values(t2, b2));
        lemma_insert_seq_lives(t, ds, b, b2);
        assert(live_values(t3, b2) == live_values(t, b2));
    }

    // Nothing created at b survives the revert at b.
    assert forall|v: DsValue| load_spec(t3, b).contains(v) implies (
    #[trigger] v.creation_block) != Some(b) by {
        lemma_ssort_contains(live_values(t3, b), v);
        let m = choose|m: int|
            0 <= m < live_values(t3, b).len() && live_values(t3, b)[m] == v;
        assert(v == row_value(live_rows(t3, b)[m]));
        let r = live_rows(t3, b)[m];
        t3.rows.lemma_filter_pred(live_pred(b), m);
        lemma_filter_index(t3.rows, live_pred(b), m);
        let n = choose|n: int| 0 <= n < t3.rows.len() && t3.rows[n] == r;
        t2.rows.lemma_filter_pred(keep_pred(b), n);
        assert(!reverted_at(r, b));
        assert(range_contains(r.block_range, b));
    }

    // With no pre-existing open row created at b, the revert deletes
    // exactly the inserted rows.
    if forall|m: int| 0 <= m < t.rows.len() ==> !reverted_at(#[trigger] t.rows[m], b) {
        let added = t2.rows.skip(t.rows.len() as int);
        assert(t2.rows =~= t.rows + added);
        Seq::filter_distributes_over_add(t.rows, added, keep_pred(b));
        lemma_filter_all(t.rows, keep_pred(b));
        assert forall|m: int| 0 <= m < added.len() implies !keep_pred(b)(
            #[trigger] added[m],
        ) by {
            assert(added[m] == t2.rows[t.rows.len() + m]);
            assert(added[m].block_range == (BlockRange::OpenEnded { lower: b }));
        }
        lemma_filter_none(added, keep_pred(b));
        assert(t3.rows =~= t.rows);
    }
}

/// Causality uniqueness: in a well-formed table, off-chain rows carry
/// pairwise distinct, strictly positive causality regions, and every
/// on-chain row carries region zero.
pub proof fn lemma_causality_uniqueness(t: TableModel)
    requires
        wf(t),
    ensures
        forall|i: int, j: int|
            0 <= i < j < t.rows.len() && (#[trigger] t.rows[i]).causality_region > 0 && (
            #[trigger] t.rows[j]).causality_region > 0 ==> t.rows[i].causality_region
                != t.rows[j].causality_region,
        forall|i: int|
            0 <= i < t.rows.len() && !row_value(#[trigger] t.rows[i]).is_offchain
                ==> t.rows[i].causality_region == 0,
{
}

/// Migration idempotence: a second `copy_to` with the same arguments
/// reports the same count and leaves the destination exactly as the
/// first one did.
pub proof fn lemma_copy_idempotent(dst: TableModel, src: TableModel, target_block: i32)
    ensures
        copy_spec(copy_spec(dst, src, target_block), src, target_block) == copy_spec(
            dst,
            src,
            target_block,
        ),
        copy_count(copy_spec(dst, src, target_block), src, target_block) == copy_count(
            dst,
            src,
            target_block,
        ),
{
    let d1 = copy_spec(dst, src, target_block);
    if dst.rows.len() == 0 && d1.rows.len() == 0 {
        lemma_copy_rows_index(src.rows, target_block, dst.next_vid);
        lemma_copy_rows_index(src.rows, target_block, d1.next_vid);
        assert(src.rows.filter(copied_pred(target_block)).len() == 0);
        assert forall|i: int| 0 <= i < src.rows.len() implies !copied_pred(target_block)(
            #[trigger] src.rows[i],
        ) by {
            if copied_pred(target_block)(src.rows[i]) {
                src.rows.lemma_filter_contains(copied_pred(target_block), i);
            }
        }
        lemma_region_ceiling_unselected(src.rows, target_block, dst.next_causality_region);
        lemma_region_ceiling_unselected(src.rows, target_block, d1.next_causality_region);
        assert(copy_rows(src.rows, target_block, d1.next_vid) =~= copy_rows(
            src.rows,
            target_block,
            dst.next_vid,
        ));
        assert(copy_spec(d1, src, target_block) =~= d1);
    }
}

/// Migration correctness: after a copy into an empty destination, the
/// load at the target block against the destination is exactly the load
/// against the source — same records, same order.
pub proof fn lemma_copy_load(dst: TableModel, src: TableModel, target_block: i32)
    requires
        dst.rows.len() == 0,
    ensures
        load_spec(copy_spec(dst, src, target_block), target_block) == load_spec(
            src,
            target_block,
        ),
{
    let d1 = copy_spec(dst, src, target_block);
    let sel = copied_pred(target_block);
    let f = src.rows.filter(sel);
    lemma_copy_rows_index(src.rows, target_block, dst.next_vid);

    // The copied rows are live at the target block exactly where their
    // originals are, and then stand for the same logical value.
    assert forall|k: int|
        0 <= k < f.len() implies live_pred(target_block)(#[trigger] d1.rows[k]) == live_pred(
        target_block,
    )(f[k]) && (live_pred(target_block)(f[k]) ==> value_fn()(d1.rows[k]) == value_fn()(
        f[k],
    )) by {
        assert(d1.rows[k] == rebound_row(f[k], target_block, dst.next_vid + k));
    }
    lemma_filter_map_pointwise(
        f,
        d1.rows,
        live_pred(target_block),
        live_pred(target_block),
        value_fn(),
    );

    // Rows live at the target block are all selected for copying.
    assert forall|m: int|
        0 <= m < src.rows.len() && live_pred(target_block)(#[trigger] src.rows[m]) implies sel(
        src.rows[m],
    ) by {
        assert(range_contains(src.rows[m].block_range, target_block));
    }
    lemma_filter_implied(src.rows, sel, live_pred(target_block));
    assert(live_values(d1, target_block) == live_values(src, target_block));
}

} // verus!
