//! The mathematical model of the data sources table.
//!
//! Every executable operation on [`crate::table::DataSourcesTable`] is
//! specified against the functions in this module: a table is a sequence of
//! rows in `vid` order together with the two identity counters, and each
//! operation is a function from table model to table model.

use vstd::prelude::*;

use crate::range::{range_contains, range_lower, range_wf, BlockRange};

verus! {

/// Model of one physical row.
#[verifier::ext_equal]
pub struct RowModel {
    /// Total insertion order across the table; never reused.
    pub vid: int,
    /// Validity window of the record.
    pub block_range: BlockRange,
    /// `0` for on-chain records, strictly positive and unique per table
    /// for off-chain records.
    pub causality_region: int,
    /// Which data-source template this instance is.
    pub manifest_idx: u32,
    /// Opaque constructor parameter.
    pub param: Option<Seq<u8>>,
    /// Opaque runtime context.
    pub context: Option<Seq<u8>>,
    /// Back-reference to another row's vid; passed through unexamined.
    pub parent: Option<int>,
    /// Opaque identifier; passed through unexamined.
    pub id: Option<Seq<u8>>,
}

/// Model of the logical value exchanged with callers.
#[verifier::ext_equal]
pub struct DsValue {
    pub manifest_idx: u32,
    pub param: Option<Seq<u8>>,
    pub context: Option<Seq<u8>>,
    pub creation_block: Option<i32>,
    pub is_offchain: bool,
}

/// Model of the whole table.
#[verifier::ext_equal]
pub struct TableModel {
    pub namespace: Seq<char>,
    /// The rows, in strictly increasing `vid` order.
    pub rows: Seq<RowModel>,
    /// Next vid handed out by the identity column.
    pub next_vid: int,
    /// Next causality region handed out by the identity column; always
    /// strictly positive.
    pub next_causality_region: int,
}

/// The logical value a row stands for.
pub open spec fn row_value(r: RowModel) -> DsValue {
    DsValue {
        manifest_idx: r.manifest_idx,
        param: r.param,
        context: r.context,
        creation_block: range_lower(r.block_range),
        is_offchain: r.causality_region > 0,
    }
}

/// Well-formedness of a table: rows stand in strictly increasing `vid`
/// order below the vid counter, causality regions are non-negative, below
/// the region counter, and unique among off-chain rows, and every bounded
/// interval is non-degenerate.
pub open spec fn wf(t: TableModel) -> bool {
    &&& t.next_vid >= 0
    &&& t.next_causality_region >= 1
    &&& forall|i: int|
        0 <= i < t.rows.len() ==> range_wf((#[trigger] t.rows[i]).block_range)
    &&& forall|i: int|
        0 <= i < t.rows.len() ==> 0 <= (#[trigger] t.rows[i]).causality_region
            < t.next_causality_region
    &&& forall|i: int| 0 <= i < t.rows.len() ==> 0 <= (#[trigger] t.rows[i]).vid < t.next_vid
    &&& forall|i: int, j: int|
        0 <= i < j < t.rows.len() ==> (#[trigger] t.rows[i]).vid < (#[trigger] t.rows[j]).vid
    &&& forall|i: int, j: int|
        0 <= i < j < t.rows.len() && (#[trigger] t.rows[i]).causality_region > 0
            && (#[trigger] t.rows[j]).causality_region > 0
            ==> t.rows[i].causality_region != t.rows[j].causality_region
}

/// The predicate selecting the rows live at block `b`.
pub open spec fn live_pred(b: i32) -> spec_fn(RowModel) -> bool {
    |r: RowModel| range_contains(r.block_range, b)
}

/// The map from a row to its logical value.
pub open spec fn value_fn() -> spec_fn(RowModel) -> DsValue {
    |r: RowModel| row_value(r)
}

/// The rows live at block `b`, in `vid` order.
pub open spec fn live_rows(t: TableModel, b: i32) -> Seq<RowModel> {
    t.rows.filter(live_pred(b))
}

/// The logical values live at block `b`, in `vid` order.
pub open spec fn live_values(t: TableModel, b: i32) -> Seq<DsValue> {
    live_rows(t, b).map_values(value_fn())
}

/// A value offered for insertion at block `b` must carry that block.
pub open spec fn valid_at(d: DsValue, b: i32) -> bool {
    d.creation_block == Some(b)
}

/// Insertion of a single value at block `b`: a fresh row with interval
/// `[b, +inf)`; an off-chain value draws the next causality region, an
/// on-chain value gets region `0`.
pub open spec fn insert_one(t: TableModel, d: DsValue, b: i32) -> TableModel {
    TableModel {
        namespace: t.namespace,
        rows: t.rows.push(
            RowModel {
                vid: t.next_vid,
                block_range: BlockRange::OpenEnded { lower: b },
                causality_region: if d.is_offchain {
                    t.next_causality_region
                } else {
                    0
                },
                manifest_idx: d.manifest_idx,
                param: d.param,
                context: d.context,
                parent: None,
                id: None,
            },
        ),
        next_vid: t.next_vid + 1,
        next_causality_region: if d.is_offchain {
            t.next_causality_region + 1
        } else {
            t.next_causality_region
        },
    }
}

/// Batch insertion, record by record from the left. The result is the
/// table after all records up to the first invalid one were inserted, and
/// the index of the first invalid record if there is one: a strict
/// per-record check, not an all-or-nothing batch check.
pub open spec fn insert_seq(t: TableModel, ds: Seq<DsValue>, b: i32) -> (TableModel, Option<
    int,
>)
    decreases ds.len(),
{
    if ds.len() == 0 {
        (t, None)
    } else {
        let (t1, err) = insert_seq(t, ds.drop_last(), b);
        if err is Some {
            (t1, err)
        } else if !valid_at(ds.last(), b) {
            (t1, Some(ds.len() - 1))
        } else {
            (insert_one(t1, ds.last(), b), None)
        }
    }
}

/// A row is erased by a revert of block `b` when its interval covers `b`
/// and its lower bound is exactly `b`: precisely the records created at
/// `b` and not closed since.
pub open spec fn reverted_at(r: RowModel, b: i32) -> bool {
    range_contains(r.block_range, b) && range_lower(r.block_range) == Some(b)
}

/// The predicate selecting the rows a revert of block `b` keeps.
pub open spec fn keep_pred(b: i32) -> spec_fn(RowModel) -> bool {
    |r: RowModel| !reverted_at(r, b)
}

/// Reverting block `b` deletes every row created at exactly `b`.
pub open spec fn revert_spec(t: TableModel, b: i32) -> TableModel {
    TableModel { rows: t.rows.filter(keep_pred(b)), ..t }
}

/// Null-safe value equality between a row and a logical value, the match
/// criterion of the deduplication removal.
pub open spec fn ds_matches_row(r: RowModel, d: DsValue) -> bool {
    &&& r.manifest_idx == d.manifest_idx
    &&& r.param == d.param
    &&& r.context == d.context
    &&& range_lower(r.block_range) == d.creation_block
}

/// The predicate selecting the rows `d` matches.
pub open spec fn match_pred(d: DsValue) -> spec_fn(RowModel) -> bool {
    |r: RowModel| ds_matches_row(r, d)
}

/// The map that collapses the interval of every row `d` matches.
pub open spec fn empty_match_fn(d: DsValue) -> spec_fn(RowModel) -> RowModel {
    |r: RowModel|
        if ds_matches_row(r, d) {
            RowModel { block_range: BlockRange::Empty, ..r }
        } else {
            r
        }
}

/// How many rows of `rows` the value `d` matches.
pub open spec fn matches_in(rows: Seq<RowModel>, d: DsValue) -> int {
    rows.filter(match_pred(d)).len() as int
}

/// How many rows of `t` the value `d` matches.
pub open spec fn match_count(t: TableModel, d: DsValue) -> int {
    matches_in(t.rows, d)
}

/// Soft-delete of every row matching `d`: the interval collapses to the
/// empty interval, so the row is invisible at every block.
pub open spec fn remove_one(t: TableModel, d: DsValue) -> TableModel {
    TableModel { rows: t.rows.map_values(empty_match_fn(d)), ..t }
}

/// Batch removal, record by record from the left. Processing stops at the
/// first record that is on-chain or would affect more than one row; that
/// record's removal is not applied, the earlier ones remain applied.
pub open spec fn remove_seq(t: TableModel, ds: Seq<DsValue>) -> (TableModel, Option<int>)
    decreases ds.len(),
{
    if ds.len() == 0 {
        (t, None)
    } else {
        let (t1, err) = remove_seq(t, ds.drop_last());
        if err is Some {
            (t1, err)
        } else if !ds.last().is_offchain {
            (t1, Some(ds.len() - 1))
        } else if match_count(t1, ds.last()) > 1 {
            (t1, Some(ds.len() - 1))
        } else {
            (remove_one(t1, ds.last()), None)
        }
    }
}

/// A row is copied by a migration to `target_block` when it was created at
/// or before that block.
pub open spec fn copied_at(r: RowModel, target_block: i32) -> bool {
    match range_lower(r.block_range) {
        Some(lower) => lower <= target_block,
        None => false,
    }
}

/// The predicate selecting the rows a migration to `target_block` copies.
pub open spec fn copied_pred(target_block: i32) -> spec_fn(RowModel) -> bool {
    |r: RowModel| copied_at(r, target_block)
}

/// The interval a copied row gets: an interval already closed at or before
/// `target_block` is kept, any other is reopened to `[lower, +inf)`.
pub open spec fn rebound_range(r: BlockRange, target_block: i32) -> BlockRange {
    match r {
        BlockRange::Bounded { lower, upper } => if upper <= target_block {
            r
        } else {
            BlockRange::OpenEnded { lower }
        },
        BlockRange::OpenEnded { lower } => BlockRange::OpenEnded { lower },
        BlockRange::Empty => BlockRange::Empty,
    }
}

/// The copy of row `r` placed in the destination under the fresh vid `vid`.
pub open spec fn rebound_row(r: RowModel, target_block: i32, vid: int) -> RowModel {
    RowModel { vid, block_range: rebound_range(r.block_range, target_block), ..r }
}

/// The rows a migration appends to the destination: the copied rows in
/// source `vid` order, re-bounded, under fresh vids starting at `base_vid`.
pub open spec fn copy_rows(rows: Seq<RowModel>, target_block: i32, base_vid: int) -> Seq<
    RowModel,
>
    decreases rows.len(),
{
    if rows.len() == 0 {
        Seq::empty()
    } else {
        let rest = copy_rows(rows.drop_last(), target_block, base_vid);
        if copied_at(rows.last(), target_block) {
            rest.push(rebound_row(rows.last(), target_block, base_vid + rest.len()))
        } else {
            rest
        }
    }
}

/// The destination's causality-region counter after a migration: raised
/// just above every copied region, so off-chain regions stay unique in the
/// destination.
pub open spec fn region_ceiling(rows: Seq<RowModel>, target_block: i32, cur: int) -> int
    decreases rows.len(),
{
    if rows.len() == 0 {
        cur
    } else {
        let c = region_ceiling(rows.drop_last(), target_block, cur);
        if copied_at(rows.last(), target_block) && rows.last().causality_region >= c {
            rows.last().causality_region + 1
        } else {
            c
        }
    }
}

/// The destination table after `copy_to`. A destination that already holds
/// rows is left untouched: the migration is idempotent by a row-count
/// check.
pub open spec fn copy_spec(dst: TableModel, src: TableModel, target_block: i32) -> TableModel {
    if dst.rows.len() > 0 {
        dst
    } else {
        TableModel {
            namespace: dst.namespace,
            rows: copy_rows(src.rows, target_block, dst.next_vid),
            next_vid: dst.next_vid + copy_rows(src.rows, target_block, dst.next_vid).len(),
            next_causality_region: region_ceiling(
                src.rows,
                target_block,
                dst.next_causality_region,
            ),
        }
    }
}

/// The row count `copy_to` reports: the pre-existing count when it is a
/// no-op, else the number of rows copied.
pub open spec fn copy_count(dst: TableModel, src: TableModel, target_block: i32) -> int {
    if dst.rows.len() > 0 {
        dst.rows.len() as int
    } else {
        copy_rows(src.rows, target_block, dst.next_vid).len() as int
    }
}

} // verus!
