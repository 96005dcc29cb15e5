//! The data sources table: the executable operations, verified against
//! the model in [`crate::model`].

use vstd::prelude::*;
use vstd::string::StringExecFns;

use crate::invariants::{
    lemma_copy_wf, lemma_insert_one_wf, lemma_insert_seq_err_stable, lemma_insert_seq_props,
    lemma_insert_seq_take_step, lemma_remove_one_wf, lemma_remove_seq_err_stable,
    lemma_remove_seq_take_step, lemma_revert_wf,
};
use crate::model::{
    copied_at, copy_count, copy_rows, copy_spec, ds_matches_row, empty_match_fn, insert_one,
    insert_seq, keep_pred, live_pred, match_count, match_pred, matches_in, rebound_range,
    rebound_row, region_ceiling, remove_one, remove_seq, revert_spec, reverted_at, row_value,
    valid_at, value_fn, wf, DsValue, RowModel, TableModel,
};
use crate::range::BlockRange;
use crate::seq_facts::lemma_filter_push;
use vstd::pervasive::VecAdditionalExecFns;
use crate::sort::{
    lemma_place_contains, lemma_place_insert_at, lemma_ssort_sorted, load_spec, place, ssort,
    value_key,
};

verus! {

/// The logical value of a data source, as exchanged with callers.
#[derive(Debug, Clone, PartialEq, Eq)]
pub struct StoredDynamicDataSource {
    /// Which data-source template this instance is.
    pub manifest_idx: u32,
    /// Opaque constructor parameter.
    pub param: Option<Vec<u8>>,
    /// Opaque runtime context, already serialized by the caller.
    pub context: Option<Vec<u8>>,
    /// The block the record was created at; `None` only before insertion.
    pub creation_block: Option<i32>,
    /// Whether the data source is off-chain (causality region above zero).
    pub is_offchain: bool,
}

/// The internal-consistency failures of the table operations. Storage
/// failures do not arise here; the enclosing transaction is the caller's.
#[derive(Debug, Clone, Copy, PartialEq, Eq)]
pub enum StoreError {
    /// A record offered to `insert` carries a creation block other than
    /// the batch block.
    MismatchedCreationBlock { expected: i32, actual: Option<i32> },
    /// An on-chain record was passed to `remove_offchain`.
    OnchainRemoval,
    /// A removal would affect more than one row; duplicate off-chain data
    /// sources escaped deduplication.
    MultipleMatches { matched: usize },
}

impl StoreError {
    /// A short description of the constraint violation; the variant's
    /// fields carry the offending values.
    pub fn message(&self) -> (r: String)
        ensures
            r@ == match *self {
                StoreError::MismatchedCreationBlock { .. } => "data source creation block does not match the insertion block"@,
                StoreError::OnchainRemoval => "removal by value applies only to off-chain data sources"@,
                StoreError::MultipleMatches { .. } => "a removal by value would affect more than one data source"@,
            },
    {
        match self {
            StoreError::MismatchedCreationBlock { .. } => {
                "data source creation block does not match the insertion block".to_owned()
            },
            StoreError::OnchainRemoval => {
                "removal by value applies only to off-chain data sources".to_owned()
            },
            StoreError::MultipleMatches { .. } => {
                "a removal by value would affect more than one data source".to_owned()
            },
        }
    }
}

/// The view of an optional byte payload.
pub open spec fn opt_bytes_view(o: Option<Vec<u8>>) -> Option<Seq<u8>> {
    match o {
        Some(v) => Some(v@),
        None => None,
    }
}

/// The view of an optional row reference.
pub open spec fn opt_vid_view(o: Option<i64>) -> Option<int> {
    match o {
        Some(v) => Some(v as int),
        None => None,
    }
}

impl View for StoredDynamicDataSource {
    type V = DsValue;

    open spec fn view(&self) -> DsValue {
        DsValue {
            manifest_idx: self.manifest_idx,
            param: opt_bytes_view(self.param),
            context: opt_bytes_view(self.context),
            creation_block: self.creation_block,
            is_offchain: self.is_offchain,
        }
    }
}

/// The values of a sequence of stored data sources.
pub open spec fn vals(s: Seq<StoredDynamicDataSource>) -> Seq<DsValue> {
    s.map_values(|d: StoredDynamicDataSource| d@)
}

/// One physical row.
struct Row {
    vid: i64,
    block_range: BlockRange,
    causality_region: i64,
    manifest_idx: u32,
    param: Option<Vec<u8>>,
    context: Option<Vec<u8>>,
    parent: Option<i64>,
    id: Option<Vec<u8>>,
}

spec fn row_view(r: Row) -> RowModel {
    RowModel {
        vid: r.vid as int,
        block_range: r.block_range,
        causality_region: r.causality_region as int,
        manifest_idx: r.manifest_idx,
        param: opt_bytes_view(r.param),
        context: opt_bytes_view(r.context),
        parent: opt_vid_view(r.parent),
        id: opt_bytes_view(r.id),
    }
}

spec fn rows_view(rows: Seq<Row>) -> Seq<RowModel> {
    rows.map_values(|r: Row| row_view(r))
}

/// The namespaced table of dynamic data sources. The rows stand in `vid`
/// order; the two counters model the table's identity columns.
pub struct DataSourcesTable {
    namespace: String,
    rows: Vec<Row>,
    next_vid: i64,
    next_causality_region: i64,
}

impl View for DataSourcesTable {
    type V = TableModel;

    closed spec fn view(&self) -> TableModel {
        TableModel {
            namespace: self.namespace@,
            rows: rows_view(self.rows@),
            next_vid: self.next_vid as int,
            next_causality_region: self.next_causality_region as int,
        }
    }
}

/// Byte-wise equality of two payloads.
fn bytes_eq(a: &Vec<u8>, b: &Vec<u8>) -> (r: bool)
    ensures
        r == (a@ == b@),
{
    if a.len() != b.len() {
        return false;
    }
    let mut i: usize = 0;
    while i < a.len()
        invariant
            i <= a.len(),
            a@.len() == b@.len(),
            forall|k: int| 0 <= k < i ==> a@[k] == b@[k],
        decreases a.len() - i,
    {
        if a[i] != b[i] {
            return false;
        }
        i += 1;
    }
    proof {
        assert(a@ =~= b@);
    }
    true
}

/// Null-safe equality of two optional payloads.
fn opt_bytes_eq(a: &Option<Vec<u8>>, b: &Option<Vec<u8>>) -> (r: bool)
    ensures
        r == (opt_bytes_view(*a) == opt_bytes_view(*b)),
{
    match (a, b) {
        (None, None) => true,
        (Some(x), Some(y)) => bytes_eq(x, y),
        _ => false,
    }
}

/// Null-safe equality of two optional block numbers.
fn opt_block_eq(a: Option<i32>, b: Option<i32>) -> (r: bool)
    ensures
        r == (a == b),
{
    match (a, b) {
        (None, None) => true,
        (Some(x), Some(y)) => x == y,
        _ => false,
    }
}

fn clone_bytes(v: &Vec<u8>) -> (r: Vec<u8>)
    ensures
        r@ == v@,
{
    let r = v.clone();
    proof {
        assert forall|i: int| 0 <= i < v@.len() implies r@[i] == v@[i] by {
            assert(cloned::<u8>(v@[i], r@[i]));
        }
        assert(r@ =~= v@);
    }
    r
}

fn clone_opt_bytes(o: &Option<Vec<u8>>) -> (r: Option<Vec<u8>>)
    ensures
        opt_bytes_view(r) == opt_bytes_view(*o),
{
    match o {
        Some(v) => Some(clone_bytes(v)),
        None => None,
    }
}

/// The creation block of a loaded value, which is always present.
fn creation_of(d: &StoredDynamicDataSource) -> (r: i32)
    requires
        d.creation_block is Some,
    ensures
        r == value_key(d@),
{
    match d.creation_block {
        Some(b) => b,
        None => {
            proof {
                assert(false);
            }
            0
        },
    }
}

/// Null-safe value match between a physical row and a logical value.
fn row_matches(row: &Row, d: &StoredDynamicDataSource) -> (r: bool)
    ensures
        r == ds_matches_row(row_view(*row), d@),
{
    row.manifest_idx == d.manifest_idx && opt_bytes_eq(&row.param, &d.param) && opt_bytes_eq(
        &row.context,
        &d.context,
    ) && opt_block_eq(row.block_range.lower_bound(), d.creation_block)
}

/// How many rows the value `d` matches.
fn count_matches(rows: &Vec<Row>, d: &StoredDynamicDataSource) -> (n: usize)
    ensures
        n as int == matches_in(rows_view(rows@), d@),
{
    let mut n: usize = 0;
    let mut i: usize = 0;
    while i < rows.len()
        invariant
            i <= rows@.len(),
            n as int == matches_in(rows_view(rows@.take(i as int)), d@),
            n <= i,
        decreases rows@.len() - i,
    {
        proof {
            assert(rows_view(rows@.take(i + 1)) =~= rows_view(rows@.take(i as int)).push(
                row_view(rows@[i as int]),
            ));
            lemma_filter_push(
                rows_view(rows@.take(i as int)),
                match_pred(d@),
                row_view(rows@[i as int]),
            );
        }
        if row_matches(&rows[i], d) {
            n += 1;
        }
        i += 1;
    }
    proof {
        assert(rows@.take(rows@.len() as int) =~= rows@);
    }
    n
}

/// The same row with its interval collapsed to the empty interval.
fn emptied(row: &Row) -> (r: Row)
    ensures
        row_view(r) == (RowModel { block_range: BlockRange::Empty, ..row_view(*row) }),
{
    Row {
        vid: row.vid,
        block_range: BlockRange::Empty,
        causality_region: row.causality_region,
        manifest_idx: row.manifest_idx,
        param: clone_opt_bytes(&row.param),
        context: clone_opt_bytes(&row.context),
        parent: row.parent,
        id: clone_opt_bytes(&row.id),
    }
}

/// The schema text of the table under namespace `ns`: the columns of a
/// row, an identity primary key, an identity causality-region column, a
/// self-referencing optional parent, and a containment index on the
/// interval column, so containment queries stay logarithmic.
pub open spec fn ddl_spec(ns: Seq<char>) -> Seq<char> {
    "create table "@ + ns
        + ".data_sources$ (\n    vid integer generated by default as identity primary key,\n    block_range int4range not null,\n    causality_region integer generated by default as identity,\n    manifest_idx integer not null,\n    parent integer references "@
        + ns
        + ".data_sources$,\n    id bytea,\n    param bytea,\n    context jsonb\n);\ncreate index gist_block_range_data_sources$ on "@
        + ns + ".data_sources$ using gist (block_range);\n"@
}

impl DataSourcesTable {
    /// Well-formedness: the model invariant of [`wf`].
    pub open spec fn inv(&self) -> bool {
        wf(self@)
    }

    /// Bind a namespace to a fresh, empty table description.
    pub fn new(namespace: String) -> (t: Self)
        ensures
            t@ == (TableModel {
                namespace: namespace@,
                rows: Seq::empty(),
                next_vid: 0,
                next_causality_region: 1,
            }),
            t.inv(),
    {
        let t = DataSourcesTable {
            namespace,
            rows: Vec::new(),
            next_vid: 0,
            next_causality_region: 1,
        };
        proof {
            assert(rows_view(t.rows@) =~= Seq::<RowModel>::empty());
            assert(t@ =~= (TableModel {
                namespace: t.namespace@,
                rows: Seq::empty(),
                next_vid: 0,
                next_causality_region: 1,
            }));
        }
        t
    }

    /// The namespace this table was bound to.
    pub fn namespace(&self) -> (r: &str)
        ensures
            r@ == self@.namespace,
    {
        self.namespace.as_str()
    }

    /// The qualified name of the table.
    pub fn qualified_name(&self) -> (r: String)
        ensures
            r@ == self@.namespace + ".data_sources$"@,
    {
        let mut s = String::new();
        s.append(self.namespace.as_str());
        s.append(".data_sources$");
        proof {
            assert(s@ =~= self@.namespace + ".data_sources$"@);
        }
        s
    }

    /// The schema definition of the table.
    pub fn as_ddl(&self) -> (r: String)
        ensures
            r@ == ddl_spec(self@.namespace),
    {
        let mut s = String::new();
        s.append("create table ");
        s.append(self.namespace.as_str());
        s.append(
            ".data_sources$ (\n    vid integer generated by default as identity primary key,\n    block_range int4range not null,\n    causality_region integer generated by default as identity,\n    manifest_idx integer not null,\n    parent integer references ",
        );
        s.append(self.namespace.as_str());
        s.append(
            ".data_sources$,\n    id bytea,\n    param bytea,\n    context jsonb\n);\ncreate index gist_block_range_data_sources$ on ",
        );
        s.append(self.namespace.as_str());
        s.append(".data_sources$ using gist (block_range);\n");
        proof {
            assert(s@ =~= ddl_spec(self@.namespace));
        }
        s
    }

    /// Load the records live at `block`, in `(creation_block, vid)`
    /// order: records from earlier blocks first, records of one block in
    /// insertion order.
    pub fn load(&self, block: i32) -> (r: Vec<StoredDynamicDataSource>)
        ensures
            vals(r@) == load_spec(self@, block),
    {
        let ghost rows_m = self@.rows;
        let mut result: Vec<StoredDynamicDataSource> = Vec::new();
        let mut i: usize = 0;
        while i < self.rows.len()
            invariant
                i <= self.rows.len(),
                rows_m == rows_view(self.rows@),
                vals(result@) == ssort(
                    rows_m.take(i as int).filter(live_pred(block)).map_values(value_fn()),
                ),
                forall|k: int|
                    0 <= k < result@.len() ==> (#[trigger] result@[k]).creation_block is Some,
            decreases self.rows.len() - i,
        {
            let ghost prev_lives = rows_m.take(i as int).filter(live_pred(block)).map_values(
                value_fn(),
            );
            let row = &self.rows[i];
            proof {
                assert(rows_m[i as int] == row_view(self.rows@[i as int]));
                assert(rows_m.take(i + 1) =~= rows_m.take(i as int).push(rows_m[i as int]));
                lemma_filter_push(rows_m.take(i as int), live_pred(block), rows_m[i as int]);
            }
            if row.block_range.contains_block(block) {
                let lower = match row.block_range.lower_bound() {
                    Some(l) => l,
                    None => {
                        proof {
                            assert(false);
                        }
                        0
                    },
                };
                let d = StoredDynamicDataSource {
                    manifest_idx: row.manifest_idx,
                    param: clone_opt_bytes(&row.param),
                    context: clone_opt_bytes(&row.context),
                    creation_block: Some(lower),
                    is_offchain: row.causality_region > 0,
                };
                proof {
                    assert(d@ =~= row_value(rows_m[i as int])) by {
                        assert(row_value(rows_m[i as int]) == value_fn()(rows_m[i as int]));
                    }
                }
                let mut j: usize = result.len();
                while j > 0 && creation_of(&result[j - 1]) > lower
                    invariant
                        j <= result.len(),
                        forall|k: int|
                            0 <= k < result@.len() ==> (
                            #[trigger] result@[k]).creation_block is Some,
                        forall|m: int|
                            j <= m < result@.len() ==> value_key(#[trigger] result@[m]@)
                                > lower,
                    decreases j,
                {
                    j -= 1;
                }
                let ghost pre_vals = vals(result@);
                proof {
                    lemma_ssort_sorted(prev_lives);
                    assert(forall|m: int|
                        0 <= m < pre_vals.len() ==> pre_vals[m] == #[trigger] result@[m]@);
                    assert(forall|m: int|
                        0 <= m < pre_vals.len() ==> (#[trigger] pre_vals[m]).creation_block
                            is Some);
                    assert(value_key(d@) == lower);
                    lemma_place_insert_at(pre_vals, d@, j as int);
                }
                result.insert(j, d);
                proof {
                    let new_lives = rows_m.take(i + 1).filter(live_pred(block)).map_values(
                        value_fn(),
                    );
                    assert(new_lives =~= prev_lives.push(row_value(rows_m[i as int])));
                    assert(new_lives.drop_last() =~= prev_lives);
                    assert(ssort(new_lives) == place(ssort(prev_lives), d@));
                    pre_vals.insert_ensures(j as int, d@);
                    assert(vals(result@) =~= pre_vals.insert(j as int, d@));
                    assert(vals(result@) == ssort(new_lives));
                    assert forall|k: int|
                        0 <= k < result@.len() implies (
                    #[trigger] result@[k]).creation_block is Some by {
                        let x = result@[k]@;
                        assert(vals(result@)[k] == x);
                        assert(place(ssort(prev_lives), d@).contains(x)) by {
                            assert(place(ssort(prev_lives), d@)[k] == x);
                        }
                        lemma_place_contains(ssort(prev_lives), d@, x);
                        if pre_vals.contains(x) {
                            let m = choose|m: int|
                                0 <= m < pre_vals.len() && pre_vals[m] == x;
                            assert(pre_vals[m].creation_block is Some);
                        } else {
                            assert(x == d@);
                        }
                        assert(x.creation_block is Some);
                        assert(result@[k]@.creation_block == result@[k].creation_block);
                    }
                }
            } else {
                proof {
                    assert(rows_m.take(i + 1).filter(live_pred(block)).map_values(value_fn())
                        =~= prev_lives);
                }
            }
            i += 1;
        }
        proof {
            assert(rows_m.take(rows_m.len() as int) =~= rows_m);
        }
        result
    }

    /// Insert a batch of records, all attributed to `block`. Records are
    /// checked and inserted one by one from the left; the first record
    /// whose creation block is not `block` stops the batch with a
    /// constraint violation, and the records before it stay inserted. An
    /// off-chain record draws a fresh causality region, an on-chain one
    /// gets region `0`. On success the number of inserted rows is
    /// returned. The two counter preconditions only demand headroom in
    /// the identity counters, a machine limit.
    pub fn insert(&mut self, data_sources: &[StoredDynamicDataSource], block: i32) -> (r:
        Result<usize, StoreError>)
        requires
            old(self).inv(),
            old(self)@.next_vid + data_sources@.len() <= i64::MAX,
            old(self)@.next_causality_region + data_sources@.len() <= i64::MAX,
        ensures
            final(self).inv(),
            final(self)@ == insert_seq(old(self)@, vals(data_sources@), block).0,
            (insert_seq(old(self)@, vals(data_sources@), block).1 is None <==> (forall|k: int|
                0 <= k < data_sources@.len() ==> valid_at((#[trigger] data_sources@[k])@, block))),
            (match r {
                Ok(n) => insert_seq(old(self)@, vals(data_sources@), block).1 is None && n
                    == data_sources@.len(),
                Err(e) => insert_seq(old(self)@, vals(data_sources@), block).1 matches Some(k)
                    && e == (StoreError::MismatchedCreationBlock {
                    expected: block,
                    actual: data_sources@[k].creation_block,
                }),
            }),
    {
        let ghost t0 = old(self)@;
        let ghost dvals = vals(data_sources@);
        proof {
            assert(forall|k: int|
                0 <= k < data_sources@.len() ==> dvals[k] == (#[trigger] data_sources@[k])@);
        }
        let mut i: usize = 0;
        while i < data_sources.len()
            invariant
                i <= data_sources@.len(),
                dvals == vals(data_sources@),
                dvals.len() == data_sources@.len(),
                t0 == old(self)@,
                t0.next_vid + data_sources@.len() <= i64::MAX,
                t0.next_causality_region + data_sources@.len() <= i64::MAX,
                wf(t0),
                insert_seq(t0, dvals.take(i as int), block).0 == self@,
                insert_seq(t0, dvals.take(i as int), block).1 is None,
                self@.next_vid == t0.next_vid + i,
                t0.next_causality_region <= self@.next_causality_region
                    <= t0.next_causality_region + i,
                wf(self@),
            decreases data_sources@.len() - i,
        {
            let ds = &data_sources[i];
            let ghost t_prev = self@;
            proof {
                assert(dvals[i as int] == ds@);
                lemma_insert_seq_take_step(t0, dvals, block, i as int);
            }
            let ok = match ds.creation_block {
                Some(cb) => cb == block,
                None => false,
            };
            if !ok {
                proof {
                    assert(!valid_at(dvals[i as int], block));
                    assert(insert_seq(t0, dvals.take(i + 1), block) == (self@, Some(i as int)));
                    lemma_insert_seq_err_stable(t0, dvals, block, i + 1);
                    assert(insert_seq(t0, dvals, block).0 == self@);
                    assert(insert_seq(t0, dvals, block).1 == Some(i as int));
                    assert(!valid_at(data_sources@[i as int]@, block));
                }
                return Err(StoreError::MismatchedCreationBlock {
                    expected: block,
                    actual: ds.creation_block,
                });
            }
            let causality_region: i64 = if ds.is_offchain {
                let region = self.next_causality_region;
                self.next_causality_region = self.next_causality_region + 1;
                region
            } else {
                0
            };
            let row = Row {
                vid: self.next_vid,
                block_range: BlockRange::OpenEnded { lower: block },
                causality_region,
                manifest_idx: ds.manifest_idx,
                param: clone_opt_bytes(&ds.param),
                context: clone_opt_bytes(&ds.context),
                parent: None,
                id: None,
            };
            self.next_vid = self.next_vid + 1;
            self.rows.push(row);
            proof {
                assert(self@.rows =~= t_prev.rows.push(row_view(row)));
                assert(row_view(row) =~= insert_one(t_prev, dvals[i as int], block).rows.last());
                assert(self@ =~= insert_one(t_prev, dvals[i as int], block));
                lemma_insert_one_wf(t_prev, dvals[i as int], block);
            }
            i += 1;
        }
        proof {
            assert(dvals.take(dvals.len() as int) =~= dvals);
            lemma_insert_seq_props(t0, dvals, block);
        }
        Ok(data_sources.len())
    }

    /// Undo the insertions attributed to `block`: delete every record
    /// whose interval covers `block` and begins exactly at `block`, that
    /// is, every record created at `block` and not closed since.
    pub fn revert(&mut self, block: i32)
        requires
            old(self).inv(),
        ensures
            final(self).inv(),
            final(self)@ == revert_spec(old(self)@, block),
    {
        let ghost t0 = old(self)@;
        let ghost rows0 = t0.rows;
        let mut i: usize = 0;
        let ghost mut j: int = 0;
        while i < self.rows.len()
            invariant
                0 <= j <= rows0.len(),
                i as int == rows0.take(j).filter(keep_pred(block)).len(),
                rows_view(self.rows@) == rows0.take(j).filter(keep_pred(block)) + rows0.skip(j),
                self@.namespace == t0.namespace,
                self@.next_vid == t0.next_vid,
                self@.next_causality_region == t0.next_causality_region,
                rows0 == t0.rows,
            decreases self.rows@.len() - i,
        {
            let ghost pre_vec = self.rows@;
            let ghost pre_rows = rows_view(self.rows@);
            proof {
                assert(rows0.skip(j)[0] == rows0[j]);
                assert(pre_rows[i as int] == rows0[j]);
                assert(pre_rows[i as int] == row_view(self.rows@[i as int]));
                assert(rows0.take(j + 1) =~= rows0.take(j).push(rows0[j]));
                lemma_filter_push(rows0.take(j), keep_pred(block), rows0[j]);
            }
            let row = &self.rows[i];
            let hit = row.block_range.contains_block(block) && (match row.block_range.lower_bound() {
                Some(l) => l == block,
                None => false,
            });
            proof {
                assert(hit == reverted_at(rows0[j], block));
            }
            if hit {
                self.rows.remove(i);
                proof {
                    pre_vec.remove_ensures(i as int);
                    assert(self.rows@ == pre_vec.remove(i as int));
                    assert(pre_rows == rows0.take(j).filter(keep_pred(block)) + rows0.skip(j));
                    let target = rows0.take(j + 1).filter(keep_pred(block)) + rows0.skip(j + 1);
                    assert(target.len() == pre_rows.len() - 1);
                    assert forall|m: int| 0 <= m < self.rows@.len() implies rows_view(
                        self.rows@,
                    )[m] == target[m] by {
                        assert(rows_view(self.rows@)[m] == row_view(self.rows@[m]));
                        if m < i as int {
                            assert(pre_vec.remove(i as int)[m] == pre_vec[m]);
                            assert(rows_view(self.rows@)[m] == pre_rows[m]);
                            assert(target[m] == pre_rows[m]);
                        } else {
                            assert(pre_vec.remove(i as int)[m] == pre_vec[m + 1]);
                            assert(rows_view(self.rows@)[m] == pre_rows[m + 1]);
                            assert(pre_rows[m + 1] == rows0.skip(j)[m + 1 - i as int]);
                            assert(rows0.skip(j)[m + 1 - i as int] == rows0[j + m + 1 - i as int]);
                            assert(target[m] == rows0.skip(j + 1)[m - i as int]);
                            assert(rows0.skip(j + 1)[m - i as int] == rows0[j + m + 1
                                - i as int]);
                        }
                    }
                    assert(rows_view(self.rows@) =~= target);
                    j = j + 1;
                }
            } else {
                i += 1;
                proof {
                    assert(rows_view(self.rows@) =~= rows0.take(j + 1).filter(keep_pred(block))
                        + rows0.skip(j + 1));
                    j = j + 1;
                }
            }
        }
        proof {
            assert(rows0.skip(j).len() == 0);
            assert(j == rows0.len());
            assert(rows0.take(j) =~= rows0);
            assert(rows_view(self.rows@) =~= rows0.filter(keep_pred(block)));
            assert(self@ =~= revert_spec(t0, block));
            lemma_revert_wf(t0, block);
        }
    }

    /// Copy every record created at or before `target_block` into `dst`,
    /// re-bounding intervals that are not closed by `target_block` to
    /// open-ended ones. A destination that already holds rows is left
    /// untouched and its row count returned, so the migration can be
    /// retried without double-copying. The counter precondition only
    /// demands headroom for the fresh vids, a machine limit.
    pub fn copy_to(&self, dst: &mut DataSourcesTable, target_block: i32) -> (r: usize)
        requires
            self.inv(),
            old(dst).inv(),
            old(dst)@.next_vid + self@.rows.len() <= i64::MAX,
        ensures
            final(dst).inv(),
            final(dst)@ == copy_spec(old(dst)@, self@, target_block),
            r as int == copy_count(old(dst)@, self@, target_block),
    {
        let ghost d0 = old(dst)@;
        let ghost src_m = self@;
        if dst.rows.len() > 0 {
            return dst.rows.len();
        }
        proof {
            assert(d0.rows.len() == 0);
        }
        let mut copied: usize = 0;
        let mut i: usize = 0;
        while i < self.rows.len()
            invariant
                i <= self.rows@.len(),
                src_m == self@,
                wf(src_m),
                d0.rows.len() == 0,
                wf(d0),
                d0.next_vid + src_m.rows.len() <= i64::MAX,
                dst@.namespace == d0.namespace,
                dst@.rows == copy_rows(src_m.rows.take(i as int), target_block, d0.next_vid),
                copied as int == dst@.rows.len(),
                copied <= i,
                dst@.next_vid == d0.next_vid + copied,
                dst@.next_causality_region == region_ceiling(
                    src_m.rows.take(i as int),
                    target_block,
                    d0.next_causality_region,
                ),
            decreases self.rows@.len() - i,
        {
            let ghost prev_copy = copy_rows(src_m.rows.take(i as int), target_block, d0.next_vid);
            proof {
                assert(src_m.rows[i as int] == row_view(self.rows@[i as int]));
                assert(src_m.rows.take(i + 1) =~= src_m.rows.take(i as int).push(
                    src_m.rows[i as int],
                ));
                assert(src_m.rows.take(i + 1).drop_last() =~= src_m.rows.take(i as int));
                assert(src_m.rows.take(i + 1).last() == src_m.rows[i as int]);
            }
            let row = &self.rows[i];
            let low = row.block_range.lower_bound();
            let sel = match low {
                Some(l) => l <= target_block,
                None => false,
            };
            proof {
                assert(sel == copied_at(src_m.rows[i as int], target_block));
            }
            if sel {
                let new_range = match row.block_range {
                    BlockRange::Bounded { lower, upper } => {
                        if upper <= target_block {
                            BlockRange::Bounded { lower, upper }
                        } else {
                            BlockRange::OpenEnded { lower }
                        }
                    },
                    BlockRange::OpenEnded { lower } => BlockRange::OpenEnded { lower },
                    BlockRange::Empty => BlockRange::Empty,
                };
                proof {
                    assert(new_range == rebound_range(
                        src_m.rows[i as int].block_range,
                        target_block,
                    ));
                    assert(src_m.rows[i as int].causality_region < src_m.next_causality_region);
                }
                if row.causality_region >= dst.next_causality_region {
                    dst.next_causality_region = row.causality_region + 1;
                }
                let new_row = Row {
                    vid: dst.next_vid,
                    block_range: new_range,
                    causality_region: row.causality_region,
                    manifest_idx: row.manifest_idx,
                    param: clone_opt_bytes(&row.param),
                    context: clone_opt_bytes(&row.context),
                    parent: row.parent,
                    id: clone_opt_bytes(&row.id),
                };
                dst.next_vid = dst.next_vid + 1;
                dst.rows.push(new_row);
                copied += 1;
                proof {
                    assert(row_view(new_row) =~= rebound_row(
                        src_m.rows[i as int],
                        target_block,
                        d0.next_vid + prev_copy.len(),
                    ));
                    assert(dst@.rows =~= prev_copy.push(row_view(new_row)));
                    assert(dst@.rows == copy_rows(
                        src_m.rows.take(i + 1),
                        target_block,
                        d0.next_vid,
                    ));
                }
            } else {
                proof {
                    assert(dst@.rows == copy_rows(
                        src_m.rows.take(i + 1),
                        target_block,
                        d0.next_vid,
                    ));
                }
            }
            i += 1;
        }
        proof {
            assert(src_m.rows.take(src_m.rows.len() as int) =~= src_m.rows);
            assert(dst@ =~= copy_spec(d0, src_m, target_block));
            lemma_copy_wf(d0, src_m, target_block);
        }
        copied
    }

    /// Soft-delete off-chain records by null-safe value equality. Records
    /// are processed one by one from the left; an on-chain record, or a
    /// record that would affect more than one row, stops the batch with a
    /// constraint violation before its own removal is applied, while the
    /// earlier removals remain applied.
    pub fn remove_offchain(&mut self, data_sources: &[StoredDynamicDataSource]) -> (r: Result<
        (),
        StoreError,
    >)
        requires
            old(self).inv(),
        ensures
            final(self).inv(),
            final(self)@ == remove_seq(old(self)@, vals(data_sources@)).0,
            (match r {
                Ok(_) => remove_seq(old(self)@, vals(data_sources@)).1 is None,
                Err(e) => remove_seq(old(self)@, vals(data_sources@)).1 matches Some(k) && ({
                    let st = remove_seq(old(self)@, vals(data_sources@).take(k)).0;
                    if !data_sources@[k]@.is_offchain {
                        e == StoreError::OnchainRemoval
                    } else {
                        e matches StoreError::MultipleMatches { matched } && matched as int
                            == match_count(st, data_sources@[k]@) && match_count(
                            st,
                            data_sources@[k]@,
                        ) > 1
                    }
                }),
            }),
    {
        let ghost t0 = old(self)@;
        let ghost dvals = vals(data_sources@);
        proof {
            assert(forall|k: int|
                0 <= k < data_sources@.len() ==> dvals[k] == (#[trigger] data_sources@[k])@);
        }
        let mut i: usize = 0;
        while i < data_sources.len()
            invariant
                i <= data_sources@.len(),
                dvals == vals(data_sources@),
                dvals.len() == data_sources@.len(),
                t0 == old(self)@,
                wf(t0),
                remove_seq(t0, dvals.take(i as int)).0 == self@,
                remove_seq(t0, dvals.take(i as int)).1 is None,
                wf(self@),
            decreases data_sources@.len() - i,
        {
            let ds = &data_sources[i];
            proof {
                assert(dvals[i as int] == ds@);
                lemma_remove_seq_take_step(t0, dvals, i as int);
            }
            if !ds.is_offchain {
                proof {
                    assert(remove_seq(t0, dvals.take(i + 1)) == (self@, Some(i as int)));
                    lemma_remove_seq_err_stable(t0, dvals, i + 1);
                    assert(remove_seq(t0, dvals).0 == self@);
                    assert(remove_seq(t0, dvals).1 == Some(i as int));
                    assert(!dvals[i as int].is_offchain);
                }
                return Err(StoreError::OnchainRemoval);
            }
            let n = count_matches(&self.rows, ds);
            proof {
                assert(n as int == match_count(self@, dvals[i as int]));
            }
            if n > 1 {
                proof {
                    assert(remove_seq(t0, dvals.take(i + 1)) == (self@, Some(i as int)));
                    lemma_remove_seq_err_stable(t0, dvals, i + 1);
                    assert(remove_seq(t0, dvals).0 == self@);
                    assert(remove_seq(t0, dvals).1 == Some(i as int));
                }
                return Err(StoreError::MultipleMatches { matched: n });
            }
            let ghost t_prev = self@;
            let mut k: usize = 0;
            while k < self.rows.len()
                invariant
                    k <= self.rows@.len(),
                    self.rows@.len() == t_prev.rows.len(),
                    forall|m: int|
                        0 <= m < k ==> rows_view(self.rows@)[m] == empty_match_fn(
                            dvals[i as int],
                        )((#[trigger] t_prev.rows[m])),
                    forall|m: int|
                        k <= m < self.rows@.len() ==> rows_view(self.rows@)[m] == (
                        #[trigger] t_prev.rows[m]),
                    self@.namespace == t_prev.namespace,
                    self@.next_vid == t_prev.next_vid,
                    self@.next_causality_region == t_prev.next_causality_region,
                    i < dvals.len(),
                    dvals[i as int] == ds@,
                decreases self.rows@.len() - k,
            {
                proof {
                    assert(rows_view(self.rows@)[k as int] == row_view(self.rows@[k as int]));
                }
                if row_matches(&self.rows[k], ds) {
                    let e = emptied(&self.rows[k]);
                    self.rows.set(k, e);
                }
                k += 1;
            }
            proof {
                assert(self@.rows =~= t_prev.rows.map_values(empty_match_fn(dvals[i as int])));
                assert(self@ =~= remove_one(t_prev, dvals[i as int]));
                lemma_remove_one_wf(t_prev, dvals[i as int]);
            }
            i += 1;
        }
        proof {
            assert(dvals.take(dvals.len() as int) =~= dvals);
        }
        Ok(())
    }
}

} // verus!
