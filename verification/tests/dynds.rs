use dynds::{DataSourcesTable, StoreError, StoredDynamicDataSource};

fn table(ns: &str) -> DataSourcesTable {
    DataSourcesTable::new(ns.to_string())
}

fn onchain(manifest_idx: u32, block: i32) -> StoredDynamicDataSource {
    StoredDynamicDataSource {
        manifest_idx,
        param: None,
        context: None,
        creation_block: Some(block),
        is_offchain: false,
    }
}

fn offchain(
    manifest_idx: u32,
    param: Option<Vec<u8>>,
    context: Option<Vec<u8>>,
    block: i32,
) -> StoredDynamicDataSource {
    StoredDynamicDataSource {
        manifest_idx,
        param,
        context,
        creation_block: Some(block),
        is_offchain: true,
    }
}

#[test]
fn load_on_empty_table_is_empty() {
    let t = table("sgd1");
    assert!(t.load(0).is_empty());
    assert!(t.load(1000).is_empty());
}

#[test]
fn insert_then_load_and_revert() {
    // Insert one on-chain record at block 10: it is live at 10, not at 9,
    // and gone after the revert of block 10.
    let mut t = table("sgd1");
    let ds = onchain(1, 10);
    assert_eq!(t.insert(&[ds], 10), Ok(1));

    let live = t.load(10);
    assert_eq!(live.len(), 1);
    assert_eq!(live[0].manifest_idx, 1);
    assert_eq!(live[0].creation_block, Some(10));
    assert!(!live[0].is_offchain);
    assert_eq!(live[0].param, None);
    assert_eq!(live[0].context, None);

    assert!(t.load(9).is_empty());

    t.revert(10);
    assert!(t.load(10).is_empty());
}

#[test]
fn duplicate_offchain_removal_is_a_constraint_violation() {
    // Two identical off-chain records at block 5 should have been
    // deduplicated upstream; if both exist, a matching removal must fail
    // rather than delete both.
    let mut t = table("sgd1");
    let a = offchain(3, Some(vec![1, 2]), None, 5);
    let b = offchain(3, Some(vec![1, 2]), None, 5);
    assert_eq!(t.insert(&[a, b], 5), Ok(2));

    let victim = offchain(3, Some(vec![1, 2]), None, 5);
    assert_eq!(
        t.remove_offchain(&[victim]),
        Err(StoreError::MultipleMatches { matched: 2 })
    );
    // Neither record was deleted.
    assert_eq!(t.load(5).len(), 2);
}

#[test]
fn load_orders_by_creation_block_then_insertion() {
    let mut t = table("sgd1");
    // Two records in one batch at block 5, then one at block 3: the load
    // at 5 puts the block-3 record first and keeps the batch in
    // insertion order.
    assert_eq!(t.insert(&[onchain(10, 5), onchain(11, 5)], 5), Ok(2));
    assert_eq!(t.insert(&[onchain(12, 3)], 3), Ok(1));

    let live = t.load(5);
    assert_eq!(live.len(), 3);
    assert_eq!(live[0].manifest_idx, 12);
    assert_eq!(live[0].creation_block, Some(3));
    assert_eq!(live[1].manifest_idx, 10);
    assert_eq!(live[2].manifest_idx, 11);

    let live3 = t.load(3);
    assert_eq!(live3.len(), 1);
    assert_eq!(live3[0].manifest_idx, 12);
}

#[test]
fn records_stay_live_from_their_creation_block_on() {
    let mut t = table("sgd1");
    assert_eq!(t.insert(&[onchain(7, 7)], 7), Ok(1));
    assert!(t.load(6).is_empty());
    assert_eq!(t.load(7).len(), 1);
    assert_eq!(t.load(1000).len(), 1);
}

#[test]
fn revert_restores_earlier_loads() {
    let mut t = table("sgd1");
    assert_eq!(t.insert(&[onchain(1, 3)], 3), Ok(1));
    let before = t.load(3);
    let before4 = t.load(4);

    assert_eq!(t.insert(&[onchain(2, 5), onchain(3, 5)], 5), Ok(2));
    t.revert(5);

    assert_eq!(t.load(3), before);
    assert_eq!(t.load(4), before4);
    let at5 = t.load(5);
    assert_eq!(at5.len(), 1);
    assert_eq!(at5[0].manifest_idx, 1);
}

#[test]
fn mismatched_creation_block_stops_the_batch() {
    let mut t = table("sgd1");
    let good = onchain(1, 8);
    let bad = onchain(2, 9);
    let after = onchain(3, 8);
    assert_eq!(
        t.insert(&[good, bad, after], 8),
        Err(StoreError::MismatchedCreationBlock { expected: 8, actual: Some(9) })
    );
    // The record before the offending one stays inserted, the rest never
    // made it.
    let live = t.load(8);
    assert_eq!(live.len(), 1);
    assert_eq!(live[0].manifest_idx, 1);
}

#[test]
fn missing_creation_block_is_rejected() {
    let mut t = table("sgd1");
    let mut ds = onchain(1, 4);
    ds.creation_block = None;
    assert_eq!(
        t.insert(&[ds], 4),
        Err(StoreError::MismatchedCreationBlock { expected: 4, actual: None })
    );
    assert!(t.load(4).is_empty());
}

#[test]
fn empty_batch_inserts_nothing() {
    let mut t = table("sgd1");
    assert_eq!(t.insert(&[], 1), Ok(0));
    assert!(t.load(1).is_empty());
}

#[test]
fn remove_offchain_rejects_onchain_records() {
    let mut t = table("sgd1");
    assert_eq!(t.insert(&[onchain(1, 2)], 2), Ok(1));
    assert_eq!(
        t.remove_offchain(&[onchain(1, 2)]),
        Err(StoreError::OnchainRemoval)
    );
    assert_eq!(t.load(2).len(), 1);
}

#[test]
fn remove_offchain_matches_by_value() {
    let mut t = table("sgd1");
    let a = offchain(1, Some(vec![1]), None, 6);
    let b = offchain(1, Some(vec![2]), Some(vec![9]), 6);
    assert_eq!(t.insert(&[a, b], 6), Ok(2));

    // Removing by a's value leaves b live, at every block.
    let victim = offchain(1, Some(vec![1]), None, 6);
    assert_eq!(t.remove_offchain(&[victim]), Ok(()));
    let live = t.load(6);
    assert_eq!(live.len(), 1);
    assert_eq!(live[0].param, Some(vec![2]));
    assert_eq!(live[0].context, Some(vec![9]));
    assert!(live[0].is_offchain);
}

#[test]
fn remove_offchain_with_no_match_is_ok() {
    let mut t = table("sgd1");
    assert_eq!(t.insert(&[offchain(1, None, None, 6)], 6), Ok(1));
    let other = offchain(2, None, None, 6);
    assert_eq!(t.remove_offchain(&[other]), Ok(()));
    assert_eq!(t.load(6).len(), 1);
}

#[test]
fn removed_record_is_invisible_at_every_block() {
    let mut t = table("sgd1");
    let a = offchain(1, None, None, 2);
    assert_eq!(t.insert(&[a], 2), Ok(1));
    assert_eq!(t.remove_offchain(&[offchain(1, None, None, 2)]), Ok(()));
    assert!(t.load(1).is_empty());
    assert!(t.load(2).is_empty());
    assert!(t.load(100).is_empty());
}

#[test]
fn copy_to_copies_records_created_up_to_the_target() {
    let mut src = table("sgd1");
    assert_eq!(src.insert(&[onchain(1, 2)], 2), Ok(1));
    assert_eq!(src.insert(&[offchain(2, Some(vec![7]), None, 4)], 4), Ok(1));
    assert_eq!(src.insert(&[onchain(3, 9)], 9), Ok(1));

    let mut dst = table("sgd2");
    let copied = src.copy_to(&mut dst, 4);
    assert_eq!(copied, 2);

    // Same live records at the target block, in the same order.
    assert_eq!(dst.load(4), src.load(4));
    // The block-9 record was not copied.
    assert_eq!(dst.load(9).len(), 2);
    assert_eq!(src.load(9).len(), 3);
}

#[test]
fn copy_to_is_idempotent() {
    let mut src = table("sgd1");
    assert_eq!(src.insert(&[onchain(1, 1), onchain(2, 1)], 1), Ok(2));

    let mut dst = table("sgd2");
    let first = src.copy_to(&mut dst, 3);
    let before = dst.load(3);
    let second = src.copy_to(&mut dst, 3);
    assert_eq!(first, 2);
    assert_eq!(second, 2);
    assert_eq!(dst.load(3), before);
}

#[test]
fn copy_to_of_empty_source_copies_nothing() {
    let src = table("sgd1");
    let mut dst = table("sgd2");
    assert_eq!(src.copy_to(&mut dst, 10), 0);
    assert_eq!(src.copy_to(&mut dst, 10), 0);
    assert!(dst.load(10).is_empty());
}

#[test]
fn copy_to_skips_removed_records() {
    let mut src = table("sgd1");
    assert_eq!(src.insert(&[offchain(1, None, None, 2)], 2), Ok(1));
    assert_eq!(src.remove_offchain(&[offchain(1, None, None, 2)]), Ok(()));

    let mut dst = table("sgd2");
    assert_eq!(src.copy_to(&mut dst, 5), 0);
    assert!(dst.load(5).is_empty());
}

#[test]
fn offchain_and_onchain_flags_round_trip() {
    let mut t = table("sgd1");
    assert_eq!(
        t.insert(&[onchain(1, 3), offchain(2, None, None, 3)], 3),
        Ok(2)
    );
    let live = t.load(3);
    assert_eq!(live.len(), 2);
    assert!(!live[0].is_offchain);
    assert!(live[1].is_offchain);
}

#[test]
fn ddl_names_the_namespace_and_the_index() {
    let t = table("sgd42");
    let ddl = t.as_ddl();
    let expected = "create table sgd42.data_sources$ (\n    \
        vid integer generated by default as identity primary key,\n    \
        block_range int4range not null,\n    \
        causality_region integer generated by default as identity,\n    \
        manifest_idx integer not null,\n    \
        parent integer references sgd42.data_sources$,\n    \
        id bytea,\n    \
        param bytea,\n    \
        context jsonb\n);\n\
        create index gist_block_range_data_sources$ on sgd42.data_sources$ using gist (block_range);\n";
    assert_eq!(ddl, expected);
}

#[test]
fn qualified_name_joins_namespace_and_table() {
    let t = table("sgd7");
    assert_eq!(t.qualified_name(), "sgd7.data_sources$");
    assert_eq!(t.namespace(), "sgd7");
}

#[test]
fn param_and_context_round_trip_through_load() {
    let mut t = table("sgd1");
    let ds = offchain(9, Some(vec![0, 255, 3]), Some(vec![123, 125]), 1);
    assert_eq!(t.insert(&[ds], 1), Ok(1));
    let live = t.load(1);
    assert_eq!(live[0].param, Some(vec![0, 255, 3]));
    assert_eq!(live[0].context, Some(vec![123, 125]));
}

#[test]
fn error_messages_name_the_violation() {
    let mut t = table("sgd1");
    let err = t.insert(&[onchain(1, 2)], 3).unwrap_err();
    assert_eq!(
        err.message(),
        "data source creation block does not match the insertion block"
    );
    let err = t.remove_offchain(&[onchain(1, 2)]).unwrap_err();
    assert_eq!(
        err.message(),
        "removal by value applies only to off-chain data sources"
    );
    assert_eq!(
        t.insert(&[offchain(1, None, None, 2), offchain(1, None, None, 2)], 2),
        Ok(2)
    );
    let err = t.remove_offchain(&[offchain(1, None, None, 2)]).unwrap_err();
    assert_eq!(
        err.message(),
        "a removal by value would affect more than one data source"
    );
}
