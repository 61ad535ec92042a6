use local_chain::BlockHash;
use local_chain::BlockId;
use local_chain::ChainOracle;
use local_chain::ChangeSet;
use local_chain::LocalChain;
use local_chain::UpdateNotConnectedError;

fn hash(n: u64) -> BlockHash {
    BlockHash { word0: n, word1: 0, word2: 0, word3: 0 }
}

fn block(height: u32, n: u64) -> BlockId {
    BlockId { height, hash: hash(n) }
}

fn chain(blocks: &[(u32, u64)]) -> LocalChain {
    let ids: Vec<BlockId> = blocks.iter().map(|&(h, n)| block(h, n)).collect();
    LocalChain::from_blocks(ids)
}

fn contents(c: &LocalChain) -> Vec<(u32, u64)> {
    c.blocks().iter().map(|b| (b.height, b.hash.word0)).collect()
}

#[test]
fn pure_extension_yields_only_the_new_block() {
    let mut store = chain(&[(5, 1), (6, 2)]);
    let update = chain(&[(6, 2), (7, 3)]);
    let cs = store.determine_changeset(&update).unwrap();
    assert_eq!(cs.entries().as_slice(), &[(7, Some(hash(3)))]);
    let applied = store.apply_update(update).unwrap();
    assert_eq!(applied.entries().as_slice(), &[(7, Some(hash(3)))]);
    assert_eq!(contents(&store), vec![(5, 1), (6, 2), (7, 3)]);
}

#[test]
fn reorg_replaces_the_disputed_height() {
    let mut store = chain(&[(5, 1), (6, 2)]);
    let update = chain(&[(5, 1), (6, 3)]);
    let cs = store.determine_changeset(&update).unwrap();
    assert_eq!(cs.entries().as_slice(), &[(6, Some(hash(3)))]);
    store.apply_update(update).unwrap();
    assert_eq!(contents(&store), vec![(5, 1), (6, 3)]);
}

#[test]
fn disconnected_update_fails_with_first_invalid_height() {
    let mut store = chain(&[(5, 1), (6, 2)]);
    let update = chain(&[(7, 4)]);
    let r = store.determine_changeset(&update);
    assert_eq!(r.unwrap_err(), UpdateNotConnectedError(5));
    let r = store.apply_update(update);
    assert_eq!(r.unwrap_err(), UpdateNotConnectedError(5));
    assert_eq!(contents(&store), vec![(5, 1), (6, 2)]);
}

#[test]
fn ancestor_query_four_outcomes() {
    let store = chain(&[(5, 1), (10, 2)]);
    let static_block = block(10, 2);
    assert_eq!(store.is_block_in_chain(block(5, 1), static_block), Ok(Some(true)));
    assert_eq!(store.is_block_in_chain(block(5, 9), static_block), Ok(Some(false)));
    assert_eq!(store.is_block_in_chain(block(7, 9), static_block), Ok(None));
    assert_eq!(store.is_block_in_chain(block(11, 9), static_block), Ok(None));
}

#[test]
fn ancestor_query_wrong_static_reference_is_definitely_no() {
    let store = chain(&[(5, 1), (10, 2)]);
    assert_eq!(store.is_block_in_chain(block(5, 1), block(10, 9)), Ok(Some(false)));
}

#[test]
fn initial_changeset_round_trips_through_an_empty_store() {
    let store = chain(&[(1, 7), (5, 8), (9, 9)]);
    let cs = store.initial_changeset();
    assert_eq!(
        cs.entries().as_slice(),
        &[(1, Some(hash(7))), (5, Some(hash(8))), (9, Some(hash(9)))],
    );
    let mut rebuilt = LocalChain::default();
    rebuilt.apply_changeset(cs);
    assert_eq!(contents(&rebuilt), contents(&store));
}

#[test]
fn self_update_yields_empty_changeset() {
    let mut store = chain(&[(5, 1), (6, 2)]);
    let update = chain(&[(5, 1), (6, 2)]);
    let cs = store.determine_changeset(&update).unwrap();
    assert!(cs.is_empty());
    store.apply_changeset(cs);
    assert_eq!(contents(&store), vec![(5, 1), (6, 2)]);
}

#[test]
fn empty_changeset_application_is_a_no_op() {
    let mut store = chain(&[(5, 1), (6, 2)]);
    store.apply_changeset(ChangeSet::new());
    assert_eq!(contents(&store), vec![(5, 1), (6, 2)]);
}

#[test]
fn reapplying_a_changeset_leaves_the_store_unchanged() {
    let mut store = chain(&[(5, 1), (6, 2)]);
    let update = chain(&[(5, 1), (6, 3), (7, 4)]);
    let cs = store.determine_changeset(&update).unwrap();
    store.apply_changeset(cs.clone());
    let advanced = contents(&store);
    store.apply_changeset(cs);
    assert_eq!(contents(&store), advanced);
}

#[test]
fn changeset_never_touches_agreeing_heights() {
    let store = chain(&[(3, 1), (5, 2), (6, 9)]);
    let update = chain(&[(3, 1), (5, 2), (6, 3)]);
    let cs = store.determine_changeset(&update).unwrap();
    assert_eq!(cs.get_entry(3), None);
    assert_eq!(cs.get_entry(5), None);
    assert_eq!(cs.get_entry(6), Some(Some(hash(3))));
}

#[test]
fn empty_update_yields_empty_changeset() {
    let store = chain(&[(5, 1), (6, 2)]);
    let update = LocalChain::default();
    let cs = store.determine_changeset(&update).unwrap();
    assert!(cs.is_empty());
}

#[test]
fn update_into_empty_store_needs_no_connection() {
    let mut store = LocalChain::default();
    let update = chain(&[(3, 5)]);
    let cs = store.apply_update(update).unwrap();
    assert_eq!(cs.entries().as_slice(), &[(3, Some(hash(5)))]);
    assert_eq!(contents(&store), vec![(3, 5)]);
}

#[test]
fn agreeing_update_tip_leaves_later_checkpoints_alone() {
    let mut store = chain(&[(5, 1), (6, 2)]);
    let update = chain(&[(5, 1)]);
    let cs = store.apply_update(update).unwrap();
    assert!(cs.is_empty());
    assert_eq!(contents(&store), vec![(5, 1), (6, 2)]);
}

#[test]
fn no_agreement_with_full_replacement_rewrites_the_store() {
    let mut store = chain(&[(5, 1)]);
    let update = chain(&[(5, 2), (6, 3)]);
    let cs = store.apply_update(update).unwrap();
    assert_eq!(cs.entries().as_slice(), &[(5, Some(hash(2))), (6, Some(hash(3)))]);
    assert_eq!(contents(&store), vec![(5, 2), (6, 3)]);
}

#[test]
fn reorg_that_shortens_the_chain_deletes_the_suffix() {
    let mut store = chain(&[(4, 1), (5, 2), (6, 3)]);
    let update = chain(&[(4, 1), (5, 9)]);
    let cs = store.determine_changeset(&update).unwrap();
    assert_eq!(cs.entries().as_slice(), &[(5, Some(hash(9))), (6, None)]);
    store.apply_update(update).unwrap();
    assert_eq!(contents(&store), vec![(4, 1), (5, 9)]);
}

#[test]
fn from_blocks_takes_the_last_duplicate() {
    let store = LocalChain::from_blocks(vec![block(5, 1), block(5, 2)]);
    assert_eq!(store.get_block(5), Some(block(5, 2)));
    assert_eq!(contents(&store), vec![(5, 2)]);
}

#[test]
fn tip_is_the_greatest_height() {
    assert_eq!(LocalChain::default().tip(), None);
    let store = chain(&[(5, 1), (6, 2)]);
    assert_eq!(store.tip(), Some(block(6, 2)));
}

#[test]
fn get_block_reads_the_record() {
    let store = chain(&[(5, 1), (10, 2)]);
    assert_eq!(store.get_block(5), Some(block(5, 1)));
    assert_eq!(store.get_block(10), Some(block(10, 2)));
    assert_eq!(store.get_block(7), None);
}

#[test]
fn heights_lists_every_recorded_height() {
    let store = chain(&[(2, 1), (5, 2), (9, 3)]);
    let heights: Vec<u32> = store.heights().into_iter().collect();
    assert_eq!(heights, vec![2, 5, 9]);
    assert!(LocalChain::default().heights().is_empty());
}

#[test]
fn changeset_insert_overwrites_and_orders_entries() {
    let mut cs = ChangeSet::new();
    cs.insert_entry(6, None);
    cs.insert_entry(2, Some(hash(1)));
    cs.insert_entry(6, Some(hash(4)));
    assert_eq!(cs.entries().as_slice(), &[(2, Some(hash(1))), (6, Some(hash(4)))]);
    assert_eq!(cs.get_entry(6), Some(Some(hash(4))));
    assert_eq!(cs.get_entry(7), None);
}

#[test]
fn stores_compare_and_clone_by_value() {
    let a = chain(&[(5, 1), (6, 2)]);
    let b = chain(&[(6, 2), (5, 1)]);
    let c = chain(&[(5, 1)]);
    assert_eq!(a, b);
    assert_ne!(a, c);
    let snapshot = a.clone();
    assert_eq!(snapshot, a);
}

#[test]
fn block_ids_order_by_height_then_hash() {
    assert!(block(5, 9) < block(6, 1));
    assert!(block(5, 1) < block(5, 2));
    assert_eq!(block(5, 1), block(5, 1));
    assert_ne!(block(5, 1), block(5, 2));
}
