use voxel_stream::terrain_buffers::TerrainBufferIndex;

#[test]
fn slots_fill_in_order() {
    let mut idx = TerrainBufferIndex::new();
    idx.push_ids(&vec![10, 11, 12]);
    assert_eq!(idx.index_to_id, vec![10, 11, 12]);
    assert_eq!(idx.length, 9);
    idx.push_ids(&vec![13]);
    assert_eq!(idx.index_to_id, vec![10, 11, 12, 13]);
    assert_eq!(idx.length, 12);
}

#[test]
fn removal_moves_the_last_slot_into_the_hole() {
    let mut idx = TerrainBufferIndex::new();
    idx.push_ids(&vec![10, 11, 12, 13]);
    let slot = idx.swap_remove(11);
    assert_eq!(slot, 1);
    assert_eq!(idx.index_to_id, vec![10, 13, 12]);
    assert_eq!(idx.length, 9);
    // the moved entity is found at its new slot
    let slot = idx.swap_remove(13);
    assert_eq!(slot, 1);
    assert_eq!(idx.index_to_id, vec![10, 12]);
}

#[test]
fn removing_the_last_slot_moves_nothing() {
    let mut idx = TerrainBufferIndex::new();
    idx.push_ids(&vec![7, 8]);
    let slot = idx.swap_remove(8);
    assert_eq!(slot, 1);
    assert_eq!(idx.index_to_id, vec![7]);
    let slot = idx.swap_remove(7);
    assert_eq!(slot, 0);
    assert!(idx.index_to_id.is_empty());
    assert_eq!(idx.length, 0);
}
