use voxel_stream::cell::Cell;
use voxel_stream::coordinator::{Action, Coordinator};
use voxel_stream::movement::Engine;
use voxel_stream::residency::LoadReason;

#[test]
fn coalesced_requests_dispatch_once_and_serve_both() {
    let mut co = Coordinator::new();
    let c = Cell { x: 1, y: 2, z: 3 };
    let first = co.request_block(c, 0, LoadReason::Local(7));
    assert_eq!(first, Some(Action::Dispatch(c, 0)));
    assert!(co.is_pending(c, 0));
    let second = co.request_block(c, 0, LoadReason::ForClient(9));
    assert_eq!(second, None);
    let acts = co.on_generation_complete(c, 0);
    assert_eq!(acts.len(), 2);
    assert!(acts.contains(&Action::Commit(7, c, 0)));
    assert!(acts.contains(&Action::Deliver(9, c, 0)));
    assert!(co.is_present(c, 0));
    assert!(!co.is_pending(c, 0));
}

#[test]
fn resident_content_answers_a_client_from_the_cache() {
    let mut co = Coordinator::new();
    let c = Cell { x: -4, y: 0, z: 5 };
    co.request_block(c, 2, LoadReason::Local(1));
    co.on_generation_complete(c, 2);
    assert!(co.is_present(c, 2));
    let act = co.request_block(c, 2, LoadReason::ForClient(3));
    assert_eq!(act, Some(Action::DeliverCached(3, c, 2)));
    // a second owner's interest in resident content costs no request
    let act = co.request_block(c, 2, LoadReason::Local(8));
    assert_eq!(act, None);
    assert!(!co.is_pending(c, 2));
}

#[test]
fn lods_are_tracked_independently() {
    let mut co = Coordinator::new();
    let c = Cell { x: 0, y: 0, z: 0 };
    assert_eq!(co.request_block(c, 0, LoadReason::Local(1)), Some(Action::Dispatch(c, 0)));
    // a different level of detail for the same cell is its own request
    assert_eq!(co.request_block(c, 1, LoadReason::Local(1)), Some(Action::Dispatch(c, 1)));
    co.on_generation_complete(c, 0);
    assert!(co.is_present(c, 0));
    assert!(!co.is_present(c, 1));
    assert!(co.is_pending(c, 1));
}

#[test]
fn client_only_load_is_delivered_but_not_retained() {
    let mut co = Coordinator::new();
    let c = Cell { x: 10, y: 10, z: 10 };
    assert_eq!(co.request_block(c, 1, LoadReason::ForClient(5)), Some(Action::Dispatch(c, 1)));
    let acts = co.on_generation_complete(c, 1);
    assert_eq!(acts, vec![Action::Deliver(5, c, 1)]);
    // no reason remains to retain the content beyond the single message
    assert!(!co.is_present(c, 1));
    assert!(!co.is_pending(c, 1));
}

#[test]
fn completion_nobody_awaits_is_dropped() {
    let mut co = Coordinator::new();
    let c = Cell { x: 3, y: 3, z: 3 };
    let acts = co.on_generation_complete(c, 0);
    assert!(acts.is_empty());
    assert!(!co.is_present(c, 0));
}

#[test]
fn unload_last_reason_clears_residency() {
    let mut co = Coordinator::new();
    let c = Cell { x: 2, y: -7, z: 0 };
    co.request_block(c, 1, LoadReason::Local(4));
    co.on_generation_complete(c, 1);
    assert!(co.is_present(c, 1));
    co.mark_unloaded(c, 1, LoadReason::Local(4));
    assert!(!co.is_present(c, 1));
    assert!(!co.is_pending(c, 1));
}

#[test]
fn content_outlives_one_of_two_interested_owners() {
    let mut co = Coordinator::new();
    let c = Cell { x: 0, y: 1, z: 2 };
    co.request_block(c, 0, LoadReason::Local(1));
    co.request_block(c, 0, LoadReason::Local(2));
    let acts = co.on_generation_complete(c, 0);
    assert_eq!(acts.len(), 2);
    assert!(acts.contains(&Action::Commit(1, c, 0)));
    assert!(acts.contains(&Action::Commit(2, c, 0)));
    co.mark_unloaded(c, 0, LoadReason::Local(1));
    assert!(co.is_present(c, 0));
    co.mark_unloaded(c, 0, LoadReason::Local(2));
    assert!(!co.is_present(c, 0));
}

#[test]
fn unload_cell_drops_every_level_of_detail() {
    let mut co = Coordinator::new();
    let c = Cell { x: 5, y: 5, z: 5 };
    for lod in 0..3u32 {
        co.request_block(c, lod, LoadReason::Local(6));
        co.on_generation_complete(c, lod);
        assert!(co.is_present(c, lod));
    }
    co.unload_cell(c, LoadReason::Local(6));
    for lod in 0..3u32 {
        assert!(!co.is_present(c, lod));
    }
}

#[test]
fn movement_requests_swept_cells_and_unloads_vacated_ones() {
    let mut eng = Engine::new();
    let c0 = Cell { x: 0, y: 0, z: 0 };
    assert!(eng.add_observer(1, c0, 1));
    // the observer steps one cell along x: a 3x3 slab enters, one leaves
    let c1 = Cell { x: 1, y: 0, z: 0 };
    let acts = eng.on_movement(1, c1, 0);
    assert_eq!(acts.len(), 9);
    for act in &acts {
        match act {
            Action::Dispatch(c, l) => {
                assert_eq!(*l, 0);
                assert_eq!(c.x, 2);
                assert!(c.y.abs() <= 1 && c.z.abs() <= 1);
            },
            other => panic!("unexpected action {:?}", other),
        }
    }
    // fulfil one of the swept cells, then step back: it is unloaded again
    let loaded = Cell { x: 2, y: 0, z: 0 };
    let acts = eng.coordinator.on_generation_complete(loaded, 0);
    assert_eq!(acts, vec![Action::Commit(1, loaded, 0)]);
    assert!(eng.coordinator.is_present(loaded, 0));
    eng.on_movement(1, c0, 0);
    assert!(!eng.coordinator.is_present(loaded, 0));
}

#[test]
fn movement_of_unknown_owner_changes_nothing() {
    let mut eng = Engine::new();
    let c0 = Cell { x: 0, y: 0, z: 0 };
    assert!(eng.add_observer(1, c0, 1));
    let acts = eng.on_movement(2, Cell { x: 5, y: 5, z: 5 }, 0);
    assert!(acts.is_empty());
}

#[test]
fn observer_owners_are_unique() {
    let mut eng = Engine::new();
    let c0 = Cell { x: 0, y: 0, z: 0 };
    assert!(eng.add_observer(1, c0, 2));
    assert!(!eng.add_observer(1, c0, 3));
    assert!(!eng.add_observer(2, c0, -1));
    assert!(eng.add_observer(2, c0, 0));
}
