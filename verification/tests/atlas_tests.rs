use terrain_atlas::atlas::{NodeAtlas, TerrainConfig, DEFAULT_SAVE_SLOTS};
use terrain_atlas::coordinate::{AtlasAttachment, AttachmentHandle, NodeCoordinate};
use terrain_atlas::model::AtlasError;
use terrain_atlas::node::LoadingState;

fn coord(x: u32, y: u32) -> NodeCoordinate {
    NodeCoordinate { side: 0, lod: 0, x, y }
}

fn height_attachment() -> AtlasAttachment {
    AtlasAttachment { name: "height".to_string(), texture_size: 128 }
}

fn atlas_with(size: u16, existing: Vec<NodeCoordinate>) -> NodeAtlas {
    NodeAtlas::new(size, vec![height_attachment()], existing)
}

#[test]
fn new_atlas_starts_empty() {
    let atlas = atlas_with(3, vec![coord(0, 0)]);
    assert_eq!(atlas.resident_count(), 0);
    assert_eq!(atlas.unused_nodes.len(), 3);
    assert_eq!(atlas.data.len(), 3);
    assert_eq!(atlas.load_events.len(), 0);
    assert_eq!(atlas.loaded_nodes.len(), 0);
    assert_eq!(atlas.slots, DEFAULT_SAVE_SLOTS);
    assert_eq!(atlas.max_slots, DEFAULT_SAVE_SLOTS);
    // Placeholder slots carry the invalid sentinel, in slot order.
    assert_eq!(atlas.unused_nodes[0].node_coordinate, NodeCoordinate::invalid());
    assert_eq!(atlas.unused_nodes[0].atlas_index, 0);
    assert_eq!(atlas.unused_nodes[2].atlas_index, 2);
}

#[test]
fn from_config_matches_new() {
    let config = TerrainConfig {
        node_atlas_size: 2,
        attachments: vec![height_attachment()],
        nodes: vec![coord(0, 0), coord(0, 1)],
    };
    let atlas = NodeAtlas::from_config(config);
    assert_eq!(atlas.size, 2);
    assert_eq!(atlas.attachments.len(), 1);
    assert_eq!(atlas.attachments[0].name, "height");
    assert_eq!(atlas.existing_nodes.len(), 2);
    assert_eq!(atlas.resident_count(), 0);
    assert_eq!(atlas.unused_nodes.len(), 2);
    assert_eq!(atlas.unused_nodes[0].node_coordinate, NodeCoordinate::invalid());
    assert_eq!(atlas.unused_nodes[0].atlas_index, 0);
    assert_eq!(atlas.unused_nodes[1].atlas_index, 1);
    assert_eq!(atlas.load_events.len(), 0);
    assert_eq!(atlas.loaded_nodes.len(), 0);
    assert_eq!(atlas.loading_nodes.len(), 0);
    assert!(atlas.data.iter().all(|d| d.attachments.is_empty()));
    assert_eq!(atlas.slots, DEFAULT_SAVE_SLOTS);
    assert_eq!(atlas.max_slots, DEFAULT_SAVE_SLOTS);
}

#[test]
fn invalid_coordinate_is_all_max() {
    let c = NodeCoordinate::invalid();
    assert_eq!(c.side, u32::MAX);
    assert_eq!(c.lod, u32::MAX);
    assert_eq!(c.x, u32::MAX);
    assert_eq!(c.y, u32::MAX);
}

// Capacity 2, one attachment: X takes slot 0 with a load event, Y takes
// slot 1 with that frame's load event, and a third request with no release
// is a capacity error.
#[test]
fn capacity_two_fills_then_fails() {
    let x = coord(0, 0);
    let y = coord(0, 1);
    let z = coord(1, 0);
    let mut atlas = atlas_with(2, vec![x, y, z]);

    assert_eq!(atlas.fulfill_request(vec![], vec![x]), Ok(()));
    assert_eq!(atlas.get_node(x).unwrap().atlas_index, 0);
    assert_eq!(atlas.load_events, vec![x]);

    // Events reflect only the current frame's starts: harvesting clears them.
    atlas.update_loaded_nodes();
    assert_eq!(atlas.fulfill_request(vec![], vec![y]), Ok(()));
    assert_eq!(atlas.get_node(y).unwrap().atlas_index, 1);
    assert_eq!(atlas.load_events, vec![y]);

    atlas.update_loaded_nodes();
    assert_eq!(atlas.fulfill_request(vec![], vec![z]), Err(AtlasError::OutOfIndices));
    assert_eq!(atlas.resident_count(), 2);
}

// Capacity bound: resident nodes never exceed the slot count.
#[test]
fn capacity_bound_holds_across_churn() {
    let coords: Vec<NodeCoordinate> = (0..6).map(|i| coord(i, 0)).collect();
    let mut atlas = atlas_with(2, coords.clone());
    let mut held: Vec<NodeCoordinate> = Vec::new();
    for c in coords {
        if held.len() == 2 {
            let dropped = held.remove(0);
            assert_eq!(atlas.fulfill_request(vec![dropped], vec![c]), Ok(()));
        } else {
            assert_eq!(atlas.fulfill_request(vec![], vec![c]), Ok(()));
        }
        held.push(c);
        assert!(atlas.resident_count() <= 2);
    }
}

// X and Y resident, X released to zero requests, then Z reuses X's slot and
// X's entry is purged from the resident map.
#[test]
fn eviction_reuses_released_slot() {
    let x = coord(0, 0);
    let y = coord(0, 1);
    let z = coord(1, 0);
    let mut atlas = atlas_with(2, vec![x, y, z]);
    assert_eq!(atlas.fulfill_request(vec![], vec![x]), Ok(()));
    assert_eq!(atlas.fulfill_request(vec![], vec![y]), Ok(()));
    assert_eq!(atlas.fulfill_request(vec![x], vec![z]), Ok(()));
    assert!(atlas.get_node(x).is_none());
    assert_eq!(atlas.get_node(z).unwrap().atlas_index, 0);
    assert_eq!(atlas.get_node(y).unwrap().atlas_index, 1);
}

// Reference counting: requested twice, one release keeps the node resident
// with one request; the second release makes it eviction-eligible.
#[test]
fn two_requesters_release_one_by_one() {
    let x = coord(0, 0);
    let mut atlas = atlas_with(2, vec![x]);
    assert_eq!(atlas.fulfill_request(vec![], vec![x]), Ok(()));
    assert_eq!(atlas.fulfill_request(vec![], vec![x]), Ok(()));
    assert_eq!(atlas.get_node(x).unwrap().requests, 2);

    assert_eq!(atlas.fulfill_request(vec![x], vec![]), Ok(()));
    let node = atlas.get_node(x).unwrap();
    assert_eq!(node.requests, 1);
    assert!(!atlas.unused_nodes.iter().any(|u| u.node_coordinate == x));

    assert_eq!(atlas.fulfill_request(vec![x], vec![]), Ok(()));
    let node = atlas.get_node(x).unwrap();
    assert_eq!(node.requests, 0);
    assert!(atlas.unused_nodes.iter().any(|u| u.node_coordinate == x));
}

// LRU ordering: slots freed in order a, b, c are reused in that order.
#[test]
fn lru_reuses_in_freed_order() {
    let a = coord(0, 0);
    let b = coord(0, 1);
    let c = coord(0, 2);
    let x = coord(1, 0);
    let y = coord(1, 1);
    let z = coord(1, 2);
    let mut atlas = atlas_with(3, vec![a, b, c, x, y, z]);
    assert_eq!(atlas.fulfill_request(vec![], vec![a, b, c]), Ok(()));
    let slot_a = atlas.get_node(a).unwrap().atlas_index;
    let slot_b = atlas.get_node(b).unwrap().atlas_index;
    let slot_c = atlas.get_node(c).unwrap().atlas_index;
    assert_eq!(atlas.fulfill_request(vec![a], vec![]), Ok(()));
    assert_eq!(atlas.fulfill_request(vec![b], vec![]), Ok(()));
    assert_eq!(atlas.fulfill_request(vec![c], vec![]), Ok(()));
    assert_eq!(atlas.get_or_allocate(x), Ok(slot_a));
    assert_eq!(atlas.get_or_allocate(y), Ok(slot_b));
    assert_eq!(atlas.get_or_allocate(z), Ok(slot_c));
}

// Reuse before eviction: released and re-requested in one call, the
// coordinate keeps its slot and nothing changes.
#[test]
fn release_and_rerequest_same_call_keeps_slot() {
    let x = coord(0, 0);
    let y = coord(0, 1);
    let mut atlas = atlas_with(2, vec![x, y]);
    assert_eq!(atlas.fulfill_request(vec![], vec![x, y]), Ok(()));
    let unused_before = atlas.unused_nodes.len();
    assert_eq!(atlas.fulfill_request(vec![x], vec![x]), Ok(()));
    let node = atlas.get_node(x).unwrap();
    assert_eq!(node.atlas_index, 0);
    assert_eq!(node.requests, 1);
    assert_eq!(atlas.unused_nodes.len(), unused_before);
}

// Idempotent allocation: the same slot comes back and only one unused slot
// is consumed.
#[test]
fn get_or_allocate_is_idempotent() {
    let x = coord(0, 0);
    let mut atlas = atlas_with(2, vec![x]);
    assert_eq!(atlas.get_or_allocate(x), Ok(0));
    assert_eq!(atlas.get_or_allocate(x), Ok(0));
    assert_eq!(atlas.unused_nodes.len(), 1);
    assert_eq!(atlas.get_node(x).unwrap().requests, 1);
    // A newly allocated node announces one load event.
    assert_eq!(atlas.load_events, vec![x]);
}

#[test]
fn get_or_allocate_fails_when_full() {
    let x = coord(0, 0);
    let y = coord(0, 1);
    let mut atlas = atlas_with(1, vec![x, y]);
    assert_eq!(atlas.get_or_allocate(x), Ok(0));
    assert_eq!(atlas.get_or_allocate(y), Err(AtlasError::OutOfIndices));
    assert_eq!(atlas.get_node(x).unwrap().atlas_index, 0);
}

#[test]
fn out_of_bounds_coordinates_are_ignored() {
    let x = coord(0, 0);
    let stray = coord(9, 9);
    let mut atlas = atlas_with(2, vec![x]);
    assert_eq!(atlas.fulfill_request(vec![stray], vec![stray, x]), Ok(()));
    assert!(atlas.get_node(stray).is_none());
    assert_eq!(atlas.get_node(x).unwrap().atlas_index, 0);
}

#[test]
fn releasing_absent_node_is_a_desync_error() {
    let x = coord(0, 0);
    let mut atlas = atlas_with(2, vec![x]);
    assert_eq!(atlas.fulfill_request(vec![x], vec![]), Err(AtlasError::ReleasedAbsent));
}

#[test]
fn releasing_more_than_requested_is_an_error() {
    let x = coord(0, 0);
    let mut atlas = atlas_with(2, vec![x]);
    assert_eq!(atlas.fulfill_request(vec![], vec![x]), Ok(()));
    assert_eq!(atlas.fulfill_request(vec![x], vec![]), Ok(()));
    // The node now has zero requests; another release desynchronizes.
    assert_eq!(atlas.fulfill_request(vec![x], vec![]), Err(AtlasError::ReleasedUnrequested));
}

// Harvesting: a node reaches the loaded output exactly once all of its
// attachments are loaded, and its snapshot lands in the slot's data.
#[test]
fn harvest_promotes_only_fully_loaded_nodes() {
    let x = coord(0, 0);
    let attachments = vec![
        AtlasAttachment { name: "height".to_string(), texture_size: 128 },
        AtlasAttachment { name: "albedo".to_string(), texture_size: 256 },
    ];
    let mut atlas = NodeAtlas::new(2, attachments, vec![x]);
    assert_eq!(atlas.fulfill_request(vec![], vec![x]), Ok(()));
    assert_eq!(atlas.get_node(x).unwrap().state, LoadingState::Loading);

    // Nothing has loaded yet: the record stays in the loading map.
    atlas.update_loaded_nodes();
    assert_eq!(atlas.loaded_nodes.len(), 0);
    assert_eq!(atlas.loading_nodes.len(), 1);

    let h0 = AttachmentHandle { id: 41 };
    let h1 = AttachmentHandle { id: 42 };
    atlas.loading_nodes[0].1.set_attachment(0, h0);
    atlas.loading_nodes[0].1.loaded(0);
    atlas.update_loaded_nodes();
    assert_eq!(atlas.loaded_nodes.len(), 0);
    assert_eq!(atlas.loading_nodes.len(), 1);

    atlas.loading_nodes[0].1.set_attachment(1, h1);
    atlas.loading_nodes[0].1.loaded(1);
    atlas.update_loaded_nodes();
    assert_eq!(atlas.loaded_nodes.len(), 1);
    assert_eq!(atlas.loading_nodes.len(), 0);
    assert_eq!(atlas.loaded_nodes[0].atlas_index, 0);
    assert_eq!(atlas.get_node(x).unwrap().state, LoadingState::Loaded);
    assert_eq!(atlas.data[0].attachments, vec![Some(h0), Some(h1)]);
}

// Harvesting: a load that finishes after its coordinate was evicted is
// dropped silently.
#[test]
fn harvest_drops_loads_of_evicted_nodes() {
    let x = coord(0, 0);
    let y = coord(0, 1);
    let mut atlas = atlas_with(1, vec![x, y]);
    assert_eq!(atlas.fulfill_request(vec![], vec![x]), Ok(()));
    // Evict x while it is still loading.
    assert_eq!(atlas.fulfill_request(vec![x], vec![y]), Ok(()));
    assert!(atlas.get_node(x).is_none());
    // x's load now finishes, but the slot belongs to y.
    let pos = atlas.loading_nodes.iter().position(|(c, _)| *c == x).unwrap();
    atlas.loading_nodes[pos].1.loaded(0);
    atlas.update_loaded_nodes();
    assert_eq!(atlas.loaded_nodes.len(), 0);
    // Only y's unfinished record remains.
    assert_eq!(atlas.loading_nodes.len(), 1);
    assert_eq!(atlas.loading_nodes[0].0, y);
}

// Save-slot throttling: capacity moves one unit at a time and never leaves
// its bounds.
#[test]
fn save_slots_throttle() {
    let mut atlas = atlas_with(1, vec![coord(0, 0)]);
    assert_eq!(atlas.slots, 16);
    for expected in (0..16).rev() {
        assert!(atlas.take_save_slot());
        assert_eq!(atlas.slots, expected);
    }
    assert!(!atlas.take_save_slot());
    assert_eq!(atlas.slots, 0);
    atlas.finish_save();
    assert_eq!(atlas.slots, 1);
    atlas.finish_save();
    assert_eq!(atlas.slots, 2);
}

// A request that would overflow the reference counter is surfaced instead
// of wrapping; the counter is driven to its limit through the public field.
#[test]
fn request_at_counter_limit_is_an_error() {
    let x = coord(0, 0);
    let mut atlas = atlas_with(2, vec![x]);
    assert_eq!(atlas.fulfill_request(vec![], vec![x]), Ok(()));
    atlas.nodes[0].1.requests = u32::MAX;
    assert_eq!(atlas.fulfill_request(vec![], vec![x]), Err(AtlasError::TooManyRequests));
    assert_eq!(atlas.get_node(x).unwrap().requests, u32::MAX);
}
