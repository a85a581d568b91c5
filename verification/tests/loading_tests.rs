use terrain_atlas::coordinate::{AttachmentHandle, NodeCoordinate};
use terrain_atlas::node::LoadingNode;
use terrain_atlas::readback::{NodeMeta, ReadBackNode};

#[test]
fn loading_node_tracks_pending_attachments() {
    let mut node = LoadingNode::start(3, 2);
    assert_eq!(node.atlas_index, 3);
    assert!(!node.finished_loading());
    let h = AttachmentHandle { id: 7 };
    node.set_attachment(0, h);
    node.loaded(0);
    assert!(!node.finished_loading());
    node.loaded(1);
    assert!(node.finished_loading());
    assert_eq!(node.attachments, vec![Some(h), None]);
}

#[test]
fn loading_node_with_no_attachments_is_finished() {
    let node = LoadingNode::start(0, 0);
    assert!(node.finished_loading());
}

#[test]
fn marking_the_same_attachment_twice_is_harmless() {
    let mut node = LoadingNode::start(0, 2);
    node.loaded(0);
    node.loaded(0);
    assert!(!node.finished_loading());
    node.loaded(1);
    assert!(node.finished_loading());
}

#[test]
fn decode_samples_reads_little_endian_pairs() {
    let node = ReadBackNode {
        meta: NodeMeta {
            node_coordinate: NodeCoordinate { side: 0, lod: 1, x: 2, y: 3 },
            atlas_index: 0,
        },
        data: vec![0x01, 0x02, 0xFF, 0x00, 0x10],
        texture_size: 2,
    };
    // The trailing odd byte carries no sample.
    assert_eq!(node.decode_samples(), vec![513, 255]);
}

#[test]
fn decode_samples_of_empty_payload_is_empty() {
    let node = ReadBackNode {
        meta: NodeMeta {
            node_coordinate: NodeCoordinate { side: 0, lod: 0, x: 0, y: 0 },
            atlas_index: 1,
        },
        data: vec![],
        texture_size: 0,
    };
    assert_eq!(node.decode_samples(), Vec::<u16>::new());
}
