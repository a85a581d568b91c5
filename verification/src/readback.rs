//! Node payloads read back from GPU memory, and the decoding of their raw
//! bytes into 16-bit samples before they are saved to disk.

use vstd::prelude::*;

use crate::coordinate::{AtlasIndex, NodeCoordinate};

verus! {

/// Identifies one node payload read back from the GPU.
#[derive(Clone, Copy, PartialEq, Eq, Structural, Debug)]
pub struct NodeMeta {
    /// The coordinate of the node, which determines where it is saved.
    pub node_coordinate: NodeCoordinate,
    /// The slot the node occupied when it was read back.
    pub atlas_index: AtlasIndex,
}

/// One node's raw payload read back from GPU memory, consumed exactly once
/// by the save pipeline.
pub struct ReadBackNode {
    /// Which node the payload belongs to.
    pub meta: NodeMeta,
    /// The raw bytes of the single-channel 16-bit texture.
    pub data: Vec<u8>,
    /// The width and height of the texture.
    pub texture_size: u32,
}

/// The sample encoded by two bytes, least significant first.
pub open spec fn sample_from_bytes(lo: u8, hi: u8) -> u16 {
    (lo + hi * 256) as u16
}

impl ReadBackNode {
    /// Decodes the raw bytes into the 16-bit samples of the saved image:
    /// consecutive byte pairs, least significant byte first. A trailing odd
    /// byte carries no sample.
    pub fn decode_samples(&self) -> (r: Vec<u16>)
        ensures
            r@.len() == self.data@.len() / 2,
            forall|i: int|
                0 <= i < r@.len() ==> r@[i] == sample_from_bytes(
                    self.data@[2 * i],
                    self.data@[2 * i + 1],
                ),
    {
        let mut r: Vec<u16> = Vec::new();
        let n: usize = self.data.len();
        let count: usize = n / 2;
        let mut i: usize = 0;
        while i < count
            invariant
                n == self.data@.len(),
                count == self.data@.len() / 2,
                i <= count,
                r@.len() == i,
                forall|j: int|
                    0 <= j < i ==> r@[j] == sample_from_bytes(
                        self.data@[2 * j],
                        self.data@[2 * j + 1],
                    ),
            decreases count - i,
        {
            proof {
                assert(2 * i + 1 < self.data@.len());
            }
            let lo = self.data[2 * i];
            let hi = self.data[2 * i + 1];
            r.push(lo as u16 + (hi as u16) * 256);
            i = i + 1;
        }
        r
    }
}

} // verus!
