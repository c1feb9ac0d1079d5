//! The cells of a layer: 32-bit words that name a tile.

use crate::ds1::{
    existsTagLayer, exists_tag_layer, RootStruct, MAIN_INDEX_MASK, MAIN_INDEX_MAX,
    MAIN_INDEX_OFFSET, ONE_SHADOW_LAYER, PROP1_MASK, SUB_INDEX_MASK, SUB_INDEX_MAX,
    SUB_INDEX_OFFSET,
};
use vstd::prelude::*;

verus! {

/// The cell with the main index and the sub index replaced.
pub open spec fn with_tile_id(cell: u32, mainIndex: u32, subIndex: u32) -> u32 {
    (cell & !(MAIN_INDEX_MASK | SUB_INDEX_MASK)) | (mainIndex << MAIN_INDEX_OFFSET) | (subIndex
        << SUB_INDEX_OFFSET)
}

/// Whether a tile occupies the cell: bits 0 to 7 are not all zero.
pub fn cellIsOccupied(cell: u32) -> (r: bool)
    ensures
        r == ((cell & PROP1_MASK) != 0),
{
    (cell & PROP1_MASK) != 0
}

/// Bits 0 to 7 of the cell: the orientation on a layer of orientations, the
/// drawing priority on a layer of tiles.
pub fn cellProp1(cell: u32) -> (r: u32)
    ensures
        r == cell & PROP1_MASK,
        r <= 0xFF,
{
    assert(cell & 0xFF <= 0xFF) by (bit_vector);
    cell & PROP1_MASK
}

/// Bits 20 to 25 of the cell.
pub fn cellMainIndex(cell: u32) -> (r: u32)
    ensures
        r == (cell & MAIN_INDEX_MASK) >> MAIN_INDEX_OFFSET,
        r <= MAIN_INDEX_MAX,
{
    assert((cell & 0x3F0_0000) >> 20 <= 0x3F) by (bit_vector);
    (cell & MAIN_INDEX_MASK) >> MAIN_INDEX_OFFSET
}

/// Bits 8 to 15 of the cell.
pub fn cellSubIndex(cell: u32) -> (r: u32)
    ensures
        r == (cell & SUB_INDEX_MASK) >> SUB_INDEX_OFFSET,
        r <= SUB_INDEX_MAX,
{
    assert((cell & 0xFF00) >> 8 <= 0xFF) by (bit_vector);
    (cell & SUB_INDEX_MASK) >> SUB_INDEX_OFFSET
}

/// The cell with the main index and the sub index replaced:
/// `(cell & !(MAIN_MASK | SUB_MASK)) | (mainIndex << 20) | (subIndex << 8)`.
pub fn setCellTileID(cell: u32, mainIndex: u32, subIndex: u32) -> (r: u32)
    requires
        mainIndex <= MAIN_INDEX_MAX,
        subIndex <= SUB_INDEX_MAX,
    ensures
        r == with_tile_id(cell, mainIndex, subIndex),
{
    (cell & !(MAIN_INDEX_MASK | SUB_INDEX_MASK)) | (mainIndex << MAIN_INDEX_OFFSET) | (subIndex
        << SUB_INDEX_OFFSET)
}

/// A cell that was given a tile names that tile, and its other bits are as
/// they were.
pub proof fn lemma_tile_id(cell: u32, mainIndex: u32, subIndex: u32)
    requires
        mainIndex <= MAIN_INDEX_MAX,
        subIndex <= SUB_INDEX_MAX,
    ensures
        (with_tile_id(cell, mainIndex, subIndex) & MAIN_INDEX_MASK) >> MAIN_INDEX_OFFSET
            == mainIndex,
        (with_tile_id(cell, mainIndex, subIndex) & SUB_INDEX_MASK) >> SUB_INDEX_OFFSET == subIndex,
        with_tile_id(cell, mainIndex, subIndex) & !(MAIN_INDEX_MASK | SUB_INDEX_MASK) == cell & !(
        MAIN_INDEX_MASK | SUB_INDEX_MASK),
        with_tile_id(cell, mainIndex, subIndex) & PROP1_MASK == cell & PROP1_MASK,
{
    let r = (cell & !(0x3F0_0000u32 | 0xFF00u32)) | (mainIndex << 20u32) | (subIndex << 8u32);
    assert(with_tile_id(cell, mainIndex, subIndex) == r);
    assert((r & 0x3F0_0000) >> 20 == mainIndex) by (bit_vector)
        requires
            r == (cell & !(0x3F0_0000u32 | 0xFF00u32)) | (mainIndex << 20u32) | (subIndex << 8u32),
            mainIndex <= 0x3F,
            subIndex <= 0xFF,
    ;
    assert((r & 0xFF00) >> 8 == subIndex) by (bit_vector)
        requires
            r == (cell & !(0x3F0_0000u32 | 0xFF00u32)) | (mainIndex << 20u32) | (subIndex << 8u32),
            mainIndex <= 0x3F,
            subIndex <= 0xFF,
    ;
    assert(r & !(0x3F0_0000u32 | 0xFF00u32) == cell & !(0x3F0_0000u32 | 0xFF00u32)) by (bit_vector)
        requires
            r == (cell & !(0x3F0_0000u32 | 0xFF00u32)) | (mainIndex << 20u32) | (subIndex << 8u32),
            mainIndex <= 0x3F,
            subIndex <= 0xFF,
    ;
    assert(r & 0xFF == cell & 0xFF) by (bit_vector)
        requires
            r == (cell & !(0x3F0_0000u32 | 0xFF00u32)) | (mainIndex << 20u32) | (subIndex << 8u32),
            mainIndex <= 0x3F,
            subIndex <= 0xFF,
    ;
}

/// Gives every occupied cell of the layer the tile with the given indices.
pub fn forceTileID(layer: &mut Vec<u32>, mainIndex: u32, subIndex: u32)
    requires
        mainIndex <= MAIN_INDEX_MAX,
        subIndex <= SUB_INDEX_MAX,
    ensures
        final(layer)@.len() == old(layer)@.len(),
        forall|i: int|
            0 <= i < old(layer)@.len() ==> #[trigger] final(layer)@[i] == if (old(layer)@[i]
                & PROP1_MASK) != 0 {
                with_tile_id(old(layer)@[i], mainIndex, subIndex)
            } else {
                old(layer)@[i]
            },
{
    let n = layer.len();
    let mut i: usize = 0;
    while i < n
        invariant
            i <= n == layer@.len() == old(layer)@.len(),
            mainIndex <= MAIN_INDEX_MAX,
            subIndex <= SUB_INDEX_MAX,
            forall|k: int|
                0 <= k < i ==> #[trigger] layer@[k] == if (old(layer)@[k] & PROP1_MASK) != 0 {
                    with_tile_id(old(layer)@[k], mainIndex, subIndex)
                } else {
                    old(layer)@[k]
                },
            forall|k: int| i <= k < n ==> #[trigger] layer@[k] == old(layer)@[k],
        decreases n - i,
    {
        let cell = layer[i];
        if cellIsOccupied(cell) {
            layer[i] = setCellTileID(cell, mainIndex, subIndex);
        }
        i = i + 1;
    }
}

impl RootStruct {
    /// The places among the layers of the floors: they follow the two layers
    /// of every wall layer and come before the shadows and the tags. `None`
    /// where the layers are fewer than the map says.
    pub fn floorLayers(&self) -> (r: Option<(usize, usize)>)
        ensures
            match r {
                Some((start, end)) => {
                    &&& start == 2 * self.numWallLayers
                    &&& end == self.layers@.len() - 1 - if exists_tag_layer(self.tagType) {
                        1int
                    } else {
                        0
                    }
                    &&& start <= end
                },
                None => self.numWallLayers < 0 || 2 * self.numWallLayers > self.layers@.len() - 1
                    - if exists_tag_layer(self.tagType) {
                    1int
                } else {
                    0
                },
            },
    {
        let after: usize = ONE_SHADOW_LAYER + if existsTagLayer(self.tagType) {
            1
        } else {
            0
        };
        if self.numWallLayers < 0 || self.layers.len() < after {
            return None;
        }
        let end = self.layers.len() - after;
        let start = 2 * (self.numWallLayers as u64);
        if start > end as u64 {
            return None;
        }
        Some((start as usize, end))
    }
}

} // verus!
