//! The tileset container: tiles made of pixel blocks.

pub mod atlas;
pub mod draw;
pub mod emit;
pub mod encode;
pub mod exact;
pub mod law;
pub mod layout;
pub mod noisy;
pub mod parse;
pub mod pixels;
pub mod raw;
pub mod tiles;

use vstd::prelude::*;

pub use draw::{DrawDestination, DrawFn};

verus! {

/// Columns that each row of an isometric block skips before its pixels.
pub const XJUMP: [usize; 15] = [14, 12, 10, 8, 6, 4, 2, 0, 2, 4, 6, 8, 10, 12, 14];

/// Pixels that each row of an isometric block holds.
pub const NBPIX: [usize; 15] = [4, 8, 12, 16, 20, 24, 28, 32, 28, 24, 20, 16, 12, 8, 4];

/// Rows of an isometric block.
pub const ISOMETRIC_ROWS: usize = 15;

/// Bytes of the payload of an isometric block.
pub const ISOMETRIC_LENGTH: usize = 256;

/// Subtiles in a row of a tile.
pub const NUM_SUBTILES_PER_LINE: usize = 5;

/// Subtiles of a tile.
pub const NUM_SUBTILES: usize = 25;

/// Bytes before the tile headers.
pub const FILEHEADER_SIZE: i32 = 276;

/// Bytes of a tile header.
pub const TILEHEADER_SIZE: i32 = 96;

/// Bytes of a block header.
pub const BLOCKHEADER_SIZE: i32 = 20;

/// Format tag of an isometric block.
pub const ISOMETRIC: [u8; 2] = [1, 0];

/// Format tag of a run-length block with the outline of an isometric one.
pub const RLE_ISOMETRIC: [u8; 2] = [5, 32];

/// Format tag of a run-length block.
pub const RLE: [u8; 2] = [1, 16];

/// Width of a tile in pixels.
pub const TILEWIDTH: usize = 160;

/// Height of a floor or roof tile in pixels.
pub const FLOOR_ROOF_TILEHEIGHT: usize = 80;

/// Width of a block in pixels.
pub const BLOCKWIDTH: usize = 32;

/// Height of the slot of a block of a floor or roof tile.
pub const FLOOR_ROOF_BLOCKHEIGHT: usize = 16;

/// Height of the highest blocks.
pub const MAX_BLOCKHEIGHT: usize = 32;

/// Side of the square that holds the diamond of a floor tile.
pub const SQUARE_TILE_SIZE: usize = 80;

/// Side of the square that holds the diamond of a block.
pub const SQUARE_SUBTILE_SIZE: usize = 16;

/// Orientation of floors.
pub const FLOOR_ORIENTATION: i32 = 0;

/// Orientation of roofs.
pub const ROOF_ORIENTATION: i32 = 15;

/// The first fields of the container.
#[derive(Debug, Clone, Copy, PartialEq, Eq)]
pub struct FileHeader {
    pub version: [i32; 2],
    pub tileHeadersPointer: i32,
}

/// The version that a container did not have.
#[derive(Debug, Clone, Copy, PartialEq, Eq)]
pub struct VersionMismatchError {
    pub version: [i32; 2],
}

/// Why a container could not be read.
#[derive(Debug, Clone, Copy, PartialEq, Eq)]
pub enum Error {
    /// The version is not `[7, 6]`.
    VersionMismatch(VersionMismatchError),
    /// A field holds a value that the format does not allow.
    MalformedStructure,
    /// The buffer ended before the container did.
    TruncatedInput,
}

/// The header of a block of pixels.
#[derive(Debug, Clone, Copy, PartialEq, Eq)]
pub struct Block {
    pub x: i16,
    pub y: i16,
    pub gridX: u8,
    pub gridY: u8,
    pub format: [u8; 2],
    pub length: i32,
    pub fileOffset: i32,
}

/// The fields of a tile but for its blocks.
#[derive(Debug, Clone, Copy, PartialEq, Eq)]
pub struct TileHeader {
    pub direction: i32,
    pub roofHeight: i16,
    pub materialFlags: [u8; 2],
    pub height: i32,
    pub width: i32,
    pub orientation: i32,
    pub mainIndex: i32,
    pub subIndex: i32,
    pub rarityOrFrameIndex: i32,
    pub unknown: [u8; 4],
    pub subtileFlags: [u8; 25],
    pub blockHeadersPointer: i32,
    pub blocksDataLength: i32,
    pub usuallyZeros: [u8; 4],
}

/// A tile and the headers of its blocks.
#[derive(Debug, Clone, PartialEq, Eq)]
pub struct Tile {
    pub direction: i32,
    pub roofHeight: i16,
    pub materialFlags: [u8; 2],
    pub height: i32,
    pub width: i32,
    pub orientation: i32,
    pub mainIndex: i32,
    pub subIndex: i32,
    pub rarityOrFrameIndex: i32,
    pub unknown: [u8; 4],
    pub subtileFlags: [u8; 25],
    pub blockHeadersPointer: i32,
    pub blocksDataLength: i32,
    pub usuallyZeros: [u8; 4],
    pub blocks: Vec<Block>,
}

/// What a tile holds: its fields and the headers of its blocks.
pub struct TileView {
    pub head: TileHeader,
    pub blocks: Seq<Block>,
}

/// The container without the pixels.
#[derive(Debug, Clone, PartialEq, Eq)]
pub struct Metadata {
    pub fileHeader: FileHeader,
    pub tiles: Vec<Tile>,
}

/// What the container holds.
pub struct MetadataView {
    pub fileHeader: FileHeader,
    pub tiles: Seq<TileView>,
}

impl View for Tile {
    type V = TileView;

    open spec fn view(&self) -> TileView {
        TileView { head: self.head(), blocks: self.blocks@ }
    }
}

impl View for Metadata {
    type V = MetadataView;

    open spec fn view(&self) -> MetadataView {
        MetadataView {
            fileHeader: self.fileHeader,
            tiles: Seq::new(self.tiles@.len(), |i: int| self.tiles@[i]@),
        }
    }
}

/// Height of the blocks of a tile with the given orientation: 16 for floors
/// and roofs, 32 for the others.
pub open spec fn block_height(orientation: i32) -> int {
    if orientation == FLOOR_ORIENTATION || orientation == ROOF_ORIENTATION {
        16
    } else {
        32
    }
}

/// The format tag is that of an isometric block.
pub open spec fn is_isometric(format: [u8; 2]) -> bool {
    format[0] == 1 && format[1] == 0
}

/// The format tag is that of a run-length block.
pub open spec fn is_rle(format: [u8; 2]) -> bool {
    format[0] == 1 && format[1] == 16
}

/// The format tag is that of a run-length block with the isometric outline.
pub open spec fn is_rle_isometric(format: [u8; 2]) -> bool {
    format[0] == 5 && format[1] == 32
}

impl Block {
    /// The decoder for this block: the isometric one for the tag `[1, 0]`,
    /// the run-length one for every other tag.
    pub fn drawFn(&self) -> (r: DrawFn)
        ensures
            r == if is_isometric(self.format) {
                DrawFn::Isometric
            } else {
                DrawFn::RLE
            },
    {
        if self.format[0] == 1 && self.format[1] == 0 {
            DrawFn::Isometric
        } else {
            DrawFn::RLE
        }
    }
}

impl Tile {
    /// The fields of the tile but for its blocks.
    pub open spec fn head(&self) -> TileHeader {
        TileHeader {
            direction: self.direction,
            roofHeight: self.roofHeight,
            materialFlags: self.materialFlags,
            height: self.height,
            width: self.width,
            orientation: self.orientation,
            mainIndex: self.mainIndex,
            subIndex: self.subIndex,
            rarityOrFrameIndex: self.rarityOrFrameIndex,
            unknown: self.unknown,
            subtileFlags: self.subtileFlags,
            blockHeadersPointer: self.blockHeadersPointer,
            blocksDataLength: self.blocksDataLength,
            usuallyZeros: self.usuallyZeros,
        }
    }

    /// The fields of the tile but for its blocks.
    pub fn header(&self) -> (h: TileHeader)
        ensures
            h == self.head(),
    {
        TileHeader {
            direction: self.direction,
            roofHeight: self.roofHeight,
            materialFlags: self.materialFlags,
            height: self.height,
            width: self.width,
            orientation: self.orientation,
            mainIndex: self.mainIndex,
            subIndex: self.subIndex,
            rarityOrFrameIndex: self.rarityOrFrameIndex,
            unknown: self.unknown,
            subtileFlags: self.subtileFlags,
            blockHeadersPointer: self.blockHeadersPointer,
            blocksDataLength: self.blocksDataLength,
            usuallyZeros: self.usuallyZeros,
        }
    }

    /// The tile with the given fields and blocks.
    pub fn fromHeader(h: TileHeader, blocks: Vec<Block>) -> (t: Tile)
        ensures
            t@ == (TileView { head: h, blocks: blocks@ }),
            t.blocks == blocks,
    {
        Tile {
            direction: h.direction,
            roofHeight: h.roofHeight,
            materialFlags: h.materialFlags,
            height: h.height,
            width: h.width,
            orientation: h.orientation,
            mainIndex: h.mainIndex,
            subIndex: h.subIndex,
            rarityOrFrameIndex: h.rarityOrFrameIndex,
            unknown: h.unknown,
            subtileFlags: h.subtileFlags,
            blockHeadersPointer: h.blockHeadersPointer,
            blocksDataLength: h.blocksDataLength,
            usuallyZeros: h.usuallyZeros,
            blocks,
        }
    }

    /// Height of each block of the tile: 16 for floors and roofs, 32 for the
    /// others.
    pub fn blockHeight(&self) -> (r: usize)
        ensures
            r == block_height(self.orientation),
    {
        if self.orientation == FLOOR_ORIENTATION || self.orientation == ROOF_ORIENTATION {
            FLOOR_ROOF_BLOCKHEIGHT
        } else {
            MAX_BLOCKHEIGHT
        }
    }
}

/// Columns that row `dy` of an isometric block skips: `|14 - 2 dy|`.
pub open spec fn xjump(dy: int) -> int {
    if dy < 8 {
        14 - 2 * dy
    } else {
        2 * dy - 14
    }
}

/// Pixels that row `dy` of an isometric block holds: `32 - 2 xjump(dy)`.
pub open spec fn nbpix(dy: int) -> int {
    32 - 2 * xjump(dy)
}

/// The tables hold what the formulas say.
pub proof fn lemma_tables(dy: int)
    requires
        0 <= dy < 15,
    ensures
        XJUMP[dy] == xjump(dy),
        NBPIX[dy] == nbpix(dy),
{
}

} // verus!
