//! Tilesets and maps of an isometric tile engine: reading and writing the
//! two binary containers, decoding and encoding the pixel blocks of tiles,
//! packing tiles into atlases, and looking up the nearest entry of a palette.
//!
//! Every function comes with a contract, and the modules named `law`,
//! `exact` and `pixels` state what reading and writing do to one another.

#![allow(non_snake_case, non_camel_case_types, non_upper_case_globals)]

pub mod choice;
pub mod columns;
pub mod cursor;
pub mod ds1;
pub mod dt1;
pub mod ext;
pub mod frame;
pub mod image;
pub mod le;
pub mod palette;
pub mod vectors;

pub use columns::{TileColumns, TilesIterator};
pub use cursor::{ReadExt, WriteExt};
pub use ext::{CopyExt, DivRemExt, LenConst_Ext, MinAssign_MaxAssign_Ext, UsizeExt, VecExt};
pub use image::Image;
pub use vectors::{DotExt, Vec2Ext};

use vstd::prelude::*;

verus! {

/// Bytes of one palette entry.
pub const RGB_SIZE: usize = 3;

/// Bytes of a palette of 256 entries.
pub const PAL_LEN: usize = 768;

/// Number of colors with three 8-bit components.
pub const RGBCUBE_VOLUME: usize = 16777216;

/// Bytes of one color with an alpha component.
pub const RGBA_SIZE: usize = 4;

/// A point `[x, y]`, or the size `[width, height]` of a rectangle.
pub type Vec2 = [usize; 2];

/// A rectangle `[point, dimensions]`.
pub type Rectangle = [Vec2; 2];

/// Place of the point in a rectangle.
pub const POINT: usize = 0;

/// Place of the dimensions in a rectangle.
pub const DIMENSIONS: usize = 1;

/// Place of the column in a point.
pub const X: usize = 0;

/// Place of the row in a point.
pub const Y: usize = 1;

/// Place of the width in dimensions.
pub const WIDTH: usize = 0;

/// Place of the height in dimensions.
pub const HEIGHT: usize = 1;

/// Palette index that marks a pixel as fully transparent.
pub const FULLY_TRANSPARENT: u8 = 0;

/// Palette index of a red.
pub const RED: u8 = 98;

/// Palette index of black.
pub const BLACK: u8 = 172;

/// `log2(of)` rounded down: the position of the highest set bit.
pub open spec fn spec_log2(of: nat) -> nat
    decreases of,
{
    if of <= 1 {
        0
    } else {
        1 + spec_log2(of / 2)
    }
}

/// The position of the highest set bit of `of`.
pub fn log2(of: usize) -> (r: usize)
    requires
        of > 0,
    ensures
        r == spec_log2(of as nat),
{
    let mut n: usize = of;
    let mut r: usize = 0;
    while n > 1
        invariant
            n > 0,
            r + spec_log2(n as nat) == spec_log2(of as nat),
            r <= of - n,
        decreases n,
    {
        n = n / 2;
        r = r + 1;
    }
    r
}

/// The default value of a type.
pub fn default<T: Default>() -> (r: T)
    ensures
        call_ensures(T::default, (), r),
{
    T::default()
}

} // verus!
