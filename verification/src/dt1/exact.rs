//! A container that is read and written again, with its own payloads, is
//! the same bytes.

use crate::cursor::{arr, bytes_at, fits, i16_at, i32_at, zeros_at, ReadError};
use crate::dt1::emit::{
    bodies_in, counts_fit, payloads_in, payloads_start, ser_block, ser_block_headers, ser_bodies, ser_file_header,
    ser_tile_header, ser_tile_headers, serialize,
};
use crate::dt1::law::{lemma_tile_header_parts, tile_header_back, tile_header_front};
use crate::dt1::parse::{
    block_at, block_check, lemma_pair, num_blocks_at, parse, parse_blocks, parse_headers,
    parse_tiles, sum_lengths, tile_at, tile_header_at, tile_header_check,
};
use crate::dt1::{Block, MetadataView, TileHeader, TileView};
use crate::le::{
    all_zero, i16_to_le, i32_to_le, lemma_i16_le_bytes, lemma_i32_le_bytes, lemma_le_len, zeros,
};
use vstd::array::{spec_array_fill_for_copy_type, spec_array_update};
use vstd::prelude::*;

verus! {

/// An array whose first `k` bytes are those of `s`.
pub open spec fn arr_upto<const N: usize>(s: Seq<u8>, k: int) -> [u8; N]
    decreases k,
{
    if k <= 0 {
        spec_array_fill_for_copy_type::<u8, N>(0u8)
    } else {
        spec_array_update(arr_upto::<N>(s, k - 1), k - 1, s[k - 1])
    }
}

/// The first `k` bytes of `arr_upto(s, k)` are those of `s`.
proof fn lemma_arr_upto<const N: usize>(s: Seq<u8>, k: int)
    requires
        s.len() == N,
        0 <= k <= N,
    ensures
        forall|i: int| 0 <= i < k ==> arr_upto::<N>(s, k)@[i] == s[i],
    decreases k,
{
    if k > 0 {
        lemma_arr_upto::<N>(s, k - 1);
        let before = arr_upto::<N>(s, k - 1);
        assert(arr_upto::<N>(s, k)@ == before@.update(k - 1, s[k - 1]));
    }
}

/// The array that holds `N` bytes holds those bytes.
pub proof fn lemma_arr_view<const N: usize>(s: Seq<u8>)
    requires
        s.len() == N,
    ensures
        arr::<N>(s)@ == s,
{
    lemma_arr_upto::<N>(s, N as int);
    let a = arr_upto::<N>(s, N as int);
    assert(a@ =~= s);
}

/// Bytes that follow one another are one stretch of bytes.
pub proof fn lemma_adjacent(s: Seq<u8>, p: int, a: int, b: int)
    requires
        0 <= p,
        0 <= a,
        0 <= b,
        p + a + b <= s.len(),
    ensures
        bytes_at(s, p, a) + bytes_at(s, p + a, b) == bytes_at(s, p, a + b),
{
    assert(bytes_at(s, p, a) + bytes_at(s, p + a, b) =~= bytes_at(s, p, a + b));
}

/// The four bytes of a number that is read at `p` are the bytes at `p`.
pub proof fn lemma_i32_exact(s: Seq<u8>, p: int)
    requires
        fits(s, p, 4),
    ensures
        i32::MIN <= i32_at(s, p) <= i32::MAX,
        i32_to_le(i32_at(s, p)) == bytes_at(s, p, 4),
{
    lemma_i32_le_bytes(bytes_at(s, p, 4));
}

/// The two bytes of a number that is read at `p` are the bytes at `p`.
pub proof fn lemma_i16_exact(s: Seq<u8>, p: int)
    requires
        fits(s, p, 2),
    ensures
        i16::MIN <= i16_at(s, p) <= i16::MAX,
        i16_to_le(i16_at(s, p)) == bytes_at(s, p, 2),
{
    lemma_i16_le_bytes(bytes_at(s, p, 2));
}

/// A run of zeros that was found at `p` is the bytes at `p`.
pub proof fn lemma_zeros_exact(s: Seq<u8>, p: int, n: nat)
    requires
        zeros_at(s, p, n as int) is Ok,
    ensures
        zeros(n) == bytes_at(s, p, n as int),
{
    assert(zeros(n) =~= bytes_at(s, p, n as int));
}

/// The bytes of an array that is read at `p` are the bytes at `p`.
pub proof fn lemma_array_exact<const N: usize>(s: Seq<u8>, p: int)
    requires
        fits(s, p, N as int),
    ensures
        arr::<N>(bytes_at(s, p, N as int))@ == bytes_at(s, p, N as int),
{
    lemma_arr_view::<N>(bytes_at(s, p, N as int));
}

/// The block header that is read at `p` is written as the bytes at `p`.
pub proof fn lemma_block_exact(s: Seq<u8>, p: int)
    requires
        block_check(s, p) is Ok,
    ensures
        ser_block(block_at(s, p)) == bytes_at(s, p, 20),
{
    let b = block_at(s, p);
    lemma_i16_exact(s, p);
    lemma_i16_exact(s, p + 2);
    lemma_zeros_exact(s, p + 4, 2);
    lemma_array_exact::<2>(s, p + 8);
    lemma_i32_exact(s, p + 10);
    lemma_zeros_exact(s, p + 14, 2);
    lemma_i32_exact(s, p + 16);
    assert(seq![b.gridX, b.gridY] =~= bytes_at(s, p + 6, 2));
    lemma_adjacent(s, p, 2, 2);
    lemma_adjacent(s, p, 4, 2);
    lemma_adjacent(s, p, 6, 2);
    lemma_adjacent(s, p, 8, 2);
    lemma_adjacent(s, p, 10, 4);
    lemma_adjacent(s, p, 14, 2);
    lemma_adjacent(s, p, 16, 4);
}

/// The first 40 bytes of the tile header that is read at `p` are the bytes
/// at `p`.
proof fn lemma_front_exact(s: Seq<u8>, p: int)
    requires
        tile_header_check(s, p) is Ok,
    ensures
        tile_header_front(tile_header_at(s, p)) == bytes_at(s, p, 40),
{
    lemma_i32_exact(s, p);
    lemma_i16_exact(s, p + 4);
    lemma_array_exact::<2>(s, p + 6);
    lemma_i32_exact(s, p + 8);
    lemma_i32_exact(s, p + 12);
    lemma_zeros_exact(s, p + 16, 4);
    lemma_i32_exact(s, p + 20);
    lemma_i32_exact(s, p + 24);
    lemma_i32_exact(s, p + 28);
    lemma_i32_exact(s, p + 32);
    lemma_array_exact::<4>(s, p + 36);
    lemma_adjacent(s, p, 4, 2);
    lemma_adjacent(s, p, 6, 2);
    lemma_adjacent(s, p, 8, 4);
    lemma_adjacent(s, p, 12, 4);
    lemma_adjacent(s, p, 16, 4);
    lemma_adjacent(s, p, 20, 4);
    lemma_adjacent(s, p, 24, 4);
    lemma_adjacent(s, p, 28, 4);
    lemma_adjacent(s, p, 32, 4);
    lemma_adjacent(s, p, 36, 4);
}

/// The last 31 bytes of the tile header that is read at `p` are the bytes
/// from `p + 65` on.
proof fn lemma_back_exact(s: Seq<u8>, p: int)
    requires
        tile_header_check(s, p) is Ok,
    ensures
        tile_header_back(tile_header_at(s, p), num_blocks_at(s, p)) == bytes_at(s, p + 65, 31),
{
    let q = p + 65;
    lemma_zeros_exact(s, q, 7);
    lemma_i32_exact(s, q + 7);
    lemma_i32_exact(s, q + 11);
    lemma_i32_exact(s, q + 15);
    lemma_zeros_exact(s, q + 19, 4);
    lemma_array_exact::<4>(s, q + 23);
    lemma_zeros_exact(s, q + 27, 4);
    lemma_adjacent(s, q, 7, 4);
    lemma_adjacent(s, q, 11, 4);
    lemma_adjacent(s, q, 15, 4);
    lemma_adjacent(s, q, 19, 4);
    lemma_adjacent(s, q, 23, 4);
    lemma_adjacent(s, q, 27, 4);
}

/// The tile header that is read at `p` is written as the bytes at `p`.
pub proof fn lemma_tile_header_exact(s: Seq<u8>, p: int)
    requires
        tile_header_check(s, p) is Ok,
    ensures
        ser_tile_header(tile_header_at(s, p), num_blocks_at(s, p)) == bytes_at(s, p, 96),
{
    let h = tile_header_at(s, p);
    lemma_tile_header_parts(h, num_blocks_at(s, p));
    lemma_front_exact(s, p);
    lemma_array_exact::<25>(s, p + 40);
    lemma_back_exact(s, p);
    lemma_adjacent(s, p, 40, 25);
    lemma_adjacent(s, p, 65, 31);
}

/// What reading `n` block headers says of each of them.
proof fn lemma_parse_blocks_at(s: Seq<u8>, p: int, n: int, k: int)
    requires
        parse_blocks(s, p, n) is Ok,
        0 <= k < n,
    ensures
        parse_blocks(s, p, n)->Ok_0.len() == n,
        block_check(s, p + 20 * k) is Ok,
        parse_blocks(s, p, n)->Ok_0[k] == block_at(s, p + 20 * k),
    decreases n,
{
    let before = parse_blocks(s, p, n - 1);
    assert(before is Ok);
    if n > 1 {
        lemma_parse_blocks_at(s, p, n - 1, if k < n - 1 {
            k
        } else {
            0
        });
    }
}

/// The block headers that are read at `p` are written as the bytes at `p`.
proof fn lemma_blocks_exact(s: Seq<u8>, p: int, n: int, k: int)
    requires
        0 <= p <= s.len(),
        parse_blocks(s, p, n) is Ok,
        0 <= k <= n,
    ensures
        fits(s, p, 20 * k),
        ser_block_headers(parse_blocks(s, p, n)->Ok_0, k) == bytes_at(s, p, 20 * k),
    decreases k,
{
    if k > 0 {
        lemma_blocks_exact(s, p, n, k - 1);
        lemma_parse_blocks_at(s, p, n, k - 1);
        lemma_block_exact(s, p + 20 * (k - 1));
        lemma_adjacent(s, p, 20 * (k - 1), 20);
    } else {
        assert(ser_block_headers(parse_blocks(s, p, n)->Ok_0, 0) =~= bytes_at(s, p, 0));
    }
}

/// What reading `n` tile headers says of each of them.
proof fn lemma_parse_headers_at(s: Seq<u8>, n: int, k: int)
    requires
        parse_headers(s, n) is Ok,
        0 <= k < n,
    ensures
        parse_headers(s, n)->Ok_0.len() == n,
        tile_header_check(s, 276 + 96 * k) is Ok,
        parse_headers(s, n)->Ok_0[k] == (
            tile_header_at(s, 276 + 96 * k),
            num_blocks_at(s, 276 + 96 * k),
        ),
    decreases n,
{
    let before = parse_headers(s, n - 1);
    assert(before is Ok);
    if n > 1 {
        lemma_parse_headers_at(s, n - 1, if k < n - 1 {
            k
        } else {
            0
        });
    }
}

/// As many tiles are read as were asked for.
proof fn lemma_tiles_count(s: Seq<u8>, heads: Seq<(TileHeader, int)>, n: int)
    requires
        0 <= n,
        parse_tiles(s, heads, n) is Ok,
    ensures
        parse_tiles(s, heads, n)->Ok_0.0.len() == n,
    decreases n,
{
    if n > 0 {
        lemma_tiles_count(s, heads, n - 1);
    }
}

/// What reading `n` tiles says of each of them: tile `t` is read where the
/// tiles before it end.
proof fn lemma_parse_tiles_at(s: Seq<u8>, heads: Seq<(TileHeader, int)>, n: int, t: int)
    requires
        parse_tiles(s, heads, n) is Ok,
        0 <= t < n,
    ensures
        parse_tiles(s, heads, n)->Ok_0.0.len() == n,
        parse_tiles(s, heads, t) is Ok,
        parse_tiles(s, heads, t + 1) is Ok,
        tile_at(s, parse_tiles(s, heads, t)->Ok_0.1, heads[t]) == Ok::<(TileView, int), ReadError>(
            (parse_tiles(s, heads, n)->Ok_0.0[t], parse_tiles(s, heads, t + 1)->Ok_0.1),
        ),
    decreases n,
{
    let before = parse_tiles(s, heads, n - 1);
    assert(before is Ok);
    if n > 1 {
        lemma_parse_tiles_at(s, heads, n - 1, if t < n - 1 {
            t
        } else {
            0
        });
    }
}

/// What a tile that is read at `q` says of the bytes at `q`: its block
/// headers are written as the bytes at `q`, and its payloads follow them.
proof fn lemma_tile_exact(s: Seq<u8>, q: int, head: (TileHeader, int))
    requires
        0 <= q,
        0 <= head.1,
        tile_at(s, q, head) is Ok,
    ensures
        ({
            let tile = tile_at(s, q, head)->Ok_0.0;
            let next = tile_at(s, q, head)->Ok_0.1;
            let total = sum_lengths(tile.blocks, tile.blocks.len() as int);
            &&& tile.head == head.0
            &&& tile.blocks.len() == head.1
            &&& payloads_start(tile) == q + 20 * head.1
            &&& 0 <= total
            &&& next == q + 20 * head.1 + total
            &&& next <= s.len()
            &&& ser_block_headers(tile.blocks, head.1) == bytes_at(s, q, 20 * head.1)
        }),
{
    let n = head.1;
    if n > 0 {
        lemma_parse_blocks_at(s, q, n, 0);
    }
    lemma_blocks_exact(s, q, n, n);
}

/// What was read from a container: the tile headers and the place where
/// every tile starts.
pub open spec fn tile_start(b: Seq<u8>, t: int) -> int {
    parse_tiles(b, parse_headers(b, i32_at(b, 268))->Ok_0, t)->Ok_0.1
}

/// What holds of every tile of a container that was read.
proof fn lemma_read_tile(b: Seq<u8>, t: int)
    requires
        parse(b) is Ok,
        0 <= t < parse(b)->Ok_0.tiles.len(),
    ensures
        ({
            let m = parse(b)->Ok_0;
            let n = m.tiles.len() as int;
            let tile = m.tiles[t];
            let q = tile_start(b, t);
            let total = sum_lengths(tile.blocks, tile.blocks.len() as int);
            &&& n == i32_at(b, 268)
            &&& tile_start(b, 0) == 276 + 96 * n
            &&& 0 <= q
            &&& tile_header_check(b, 276 + 96 * t) is Ok
            &&& tile.head == tile_header_at(b, 276 + 96 * t)
            &&& tile.blocks.len() == num_blocks_at(b, 276 + 96 * t)
            &&& payloads_start(tile) == q + 20 * tile.blocks.len()
            &&& 0 <= total
            &&& tile_start(b, t + 1) == q + 20 * tile.blocks.len() + total
            &&& tile_start(b, t + 1) <= b.len()
            &&& ser_block_headers(tile.blocks, tile.blocks.len() as int) == bytes_at(
                b,
                q,
                20 * (tile.blocks.len() as int),
            )
        }),
    decreases t,
{
    let n = i32_at(b, 268);
    let heads = parse_headers(b, n)->Ok_0;
    lemma_tiles_count(b, heads, n);
    lemma_parse_headers_at(b, n, t);
    lemma_parse_tiles_at(b, heads, n, t);
    lemma_parse_headers_at(b, n, 0);
    if t > 0 {
        lemma_read_tile(b, t - 1);
    }
    lemma_tile_exact(b, tile_start(b, t), heads[t]);
}

/// The tile headers that were read are written as the bytes that they
/// were read from.
proof fn lemma_headers_exact(b: Seq<u8>, k: int)
    requires
        parse(b) is Ok,
        0 <= k <= parse(b)->Ok_0.tiles.len(),
    ensures
        fits(b, 276, 96 * k),
        ser_tile_headers(parse(b)->Ok_0.tiles, k) == bytes_at(b, 276, 96 * k),
    decreases k,
{
    let m = parse(b)->Ok_0;
    if k > 0 {
        lemma_headers_exact(b, k - 1);
        lemma_read_tile(b, k - 1);
        lemma_tile_header_exact(b, 276 + 96 * (k - 1));
        lemma_adjacent(b, 276, 96 * (k - 1), 96);
    } else {
        assert(ser_tile_headers(m.tiles, 0) =~= bytes_at(b, 276, 0));
    }
}

/// The tiles that were read are written, with their payloads, as the bytes
/// that they were read from.
proof fn lemma_bodies_exact(b: Seq<u8>, k: int)
    requires
        parse(b) is Ok,
        0 <= k <= parse(b)->Ok_0.tiles.len(),
    ensures
        ({
            let m = parse(b)->Ok_0;
            let base = 276 + 96 * (m.tiles.len() as int);
            &&& base == tile_start(b, 0)
            &&& base <= tile_start(b, k) <= b.len()
            &&& ser_bodies(m.tiles, bodies_in(m, b), k) == bytes_at(
                b,
                base,
                tile_start(b, k) - base,
            )
        }),
    decreases k,
{
    let m = parse(b)->Ok_0;
    let n = m.tiles.len() as int;
    let base = 276 + 96 * n;
    if k > 0 {
        lemma_bodies_exact(b, k - 1);
        lemma_read_tile(b, k - 1);
        let tile = m.tiles[k - 1];
        let q = tile_start(b, k - 1);
        let nb = tile.blocks.len() as int;
        let total = sum_lengths(tile.blocks, nb);
        assert(bodies_in(m, b)[k - 1] == bytes_at(b, q + 20 * nb, total));
        lemma_adjacent(b, base, q - base, 20 * nb);
        lemma_adjacent(b, base, q - base + 20 * nb, total);
    } else {
        let heads = parse_headers(b, i32_at(b, 268))->Ok_0;
        lemma_tiles_count(b, heads, i32_at(b, 268));
        if n > 0 {
            lemma_read_tile(b, 0);
        } else {
            assert(heads.len() == 0) by {
                assert(parse_headers(b, 0) is Ok);
            }
        }
        assert(ser_bodies(m.tiles, bodies_in(m, b), 0) =~= bytes_at(b, base, 0));
    }
}

/// The file header that was read is written as the first 276 bytes.
proof fn lemma_file_header_exact(b: Seq<u8>)
    requires
        parse(b) is Ok,
    ensures
        b.len() >= 276,
        ser_file_header(parse(b)->Ok_0.fileHeader, i32_at(b, 268)) == bytes_at(b, 0, 276),
{
    lemma_pair([7i32, 6i32]);
    lemma_i32_exact(b, 0);
    lemma_i32_exact(b, 4);
    lemma_zeros_exact(b, 8, 260);
    lemma_i32_exact(b, 268);
    lemma_i32_exact(b, 272);
    lemma_adjacent(b, 0, 4, 4);
    lemma_adjacent(b, 0, 8, 260);
    lemma_adjacent(b, 0, 268, 4);
    lemma_adjacent(b, 0, 272, 4);
}

/// Reading and writing again gives the same bytes: a container that was
/// read, written with the payloads that it holds, is the container.
pub proof fn lemma_parse_serialize(b: Seq<u8>)
    requires
        parse(b) is Ok,
    ensures
        serialize(parse(b)->Ok_0, bodies_in(parse(b)->Ok_0, b)) == b,
{
    let m = parse(b)->Ok_0;
    let n = m.tiles.len() as int;
    let heads = parse_headers(b, i32_at(b, 268))->Ok_0;
    lemma_tiles_count(b, heads, i32_at(b, 268));
    lemma_file_header_exact(b);
    lemma_headers_exact(b, n);
    lemma_bodies_exact(b, n);
    if n > 0 {
        lemma_read_tile(b, 0);
    } else {
        assert(parse_headers(b, 0) is Ok);
    }
    assert(i32_at(b, 268) == n);
    assert(tile_start(b, n) == b.len());
    lemma_adjacent(b, 0, 276, 96 * n);
    lemma_adjacent(b, 0, 276 + 96 * n, b.len() - (276 + 96 * n));
    assert(bytes_at(b, 0, b.len() as int) =~= b);
}

/// A container that was read can be written with the payloads that it
/// holds: its counts fit 32 bits, and the payloads of every tile lie in it.
pub proof fn lemma_parse_rewritable(b: Seq<u8>)
    requires
        parse(b) is Ok,
    ensures
        counts_fit(parse(b)->Ok_0),
        forall|t: int|
            0 <= t < parse(b)->Ok_0.tiles.len() ==> payloads_in(
                #[trigger] parse(b)->Ok_0.tiles[t],
                b,
            ),
{
    let m = parse(b)->Ok_0;
    let heads = parse_headers(b, i32_at(b, 268))->Ok_0;
    lemma_tiles_count(b, heads, i32_at(b, 268));
    lemma_i32_exact(b, 268);
    assert forall|t: int| 0 <= t < m.tiles.len() implies payloads_in(#[trigger] m.tiles[t], b)
        && m.tiles[t].blocks.len() <= i32::MAX by {
        lemma_read_tile(b, t);
        lemma_i32_exact(b, 276 + 96 * t + 80);
    }
}

} // verus!
