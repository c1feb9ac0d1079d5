//! Palettes of up to 256 colors, and the table that gives for every color
//! the nearest entry of a palette.

use crate::vectors::{sum_squares, DotExt};
use crate::{BLACK, FULLY_TRANSPARENT, RGBCUBE_VOLUME};
use rand::Rng;
use vstd::prelude::*;

verus! {

/// `rand::Rng::gen::<u8>` on `rand::thread_rng()`: a byte drawn at random.
/// Nothing is known of it.
#[verifier::external_body]
pub(crate) fn random_byte() -> (r: u8) {
    rand::thread_rng().gen::<u8>()
}

/// The red component of the color at place `j` of the table.
pub open spec fn red(j: int) -> int {
    j / 65536
}

/// The green component of the color at place `j` of the table.
pub open spec fn green(j: int) -> int {
    (j / 256) % 256
}

/// The blue component of the color at place `j` of the table.
pub open spec fn blue(j: int) -> int {
    j % 256
}

/// The place in the table of the color `(r, g, b)`: `(r << 16) | (g << 8) | b`.
pub open spec fn place(r: int, g: int, b: int) -> int {
    r * 65536 + g * 256 + b
}

/// The square of the distance between two colors.
pub open spec fn dist2(r: int, g: int, b: int, pr: int, pg: int, pb: int) -> int {
    (r - pr) * (r - pr) + (g - pg) * (g - pg) + (b - pb) * (b - pb)
}

/// The square of the distance between entry `i` of the palette and the
/// color at place `j`.
pub open spec fn entry_dist(pal: Seq<u8>, i: int, j: int) -> int {
    dist2(red(j), green(j), blue(j), pal[3 * i] as int, pal[3 * i + 1] as int, pal[3 * i + 2] as int)
}

/// The entry among the first `n` of the palette that is nearest to the
/// color at place `j`; of two equally near the earlier one.
pub open spec fn nearest(pal: Seq<u8>, n: int, j: int) -> int
    decreases n,
{
    if n <= 1 {
        0
    } else if entry_dist(pal, n - 1, j) < entry_dist(pal, nearest(pal, n - 1, j), j) {
        n - 1
    } else {
        nearest(pal, n - 1, j)
    }
}

/// What the table holds at place `j` once the first `n` entries were gone
/// through: the nearest of them and the square of its distance; at first
/// the byte `fill` and the greatest distance there is.
pub open spec fn cell_ok(pal: Seq<u8>, n: int, fill: u8, j: int, entry: u8, dist: i32) -> bool {
    if n <= 0 {
        entry == fill && dist == i32::MAX
    } else {
        entry == nearest(pal, n, j) && dist == entry_dist(pal, nearest(pal, n, j), j)
    }
}

/// The table and the distances are those for the first `n` entries, and
/// below place `done` for one entry more.
pub open spec fn built(
    pal: Seq<u8>,
    n: int,
    done: int,
    fill: u8,
    table: Seq<u8>,
    best: Seq<i32>,
) -> bool {
    &&& table.len() == RGBCUBE_VOLUME
    &&& best.len() == RGBCUBE_VOLUME
    &&& forall|j: int|
        0 <= j < RGBCUBE_VOLUME ==> cell_ok(
            pal,
            if j < done {
                n + 1
            } else {
                n
            },
            fill,
            j,
            #[trigger] table[j],
            best[j],
        )
}

/// The number of entries of a palette.
pub open spec fn entries(pal: Seq<u8>) -> int {
    (pal.len() / 3) as int
}

/// The palette holds whole entries, at most 256.
pub open spec fn palette_ok(pal: Seq<u8>) -> bool {
    pal.len() % 3 == 0 && pal.len() <= 768
}

/// The table gives for every color the nearest entry of the palette; of
/// two equally near the earlier one.
pub open spec fn is_inverse(pal: Seq<u8>, table: Seq<u8>) -> bool {
    &&& table.len() == RGBCUBE_VOLUME
    &&& forall|r: int, g: int, b: int|
        0 <= r < 256 && 0 <= g < 256 && 0 <= b < 256 ==> #[trigger] table[place(r, g, b)]
            == nearest(pal, entries(pal), place(r, g, b))
}

/// The nearest of the first `n` entries is one of them, none of them is
/// nearer, and every earlier one is further away.
pub proof fn lemma_nearest(pal: Seq<u8>, n: int, j: int, k: int)
    requires
        1 <= n,
        0 <= k < n,
    ensures
        0 <= nearest(pal, n, j) < n,
        entry_dist(pal, nearest(pal, n, j), j) <= entry_dist(pal, k, j),
        k < nearest(pal, n, j) ==> entry_dist(pal, nearest(pal, n, j), j) < entry_dist(pal, k, j),
    decreases n,
{
    if n > 1 {
        lemma_nearest(pal, n - 1, j, 0);
        if k < n - 1 {
            lemma_nearest(pal, n - 1, j, k);
        }
    }
}

/// The square of a distance between two colors lies between 0 and
/// `3 * 255 * 255`.
pub proof fn lemma_dist2(r: int, g: int, b: int, pr: int, pg: int, pb: int)
    requires
        0 <= r < 256,
        0 <= g < 256,
        0 <= b < 256,
        0 <= pr < 256,
        0 <= pg < 256,
        0 <= pb < 256,
    ensures
        0 <= dist2(r, g, b, pr, pg, pb) <= 195075,
{
    lemma_square(r - pr);
    lemma_square(g - pg);
    lemma_square(b - pb);
}

/// The square of a difference of two components lies between 0 and
/// `255 * 255`.
pub proof fn lemma_square(d: int)
    requires
        -255 <= d <= 255,
    ensures
        0 <= d * d <= 65025,
{
    assert(0 <= d * d <= 65025) by (nonlinear_arith)
        requires
            -255 <= d <= 255,
    ;
}

/// The components of the color at the place of `(r, g, b)` are `r`, `g`
/// and `b`.
pub proof fn lemma_place(r: int, g: int, b: int)
    requires
        0 <= r < 256,
        0 <= g < 256,
        0 <= b < 256,
    ensures
        0 <= place(r, g, b) < RGBCUBE_VOLUME,
        red(place(r, g, b)) == r,
        green(place(r, g, b)) == g,
        blue(place(r, g, b)) == b,
{
    let j = place(r, g, b);
    let low = g * 256 + b;
    assert(j / 65536 == r) by (nonlinear_arith)
        requires
            j == r * 65536 + low,
            0 <= low < 65536,
    ;
    assert(j / 256 == r * 256 + g && j % 256 == b) by (nonlinear_arith)
        requires
            j == (r * 256 + g) * 256 + b,
            0 <= b < 256,
    ;
    assert((r * 256 + g) % 256 == g) by (nonlinear_arith)
        requires
            0 <= g < 256,
    ;
}

/// Takes entry `entry` of the palette into account at place `j`, `dist`
/// being the square of its distance from the color there.
fn visit(
    table: &mut Vec<u8>,
    best: &mut Vec<i32>,
    j: usize,
    entry: usize,
    dist: i32,
    Ghost(pal): Ghost<Seq<u8>>,
    Ghost(fill): Ghost<u8>,
)
    requires
        built(pal, entry as int, j as int, fill, old(table)@, old(best)@),
        j < RGBCUBE_VOLUME,
        entry < 256,
        entry < entries(pal),
        dist == entry_dist(pal, entry as int, j as int),
        0 <= dist <= 195075,
    ensures
        built(pal, entry as int, j + 1, fill, final(table)@, final(best)@),
{
    let ghost t0 = table@;
    let ghost b0 = best@;
    assert(cell_ok(pal, entry as int, fill, j as int, t0[j as int], b0[j as int]));
    if best[j] > dist {
        best[j] = dist;
        table[j] = entry as u8;
    }
    proof {
        if entry > 0 {
            lemma_nearest(pal, entry as int, j as int, 0);
        }
        assert forall|k: int| 0 <= k < RGBCUBE_VOLUME implies cell_ok(
            pal,
            if k < j + 1 {
                entry + 1
            } else {
                entry as int
            },
            fill,
            k,
            #[trigger] table@[k],
            best@[k],
        ) by {
            if k != j {
                assert(cell_ok(
                    pal,
                    if k < j {
                        entry + 1
                    } else {
                        entry as int
                    },
                    fill,
                    k,
                    t0[k],
                    b0[k],
                ));
            }
        }
    }
}

/// Goes through the 256 colors with the given red and green components.
fn visitBlues(
    table: &mut Vec<u8>,
    best: &mut Vec<i32>,
    entry: usize,
    r: usize,
    g: usize,
    gdist: i32,
    binc: i32,
    Ghost(pal): Ghost<Seq<u8>>,
    Ghost(fill): Ghost<u8>,
)
    requires
        built(pal, entry as int, place(r as int, g as int, 0), fill, old(table)@, old(best)@),
        palette_ok(pal),
        entry < entries(pal),
        r < 256,
        g < 256,
        gdist == entry_dist(pal, entry as int, place(r as int, g as int, 0)),
        binc == 1 - 2 * pal[3 * entry + 2],
    ensures
        built(pal, entry as int, place(r as int, g as int, 0) + 256, fill, final(table)@, final(best)@),
{
    let base: usize = r * 65536 + g * 256;
    let mut bdist: i32 = gdist;
    let mut b: usize = 0;
    while b < 256
        invariant
            b <= 256,
            r < 256,
            g < 256,
            base == place(r as int, g as int, 0),
            palette_ok(pal),
            entry < entries(pal),
            binc == 1 - 2 * pal[3 * entry + 2],
            b < 256 ==> bdist == entry_dist(pal, entry as int, base + b),
            built(pal, entry as int, base + b, fill, table@, best@),
        decreases 256 - b,
    {
        proof {
            lemma_place(r as int, g as int, b as int);
            lemma_dist2(
                r as int,
                g as int,
                b as int,
                pal[3 * entry] as int,
                pal[3 * entry + 1] as int,
                pal[3 * entry + 2] as int,
            );
            if b < 255 {
                lemma_place(r as int, g as int, b + 1);
                lemma_dist2(
                    r as int,
                    g as int,
                    b + 1,
                    pal[3 * entry] as int,
                    pal[3 * entry + 1] as int,
                    pal[3 * entry + 2] as int,
                );
                let pb = pal[3 * entry + 2] as int;
                assert((b + 1 - pb) * (b + 1 - pb) == (b - pb) * (b - pb) + (1 - 2 * pb) + 2 * b)
                    by (nonlinear_arith);
            }
        }
        visit(table, best, base + b, entry, bdist, Ghost(pal), Ghost(fill));
        if b < 255 {
            bdist = bdist + (binc + 2 * b as i32);
        }
        b = b + 1;
    }
}

/// Goes through the 65536 colors with the given red component.
fn visitGreens(
    table: &mut Vec<u8>,
    best: &mut Vec<i32>,
    entry: usize,
    r: usize,
    rdist: i32,
    ginc: i32,
    binc: i32,
    Ghost(pal): Ghost<Seq<u8>>,
    Ghost(fill): Ghost<u8>,
)
    requires
        built(pal, entry as int, place(r as int, 0, 0), fill, old(table)@, old(best)@),
        palette_ok(pal),
        entry < entries(pal),
        r < 256,
        rdist == entry_dist(pal, entry as int, place(r as int, 0, 0)),
        ginc == 1 - 2 * pal[3 * entry + 1],
        binc == 1 - 2 * pal[3 * entry + 2],
    ensures
        built(pal, entry as int, place(r as int, 0, 0) + 65536, fill, final(table)@, final(best)@),
{
    let mut gdist: i32 = rdist;
    let mut g: usize = 0;
    while g < 256
        invariant
            g <= 256,
            r < 256,
            palette_ok(pal),
            entry < entries(pal),
            ginc == 1 - 2 * pal[3 * entry + 1],
            binc == 1 - 2 * pal[3 * entry + 2],
            g < 256 ==> gdist == entry_dist(pal, entry as int, place(r as int, g as int, 0)),
            built(pal, entry as int, place(r as int, g as int, 0), fill, table@, best@),
        decreases 256 - g,
    {
        proof {
            lemma_place(r as int, g as int, 0);
            lemma_dist2(
                r as int,
                g as int,
                0,
                pal[3 * entry] as int,
                pal[3 * entry + 1] as int,
                pal[3 * entry + 2] as int,
            );
            if g < 255 {
                lemma_place(r as int, g + 1, 0);
                lemma_dist2(
                    r as int,
                    g + 1,
                    0,
                    pal[3 * entry] as int,
                    pal[3 * entry + 1] as int,
                    pal[3 * entry + 2] as int,
                );
                let pg = pal[3 * entry + 1] as int;
                assert((g + 1 - pg) * (g + 1 - pg) == (g - pg) * (g - pg) + (1 - 2 * pg) + 2 * g)
                    by (nonlinear_arith);
            }
        }
        visitBlues(table, best, entry, r, g, gdist, binc, Ghost(pal), Ghost(fill));
        if g < 255 {
            gdist = gdist + (ginc + 2 * g as i32);
        }
        g = g + 1;
    }
}

/// Takes one more entry of the palette into account at every place.
fn visitReds(
    table: &mut Vec<u8>,
    best: &mut Vec<i32>,
    entry: usize,
    color: [u8; 3],
    Ghost(pal): Ghost<Seq<u8>>,
    Ghost(fill): Ghost<u8>,
)
    requires
        built(pal, entry as int, 0, fill, old(table)@, old(best)@),
        palette_ok(pal),
        entry < entries(pal),
        color[0] == pal[3 * entry],
        color[1] == pal[3 * entry + 1],
        color[2] == pal[3 * entry + 2],
    ensures
        built(pal, entry + 1, 0, fill, final(table)@, final(best)@),
{
    let p: [i32; 3] = [color[0] as i32, color[1] as i32, color[2] as i32];
    proof {
        reveal_with_fuel(sum_squares, 4);
        lemma_place(0, 0, 0);
        lemma_dist2(0, 0, 0, p[0] as int, p[1] as int, p[2] as int);
        lemma_square(-p[0]);
        lemma_square(-p[1]);
        lemma_square(-p[2]);
        assert(p@[0] * p@[0] == (0 - p[0]) * (0 - p[0])) by (nonlinear_arith);
        assert(p@[1] * p@[1] == (0 - p[1]) * (0 - p[1])) by (nonlinear_arith);
        assert(p@[2] * p@[2] == (0 - p[2]) * (0 - p[2])) by (nonlinear_arith);
        assert forall|n: int| 0 <= n <= p.components().len() implies #[trigger] sum_squares(
            p.components(),
            n,
        ) <= i32::MAX by {
            assert(n == 0 || n == 1 || n == 2 || n == 3);
        }
    }
    let mut rdist: i32 = p.lengthSquared();
    let rinc: i32 = 1 - 2 * p[0];
    let ginc: i32 = 1 - 2 * p[1];
    let binc: i32 = 1 - 2 * p[2];
    let mut r: usize = 0;
    while r < 256
        invariant
            r <= 256,
            palette_ok(pal),
            entry < entries(pal),
            p[0] == pal[3 * entry],
            p[1] == pal[3 * entry + 1],
            p[2] == pal[3 * entry + 2],
            rinc == 1 - 2 * pal[3 * entry],
            ginc == 1 - 2 * pal[3 * entry + 1],
            binc == 1 - 2 * pal[3 * entry + 2],
            r < 256 ==> rdist == entry_dist(pal, entry as int, place(r as int, 0, 0)),
            built(pal, entry as int, place(r as int, 0, 0), fill, table@, best@),
        decreases 256 - r,
    {
        proof {
            lemma_place(r as int, 0, 0);
            lemma_dist2(r as int, 0, 0, p[0] as int, p[1] as int, p[2] as int);
            if r < 255 {
                lemma_place(r + 1, 0, 0);
                lemma_dist2(r + 1, 0, 0, p[0] as int, p[1] as int, p[2] as int);
                let pr = p[0] as int;
                assert((r + 1 - pr) * (r + 1 - pr) == (r - pr) * (r - pr) + (1 - 2 * pr) + 2 * r)
                    by (nonlinear_arith);
            }
        }
        visitGreens(table, best, entry, r, rdist, ginc, binc, Ghost(pal), Ghost(fill));
        if r < 255 {
            rdist = rdist + (rinc + 2 * r as i32);
        }
        r = r + 1;
    }
    proof {
        assert forall|j: int| 0 <= j < RGBCUBE_VOLUME implies cell_ok(
            pal,
            entry + 1,
            fill,
            j,
            #[trigger] table@[j],
            best@[j],
        ) by {
            assert(j < place(256, 0, 0));
        }
    }
}

/// The table that gives for every color `(r, g, b)`, at place
/// `(r << 16) | (g << 8) | b`, the entry of the palette that is nearest to
/// it, and with it the squares of the distances. Of two entries equally near
/// the earlier one is given. For a palette without entries the table holds
/// `fill` at every place.
///
/// The table is built entry by entry: the distance of an entry from the
/// next color comes from that of the color before by one addition.
pub fn buildInversePalette(palette: &[u8], fill: u8) -> (r: (Vec<u8>, Vec<i32>))
    requires
        palette_ok(palette@),
    ensures
        built(palette@, entries(palette@), 0, fill, r.0@, r.1@),
        entries(palette@) > 0 ==> is_inverse(palette@, r.0@),
{
    let mut table: Vec<u8> = Vec::new();
    let mut best: Vec<i32> = Vec::new();
    let mut j: usize = 0;
    while j < RGBCUBE_VOLUME
        invariant
            j <= RGBCUBE_VOLUME,
            table@.len() == j,
            best@.len() == j,
            forall|k: int| 0 <= k < j ==> #[trigger] table@[k] == fill && best@[k] == i32::MAX,
        decreases RGBCUBE_VOLUME - j,
    {
        table.push(fill);
        best.push(i32::MAX);
        j = j + 1;
    }
    let n = palette.len() / 3;
    let mut i: usize = 0;
    while i < n
        invariant
            i <= n == entries(palette@),
            palette_ok(palette@),
            built(palette@, i as int, 0, fill, table@, best@),
        decreases n - i,
    {
        let color = [palette[3 * i], palette[3 * i + 1], palette[3 * i + 2]];
        visitReds(&mut table, &mut best, i, color, Ghost(palette@), Ghost(fill));
        i = i + 1;
    }
    proof {
        if n > 0 {
            assert forall|r: int, g: int, b: int|
                0 <= r < 256 && 0 <= g < 256 && 0 <= b < 256 implies #[trigger] table@[place(
                r,
                g,
                b,
            )] == nearest(palette@, entries(palette@), place(r, g, b)) by {
                lemma_place(r, g, b);
                let j = place(r, g, b);
                assert(cell_ok(palette@, n as int, fill, j, table@[j], best@[j]));
            }
        }
    }
    (table, best)
}

/// The entry of the palette that is nearest to `color`, found by going
/// through all of them, and the square of its distance. For a palette
/// without entries it is `fill` and the greatest distance there is.
pub fn nearestEntry(palette: &[u8], color: [u8; 3], fill: u8) -> (r: (u8, i32))
    requires
        palette_ok(palette@),
    ensures
        cell_ok(
            palette@,
            entries(palette@),
            fill,
            place(color[0] as int, color[1] as int, color[2] as int),
            r.0,
            r.1,
        ),
{
    let ghost j = place(color[0] as int, color[1] as int, color[2] as int);
    proof {
        lemma_place(color[0] as int, color[1] as int, color[2] as int);
    }
    let n = palette.len() / 3;
    let mut nearestI: u8 = fill;
    let mut nearestSquaredDist: i32 = i32::MAX;
    let mut i: usize = 0;
    while i < n
        invariant
            i <= n == entries(palette@),
            palette_ok(palette@),
            j == place(color[0] as int, color[1] as int, color[2] as int),
            red(j) == color[0] && green(j) == color[1] && blue(j) == color[2],
            cell_ok(palette@, i as int, fill, j, nearestI, nearestSquaredDist),
        decreases n - i,
    {
        let d: [i32; 3] = [
            color[0] as i32 - palette[3 * i] as i32,
            color[1] as i32 - palette[3 * i + 1] as i32,
            color[2] as i32 - palette[3 * i + 2] as i32,
        ];
        proof {
            reveal_with_fuel(sum_squares, 4);
            lemma_square(d[0] as int);
            lemma_square(d[1] as int);
            lemma_square(d[2] as int);
            assert forall|n: int| 0 <= n <= d.components().len() implies #[trigger] sum_squares(
                d.components(),
                n,
            ) <= i32::MAX by {
                assert(n == 0 || n == 1 || n == 2 || n == 3);
            }
            if i > 0 {
                lemma_nearest(palette@, i as int, j, 0);
            }
        }
        let squaredDist = d.lengthSquared();
        assert(squaredDist == entry_dist(palette@, i as int, j));
        if squaredDist < nearestSquaredDist {
            nearestSquaredDist = squaredDist;
            nearestI = i as u8;
        }
        i = i + 1;
    }
    (nearestI, nearestSquaredDist)
}

/// Whether the table and the distances hold at the place of `color` what
/// going through the whole palette gives. For a table that was built for
/// the palette they always do.
pub fn checkInversePalette(
    palette: &[u8],
    table: &Vec<u8>,
    best: &Vec<i32>,
    color: [u8; 3],
    fill: u8,
) -> (r: bool)
    requires
        palette_ok(palette@),
        table@.len() == RGBCUBE_VOLUME,
        best@.len() == RGBCUBE_VOLUME,
    ensures
        r == cell_ok(
            palette@,
            entries(palette@),
            fill,
            place(color[0] as int, color[1] as int, color[2] as int),
            table@[place(color[0] as int, color[1] as int, color[2] as int)],
            best@[place(color[0] as int, color[1] as int, color[2] as int)],
        ),
        built(palette@, entries(palette@), 0, fill, table@, best@) ==> r,
{
    let (nearestI, nearestSquaredDist) = nearestEntry(palette, color, fill);
    let j: usize = color[0] as usize * 65536 + color[1] as usize * 256 + color[2] as usize;
    proof {
        lemma_place(color[0] as int, color[1] as int, color[2] as int);
        if built(palette@, entries(palette@), 0, fill, table@, best@) {
            assert(cell_ok(
                palette@,
                entries(palette@),
                fill,
                j as int,
                table@[j as int],
                best@[j as int],
            ));
        }
    }
    table[j] == nearestI && best[j] == nearestSquaredDist
}

/// The table of the palette, the places of a palette without entries being
/// filled with a byte drawn at random; and whether the table stood the test
/// on a color drawn at random, which it always does.
pub fn inversePalette(palette: &[u8]) -> (r: (Vec<u8>, bool))
    requires
        palette_ok(palette@),
    ensures
        r.0@.len() == RGBCUBE_VOLUME,
        entries(palette@) > 0 ==> is_inverse(palette@, r.0@),
        entries(palette@) == 0 ==> forall|j: int|
            0 <= j < RGBCUBE_VOLUME ==> #[trigger] r.0@[j] == r.0@[0],
        r.1,
{
    let fill = random_byte();
    let (table, best) = buildInversePalette(palette, fill);
    let color = [random_byte(), random_byte(), random_byte()];
    let agrees = checkInversePalette(palette, &table, &best, color, fill);
    proof {
        if entries(palette@) == 0 {
            assert forall|j: int| 0 <= j < RGBCUBE_VOLUME implies #[trigger] table@[j] == fill by {
                assert(cell_ok(palette@, 0, fill, j, table@[j], best@[j]));
            }
        }
    }
    (table, agrees)
}

/// Changes the order of the components of every entry from red, green, blue
/// to blue, green, red, or back.
pub fn swapRedBlue(palette: &mut Vec<u8>)
    requires
        old(palette)@.len() % 3 == 0,
    ensures
        final(palette)@.len() == old(palette)@.len(),
        forall|i: int|
            0 <= i < old(palette)@.len() ==> #[trigger] final(palette)@[i] == old(palette)@[if i % 3
                == 0 {
                i + 2
            } else if i % 3 == 2 {
                i - 2
            } else {
                i
            }],
{
    let n = palette.len();
    let mut i: usize = 0;
    while i < n
        invariant
            i <= n == palette@.len() == old(palette)@.len(),
            i % 3 == 0,
            n % 3 == 0,
            forall|k: int|
                0 <= k < i ==> #[trigger] palette@[k] == old(palette)@[if k % 3 == 0 {
                    k + 2
                } else if k % 3 == 2 {
                    k - 2
                } else {
                    k
                }],
            forall|k: int| i <= k < n ==> #[trigger] palette@[k] == old(palette)@[k],
        decreases n - i,
    {
        let red = palette[i];
        let blue = palette[i + 2];
        palette[i] = blue;
        palette[i + 2] = red;
        i = i + 3;
    }
}

/// The greatest alpha at which a pixel counts as transparent.
pub const TRANSPARENT_ALPHA: u8 = 15;

/// The palette index for a pixel with the components `red`, `green`, `blue`
/// and `alpha`: transparent where the alpha is 15 or less; else the entry
/// that the table gives, with black in place of entry 0, which is taken by
/// transparency.
pub open spec fn indexed_pixel(table: Seq<u8>, red: u8, green: u8, blue: u8, alpha: u8) -> u8 {
    if alpha <= TRANSPARENT_ALPHA {
        FULLY_TRANSPARENT
    } else if table[place(red as int, green as int, blue as int)] == 0 {
        BLACK
    } else {
        table[place(red as int, green as int, blue as int)]
    }
}

/// The pixels of an image with four components a pixel as indices of the
/// palette whose table of nearest entries is `table`.
pub fn rgbaToIndexed(rgba: &[u8], table: &[u8]) -> (r: Vec<u8>)
    requires
        rgba@.len() % 4 == 0,
        table@.len() == RGBCUBE_VOLUME,
    ensures
        r@.len() == rgba@.len() / 4,
        forall|i: int|
            0 <= i < r@.len() ==> #[trigger] r@[i] == indexed_pixel(
                table@,
                rgba@[4 * i],
                rgba@[4 * i + 1],
                rgba@[4 * i + 2],
                rgba@[4 * i + 3],
            ),
{
    let n = rgba.len() / 4;
    let mut pixels: Vec<u8> = Vec::new();
    let mut i: usize = 0;
    while i < n
        invariant
            i <= n == rgba@.len() / 4,
            rgba@.len() % 4 == 0,
            rgba@.len() <= usize::MAX,
            table@.len() == RGBCUBE_VOLUME,
            pixels@.len() == i,
            forall|k: int|
                0 <= k < i ==> #[trigger] pixels@[k] == indexed_pixel(
                    table@,
                    rgba@[4 * k],
                    rgba@[4 * k + 1],
                    rgba@[4 * k + 2],
                    rgba@[4 * k + 3],
                ),
        decreases n - i,
    {
        let red = rgba[4 * i];
        let green = rgba[4 * i + 1];
        let blue = rgba[4 * i + 2];
        let alpha = rgba[4 * i + 3];
        let pixel = if alpha <= TRANSPARENT_ALPHA {
            FULLY_TRANSPARENT
        } else {
            proof {
                lemma_place(red as int, green as int, blue as int);
            }
            let entry = table[red as usize * 65536 + green as usize * 256 + blue as usize];
            if entry == 0 {
                BLACK
            } else {
                entry
            }
        };
        pixels.push(pixel);
        i = i + 1;
    }
    pixels
}

} // verus!
