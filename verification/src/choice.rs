//! Choosing the height of the columns of an atlas so that the square it
//! needs is small.

use crate::columns::{
    lemma_layout_disjoint, lemma_layout_inside, lemma_push, Columns, TileColumns,
};
use vstd::prelude::*;

verus! {

/// The least power of two that is not below `n`.
pub open spec fn pow2_ceil(n: nat) -> nat
    decreases n,
{
    if n <= 1 {
        1
    } else {
        2 * pow2_ceil((n + 1) / 2)
    }
}

/// `p` is a power of two.
pub open spec fn is_pow2(p: nat) -> bool
    decreases p,
{
    p == 1 || (p >= 2 && p % 2 == 0 && is_pow2(p / 2))
}

/// `pow2_ceil(n)` is a power of two, is not below `n`, and no power of two
/// between them is: half of it is below `n`.
pub proof fn lemma_pow2_ceil(n: nat)
    ensures
        is_pow2(pow2_ceil(n)),
        n <= pow2_ceil(n),
        n >= 2 ==> pow2_ceil(n) / 2 < n,
        n <= 1 ==> pow2_ceil(n) == 1,
    decreases n,
{
    if n > 1 {
        lemma_pow2_ceil((n + 1) / 2);
    }
}

/// The least power of two that is not below `n`.
pub fn nextPowerOfTwo(n: usize) -> (r: usize)
    requires
        n <= usize::MAX / 2 + 1,
    ensures
        r == pow2_ceil(n as nat),
{
    let mut p: usize = 1;
    let mut m: usize = n;
    // p * pow2_ceil(m) stays what is looked for
    while m > 1
        invariant
            p >= 1,
            m <= n,
            p * pow2_ceil(m as nat) == pow2_ceil(n as nat),
            n <= usize::MAX / 2 + 1,
            m >= 2 ==> p * (m - 1) < n,
        decreases m,
    {
        proof {
            lemma_pow2_ceil(m as nat);
            let half = ((m + 1) / 2) as nat;
            assert(p * (2 * pow2_ceil(half)) == (2 * p) * pow2_ceil(half)) by (nonlinear_arith);
            assert(p * (m - 1) >= p) by (nonlinear_arith)
                requires
                    p >= 1,
                    m >= 2,
            ;
            assert(2 * p * (half - 1) <= p * (m - 1)) by (nonlinear_arith)
                requires
                    p >= 1,
                    half >= 1,
                    2 * (half - 1) <= m - 1,
            ;
        }
        p = 2 * p;
        m = (m + 1) / 2;
    }
    proof {
        lemma_pow2_ceil(m as nat);
        assert(p * 1 == p) by (nonlinear_arith);
    }
    p
}

impl Columns {
    /// The same packing with columns higher by `g`.
    pub open spec fn grow(self, g: nat) -> Columns {
        Columns { full: self.full + g, ..self }
    }

    /// The height by which a tile of height `h` overshoots the column.
    pub open spec fn excess(self, h: nat) -> nat {
        if self.last + h > self.full {
            (self.last + h - self.full) as nat
        } else {
            0
        }
    }

    /// The side of the least square with a power of two for its side that
    /// holds the area of the columns.
    pub open spec fn square(self, tile_width: nat) -> nat {
        let (w, h) = self.dimensions(tile_width);
        pow2_ceil(
            if w >= h {
                w
            } else {
                h
            },
        )
    }

    /// This packing is to be preferred to `other`: its square is smaller,
    /// or as large and this packing is wider.
    pub open spec fn better(self, other: Columns, tile_width: nat) -> bool {
        self.square(tile_width) < other.square(tile_width) || (self.square(tile_width)
            == other.square(tile_width) && self.dimensions(tile_width).0 > other.dimensions(
            tile_width,
        ).0)
    }
}

/// The packings that the last candidate `c` gives when a tile of height `h`
/// is pushed: `c` with the tile; and while the tile does not fit under the
/// last one, also the candidate with columns higher by `g`.
pub open spec fn chain(c: Columns, h: nat, g: nat) -> Seq<Columns>
    decreases c.excess(h),
{
    if c.last + h <= c.full || g == 0 {
        seq![c.push(h)]
    } else {
        seq![c.push(h)] + chain(c.grow(g), h, g)
    }
}

/// The candidates after one more tile: every candidate takes the tile, and
/// the last one gives a chain.
pub open spec fn step(cands: Seq<Columns>, h: nat, g: nat) -> Seq<Columns> {
    Seq::new((cands.len() - 1) as nat, |i: int| cands[i].push(h)) + chain(cands.last(), h, g)
}

/// The candidates after the first `k` tiles: at first one packing with
/// columns as high as the highest tile.
pub open spec fn candidates(hs: Seq<usize>, max_height: nat, g: nat, k: nat) -> Seq<Columns>
    decreases k,
{
    if k == 0 {
        seq![Columns::fresh(max_height)]
    } else {
        step(candidates(hs, max_height, g, (k - 1) as nat), hs[k - 1] as nat, g)
    }
}

/// The place among the first `k` candidates of the one to be preferred to
/// all others; among equals the first.
pub open spec fn best(cands: Seq<Columns>, tile_width: nat, k: int) -> int
    decreases k,
{
    if k <= 1 {
        0
    } else if cands[k - 1].better(cands[best(cands, tile_width, k - 1)], tile_width) {
        k - 1
    } else {
        best(cands, tile_width, k - 1)
    }
}

/// The chosen candidate is one of them, none is preferred to it, and it is
/// preferred to each one before it.
pub proof fn lemma_best(cands: Seq<Columns>, tw: nat, k: int, j: int)
    requires
        1 <= k <= cands.len(),
        0 <= j < k,
    ensures
        0 <= best(cands, tw, k) < k,
        !cands[j].better(cands[best(cands, tw, k)], tw),
        j < best(cands, tw, k) ==> cands[best(cands, tw, k)].better(cands[j], tw),
    decreases k,
{
    if k > 1 {
        lemma_best(cands, tw, k - 1, 0);
        if j < k - 1 {
            lemma_best(cands, tw, k - 1, j);
        }
    }
}

/// The packing chosen for tiles of the given heights.
pub open spec fn chosen(hs: Seq<usize>, tile_width: nat, max_height: nat, g: nat) -> Columns {
    let cands = candidates(hs, max_height, g, hs.len());
    cands[best(cands, tile_width, cands.len() as int)]
}

/// What holds of every candidate: it is the packing that its column height
/// gives for the tiles so far, its columns are at least as high as the
/// highest tile and no higher than all tiles together and a step, and the
/// last candidate has one column.
pub open spec fn candidates_ok(
    cands: Seq<Columns>,
    hs: Seq<usize>,
    max_height: nat,
    g: nat,
    k: nat,
) -> bool {
    &&& cands.len() >= 1
    &&& cands.last().overflown == 0
    &&& forall|i: int|
        0 <= i < cands.len() ==> {
            &&& #[trigger] cands[i] == Columns::fresh(cands[i].full).after(hs, k)
            &&& cands[i].wf()
            &&& max_height <= cands[i].full <= max_height + k * max_height + g
            &&& cands[i].overflown <= k
        }
}

/// Growing an empty-column packing and then pushing the tiles so far gives
/// the grown packing.
proof fn lemma_grow_after(c: Columns, hs: Seq<usize>, k: nat, g: nat)
    requires
        c == Columns::fresh(c.full).after(hs, k),
        c.overflown == 0,
        c.wf(),
        k <= hs.len(),
        Columns::fresh(c.full).admits(hs),
    ensures
        c.grow(g) == Columns::fresh(c.full + g).after(hs, k),
    decreases k,
{
    if k > 0 {
        let a = Columns::fresh(c.full);
        let b = Columns::fresh(c.full + g);
        let prev = a.after(hs, (k - 1) as nat);
        crate::columns::lemma_after(a, hs, (k - 1) as nat, (k - 1) as nat);
        crate::columns::lemma_after(a, hs, (k - 1) as nat, k);
        lemma_push(prev, hs[k - 1] as nat);
        assert(prev.overflown == 0);
        lemma_grow_after(prev, hs, (k - 1) as nat, g);
        assert(Columns::fresh(prev.full) == a);
        lemma_push(prev.grow(g), hs[k - 1] as nat);
    }
}

/// What holds of the chain that a candidate with one column gives.
proof fn lemma_chain(c: Columns, hs: Seq<usize>, max_height: nat, g: nat, k: nat, i: int)
    requires
        k < hs.len(),
        g >= 1,
        forall|j: int| 0 <= j < hs.len() ==> 1 <= #[trigger] hs[j] <= max_height,
        c == Columns::fresh(c.full).after(hs, k),
        c.wf(),
        c.overflown == 0,
        max_height <= c.full,
        c.full <= max_height + k * max_height + g,
        0 <= i < chain(c, hs[k as int] as nat, g).len(),
    ensures
        ({
            let r = chain(c, hs[k as int] as nat, g)[i];
            &&& r == Columns::fresh(r.full).after(hs, k + 1)
            &&& r.wf()
            &&& max_height <= r.full <= max_height + (k + 1) * max_height + g
            &&& r.overflown <= 1
            &&& i == chain(c, hs[k as int] as nat, g).len() - 1 ==> r.overflown == 0
        }),
    decreases c.excess(hs[k as int] as nat),
{
    let h = hs[k as int] as nat;
    lemma_push(c, h);
    assert((k + 1) * max_height == k * max_height + max_height) by (nonlinear_arith);
    assert(c.push(h) == Columns::fresh(c.full).after(hs, k + 1));
    assert(chain(c, h, g)[0] == c.push(h));
    if c.last + h <= c.full {
        assert(chain(c, h, g).len() == 1);
    } else {
        assert(Columns::fresh(c.full).admits(hs));
        lemma_last_bound(Columns::fresh(c.full), hs, max_height, k);
        assert(c.last <= k * max_height);
        lemma_grow_after(c, hs, k, g);
        let rest = chain(c.grow(g), h, g);
        assert(rest.len() >= 1);
        assert(chain(c, h, g) == seq![c.push(h)] + rest);
        if i > 0 {
            assert(chain(c, h, g)[i] == rest[i - 1]);
            lemma_chain(c.grow(g), hs, max_height, g, k, i - 1);
        }
    }
}

/// The height used in the last column is no more than the tiles together.
proof fn lemma_last_bound(c: Columns, hs: Seq<usize>, max_height: nat, k: nat)
    requires
        c.wf(),
        c.last == 0,
        c.admits(hs),
        k <= hs.len(),
        forall|j: int| 0 <= j < hs.len() ==> 1 <= #[trigger] hs[j] <= max_height,
    ensures
        c.after(hs, k).last <= k * max_height,
    decreases k,
{
    if k > 0 {
        lemma_last_bound(c, hs, max_height, (k - 1) as nat);
        crate::columns::lemma_after(c, hs, (k - 1) as nat, (k - 1) as nat);
        lemma_push(c.after(hs, (k - 1) as nat), hs[k - 1] as nat);
        assert(k * max_height == (k - 1) * max_height + max_height) by (nonlinear_arith);
    }
}

/// The candidates keep what `candidates_ok` says when a tile is pushed.
pub proof fn lemma_step(cands: Seq<Columns>, hs: Seq<usize>, max_height: nat, g: nat, k: nat)
    requires
        k < hs.len(),
        g >= 1,
        forall|j: int| 0 <= j < hs.len() ==> 1 <= #[trigger] hs[j] <= max_height,
        candidates_ok(cands, hs, max_height, g, k),
    ensures
        candidates_ok(step(cands, hs[k as int] as nat, g), hs, max_height, g, k + 1),
{
    let h = hs[k as int] as nat;
    let next = step(cands, h, g);
    let head = Seq::new((cands.len() - 1) as nat, |i: int| cands[i].push(h));
    let tail = chain(cands.last(), h, g);
    assert(tail.len() >= 1);
    assert((k + 1) * max_height == k * max_height + max_height) by (nonlinear_arith);
    assert forall|i: int| 0 <= i < next.len() implies {
        &&& #[trigger] next[i] == Columns::fresh(next[i].full).after(hs, k + 1)
        &&& next[i].wf()
        &&& max_height <= next[i].full <= max_height + (k + 1) * max_height + g
        &&& next[i].overflown <= k + 1
    } by {
        if i < head.len() {
            assert(next[i] == cands[i].push(h));
            lemma_push(cands[i], h);
        } else {
            assert(next[i] == tail[i - head.len()]);
            lemma_chain(cands.last(), hs, max_height, g, k, i - head.len());
        }
    }
    assert(next.last() == tail[tail.len() - 1]);
    lemma_chain(cands.last(), hs, max_height, g, k, tail.len() - 1);
}

/// Every candidate is the packing that its column height gives for all
/// the tiles.
pub proof fn lemma_candidates(hs: Seq<usize>, max_height: nat, g: nat, k: nat)
    requires
        k <= hs.len(),
        g >= 1,
        forall|j: int| 0 <= j < hs.len() ==> 1 <= #[trigger] hs[j] <= max_height,
    ensures
        candidates_ok(candidates(hs, max_height, g, k), hs, max_height, g, k),
    decreases k,
{
    if k > 0 {
        lemma_candidates(hs, max_height, g, (k - 1) as nat);
        lemma_step(candidates(hs, max_height, g, (k - 1) as nat), hs, max_height, g, (k - 1) as nat);
    }
}

/// What a candidate with one column that the next tile overshoots hands to
/// the candidate with higher columns.
pub proof fn lemma_chain_next(c: Columns, hs: Seq<usize>, max_height: nat, g: nat, k: nat)
    requires
        k < hs.len(),
        g >= 1,
        forall|j: int| 0 <= j < hs.len() ==> 1 <= #[trigger] hs[j] <= max_height,
        c == Columns::fresh(c.full).after(hs, k),
        c.wf(),
        c.overflown == 0,
        max_height <= c.full,
        c.last + hs[k as int] > c.full,
    ensures
        ({
            let n = c.grow(g);
            &&& n == Columns::fresh(n.full).after(hs, k)
            &&& n.wf()
            &&& n.overflown == 0
            &&& n.full <= max_height + k * max_height + g
            &&& n.excess(hs[k as int] as nat) < c.excess(hs[k as int] as nat)
            &&& chain(c, hs[k as int] as nat, g) == seq![c.push(hs[k as int] as nat)] + chain(
                n,
                hs[k as int] as nat,
                g,
            )
        }),
{
    assert(Columns::fresh(c.full).admits(hs));
    lemma_last_bound(Columns::fresh(c.full), hs, max_height, k);
    lemma_grow_after(c, hs, k, g);
}

/// The packings that the columns stand for.
pub open spec fn views(v: Seq<TileColumns>) -> Seq<Columns> {
    Seq::new(v.len(), |i: int| v[i]@)
}

/// Whether `a` is to be preferred to `b`.
pub fn isBetter(a: &TileColumns, b: &TileColumns, tileWidth: usize) -> (r: bool)
    requires
        a.numOverflownColumns < usize::MAX,
        b.numOverflownColumns < usize::MAX,
        (a.numOverflownColumns + 1) * tileWidth <= usize::MAX / 2,
        (b.numOverflownColumns + 1) * tileWidth <= usize::MAX / 2,
        a.fullColumnHeight <= usize::MAX / 2,
        b.fullColumnHeight <= usize::MAX / 2,
    ensures
        r == a@.better(b@, tileWidth as nat),
{
    let da = a.dimensions(tileWidth);
    let db = b.dimensions(tileWidth);
    let sa = nextPowerOfTwo(if da[0] >= da[1] {
        da[0]
    } else {
        da[1]
    });
    let sb = nextPowerOfTwo(if db[0] >= db[1] {
        db[0]
    } else {
        db[1]
    });
    sa < sb || (sa == sb && da[0] > db[0])
}

/// Pushes a tile of height `h` into every candidate but the last.
fn pushAllButLast(choices: &mut Vec<TileColumns>, h: usize, bound: usize)
    requires
        old(choices)@.len() >= 1,
        bound <= usize::MAX / 2,
        forall|i: int|
            0 <= i < old(choices)@.len() ==> {
                &&& (#[trigger] old(choices)@[i])@.wf()
                &&& 1 <= h <= old(choices)@[i].fullColumnHeight <= bound
                &&& old(choices)@[i].numOverflownColumns < usize::MAX
            },
    ensures
        final(choices)@.len() == old(choices)@.len(),
        final(choices)@.last() == old(choices)@.last(),
        forall|i: int|
            0 <= i < old(choices)@.len() - 1 ==> (#[trigger] final(choices)@[i])@
                == old(choices)@[i]@.push(h as nat),
{
    let last = choices.len() - 1;
    let mut i: usize = 0;
    while i < last
        invariant
            i <= last == choices@.len() - 1,
            choices@.len() == old(choices)@.len(),
            bound <= usize::MAX / 2,
            forall|j: int|
                0 <= j < old(choices)@.len() ==> {
                    &&& (#[trigger] old(choices)@[j])@.wf()
                    &&& 1 <= h <= old(choices)@[j].fullColumnHeight <= bound
                    &&& old(choices)@[j].numOverflownColumns < usize::MAX
                },
            forall|j: int| 0 <= j < i ==> (#[trigger] choices@[j])@ == old(choices)@[j]@.push(h as nat),
            forall|j: int| i <= j <= last ==> #[trigger] choices@[j] == old(choices)@[j],
        decreases last - i,
    {
        let mut c = choices[i];
        assert(c == old(choices)@[i as int]);
        let _ = c.pushTile(h);
        choices[i] = c;
        i = i + 1;
    }
}

/// The packing to choose for tiles of the given heights and of width
/// `tileWidth`: candidates with columns of different heights are tried, the
/// first as high as the highest tile, and every time that the next tile
/// does not fit under the last one of the candidate with the highest columns
/// a candidate higher by `growth` joins them. Chosen is the one that needs
/// the smallest square with a power of two for its side; among those the
/// widest, and among equals the first.
pub fn chooseTileColumns(
    heights: &Vec<usize>,
    tileWidth: usize,
    maxTileHeight: usize,
    growth: usize,
) -> (r: TileColumns)
    requires
        growth >= 1,
        forall|i: int| 0 <= i < heights@.len() ==> 1 <= #[trigger] heights@[i] <= maxTileHeight,
        (heights@.len() + 1) * maxTileHeight + growth <= usize::MAX / 2,
        (heights@.len() + 1) * tileWidth <= usize::MAX / 2,
    ensures
        r@ == chosen(heights@, tileWidth as nat, maxTileHeight as nat, growth as nat),
{
    let ghost hs = heights@;
    let ghost mh = maxTileHeight as nat;
    let ghost g = growth as nat;
    let n = heights.len();
    proof {
        if n >= 1 {
            assert(1 <= heights@[0] <= maxTileHeight);
            assert(n + 1 <= (n + 1) * maxTileHeight) by (nonlinear_arith)
                requires
                    maxTileHeight >= 1,
                    n >= 0,
            ;
        }
    }
    assert(n < usize::MAX);
    let bound: usize = (n + 1) * maxTileHeight + growth;
    let mut choices: Vec<TileColumns> = Vec::new();
    choices.push(
        TileColumns { fullColumnHeight: maxTileHeight, numOverflownColumns: 0, lastColumnHeight: 0 },
    );
    assert(views(choices@) =~= candidates(hs, mh, g, 0));
    let mut k: usize = 0;
    while k < n
        invariant
            k <= n == hs.len(),
            hs == heights@,
            mh == maxTileHeight,
            g == growth >= 1,
            bound == (n + 1) * maxTileHeight + growth,
            bound <= usize::MAX / 2,
            forall|i: int| 0 <= i < hs.len() ==> 1 <= #[trigger] hs[i] <= mh,
            views(choices@) == candidates(hs, mh, g, k as nat),
        decreases n - k,
    {
        let h = heights[k];
        let ghost cands = candidates(hs, mh, g, k as nat);
        proof {
            lemma_candidates(hs, mh, g, k as nat);
            assert(k * mh <= n * mh) by (nonlinear_arith)
                requires
                    k <= n,
                    mh >= 0,
            ;
            assert((n + 1) * mh == n * mh + mh) by (nonlinear_arith);
            assert forall|i: int| 0 <= i < choices@.len() implies {
                &&& (#[trigger] choices@[i])@.wf()
                &&& 1 <= h <= choices@[i].fullColumnHeight <= bound
                &&& choices@[i].numOverflownColumns < usize::MAX
            } by {
                assert(choices@[i]@ == cands[i]);
            }
        }
        pushAllButLast(&mut choices, h, bound);
        let last = choices.len() - 1;
        let mut c = choices[last];
        assert(c@ == cands.last());
        choices.truncate(last);
        let ghost head = Seq::new((cands.len() - 1) as nat, |i: int| cands[i].push(h as nat));
        assert(views(choices@) =~= head);
        loop
            invariant_except_break
                views(choices@) + chain(c@, h as nat, g) == step(cands, h as nat, g),
                c@ == Columns::fresh(c@.full).after(hs, k as nat),
                c@.wf(),
                c@.overflown == 0,
                mh <= c@.full <= mh + k * mh + g,
            invariant
                k < n == hs.len(),
                h == hs[k as int],
                g == growth >= 1,
                mh == maxTileHeight,
                bound == (n + 1) * maxTileHeight + growth,
                bound <= usize::MAX / 2,
                forall|i: int| 0 <= i < hs.len() ==> 1 <= #[trigger] hs[i] <= mh,
            ensures
                views(choices@) == step(cands, h as nat, g),
            decreases c@.excess(h as nat),
        {
            proof {
                assert(k * mh <= n * mh) by (nonlinear_arith)
                    requires
                        k <= n,
                        mh >= 0,
                ;
                assert((n + 1) * mh == n * mh + mh) by (nonlinear_arith);
                lemma_push(c@, h as nat);
            }
            let ghost before = views(choices@);
            let mut pushed = c;
            let overflow = pushed.pushTile(h);
            choices.push(pushed);
            assert(views(choices@) =~= before.push(c@.push(h as nat)));
            if overflow == 0 {
                assert(chain(c@, h as nat, g) =~= seq![c@.push(h as nat)]);
                assert(before + chain(c@, h as nat, g) =~= before.push(c@.push(h as nat)));
                break;
            }
            proof {
                lemma_chain_next(c@, hs, mh, g, k as nat);
                let next = c@.grow(g);
                assert(before + (seq![c@.push(h as nat)] + chain(next, h as nat, g))
                    =~= before.push(c@.push(h as nat)) + chain(next, h as nat, g));
            }
            c.fullColumnHeight = c.fullColumnHeight + growth;
        }
        k = k + 1;
    }
    let ghost cands = candidates(hs, mh, g, n as nat);
    proof {
        lemma_candidates(hs, mh, g, n as nat);
    }
    let mut bi: usize = 0;
    let mut i: usize = 1;
    while i < choices.len()
        invariant
            1 <= i <= choices@.len(),
            views(choices@) == cands,
            candidates_ok(cands, hs, mh, g, n as nat),
            n == hs.len(),
            n < usize::MAX,
            mh == maxTileHeight,
            g == growth,
            (n + 1) * maxTileHeight + growth <= usize::MAX / 2,
            (n + 1) * tileWidth <= usize::MAX / 2,
            bi == best(cands, tileWidth as nat, i as int),
            bi < i,
        decreases choices@.len() - i,
    {
        proof {
            assert(choices@[i as int]@ == cands[i as int]);
            assert(choices@[bi as int]@ == cands[bi as int]);
            assert((n + 1) * mh == n * mh + mh) by (nonlinear_arith);
            let oa = choices@[i as int].numOverflownColumns as int;
            let ob = choices@[bi as int].numOverflownColumns as int;
            let tw = tileWidth as int;
            assert((oa + 1) * tw <= (n + 1) * tw && (ob + 1) * tw <= (n + 1) * tw)
                by (nonlinear_arith)
                requires
                    0 <= oa <= n,
                    0 <= ob <= n,
                    0 <= tw,
            ;
        }
        if isBetter(&choices[i], &choices[bi], tileWidth) {
            bi = i;
        }
        i = i + 1;
    }
    assert(choices@[bi as int]@ == cands[bi as int]);
    choices[bi]
}

/// The chosen packing is what columns of its height give when the tiles
/// are pushed one after the other, and each tile fits such a column.
pub proof fn lemma_chosen_is_run(hs: Seq<usize>, tw: nat, max_height: nat, g: nat)
    requires
        g >= 1,
        forall|i: int| 0 <= i < hs.len() ==> 1 <= #[trigger] hs[i] <= max_height,
    ensures
        ({
            let c = chosen(hs, tw, max_height, g);
            &&& c == Columns::fresh(c.full).after(hs, hs.len())
            &&& Columns::fresh(c.full).admits(hs)
        }),
{
    let cands = candidates(hs, max_height, g, hs.len());
    lemma_candidates(hs, max_height, g, hs.len());
    lemma_best(cands, tw, cands.len() as int, 0);
}

/// Layout fits: when the tiles are placed in columns as high as those of
/// the chosen packing, every tile lies inside the area that the chosen
/// packing reports, and no two tiles overlap.
pub proof fn lemma_chosen_layout(hs: Seq<usize>, tw: nat, max_height: nat, g: nat, j: int, k: int)
    requires
        g >= 1,
        forall|i: int| 0 <= i < hs.len() ==> 1 <= #[trigger] hs[i] <= max_height,
        0 <= j < k < hs.len(),
    ensures
        ({
            let c = chosen(hs, tw, max_height, g);
            let run = Columns::fresh(c.full);
            let (w, h) = c.dimensions(tw);
            let (xj, yj) = run.after(hs, j as nat).place(tw, hs[j] as nat);
            let (xk, yk) = run.after(hs, k as nat).place(tw, hs[k] as nat);
            &&& xj + tw <= w && yj + hs[j] <= h
            &&& xk + tw <= w && yk + hs[k] <= h
            &&& xj + tw <= xk || (xj == xk && yj + hs[j] <= yk)
        }),
{
    let c = chosen(hs, tw, max_height, g);
    lemma_chosen_is_run(hs, tw, max_height, g);
    lemma_layout_inside(c.full, tw, hs, j);
    lemma_layout_inside(c.full, tw, hs, k);
    lemma_layout_disjoint(c.full, tw, hs, j, k);
}

} // verus!
