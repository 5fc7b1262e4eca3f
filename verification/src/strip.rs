//! Tiles with their packed line segments, and the strips that tiles are merged into.

use vstd::prelude::*;
use crate::tiling::{bit, lemma_footprint_bounds, Footprint, PackedPoint, TILE_WIDTH, lemma_range_bits};
use crate::wide_tile::STRIP_HEIGHT;

verus! {

/// The location of a tile (column and row of the 4x4 grid).
#[derive(Clone, Copy, PartialEq, Eq, Debug, Structural)]
pub struct Loc {
    pub x: u16,
    pub y: u16,
}

impl Loc {
    /// Two locations are on the same strip if they are on the same row and next to
    /// each other.
    pub fn same_strip(&self, other: &Self) -> (r: bool)
        ensures
            r == (self.y == other.y && -1 <= other.x - self.x <= 1),
    {
        let d = if other.x >= self.x { other.x - self.x } else { self.x - other.x };
        self.same_row(other) && d <= 1
    }

    pub fn same_row(&self, other: &Self) -> (r: bool)
        ensures
            r == (self.y == other.y),
    {
        self.y == other.y
    }
}

/// The part of a line segment that falls into one tile: the tile's location and the
/// segment's end points relative to the tile.
#[derive(Clone, Copy)]
pub struct Tile {
    pub x: u16,
    pub y: u16,
    pub p0: PackedPoint,
    pub p1: PackedPoint,
}

/// Number of packed units per pixel.
pub open spec fn packed_unit() -> int {
    8192
}

/// The footprint columns of a tile: from the pixel column of the leftmost end point
/// (rounded down) to that of the rightmost end point (rounded up), at least one column
/// wide and cut at the tile's right side.
pub open spec fn footprint_start(x0: int, x1: int) -> int {
    (if x0 < x1 { x0 } else { x1 }) / 8192
}

pub open spec fn footprint_end(x0: int, x1: int) -> int {
    let s = footprint_start(x0, x1);
    let c = ((if x0 > x1 { x0 } else { x1 }) + 8191) / 8192;
    let e = if s + 1 > c { s + 1 } else { c };
    if e < 4 { e } else { 4 }
}

impl Tile {
    /// The bits of the tile's footprint: those of the columns [start, end).
    pub open spec fn footprint_value(self) -> u32 {
        let s = footprint_start(self.p0.px() as int, self.p1.px() as int);
        let e = footprint_end(self.p0.px() as int, self.p1.px() as int);
        ((1u32 << (e as u32)) - (1u32 << (s as u32))) as u32
    }

    /// The tile's footprint can be computed: its leftmost end point lies in the tile.
    pub open spec fn footprint_ok(self) -> bool {
        footprint_start(self.p0.px() as int, self.p1.px() as int) <= 4
    }

    /// The change in winding number across the tile.
    pub open spec fn spec_delta(self) -> int {
        (if self.p1.py() == 0 { 1int } else { 0 }) - (if self.p0.py() == 0 { 1int } else { 0 })
    }

    /// The sort key of the tile's location: rows first, then columns.
    pub open spec fn key(self) -> int {
        self.y as int * 65536 + self.x as int
    }

    pub fn loc(&self) -> (r: Loc)
        ensures
            r.x == self.x,
            r.y == self.y,
    {
        Loc { x: self.x, y: self.y }
    }

    /// The pixel columns that the tile's segment touches.
    ///
    /// End points are at 1/8192 pixel, so rounding them to whole pixels is exact
    /// integer arithmetic.
    pub fn footprint(&self) -> (r: Footprint)
        requires
            footprint_start(self.p0.px() as int, self.p1.px() as int) <= 4,
        ensures
            r.0 == self.footprint_value(),
            forall|i: u32| r.covers(i) <==> footprint_start(self.p0.px() as int, self.p1.px() as int) <= i
                < footprint_end(self.p0.px() as int, self.p1.px() as int),
    {
        let x0 = self.p0.packed_x() as u32;
        let x1 = self.p1.packed_x() as u32;
        let lo = if x0 < x1 { x0 } else { x1 };
        let hi = if x0 > x1 { x0 } else { x1 };
        let xmin = lo / 8192;
        let c = (hi + 8191) / 8192;
        let e = if xmin + 1 > c { xmin + 1 } else { c };
        let xmax = if e < TILE_WIDTH { e } else { TILE_WIDTH };
        proof {
            lemma_range_bits(xmin, xmax);
            let s = xmin;
            let t = xmax;
            assert((1u32 << s) <= (1u32 << t)) by (bit_vector)
                requires s <= t < 32;
        }
        Footprint((1 << xmax) - (1 << xmin))
    }

    /// The change in winding number across the tile: +1 when the segment ends on the
    /// tile's top edge, -1 when it starts there.
    pub fn delta(&self) -> (r: i32)
        ensures
            r == self.spec_delta(),
    {
        (self.p1.packed_y() == 0) as i32 - (self.p0.packed_y() == 0) as i32
    }

    /// The location as a sort key: rows first, then columns.
    pub fn sort_key(&self) -> (r: u32)
        ensures
            r == self.key(),
    {
        proof {
            let y = self.y as u32;
            assert((y << 16u32) == y * 65536) by (bit_vector)
                requires y < 65536;
        }
        ((self.y as u32) << 16) + (self.x as u32)
    }

    /// Comparison function for sorting. Only compares loc, doesn't care about points.
    pub fn cmp(&self, b: &Tile) -> (r: std::cmp::Ordering)
        ensures
            r == std::cmp::Ordering::Less <==> self.key() < b.key(),
            r == std::cmp::Ordering::Equal <==> self.key() == b.key(),
            r == std::cmp::Ordering::Greater <==> self.key() > b.key(),
    {
        let xya = self.sort_key();
        let xyb = b.sort_key();
        if xya < xyb {
            std::cmp::Ordering::Less
        } else if xya == xyb {
            std::cmp::Ordering::Equal
        } else {
            std::cmp::Ordering::Greater
        }
    }
}

/// The packed x coordinate of the leftmost end point of a tile's segment.
pub open spec fn seg_left(t: Tile) -> int {
    if t.p0.px() < t.p1.px() { t.p0.px() as int } else { t.p1.px() as int }
}

/// The packed x coordinate of the rightmost end point of a tile's segment.
pub open spec fn seg_right(t: Tile) -> int {
    if t.p0.px() < t.p1.px() { t.p1.px() as int } else { t.p0.px() as int }
}

/// The tile with the end points of its segment swapped.
pub open spec fn reversed(t: Tile) -> Tile {
    Tile { p0: t.p1, p1: t.p0, ..t }
}

/// A tile's footprint is the set of pixel columns its segment touches, whichever way
/// the segment runs: swapping its end points gives the same footprint, and column `i`
/// is covered exactly when it lies in the tile and between the column of the leftmost
/// end point (rounded down) and that of the rightmost end point (rounded up), the
/// leftmost end point's column always included.
pub proof fn lemma_footprint_is_the_columns_touched(t: Tile)
    requires
        seg_left(t) / 8192 <= 4,
    ensures
        reversed(t).footprint_value() == t.footprint_value(),
        forall|i: u32| #[trigger] Footprint(t.footprint_value()).covers(i) <==> (seg_left(t) / 8192 <= i < 4
            && (i * 8192 < seg_right(t) || i == seg_left(t) / 8192)),
{
    let x0 = t.p0.px() as int;
    let x1 = t.p1.px() as int;
    let s = footprint_start(x0, x1);
    let e = footprint_end(x0, x1);
    assert(footprint_start(x1, x0) == s);
    assert(footprint_end(x1, x0) == e);
    assert(0 <= s <= e <= 4);
    lemma_range_bits(s as u32, e as u32);
    assert forall|i: u32| #[trigger] Footprint(t.footprint_value()).covers(i) <==> (s <= i < 4 && (i * 8192
        < seg_right(t) || i == s)) by {
        if i < 32 {
            assert(bit(t.footprint_value(), i) <==> s <= i < e);
            assert((i as int) < (seg_right(t) + 8191) / 8192 <==> i * 8192 < seg_right(t));
        }
    }
}

/// A horizontal run of pixels with coverage masks: it starts at pixel `x`, row `y`,
/// its masks start at `col` in the alpha buffer, and `winding` is the winding number
/// to its left.
#[derive(Debug, Clone, Copy)]
pub struct Strip {
    pub x: u32,
    pub y: u32,
    pub col: u32,
    pub winding: i32,
}

impl Strip {
    pub fn x(&self) -> (r: u32)
        ensures
            r == self.x,
    {
        self.x
    }

    pub fn y(&self) -> (r: u32)
        ensures
            r == self.y,
    {
        self.y
    }

    /// The row of strips (of `STRIP_HEIGHT` pixels) that the strip is in.
    pub fn strip_y(&self) -> (r: u32)
        ensures
            r == self.y / 4,
    {
        self.y / STRIP_HEIGHT as u32
    }
}

/// The tiles are in order of location: rows first, then columns.
pub open spec fn sorted_by_location(tiles: Seq<Tile>) -> bool {
    forall|i: int, j: int| 0 <= i <= j < tiles.len() ==> tiles[i].key() <= tiles[j].key()
}

/// Sorts the slice with `<[Tile]>::sort_unstable_by`, comparing tiles with `Tile::cmp`.
///
/// std documents that this sort reorders the elements of the slice so that they are in
/// the order of the comparison function, which must be a total order (`Tile::cmp` orders
/// by the location key); equal elements may end up in any order. That is the contract:
/// the same elements, sorted by location.
#[verifier::external_body]
fn slice_sort_unstable_by_location(tiles: &mut [Tile])
    ensures
        final(tiles)@.to_multiset() == old(tiles)@.to_multiset(),
        sorted_by_location(final(tiles)@),
{
    tiles.sort_unstable_by(|a, b| a.cmp(b));
}

/// Sorts the tile buffer by location (rows first, then columns), so that the tiles of
/// one location, and the locations of one row, are next to each other.
pub fn sort_tiles(tile_buf: &mut Vec<Tile>)
    ensures
        final(tile_buf)@.to_multiset() == old(tile_buf)@.to_multiset(),
        sorted_by_location(final(tile_buf)@),
{
    slice_sort_unstable_by_location(tile_buf.as_mut_slice());
}


/// A column of coverage masks that the strip pass computes: pixel column `x` of the
/// tiles [start, end) of one location, whose winding number on entry is `winding`.
pub struct MaskColumn {
    pub start: int,
    pub end: int,
    pub winding: int,
    pub x: int,
}

/// The state of the strip pass before it looks at a tile: whether the next location
/// starts a strip, the footprint gathered for the current location, the first tile of
/// the current location, the winding number on entry to it, and the strips and mask
/// columns made so far.
pub struct StripPass {
    pub strip_start: bool,
    pub fp: u32,
    pub seg_start: int,
    pub delta: int,
    pub strips: Seq<Strip>,
    pub columns: Seq<MaskColumn>,
}

/// Two tiles at different locations.
pub open spec fn loc_changes(prev: Tile, tile: Tile) -> bool {
    prev.x != tile.x || prev.y != tile.y
}

/// `tile` continues the strip of `prev`: same row, next to it.
pub open spec fn joins_strip(prev: Tile, tile: Tile) -> bool {
    prev.y == tile.y && tile.x - prev.x < 2
}

/// The footprint of the location that ends before `tile`: a location followed by one in
/// the same strip covers its last column too.
pub open spec fn closing_fp(s: StripPass, prev: Tile, tile: Tile) -> u32 {
    if joins_strip(prev, tile) { s.fp | 8u32 } else { s.fp }
}

/// The sum of the winding changes of the tiles [a, b).
pub open spec fn delta_sum(tiles: Seq<Tile>, a: int, b: int) -> int
    decreases b - a,
{
    if b <= a {
        0
    } else {
        delta_sum(tiles, a, b - 1) + tiles[b - 1].spec_delta()
    }
}

/// The state before tile 1: tile 0 opens the first strip.
pub open spec fn pass_start(tiles: Seq<Tile>) -> StripPass {
    StripPass {
        strip_start: true,
        fp: tiles[0].footprint_value(),
        seg_start: 0,
        delta: 0,
        strips: Seq::empty(),
        columns: Seq::empty(),
    }
}

/// The state after tile `i`. When the location changes, the location that ends (tiles
/// [seg_start, i)) gets one mask column per column of its footprint, a strip starts
/// there if the location before it was not in the same strip, and the winding number
/// carries on along the row. Every tile adds its footprint to its location's.
pub open spec fn pass_step(tiles: Seq<Tile>, s: StripPass, i: int, base_cols: int) -> StripPass {
    let prev = tiles[i - 1];
    let tile = tiles[i];
    let s1 = if loc_changes(prev, tile) {
        let fp = closing_fp(s, prev, tile);
        let x0 = Footprint(fp).start() as int;
        let x1 = Footprint(fp).end() as int;
        let same = joins_strip(prev, tile);
        StripPass {
            strip_start: !same,
            fp: if same { 1u32 } else { 0u32 },
            seg_start: i,
            delta: if prev.y == tile.y { s.delta + delta_sum(tiles, s.seg_start, i) } else { 0 },
            strips: if s.strip_start {
                s.strips.push(
                    Strip {
                        x: (4 * prev.x + x0) as u32,
                        y: (4 * prev.y) as u32,
                        col: (base_cols + s.columns.len()) as u32,
                        winding: s.delta as i32,
                    },
                )
            } else {
                s.strips
            },
            columns: s.columns + Seq::new(
                (x1 - x0) as nat,
                |k: int| MaskColumn { start: s.seg_start, end: i, winding: s.delta, x: x0 + k },
            ),
        }
    } else {
        s
    };
    StripPass { fp: s1.fp | tile.footprint_value(), ..s1 }
}

/// The state after the first `i` tiles.
pub open spec fn pass_upto(tiles: Seq<Tile>, i: int, base_cols: int) -> StripPass
    decreases i,
{
    if i <= 1 {
        pass_start(tiles)
    } else {
        pass_step(tiles, pass_upto(tiles, i - 1, base_cols), i - 1, base_cols)
    }
}

/// Tile `i` can be processed: a location that ends covers at least one column, and the
/// mask columns stay countable in a `u32`.
pub open spec fn step_ok(tiles: Seq<Tile>, s: StripPass, i: int, base_cols: int) -> bool {
    let prev = tiles[i - 1];
    let tile = tiles[i];
    &&& prev.y == tile.y ==> prev.x <= tile.x
    &&& loc_changes(prev, tile) ==> {
        let fp = closing_fp(s, prev, tile);
        &&& fp != 0
        &&& base_cols + s.columns.len() + Footprint(fp).end() - Footprint(fp).start() <= u32::MAX
    }
}

/// The strip pass runs without overflow on `tiles`, with `base_cols` masks already in the
/// alpha buffer: tiles in a row are in order of column, every footprint can be computed,
/// and every step can be processed.
pub open spec fn pass_ok(tiles: Seq<Tile>, base_cols: int) -> bool {
    &&& 1 <= tiles.len() < i32::MAX
    &&& 0 <= base_cols <= u32::MAX
    &&& forall|k: int| 0 <= k < tiles.len() ==> (#[trigger] tiles[k]).footprint_ok()
    &&& forall|i: int| 1 <= i < tiles.len() ==> step_ok(tiles, #[trigger] pass_upto(tiles, i, base_cols), i, base_cols)
}

/// A footprint below 16 covers columns of one tile: it starts before it ends, at most at
/// column 4.
proof fn lemma_small_footprint(fp: u32)
    requires
        0 < fp < 16,
    ensures
        Footprint(fp).start() < Footprint(fp).end() <= 4,
{
    crate::tiling::lemma_footprint_bounds(Footprint(fp));
    if Footprint(fp).end() > 4 {
        let k = (Footprint(fp).end() - 1) as u32;
        assert(Footprint(fp).covers(k));
        assert((fp >> k) & 1u32 == 0u32) by (bit_vector)
            requires fp < 16, 4 <= k < 32;
    }
}

/// A tile's footprint is below 16.
proof fn lemma_footprint_value_small(t: Tile)
    requires
        t.footprint_ok(),
    ensures
        t.footprint_value() < 16,
{
    let s = footprint_start(t.p0.px() as int, t.p1.px() as int) as u32;
    let e = footprint_end(t.p0.px() as int, t.p1.px() as int) as u32;
    assert(s <= e <= 4);
    assert((((1u32 << e) - (1u32 << s)) as u32) < 16) by (bit_vector)
        requires s <= e, e <= 4;
}

/// Along an overflow-free pass, the gathered footprint stays inside one tile and every
/// strip starts at a mask that has been made (or at the end of the masks).
proof fn lemma_pass_invariant(tiles: Seq<Tile>, base: int, i: int)
    requires
        pass_ok(tiles, base),
        1 <= i <= tiles.len(),
    ensures
        pass_upto(tiles, i, base).fp < 16,
        base + pass_upto(tiles, i, base).columns.len() <= u32::MAX,
        forall|j: int|
            0 <= j < pass_upto(tiles, i, base).strips.len() ==> #[trigger] pass_upto(tiles, i, base).strips[j].col
                <= base + pass_upto(tiles, i, base).columns.len(),
    decreases i,
{
    if i == 1 {
        lemma_footprint_value_small(tiles[0]);
    } else {
        lemma_pass_invariant(tiles, base, i - 1);
        let s = pass_upto(tiles, i - 1, base);
        let r = pass_upto(tiles, i, base);
        assert(r == pass_step(tiles, s, i - 1, base));
        assert(step_ok(tiles, pass_upto(tiles, i - 1, base), i - 1, base));
        let prev = tiles[i - 2];
        let tile = tiles[i - 1];
        lemma_footprint_value_small(tile);
        let fv = tile.footprint_value();
        if loc_changes(prev, tile) {
            let fp = closing_fp(s, prev, tile);
            let sfp = s.fp;
            let joins = joins_strip(prev, tile);
            assert(fp < 16) by (bit_vector)
                requires fp == (if joins { sfp | 8u32 } else { sfp }), sfp < 16;
            lemma_small_footprint(fp);
            let low: u32 = if joins_strip(prev, tile) { 1u32 } else { 0u32 };
            let rfp = r.fp;
            assert(rfp == low | fv);
            assert(rfp < 16) by (bit_vector)
                requires rfp == low | fv, low <= 1, fv < 16;
            let x0 = Footprint(fp).start() as int;
            let x1 = Footprint(fp).end() as int;
            assert(r.columns.len() == s.columns.len() + (x1 - x0));
            assert forall|j: int| 0 <= j < r.strips.len() implies #[trigger] r.strips[j].col
                <= base + r.columns.len() by {
                if j < s.strips.len() {
                    assert(r.strips[j] == s.strips[j]);
                }
            }
        } else {
            let sfp = s.fp;
            let rfp = r.fp;
            assert(rfp == sfp | fv);
            assert(rfp < 16) by (bit_vector)
                requires rfp == sfp | fv, sfp < 16, fv < 16;
        }
    }
}

/// The coverage masks of every strip that the pass makes lie among the masks in the
/// alpha buffer after it: a strip's masks start at a mask that exists or at the end.
pub proof fn lemma_strip_cols_in_alphas(tiles: Seq<Tile>, base: int)
    requires
        pass_ok(tiles, base),
    ensures
        ({
            let p = pass_upto(tiles, tiles.len() as int, base);
            forall|j: int| 0 <= j < p.strips.len() ==> #[trigger] p.strips[j].col <= base + p.columns.len()
        }),
{
    lemma_pass_invariant(tiles, base, tiles.len() as int);
}

/// Tiles sorted by location are in order of row, and in order of column within a row,
/// which is what the strip pass asks of them.
pub proof fn lemma_sorted_tiles_in_row_order(tiles: Seq<Tile>)
    requires
        sorted_by_location(tiles),
    ensures
        forall|a: int, b: int| 0 <= a <= b < tiles.len() ==> tiles[a].y <= tiles[b].y,
        forall|a: int, b: int|
            0 <= a <= b < tiles.len() && tiles[a].y == tiles[b].y ==> tiles[a].x <= tiles[b].x,
{
    assert forall|a: int, b: int| 0 <= a <= b < tiles.len() implies tiles[a].y <= tiles[b].y by {
        assert(tiles[a].key() <= tiles[b].key());
    }
}

/// Strips made from tiles in order of row are in order of row too, and each starts on a
/// row of strips (a multiple of 4 pixels).
pub proof fn lemma_pass_strips_in_row_order(tiles: Seq<Tile>, base: int, i: int)
    requires
        1 <= i <= tiles.len(),
        forall|a: int, b: int| 0 <= a <= b < tiles.len() ==> tiles[a].y <= tiles[b].y,
    ensures
        ({
            let strips = pass_upto(tiles, i, base).strips;
            &&& forall|a: int, b: int| 0 <= a <= b < strips.len() ==> strips[a].y <= strips[b].y
            &&& forall|a: int| 0 <= a < strips.len() ==> (#[trigger] strips[a]).y % 4 == 0
            &&& forall|a: int| 0 <= a < strips.len() ==> (#[trigger] strips[a]).y <= 4 * tiles[i - 1].y
        }),
    decreases i,
{
    if i > 1 {
        lemma_pass_strips_in_row_order(tiles, base, i - 1);
        let s = pass_upto(tiles, i - 1, base);
        let r = pass_upto(tiles, i, base);
        assert(r == pass_step(tiles, s, i - 1, base));
        assert(tiles[i - 2].y <= tiles[i - 1].y);
        let prev = tiles[i - 2];
        if loc_changes(prev, tiles[i - 1]) && s.strip_start {
            let y = (4 * prev.y) as u32;
            assert(y == 4 * prev.y);
            assert(r.strips == s.strips.push(r.strips.last()));
            assert(r.strips.last().y == y);
            assert forall|a: int, b: int| 0 <= a <= b < r.strips.len() implies r.strips[a].y <= r.strips[b].y by {
                if b < s.strips.len() {
                    assert(r.strips[a] == s.strips[a] && r.strips[b] == s.strips[b]);
                } else if a < s.strips.len() {
                    assert(r.strips[a] == s.strips[a]);
                }
            }
            assert forall|a: int| 0 <= a < r.strips.len() implies (#[trigger] r.strips[a]).y % 4 == 0
                && r.strips[a].y <= 4 * tiles[i - 1].y by {
                if a < s.strips.len() {
                    assert(r.strips[a] == s.strips[a]);
                }
            }
        } else {
            assert(r.strips == s.strips);
        }
    }
}

/// The pixel column that a mask column is computed for: column `x` of the location of
/// its tiles.
pub open spec fn mask_pixel(tiles: Seq<Tile>, m: MaskColumn) -> int {
    4 * tiles[m.start].x + m.x
}

/// The pixel row (of the top of the strip row) that a mask column is computed for.
pub open spec fn mask_row(tiles: Seq<Tile>, m: MaskColumn) -> int {
    4 * tiles[m.start].y
}

/// Where the masks of strip `j` end: where those of the next strip start, or at the end
/// of the masks for the last strip.
pub open spec fn strip_masks_end(p: StripPass, j: int, base: int) -> int {
    if j + 1 < p.strips.len() { p.strips[j + 1].col as int } else { base + p.columns.len() }
}

/// The masks of the strips cover their pixels without gaps: the masks of strip `j` are
/// those from its `col` up to where the next strip's start, and mask `k` of them is the
/// mask of pixel column `strips[j].x + k` in the strip's row. The first strip's masks
/// start at `base`, and the strips' masks come in order.
pub open spec fn masks_follow_strips(tiles: Seq<Tile>, p: StripPass, base: int) -> bool {
    &&& p.columns.len() > 0 ==> p.strips.len() > 0
    &&& p.strips.len() > 0 ==> p.strips[0].col == base
    &&& forall|j: int| 0 <= j < p.strips.len() ==> (#[trigger] p.strips[j]).col <= base + p.columns.len()
    &&& forall|j: int| 0 <= j < p.strips.len() - 1 ==> #[trigger] p.strips[j].col <= p.strips[j + 1].col
    &&& forall|j: int, m: int|
        #![trigger p.strips[j], p.columns[m]]
        0 <= j < p.strips.len() && 0 <= m < p.columns.len() && p.strips[j].col <= base + m < strip_masks_end(p, j, base)
            ==> mask_pixel(tiles, p.columns[m]) == p.strips[j].x + (base + m - p.strips[j].col) && mask_row(
            tiles,
            p.columns[m],
        ) == p.strips[j].y
}

/// What the pass keeps along the way: the masks follow the strips, the tiles from
/// `seg_start` on share the current location, and while the current location continues
/// the last strip, that strip's next mask is the current location's column 0, which the
/// gathered footprint covers.
spec fn pass_masks_inv(tiles: Seq<Tile>, s: StripPass, i: int, base: int) -> bool {
    &&& masks_follow_strips(tiles, s, base)
    &&& 0 <= s.seg_start < i
    &&& tiles[s.seg_start].x == tiles[i - 1].x && tiles[s.seg_start].y == tiles[i - 1].y
    &&& !s.strip_start ==> {
        &&& s.strips.len() > 0
        &&& s.strips.last().x + (base + s.columns.len() - s.strips.last().col) == 4 * tiles[i - 1].x
        &&& s.strips.last().y == 4 * tiles[i - 1].y
        &&& bit(s.fp, 0)
    }
}

/// A step at which the location changes keeps `pass_masks_inv`.
#[verifier::rlimit(60)]
proof fn lemma_pass_masks_close(tiles: Seq<Tile>, s: StripPass, i: int, base: int)
    requires
        2 <= i <= tiles.len(),
        0 <= base,
        pass_masks_inv(tiles, s, i - 1, base),
        s.fp < 16,
        base + s.columns.len() <= u32::MAX,
        step_ok(tiles, s, i - 1, base),
        tiles[i - 1].footprint_ok(),
        loc_changes(tiles[i - 2], tiles[i - 1]),
    ensures
        pass_masks_inv(tiles, pass_step(tiles, s, i - 1, base), i, base),
{
    let r = pass_step(tiles, s, i - 1, base);
    let prev = tiles[i - 2];
    let tile = tiles[i - 1];
    lemma_footprint_value_small(tile);
    let fv = tile.footprint_value();
    let fp = closing_fp(s, prev, tile);
    let sfp = s.fp;
    let joins = joins_strip(prev, tile);
    assert(fp < 16) by (bit_vector)
        requires fp == (if joins { sfp | 8u32 } else { sfp }), sfp < 16;
    lemma_small_footprint(fp);
    lemma_footprint_bounds(Footprint(fp));
    let x0 = Footprint(fp).start() as int;
    let x1 = Footprint(fp).end() as int;
    let old_cols = s.columns.len() as int;
    let n_old = s.strips.len() as int;
    if !s.strip_start {
        assert(bit(fp, 0)) by (bit_vector)
            requires fp == (if joins { sfp | 8u32 } else { sfp }), (sfp >> 0u32) & 1u32 == 1u32;
        assert(Footprint(fp).covers(0));
        assert(x0 == 0);
    }
    if joins {
        assert(bit(fp, 3)) by (bit_vector)
            requires fp == sfp | 8u32;
        assert(Footprint(fp).covers(3));
        assert(x1 == 4);
        assert(tile.x == prev.x + 1);
        let low = 1u32;
        let rfp = r.fp;
        assert(rfp == low | fv);
        assert(bit(rfp, 0)) by (bit_vector)
            requires rfp == low | fv, low == 1u32;
    }
    assert(r.columns.len() == old_cols + (x1 - x0));
    assert forall|m: int| old_cols <= m < r.columns.len() implies mask_pixel(tiles, #[trigger] r.columns[m])
        == 4 * prev.x + x0 + (m - old_cols) && mask_row(tiles, r.columns[m]) == 4 * prev.y by {
        assert(r.columns[m].start == s.seg_start);
        assert(r.columns[m].x == x0 + (m - old_cols));
    }
    assert forall|m: int| 0 <= m < old_cols implies #[trigger] r.columns[m] == s.columns[m] by {}
    assert forall|j: int| 0 <= j < n_old implies #[trigger] r.strips[j] == s.strips[j] by {}
    assert(r.strips.len() > 0);
    let last = r.strips.last();
    assert(last.x + (base + old_cols - last.col) == 4 * prev.x + x0);
    assert(last.y == 4 * prev.y);
    assert forall|j: int| 0 <= j < r.strips.len() implies (#[trigger] r.strips[j]).col <= base + old_cols by {
        if j < n_old {
            assert(r.strips[j] == s.strips[j]);
        }
    }
    assert forall|j: int| 0 <= j < r.strips.len() - 1 implies #[trigger] r.strips[j].col <= r.strips[j + 1].col by {
        if j + 1 < n_old {
            assert(r.strips[j] == s.strips[j] && r.strips[j + 1] == s.strips[j + 1]);
        }
    }
    assert forall|j: int, m: int|
        #![trigger r.strips[j], r.columns[m]]
        0 <= j < r.strips.len() && 0 <= m < r.columns.len() && r.strips[j].col <= base + m < strip_masks_end(r, j, base)
            implies mask_pixel(tiles, r.columns[m]) == r.strips[j].x + (base + m - r.strips[j].col) && mask_row(
            tiles,
            r.columns[m],
        ) == r.strips[j].y by {
        if m < old_cols {
            assert(r.columns[m] == s.columns[m]);
            assert(j < n_old);
            assert(r.strips[j] == s.strips[j]);
            if j + 1 < n_old {
                assert(r.strips[j + 1] == s.strips[j + 1]);
            }
            assert(base + m < strip_masks_end(s, j, base));
        } else {
            if j < r.strips.len() - 1 {
                assert(r.strips[j + 1].col <= base + old_cols);
            }
            assert(j == r.strips.len() - 1);
        }
    }
}

/// A step at which the location stays keeps `pass_masks_inv`.
proof fn lemma_pass_masks_stay(tiles: Seq<Tile>, s: StripPass, i: int, base: int)
    requires
        2 <= i <= tiles.len(),
        pass_masks_inv(tiles, s, i - 1, base),
        !loc_changes(tiles[i - 2], tiles[i - 1]),
    ensures
        pass_masks_inv(tiles, pass_step(tiles, s, i - 1, base), i, base),
{
    let r = pass_step(tiles, s, i - 1, base);
    assert(r.strips == s.strips && r.columns == s.columns && r.seg_start == s.seg_start);
    if !s.strip_start {
        let sfp = s.fp;
        let rfp = r.fp;
        let fv = tiles[i - 1].footprint_value();
        assert(rfp == sfp | fv);
        assert(bit(rfp, 0)) by (bit_vector)
            requires rfp == sfp | fv, (sfp >> 0u32) & 1u32 == 1u32;
    }
    assert(masks_follow_strips(tiles, r, base));
}

proof fn lemma_pass_masks(tiles: Seq<Tile>, base: int, i: int)
    requires
        pass_ok(tiles, base),
        1 <= i <= tiles.len(),
    ensures
        pass_masks_inv(tiles, pass_upto(tiles, i, base), i, base),
    decreases i,
{
    if i > 1 {
        lemma_pass_masks(tiles, base, i - 1);
        lemma_pass_invariant(tiles, base, i - 1);
        let s = pass_upto(tiles, i - 1, base);
        assert(pass_upto(tiles, i, base) == pass_step(tiles, s, i - 1, base));
        assert(step_ok(tiles, pass_upto(tiles, i - 1, base), i - 1, base));
        assert(tiles[i - 1].footprint_ok());
        if loc_changes(tiles[i - 2], tiles[i - 1]) {
            lemma_pass_masks_close(tiles, s, i, base);
        } else {
            lemma_pass_masks_stay(tiles, s, i, base);
        }
    }
}

/// The strip pass lays the masks of each strip out over its pixels without gaps: the
/// masks of strip `j` run from its `col` to where the next strip's start (the last
/// strip's to the end of the masks), and mask `k` of them is computed for pixel column
/// `strips[j].x + k` of the strip's row. So a location that continues the strip of the
/// location before it gets masks from its column 0 on. Every mask belongs to a strip:
/// the first strip's masks start at the first new mask.
pub proof fn lemma_strip_masks_are_its_columns(tiles: Seq<Tile>, base: int)
    requires
        pass_ok(tiles, base),
    ensures
        masks_follow_strips(tiles, pass_upto(tiles, tiles.len() as int, base), base),
{
    lemma_pass_masks(tiles, base, tiles.len() as int);
}

/// The sum of the winding changes of those among the first `n` tiles that lie in row `y`
/// left of column `x`: the winding number on entry to location (x, y).
pub open spec fn winding_before(tiles: Seq<Tile>, n: int, y: u16, x: u16) -> int
    decreases n,
{
    if n <= 0 {
        0
    } else {
        winding_before(tiles, n - 1, y, x) + (if tiles[n - 1].y == y && tiles[n - 1].x < x {
            tiles[n - 1].spec_delta()
        } else {
            0
        })
    }
}

/// Tiles [a, n) that do not lie in row `y` left of column `x` leave the sum unchanged.
proof fn lemma_winding_before_stable(tiles: Seq<Tile>, a: int, n: int, y: u16, x: u16)
    requires
        0 <= a <= n <= tiles.len(),
        forall|k: int| a <= k < n ==> !((#[trigger] tiles[k]).y == y && tiles[k].x < x),
    ensures
        winding_before(tiles, n, y, x) == winding_before(tiles, a, y, x),
    decreases n - a,
{
    if n > a {
        lemma_winding_before_stable(tiles, a, n - 1, y, x);
    }
}

/// Two columns that every tile of row `y` among the first `n` lies left of give the
/// same sum.
proof fn lemma_winding_before_columns(tiles: Seq<Tile>, n: int, y: u16, x1: u16, x2: u16)
    requires
        0 <= n <= tiles.len(),
        forall|k: int| 0 <= k < n && (#[trigger] tiles[k]).y == y ==> tiles[k].x < x1 && tiles[k].x < x2,
    ensures
        winding_before(tiles, n, y, x1) == winding_before(tiles, n, y, x2),
    decreases n,
{
    if n > 0 {
        lemma_winding_before_columns(tiles, n - 1, y, x1, x2);
    }
}

/// Tiles [a, b) all at one location (x0, y) left of column `x` add their winding changes.
proof fn lemma_winding_before_location(tiles: Seq<Tile>, a: int, b: int, y: u16, x: u16)
    requires
        0 <= a <= b <= tiles.len(),
        forall|k: int| a <= k < b ==> (#[trigger] tiles[k]).y == y && tiles[k].x < x,
    ensures
        winding_before(tiles, b, y, x) == winding_before(tiles, a, y, x) + delta_sum(tiles, a, b),
    decreases b - a,
{
    if b > a {
        lemma_winding_before_location(tiles, a, b - 1, y, x);
    }
}

/// Each tile changes the winding number by at most one.
proof fn lemma_delta_sum_bound(tiles: Seq<Tile>, a: int, b: int)
    requires
        0 <= a <= b <= tiles.len(),
    ensures
        -(b - a) <= delta_sum(tiles, a, b) <= b - a,
    decreases b - a,
{
    if b > a {
        lemma_delta_sum_bound(tiles, a, b - 1);
    }
}

/// What the pass keeps of winding numbers: the current location's tiles start at
/// `seg_start`, right after a tile at another location; the winding number on entry to
/// it is the sum over the tiles before it in its row; and each strip and mask column
/// holds the winding number on entry to its location.
spec fn pass_winding_inv(tiles: Seq<Tile>, s: StripPass, i: int) -> bool {
    let cur = tiles[i - 1];
    &&& 0 <= s.seg_start < i
    &&& tiles[s.seg_start].x == cur.x && tiles[s.seg_start].y == cur.y
    &&& s.seg_start > 0 ==> loc_changes(tiles[s.seg_start - 1], tiles[s.seg_start])
    &&& s.delta == winding_before(tiles, s.seg_start, cur.y, cur.x)
    &&& -s.seg_start <= s.delta <= s.seg_start
    &&& forall|j: int| 0 <= j < s.strips.len() ==> (#[trigger] s.strips[j]).winding == winding_before(
        tiles,
        tiles.len() as int,
        (s.strips[j].y / 4) as u16,
        (s.strips[j].x / 4) as u16,
    )
    &&& forall|m: int| 0 <= m < s.columns.len() ==> (#[trigger] s.columns[m]).winding == winding_before(
        tiles,
        tiles.len() as int,
        tiles[s.columns[m].start].y,
        tiles[s.columns[m].start].x,
    )
    &&& forall|m: int| 0 <= m < s.columns.len() ==> 0 <= (#[trigger] s.columns[m]).start < i
}

/// In tiles sorted by location, the tiles before the first tile of a location that lie
/// in its row lie left of it, and those after it in its row do not.
proof fn lemma_sorted_row_sides(tiles: Seq<Tile>, a: int)
    requires
        sorted_by_location(tiles),
        0 <= a < tiles.len(),
        a > 0 ==> loc_changes(tiles[a - 1], tiles[a]),
    ensures
        forall|k: int| 0 <= k < a && (#[trigger] tiles[k]).y == tiles[a].y ==> tiles[k].x < tiles[a].x,
        forall|k: int| a <= k < tiles.len() && (#[trigger] tiles[k]).y == tiles[a].y ==> tiles[k].x >= tiles[a].x,
{
    assert forall|k: int| 0 <= k < a && (#[trigger] tiles[k]).y == tiles[a].y implies tiles[k].x < tiles[a].x by {
        assert(tiles[k].key() <= tiles[a - 1].key());
        assert(tiles[a - 1].key() <= tiles[a].key());
    }
    assert forall|k: int| a <= k < tiles.len() && (#[trigger] tiles[k]).y == tiles[a].y implies tiles[k].x >= tiles[a].x by {
        assert(tiles[a].key() <= tiles[k].key());
    }
}

proof fn lemma_pass_winding_close(tiles: Seq<Tile>, s: StripPass, i: int, base: int)
    requires
        sorted_by_location(tiles),
        2 <= i <= tiles.len() < i32::MAX,
        pass_winding_inv(tiles, s, i - 1),
        loc_changes(tiles[i - 2], tiles[i - 1]),
        Footprint(closing_fp(s, tiles[i - 2], tiles[i - 1])).start() < 4,
    ensures
        pass_winding_inv(tiles, pass_step(tiles, s, i - 1, base), i),
{
    let r = pass_step(tiles, s, i - 1, base);
    let prev = tiles[i - 2];
    let tile = tiles[i - 1];
    let n = tiles.len() as int;
    let a = s.seg_start;
    lemma_sorted_row_sides(tiles, a);
    lemma_sorted_row_sides(tiles, i - 1);
    // The closing location's winding number, over all the tiles.
    lemma_winding_before_stable(tiles, a, n, prev.y, prev.x);
    // The new location's winding number on entry.
    assert forall|k: int| a <= k < i - 1 implies (#[trigger] tiles[k]).y == prev.y && tiles[k].x == prev.x by {
        assert(tiles[a].key() <= tiles[k].key() <= tiles[i - 2].key());
    }
    lemma_delta_sum_bound(tiles, a, i - 1);
    if prev.y == tile.y {
        assert(prev.x < tile.x) by {
            assert(prev.key() <= tile.key());
        }
        assert forall|k: int| 0 <= k < a && (#[trigger] tiles[k]).y == prev.y implies tiles[k].x < prev.x
            && tiles[k].x < tile.x by {}
        lemma_winding_before_columns(tiles, a, prev.y, prev.x, tile.x);
        assert forall|k: int| a <= k < i - 1 implies (#[trigger] tiles[k]).y == tile.y && tiles[k].x < tile.x by {}
        lemma_winding_before_location(tiles, a, i - 1, tile.y, tile.x);
    } else {
        assert(prev.y < tile.y) by {
            assert(prev.key() <= tile.key());
        }
        assert forall|k: int| 0 <= k < i - 1 implies !((#[trigger] tiles[k]).y == tile.y && tiles[k].x < tile.x) by {
            assert(tiles[k].key() <= prev.key());
        }
        lemma_winding_before_stable(tiles, 0, i - 1, tile.y, tile.x);
    }
    let x0 = Footprint(closing_fp(s, prev, tile)).start() as int;
    let old_cols = s.columns.len() as int;
    assert forall|j: int| 0 <= j < r.strips.len() implies (#[trigger] r.strips[j]).winding == winding_before(
        tiles,
        n,
        (r.strips[j].y / 4) as u16,
        (r.strips[j].x / 4) as u16,
    ) by {
        if j < s.strips.len() {
            assert(r.strips[j] == s.strips[j]);
        } else {
            assert(r.strips[j].x == 4 * prev.x + x0);
            assert((r.strips[j].x / 4) as u16 == prev.x);
            assert((r.strips[j].y / 4) as u16 == prev.y);
        }
    }
    assert forall|m: int| 0 <= m < r.columns.len() implies (#[trigger] r.columns[m]).winding == winding_before(
        tiles,
        n,
        tiles[r.columns[m].start].y,
        tiles[r.columns[m].start].x,
    ) && 0 <= r.columns[m].start < i by {
        if m < old_cols {
            assert(r.columns[m] == s.columns[m]);
        } else {
            assert(r.columns[m].start == a);
        }
    }
}

proof fn lemma_pass_winding(tiles: Seq<Tile>, base: int, i: int)
    requires
        pass_ok(tiles, base),
        sorted_by_location(tiles),
        1 <= i <= tiles.len(),
    ensures
        pass_winding_inv(tiles, pass_upto(tiles, i, base), i),
    decreases i,
{
    if i > 1 {
        lemma_pass_winding(tiles, base, i - 1);
        lemma_pass_invariant(tiles, base, i - 1);
        let s = pass_upto(tiles, i - 1, base);
        let r = pass_upto(tiles, i, base);
        assert(r == pass_step(tiles, s, i - 1, base));
        assert(step_ok(tiles, pass_upto(tiles, i - 1, base), i - 1, base));
        if loc_changes(tiles[i - 2], tiles[i - 1]) {
            let fp = closing_fp(s, tiles[i - 2], tiles[i - 1]);
            let sfp = s.fp;
            let joins = joins_strip(tiles[i - 2], tiles[i - 1]);
            assert(fp < 16) by (bit_vector)
                requires fp == (if joins { sfp | 8u32 } else { sfp }), sfp < 16;
            lemma_small_footprint(fp);
            lemma_pass_winding_close(tiles, s, i, base);
        } else {
            assert(r.strips == s.strips && r.columns == s.columns && r.seg_start == s.seg_start);
            assert(r.delta == s.delta);
        }
    }
}

/// Every strip that the pass makes from tiles sorted by location holds the winding
/// number on entry to its first location: the sum of the winding changes of the tiles
/// in its row left of that location. Every mask column is computed with the winding
/// number on entry to its location in the same way.
pub proof fn lemma_strip_winding_is_the_sum_to_its_left(tiles: Seq<Tile>, base: int)
    requires
        pass_ok(tiles, base),
        sorted_by_location(tiles),
    ensures
        ({
            let p = pass_upto(tiles, tiles.len() as int, base);
            &&& forall|j: int| 0 <= j < p.strips.len() ==> (#[trigger] p.strips[j]).winding == winding_before(
                tiles,
                tiles.len() as int,
                (p.strips[j].y / 4) as u16,
                (p.strips[j].x / 4) as u16,
            )
            &&& forall|m: int| 0 <= m < p.columns.len() ==> 0 <= (#[trigger] p.columns[m]).start < tiles.len()
                && p.columns[m].winding == winding_before(
                tiles,
                tiles.len() as int,
                tiles[p.columns[m].start].y,
                tiles[p.columns[m].start].x,
            )
        }),
{
    lemma_pass_winding(tiles, base, tiles.len() as int);
}

/// Turns a sorted run of tiles into strips and their coverage masks.
///
/// Tiles of one location are merged; each location gets one coverage mask per pixel
/// column of its footprint, computed by `column_alpha` from the location's tiles and
/// the winding number on entry (the masks are pushed onto `alpha_buf`). A location
/// that does not continue the strip of the one before it starts a new strip. The last
/// tile only ends the location before it.
pub fn render_strips<F>(tiles: &[Tile], strip_buf: &mut Vec<Strip>, alpha_buf: &mut Vec<u32>, column_alpha: F)
    where
        F: Fn(&[Tile], usize, usize, i32, u32) -> u32,
    requires
        pass_ok(tiles@, old(alpha_buf)@.len() as int),
        forall|a: usize, b: usize, d: i32, x: u32| #[trigger] column_alpha.requires((tiles, a, b, d, x)),
    ensures
        ({
            let p = pass_upto(tiles@, tiles@.len() as int, old(alpha_buf)@.len() as int);
            let base = old(alpha_buf)@.len();
            &&& final(strip_buf)@ == p.strips
            &&& final(alpha_buf)@.len() == base + p.columns.len()
            &&& final(alpha_buf)@.subrange(0, base as int) == old(alpha_buf)@
            &&& forall|k: int| 0 <= k < p.columns.len() ==> column_alpha.ensures(
                (tiles, p.columns[k].start as usize, p.columns[k].end as usize,
                    p.columns[k].winding as i32, p.columns[k].x as u32),
                #[trigger] final(alpha_buf)@[base + k],
            )
        }),
{
    let ghost t = tiles@;
    let ghost base = alpha_buf@.len() as int;
    let ghost a0 = alpha_buf@;
    strip_buf.clear();
    let mut strip_start = true;
    let mut cols = alpha_buf.len() as u32;
    let mut fp = tiles[0].footprint().0;
    let mut seg_start: usize = 0;
    let mut delta: i32 = 0;
    proof {
        lemma_footprint_value_small(t[0]);
    }
    let mut i: usize = 1;
    while i < tiles.len()
        invariant
            t == tiles@,
            a0.len() == base,
            pass_ok(t, base),
            forall|a: usize, b: usize, d: i32, x: u32| #[trigger] column_alpha.requires((tiles, a, b, d, x)),
            1 <= i <= t.len(),
            ({
                let st = pass_upto(t, i as int, base);
                &&& strip_start == st.strip_start
                &&& fp == st.fp
                &&& seg_start == st.seg_start
                &&& delta == st.delta
                &&& strip_buf@ == st.strips
                &&& cols == base + st.columns.len()
                &&& alpha_buf@.len() == base + st.columns.len()
                &&& alpha_buf@.subrange(0, base) == a0
                &&& forall|k: int| 0 <= k < st.columns.len() ==> column_alpha.ensures(
                    (tiles, st.columns[k].start as usize, st.columns[k].end as usize,
                        st.columns[k].winding as i32, st.columns[k].x as u32),
                    #[trigger] alpha_buf@[base + k],
                )
            }),
            fp < 16,
            seg_start < i,
            -(seg_start as int) <= delta <= seg_start,
        decreases t.len() - i,
    {
        let ghost st = pass_upto(t, i as int, base);
        assert(step_ok(t, st, i as int, base));
        let tile = &tiles[i];
        let prev_tile = &tiles[i - 1];
        if prev_tile.loc() != tile.loc() {
            let start_delta = delta;
            let same_strip = prev_tile.loc().same_strip(&tile.loc());
            if same_strip {
                fp |= 8;
            }
            assert(fp == closing_fp(st, t[i - 1], t[i as int]));
            proof {
                let sfp = st.fp;
                assert(fp < 16) by (bit_vector)
                    requires fp == (if same_strip { sfp | 8u32 } else { sfp }), sfp < 16;
                lemma_small_footprint(fp);
            }
            let x0 = Footprint(fp).x0();
            let x1 = Footprint(fp).x1();

            let mut k = seg_start;
            while k < i
                invariant
                    t == tiles@,
                    seg_start <= k <= i,
                    i < t.len() < i32::MAX,
                    delta == start_delta + delta_sum(t, seg_start as int, k as int),
                    -(k as int) <= delta <= k,
                decreases i - k,
            {
                delta += tiles[k].delta();
                k += 1;
            }

            let ghost before = alpha_buf@;
            let mut x = x0;
            while x < x1
                invariant
                    x0 <= x <= x1 <= 4,
                    alpha_buf@.len() == before.len() + (x - x0),
                    alpha_buf@.subrange(0, before.len() as int) == before,
                    forall|a: usize, b: usize, d: i32, xx: u32| #[trigger] column_alpha.requires((tiles, a, b, d, xx)),
                    forall|j: int| 0 <= j < x - x0 ==> column_alpha.ensures(
                        (tiles, seg_start, i, start_delta, (x0 + j) as u32),
                        #[trigger] alpha_buf@[before.len() + j],
                    ),
                decreases x1 - x,
            {
                let a = column_alpha(tiles, seg_start, i, start_delta, x);
                alpha_buf.push(a);
                x += 1;
            }

            if strip_start {
                let strip = Strip {
                    x: 4 * prev_tile.x as u32 + x0,
                    y: 4 * prev_tile.y as u32,
                    col: cols,
                    winding: start_delta,
                };
                strip_buf.push(strip);
            }

            cols += x1 - x0;
            fp = if same_strip { 1 } else { 0 };

            strip_start = !same_strip;
            seg_start = i;

            if !prev_tile.loc().same_row(&tile.loc()) {
                delta = 0;
            }
            proof {
                let st2 = pass_step(t, st, i as int, base);
                assert forall|j: int| 0 <= j < before.len() implies alpha_buf@[j] == before[j] by {
                    assert(alpha_buf@.subrange(0, before.len() as int)[j] == before[j]);
                }
                assert forall|j: int| 0 <= j < base implies alpha_buf@[j] == a0[j] by {
                    assert(before.subrange(0, base)[j] == a0[j]);
                }
                assert(alpha_buf@.subrange(0, base) =~= a0);
                assert forall|k: int| 0 <= k < st2.columns.len() implies column_alpha.ensures(
                    (tiles, st2.columns[k].start as usize, st2.columns[k].end as usize,
                        st2.columns[k].winding as i32, st2.columns[k].x as u32),
                    #[trigger] alpha_buf@[base + k],
                ) by {
                    if k < st.columns.len() {
                        assert(alpha_buf@[base + k] == before[base + k]);
                    } else {
                        let j = k - st.columns.len();
                        assert(alpha_buf@[base + k] == alpha_buf@[before.len() + j]);
                    }
                }
            }
        }
        proof {
            lemma_footprint_value_small(t[i as int]);
        }
        let ghost fp_mid = fp;
        let tile_fp = tile.footprint().0;
        fp |= tile_fp;
        assert(fp < 16) by (bit_vector)
            requires fp == fp_mid | tile_fp, fp_mid < 16, tile_fp < 16;
        i += 1;
    }
}

/// Whether the strip pass can run on `tiles` with `base_cols` masks already in the
/// alpha buffer (see `render_strips`): it replays the footprints and column counts of
/// the pass without computing any mask.
pub fn strip_pass_ok(tiles: &[Tile], base_cols: usize) -> (r: bool)
    ensures
        r == pass_ok(tiles@, base_cols as int),
{
    let ghost t = tiles@;
    let ghost base = base_cols as int;
    if tiles.len() == 0 || tiles.len() >= 0x7fff_ffff || base_cols > 0xffff_ffff {
        return false;
    }
    let mut k: usize = 0;
    while k < tiles.len()
        invariant
            t == tiles@,
            0 <= k <= t.len(),
            forall|j: int| 0 <= j < k ==> (#[trigger] t[j]).footprint_ok(),
        decreases t.len() - k,
    {
        let tile = &tiles[k];
        let x0 = tile.p0.packed_x() as u32;
        let x1 = tile.p1.packed_x() as u32;
        let lo = if x0 < x1 { x0 } else { x1 };
        if lo / 8192 > 4 {
            return false;
        }
        k += 1;
    }
    let mut fp = tiles[0].footprint().0;
    let mut cols: usize = base_cols;
    proof {
        lemma_footprint_value_small(t[0]);
    }
    let mut i: usize = 1;
    while i < tiles.len()
        invariant
            t == tiles@,
            base == base_cols as int,
            1 <= t.len() < i32::MAX,
            base <= u32::MAX,
            forall|j: int| 0 <= j < t.len() ==> (#[trigger] t[j]).footprint_ok(),
            1 <= i <= t.len(),
            forall|j: int| 1 <= j < i ==> step_ok(t, #[trigger] pass_upto(t, j, base), j, base),
            fp == pass_upto(t, i as int, base).fp,
            cols == base + pass_upto(t, i as int, base).columns.len(),
            cols <= u32::MAX,
            fp < 16,
        decreases t.len() - i,
    {
        let ghost st = pass_upto(t, i as int, base);
        let tile = &tiles[i];
        let prev_tile = &tiles[i - 1];
        if prev_tile.y == tile.y && prev_tile.x > tile.x {
            assert(!step_ok(t, pass_upto(t, i as int, base), i as int, base));
            return false;
        }
        if prev_tile.loc() != tile.loc() {
            let same_strip = prev_tile.loc().same_strip(&tile.loc());
            let closing = if same_strip { fp | 8 } else { fp };
            assert(closing == closing_fp(st, t[i - 1], t[i as int]));
            if closing == 0 {
                assert(!step_ok(t, pass_upto(t, i as int, base), i as int, base));
                return false;
            }
            proof {
                let sfp = st.fp;
                assert(closing < 16) by (bit_vector)
                    requires closing == (if same_strip { sfp | 8u32 } else { sfp }), sfp < 16;
                lemma_small_footprint(closing);
            }
            let x0 = Footprint(closing).x0();
            let x1 = Footprint(closing).x1();
            if cols as u64 + (x1 - x0) as u64 > 0xffff_ffff {
                assert(!step_ok(t, pass_upto(t, i as int, base), i as int, base));
                return false;
            }
            cols = cols + (x1 - x0) as usize;
            fp = if same_strip { 1 } else { 0 };
        }
        assert(step_ok(t, st, i as int, base));
        proof {
            lemma_footprint_value_small(t[i as int]);
        }
        let ghost fp_mid = fp;
        let tile_fp = tile.footprint().0;
        fp |= tile_fp;
        assert(fp < 16) by (bit_vector)
            requires fp == fp_mid | tile_fp, fp_mid < 16, tile_fp < 16;
        i += 1;
    }
    true
}
} // verus!
