//! Tiles of the 4x4 pixel grid: packed tile-relative points, footprints (the pixel
//! columns a tile covers), tile locations and sort keys.

use vstd::prelude::*;
use vstd::std_specs::bits::{
    axiom_u32_leading_zeros, axiom_u32_trailing_zeros, u32_leading_zeros, u32_trailing_zeros,
};

verus! {

/// Width of a tile in pixels.
pub const TILE_WIDTH: u32 = 4;

/// Height of a tile in pixels.
pub const TILE_HEIGHT: u32 = 4;

/// Side of a tile in pixels.
pub const TILE_SIZE: u32 = 4;

/// A point inside a tile, in fixed point: 8192 units per pixel.
#[derive(Clone, Copy, Debug)]
pub struct PackedPoint {
    x: u16,
    y: u16,
}

impl PackedPoint {
    /// The packed x coordinate.
    pub closed spec fn px(self) -> u16 {
        self.x
    }

    /// The packed y coordinate.
    pub closed spec fn py(self) -> u16 {
        self.y
    }

    pub fn new(x: u16, y: u16) -> (r: PackedPoint)
        ensures
            r.px() == x,
            r.py() == y,
    {
        PackedPoint { x, y }
    }

    pub fn packed_x(&self) -> (r: u16)
        ensures
            r == self.px(),
    {
        self.x
    }

    pub fn packed_y(&self) -> (r: u16)
        ensures
            r == self.py(),
    {
        self.y
    }
}

/// A footprint represents in a compact fashion the range of pixels covered by a tile:
/// bit `i` is set when pixel column `i` is covered.
pub struct Footprint(pub u32);

/// Whether bit `i` of `v` is set.
pub open spec fn bit(v: u32, i: u32) -> bool {
    (v >> i) & 1u32 == 1u32
}

impl Footprint {
    /// Whether pixel column `i` is covered.
    pub open spec fn covers(self, i: u32) -> bool {
        i < 32 && bit(self.0, i)
    }

    /// The start of the covered range (inclusive); 32 when nothing is covered.
    pub open spec fn start(self) -> u32 {
        u32_trailing_zeros(self.0)
    }

    /// The end of the covered range (exclusive); 0 when nothing is covered.
    pub open spec fn end(self) -> u32 {
        (32 - u32_leading_zeros(self.0)) as u32
    }

    /// Create a new, empty footprint.
    pub fn empty() -> (r: Footprint)
        ensures
            r.0 == 0,
            forall|i: u32| !r.covers(i),
    {
        proof {
            assert forall|i: u32| !bit(0u32, i) by {
                assert((0u32 >> i) & 1u32 == 0u32) by (bit_vector);
            }
        }
        Footprint(0)
    }

    /// Create a new footprint from a single index, i.e. [i, i + 1).
    pub fn from_index(index: u8) -> (r: Footprint)
        requires
            index < 32,
        ensures
            r.0 == 1u32 << index,
            forall|i: u32| r.covers(i) <==> i == index,
    {
        proof {
            lemma_single_bit(index as u32);
        }
        Footprint(1u32 << index)
    }

    /// Create a new footprint from a range of indices, i.e. [start, end).
    pub fn from_range(start: u8, end: u8) -> (r: Footprint)
        requires
            start <= end < 32,
        ensures
            r.0 == (1u32 << end) - (1u32 << start),
            forall|i: u32| r.covers(i) <==> start <= i < end,
    {
        proof {
            lemma_range_bits(start as u32, end as u32);
            let s = start as u32;
            let e = end as u32;
            assert((1u32 << s) <= (1u32 << e)) by (bit_vector)
                requires s <= e < 32;
        }
        Footprint((1u32 << end) - (1u32 << start))
    }

    pub fn is_empty(&self) -> (r: bool)
        ensures
            r == (self.0 == 0),
    {
        self.0 == 0
    }

    /// The start point of the covered range (inclusive).
    pub fn x0(&self) -> (r: u32)
        ensures
            r == self.start(),
    {
        self.0.trailing_zeros()
    }

    /// The end point of the covered range (exclusive).
    pub fn x1(&self) -> (r: u32)
        ensures
            r == self.end(),
    {
        proof {
            axiom_u32_leading_zeros(self.0);
        }
        32 - self.0.leading_zeros()
    }

    /// Extend the range with a single index.
    pub fn extend(&mut self, index: u8)
        requires
            index < 32,
        ensures
            final(self).0 == old(self).0 | (1u32 << index),
    {
        self.0 = self.0 | (1u32 << index);
    }

    /// Merge another footprint with the current one.
    pub fn merge(&mut self, fp: &Footprint)
        ensures
            final(self).0 == old(self).0 | fp.0,
    {
        self.0 = self.0 | fp.0;
    }
}

/// Only bit `i` of `1 << i` is set.
pub proof fn lemma_single_bit(i: u32)
    requires
        i < 32,
    ensures
        forall|j: u32| j < 32 ==> (#[trigger] bit(1u32 << i, j) <==> j == i),
{
    assert forall|j: u32| j < 32 implies (#[trigger] bit(1u32 << i, j) <==> j == i) by {
        assert((((1u32 << i) >> j) & 1u32 == 1u32) <==> j == i) by (bit_vector)
            requires i < 32, j < 32;
    }
}

/// The bits of `(1 << e) - (1 << s)` are exactly those in `[s, e)`.
pub proof fn lemma_range_bits(s: u32, e: u32)
    requires
        s <= e < 32,
    ensures
        forall|j: u32| j < 32 ==> (#[trigger] bit(((1u32 << e) - (1u32 << s)) as u32, j) <==> s <= j < e),
{
    assert forall|j: u32| j < 32 implies (#[trigger] bit(((1u32 << e) - (1u32 << s)) as u32, j) <==> s <= j < e) by {
        assert((((((1u32 << e) - (1u32 << s)) as u32) >> j) & 1u32 == 1u32) <==> (s <= j && j < e))
            by (bit_vector)
            requires s <= e < 32, j < 32;
    }
}

/// The bits of `a | b` are those of `a` and those of `b`.
pub proof fn lemma_or_bits(a: u32, b: u32)
    ensures
        forall|j: u32| j < 32 ==> (#[trigger] bit(a | b, j) <==> bit(a, j) || bit(b, j)),
{
    assert forall|j: u32| j < 32 implies (#[trigger] bit(a | b, j) <==> bit(a, j) || bit(b, j)) by {
        assert(((((a | b) >> j) & 1u32) == 1u32) <==> (((a >> j) & 1u32) == 1u32 || ((b >> j) & 1u32) == 1u32))
            by (bit_vector);
    }
}

/// The number of trailing zeros is the index of the lowest set bit (32 when none).
pub proof fn lemma_trailing_zeros_is(v: u32, t: u32)
    requires
        t <= 32,
        t < 32 ==> bit(v, t),
        forall|j: u32| j < t ==> !#[trigger] bit(v, j),
    ensures
        u32_trailing_zeros(v) == t,
{
    axiom_u32_trailing_zeros(v);
    let tz = u32_trailing_zeros(v);
    if tz < t {
        assert(bit(v, tz));
        assert(!bit(v, tz));
    } else if tz > t {
        assert(t < 32);
        assert((v >> t) & 1u32 == 0u32);
    }
}

/// 32 minus the number of leading zeros is one past the highest set bit (0 when none).
pub proof fn lemma_leading_zeros_is(v: u32, h: u32)
    requires
        h <= 32,
        h > 0 ==> bit(v, (h - 1) as u32),
        forall|j: u32| h <= j < 32 ==> !#[trigger] bit(v, j),
    ensures
        32 - u32_leading_zeros(v) == h,
{
    axiom_u32_leading_zeros(v);
    let lz = u32_leading_zeros(v);
    if 32 - lz > h {
        let k = (31 - lz) as u32;
        assert((v >> k) & 1u32 != 0u32);
        assert((v >> k) & 1u32 != 0u32 ==> (v >> k) & 1u32 == 1u32) by (bit_vector);
        assert(bit(v, k));
        assert(!bit(v, k));
    } else if 32 - lz < h {
        let k = (h - 1) as u32;
        assert(32 - lz <= k < 32);
        assert((v >> k) & 1u32 == 0u32);
    }
}

/// A footprint covers exactly the columns of its range [start, end) when its bits are
/// contiguous; in general `start` is its lowest and `end - 1` its highest column.
pub proof fn lemma_footprint_bounds(fp: Footprint)
    ensures
        fp.start() <= 32,
        fp.end() <= 32,
        fp.0 == 0 <==> fp.start() == 32,
        fp.0 == 0 <==> fp.end() == 0,
        fp.start() < 32 ==> fp.covers(fp.start()),
        fp.end() > 0 ==> fp.covers((fp.end() - 1) as u32),
        forall|j: u32| j < fp.start() ==> !#[trigger] fp.covers(j),
        forall|j: u32| fp.end() <= j ==> !#[trigger] fp.covers(j),
{
    axiom_u32_trailing_zeros(fp.0);
    axiom_u32_leading_zeros(fp.0);
    let lz = u32_leading_zeros(fp.0);
    if lz < 32 {
        let k = (31 - lz) as u32;
        assert((fp.0 >> k) & 1u32 != 0u32);
        let v = fp.0;
        assert((v >> k) & 1u32 != 0u32 ==> (v >> k) & 1u32 == 1u32) by (bit_vector);
    }
    assert forall|j: u32| j < fp.start() implies !#[trigger] fp.covers(j) by {
        if j < 32 {
            assert((fp.0 >> j) & 1u32 == 0u32);
        }
    }
    assert forall|j: u32| fp.end() <= j implies !#[trigger] fp.covers(j) by {
        if j < 32 {
            assert((fp.0 >> j) & 1u32 == 0u32);
        }
    }
}

/// The footprint of a range [start, end) starts at `start` and ends at `end`; an empty
/// range gives the empty footprint, which starts at 32 and ends at 0.
pub proof fn lemma_from_range_bounds(start: u32, end: u32)
    requires
        start <= end < 32,
    ensures
        ({
            let fp = Footprint(((1u32 << end) - (1u32 << start)) as u32);
            &&& start < end ==> fp.start() == start && fp.end() == end
            &&& start == end ==> fp.start() == 32 && fp.end() == 0
        }),
{
    let v = ((1u32 << end) - (1u32 << start)) as u32;
    lemma_range_bits(start, end);
    if start < end {
        assert(bit(v, start));
        lemma_trailing_zeros_is(v, start);
        assert(bit(v, (end - 1) as u32));
        lemma_leading_zeros_is(v, end);
    } else {
        lemma_trailing_zeros_is(v, 32);
        lemma_leading_zeros_is(v, 0);
    }
}

/// Extending a footprint with column `i` extends its range to cover `i`: the start
/// becomes `min(start, i)` and the end `max(end, i + 1)` (also from the empty
/// footprint, whose start is 32 and end is 0).
pub proof fn lemma_extend_bounds(fp: Footprint, i: u32)
    requires
        i < 32,
    ensures
        ({
            let r = Footprint(fp.0 | (1u32 << i));
            &&& r.start() == if fp.start() < i { fp.start() } else { i }
            &&& r.end() == if fp.end() > i + 1 { fp.end() } else { (i + 1) as u32 }
        }),
{
    lemma_single_bit(i);
    let fi = Footprint(1u32 << i);
    lemma_merge_bounds(fp, fi);
    lemma_trailing_zeros_is(1u32 << i, i);
    lemma_leading_zeros_is(1u32 << i, (i + 1) as u32);
}

/// Merging two footprints covers both ranges: the start is the smaller start and the
/// end the larger end.
pub proof fn lemma_merge_bounds(a: Footprint, b: Footprint)
    ensures
        ({
            let r = Footprint(a.0 | b.0);
            &&& r.start() == if a.start() < b.start() { a.start() } else { b.start() }
            &&& r.end() == if a.end() > b.end() { a.end() } else { b.end() }
        }),
{
    lemma_footprint_bounds(a);
    lemma_footprint_bounds(b);
    lemma_or_bits(a.0, b.0);
    let v = a.0 | b.0;
    let t = if a.start() < b.start() { a.start() } else { b.start() };
    let h = if a.end() > b.end() { a.end() } else { b.end() };
    assert forall|j: u32| j < t implies !#[trigger] bit(v, j) by {
        assert(!a.covers(j));
        assert(!b.covers(j));
    }
    if t < 32 {
        if a.start() < b.start() {
            assert(a.covers(a.start()));
        } else {
            assert(b.covers(b.start()));
        }
    }
    lemma_trailing_zeros_is(v, t);
    assert forall|j: u32| h <= j < 32 implies !#[trigger] bit(v, j) by {
        assert(!a.covers(j));
        assert(!b.covers(j));
    }
    if h > 0 {
        if a.end() > b.end() {
            assert(a.covers((a.end() - 1) as u32));
        } else {
            assert(b.covers((b.end() - 1) as u32));
        }
    }
    lemma_leading_zeros_is(v, h);
}

/// The location of a tile: its column (possibly negative) and its row.
#[derive(Clone, Copy, PartialEq, Eq, Debug, Structural)]
pub struct Loc {
    pub x: i32,
    pub y: u16,
}

impl Loc {
    pub fn zero() -> (r: Loc)
        ensures
            r.x == 0,
            r.y == 0,
    {
        Loc { x: 0, y: 0 }
    }

    /// Check whether two locations are on the same strip. This is the case if they are
    /// in the same row and right next to each other.
    pub fn same_strip(&self, other: &Self) -> (r: bool)
        ensures
            r == (self.y == other.y && -1 <= other.x - self.x <= 1),
    {
        self.same_row(other) && {
            let d: i64 = other.x as i64 - self.x as i64;
            -1 <= d && d <= 1
        }
    }

    pub fn same_row(&self, other: &Self) -> (r: bool)
        ensures
            r == (self.y == other.y),
    {
        self.y == other.y
    }

    /// Orders locations by row, then by column.
    pub fn cmp(&self, b: &Loc) -> (r: std::cmp::Ordering)
        ensures
            r == std::cmp::Ordering::Less <==> (self.y < b.y || (self.y == b.y && self.x < b.x)),
            r == std::cmp::Ordering::Equal <==> (self.y == b.y && self.x == b.x),
            r == std::cmp::Ordering::Greater <==> (self.y > b.y || (self.y == b.y && self.x > b.x)),
    {
        if self.y < b.y {
            std::cmp::Ordering::Less
        } else if self.y > b.y {
            std::cmp::Ordering::Greater
        } else if self.x < b.x {
            std::cmp::Ordering::Less
        } else if self.x > b.x {
            std::cmp::Ordering::Greater
        } else {
            std::cmp::Ordering::Equal
        }
    }
}

/// A tile's location, as a sort key, together with the tile's index in the tile buffer.
#[derive(Clone, Copy, Debug)]
pub struct TileIndex {
    x: u16,
    y: u16,
    index: u32,
}

/// The sort key of a location: rows first, then columns.
pub open spec fn loc_key(x: u16, y: u16) -> int {
    y as int * 65536 + x as int
}

impl TileIndex {
    /// The column of the indexed tile, shifted by one so that every negative column
    /// (which all tiles left of the viewport share) becomes 0.
    pub closed spec fn col(self) -> u16 {
        self.x
    }

    pub closed spec fn row(self) -> u16 {
        self.y
    }

    pub closed spec fn idx(self) -> u32 {
        self.index
    }

    /// Index the tile at column `x` and row `y` that stands at `index` in the tile buffer.
    pub fn from_tile(index: u32, x: i32, y: u16) -> (r: TileIndex)
        requires
            x < i32::MAX,
        ensures
            r.col() == (if x + 1 > 0 { x + 1 } else { 0 }) as u16,
            r.row() == y,
            r.idx() == index,
    {
        let sx = x + 1;
        let cx = if sx > 0 { sx } else { 0 };
        TileIndex { x: cx as u16, y, index }
    }

    /// The sort key of the indexed location.
    pub fn key(&self) -> (r: u32)
        ensures
            r == loc_key(self.col(), self.row()),
    {
        proof {
            let y = self.y as u32;
            assert((y << 16u32) == y * 65536) by (bit_vector)
                requires y < 65536;
        }
        ((self.y as u32) << 16) + (self.x as u32)
    }

    /// Orders tile indices by location: rows first, then columns.
    pub fn cmp(&self, b: &TileIndex) -> (r: std::cmp::Ordering)
        ensures
            r == std::cmp::Ordering::Less <==> loc_key(self.col(), self.row()) < loc_key(b.col(), b.row()),
            r == std::cmp::Ordering::Equal <==> loc_key(self.col(), self.row()) == loc_key(b.col(), b.row()),
            r == std::cmp::Ordering::Greater <==> loc_key(self.col(), self.row()) > loc_key(b.col(), b.row()),
    {
        let xya = self.key();
        let xyb = b.key();
        if xya < xyb {
            std::cmp::Ordering::Less
        } else if xya == xyb {
            std::cmp::Ordering::Equal
        } else {
            std::cmp::Ordering::Greater
        }
    }

    pub fn index(&self) -> (r: usize)
        ensures
            r == self.idx(),
    {
        self.index as usize
    }
}


/// The tile indices are in order of location: rows first, then columns.
pub open spec fn indices_sorted(index: Seq<TileIndex>) -> bool {
    forall|i: int, j: int|
        0 <= i <= j < index.len() ==> loc_key(index[i].col(), index[i].row()) <= loc_key(
            index[j].col(),
            index[j].row(),
        )
}

/// No two entries point at the same tile.
pub open spec fn distinct_indices(index: Seq<TileIndex>) -> bool {
    forall|a: int, b: int|
        0 <= a < index.len() && 0 <= b < index.len() && a != b ==> (#[trigger] index[a]).idx() != (
        #[trigger] index[b]).idx()
}

/// Reordering entries that point at different tiles keeps them pointing at different
/// tiles.
proof fn lemma_distinct_indices_permuted(old_index: Seq<TileIndex>, new_index: Seq<TileIndex>)
    requires
        distinct_indices(old_index),
        new_index.to_multiset() == old_index.to_multiset(),
    ensures
        distinct_indices(new_index),
{
    broadcast use vstd::seq_lib::group_to_multiset_ensures;
    assert(old_index.no_duplicates());
    old_index.lemma_multiset_has_no_duplicates();
    new_index.lemma_multiset_has_no_duplicates_conv();
    assert forall|a: int, b: int|
        0 <= a < new_index.len() && 0 <= b < new_index.len() && a != b implies (#[trigger] new_index[a]).idx()
        != (#[trigger] new_index[b]).idx() by {
        let e = new_index[a];
        let f = new_index[b];
        assert(new_index.contains(e) && new_index.contains(f));
        assert(new_index.to_multiset().count(e) > 0 && new_index.to_multiset().count(f) > 0);
        assert(old_index.contains(e) && old_index.contains(f));
        let p = choose|p: int| 0 <= p < old_index.len() && old_index[p] == e;
        let q = choose|q: int| 0 <= q < old_index.len() && old_index[q] == f;
        assert(e != f);
        assert(p != q);
    }
}

/// Sorts the slice with `<[TileIndex]>::sort_unstable_by`, comparing with `TileIndex::cmp`.
///
/// std documents that this sort reorders the elements so that they are in the order of
/// the comparison function, which must be a total order (`TileIndex::cmp` orders by the
/// location key); equal elements may end up in any order. That is the contract: the same
/// elements, sorted by location.
#[verifier::external_body]
fn slice_sort_indices_by_location(index: &mut [TileIndex])
    ensures
        final(index)@.to_multiset() == old(index)@.to_multiset(),
        indices_sorted(final(index)@),
{
    index.sort_unstable_by(TileIndex::cmp);
}

/// Handles the tiling of paths: the tiles in the order they were made, and an index of
/// them that sorting puts in order of location.
pub struct Tiler<T> {
    tile_buf: Vec<T>,
    tile_index_buf: Vec<TileIndex>,
    sorted: bool,
    locs: Ghost<Seq<(i32, u16)>>,
}

/// The column that the index of a tile at column `x` sorts by: every negative column
/// (which all tiles left of the viewport share) sorts as column -1.
pub open spec fn index_col(x: i32) -> u16 {
    (if x + 1 > 0 { x + 1 } else { 0 }) as u16
}

impl<T> Tiler<T> {
    /// The tiles, in the order they were made.
    pub closed spec fn tiles(self) -> Seq<T> {
        self.tile_buf@
    }

    /// The index of the tiles.
    pub closed spec fn index(self) -> Seq<TileIndex> {
        self.tile_index_buf@
    }

    /// Whether the index has been sorted since the last tile was added.
    pub closed spec fn is_sorted(self) -> bool {
        self.sorted
    }

    /// The location (column, row) that each tile was added at.
    pub closed spec fn locs(self) -> Seq<(i32, u16)> {
        self.locs@
    }

    /// The location of the tile that position `k` of the index points at.
    pub open spec fn indexed_loc(self, k: int) -> (i32, u16) {
        self.locs()[self.index()[k].idx() as int]
    }

    /// One index entry per tile, each pointing at a different tile (so every tile has
    /// exactly one entry) and holding the location that tile was added at; once sorted,
    /// the entries are in order of location.
    pub open spec fn wf(self) -> bool {
        &&& self.index().len() == self.tiles().len()
        &&& self.locs().len() == self.tiles().len()
        &&& forall|k: int| 0 <= k < self.index().len() ==> (#[trigger] self.index()[k]).idx() < self.tiles().len()
        &&& forall|k: int|
            0 <= k < self.index().len() ==> (#[trigger] self.index()[k]).col() == index_col(
                self.locs()[self.index()[k].idx() as int].0,
            ) && self.index()[k].row() == self.locs()[self.index()[k].idx() as int].1
        &&& distinct_indices(self.index())
        &&& self.is_sorted() ==> indices_sorted(self.index())
    }

    pub fn new() -> (r: Tiler<T>)
        ensures
            r.wf(),
            r.tiles() == Seq::<T>::empty(),
            r.index() == Seq::<TileIndex>::empty(),
            r.locs() == Seq::<(i32, u16)>::empty(),
            !r.is_sorted(),
    {
        Tiler { tile_buf: Vec::new(), sorted: false, tile_index_buf: Vec::new(), locs: Ghost(Seq::empty()) }
    }

    /// The number of tiles, as a `u32`.
    pub fn len(&self) -> (r: u32)
        ensures
            r == self.tiles().len() as u32,
    {
        self.tile_buf.len() as u32
    }

    /// Drop every tile.
    pub fn reset(&mut self)
        ensures
            final(self).wf(),
            final(self).tiles() == Seq::<T>::empty(),
            final(self).index() == Seq::<TileIndex>::empty(),
            final(self).locs() == Seq::<(i32, u16)>::empty(),
            !final(self).is_sorted(),
    {
        self.tile_buf.clear();
        self.tile_index_buf.clear();
        self.sorted = false;
        self.locs = Ghost(Seq::empty());
    }

    /// Add a tile at column `x` and row `y`, with its index entry.
    pub fn push(&mut self, tile: T, x: i32, y: u16)
        requires
            old(self).wf(),
            old(self).tiles().len() < u32::MAX,
            x < i32::MAX,
        ensures
            final(self).wf(),
            final(self).tiles() == old(self).tiles().push(tile),
            final(self).locs() == old(self).locs().push((x, y)),
            final(self).index().len() == old(self).index().len() + 1,
            final(self).index().subrange(0, old(self).index().len() as int) == old(self).index(),
            final(self).index().last().col() == (if x + 1 > 0 { x + 1 } else { 0 }) as u16,
            final(self).index().last().row() == y,
            final(self).index().last().idx() == old(self).tiles().len(),
            !final(self).is_sorted(),
    {
        let entry = TileIndex::from_tile(self.tile_buf.len() as u32, x, y);
        self.tile_index_buf.push(entry);
        self.tile_buf.push(tile);
        self.sorted = false;
        self.locs = Ghost(self.locs@.push((x, y)));
        assert forall|k: int| 0 <= k < self.index().len() implies (#[trigger] self.index()[k]).idx() < self.tiles().len() by {
            if k < old(self).index().len() {
                assert(self.index()[k] == old(self).index()[k]);
            }
        }
        assert forall|k: int| 0 <= k < self.index().len() implies (#[trigger] self.index()[k]).col() == index_col(
            self.locs()[self.index()[k].idx() as int].0,
        ) && self.index()[k].row() == self.locs()[self.index()[k].idx() as int].1 by {
            if k < old(self).index().len() {
                assert(self.index()[k] == old(self).index()[k]);
            }
        }
        assert forall|a: int, b: int|
            0 <= a < self.index().len() && 0 <= b < self.index().len() && a != b implies (#[trigger] self.index()[a]).idx()
            != (#[trigger] self.index()[b]).idx() by {
            let n = old(self).index().len() as int;
            if a < n {
                assert(self.index()[a] == old(self).index()[a]);
            }
            if b < n {
                assert(self.index()[b] == old(self).index()[b]);
            }
        }
    }

    /// Sort the index by location: rows first, then columns.
    pub fn sort_tiles(&mut self)
        requires
            old(self).wf(),
        ensures
            final(self).wf(),
            final(self).is_sorted(),
            final(self).tiles() == old(self).tiles(),
            final(self).locs() == old(self).locs(),
            final(self).index().to_multiset() == old(self).index().to_multiset(),
    {
        self.sorted = true;
        slice_sort_indices_by_location(self.tile_index_buf.as_mut_slice());
        proof {
            broadcast use vstd::seq_lib::group_to_multiset_ensures;
            let old_index = old(self).index();
            lemma_distinct_indices_permuted(old_index, self.index());
            assert(self.index().len() == self.index().to_multiset().len());
            assert(old_index.len() == old_index.to_multiset().len());
            assert forall|k: int| 0 <= k < self.index().len() implies (#[trigger] self.index()[k]).idx() < self.tiles().len() by {
                let e = self.index()[k];
                assert(self.index().contains(e));
                assert(self.index().to_multiset().count(e) > 0);
                assert(old_index.contains(e));
                let j = choose|j: int| 0 <= j < old_index.len() && old_index[j] == e;
                assert(old_index[j].idx() < self.tiles().len());
            }
            assert forall|k: int| 0 <= k < self.index().len() implies (#[trigger] self.index()[k]).col() == index_col(
                self.locs()[self.index()[k].idx() as int].0,
            ) && self.index()[k].row() == self.locs()[self.index()[k].idx() as int].1 by {
                let e = self.index()[k];
                assert(self.index().contains(e));
                assert(self.index().to_multiset().count(e) > 0);
                assert(old_index.contains(e));
                let j = choose|j: int| 0 <= j < old_index.len() && old_index[j] == e;
                assert(old_index[j] == e);
            }
        }
    }

    /// The tile at position `index` of the sorted index.
    pub fn get_tile(&self, index: u32) -> (r: &T)
        requires
            self.wf(),
            self.is_sorted(),
            index < self.index().len(),
        ensures
            *r == self.tiles()[self.index()[index as int].idx() as int],
            *r == self.sorted_tiles()[index as int],
    {
        let i = self.tile_index_buf[index as usize].index();
        &self.tile_buf[i]
    }
}

/// Once sorted, the index reads the tiles in order of the locations they were added
/// at: rows first, then columns (all negative columns alike). So, for columns below
/// 0xffff, a tile that comes later in a row lies at a column no smaller, unless both
/// lie left of the viewport.
pub proof fn lemma_sorted_index_in_location_order<T>(tiler: Tiler<T>, i: int, j: int)
    requires
        tiler.wf(),
        tiler.is_sorted(),
        0 <= i <= j < tiler.index().len(),
    ensures
        ({
            let a = tiler.indexed_loc(i);
            let b = tiler.indexed_loc(j);
            a.1 < b.1 || (a.1 == b.1 && index_col(a.0) <= index_col(b.0))
        }),
        ({
            let a = tiler.indexed_loc(i);
            let b = tiler.indexed_loc(j);
            a.1 == b.1 && a.0 < 0xffff && b.0 < 0xffff ==> a.0 <= b.0 || (a.0 < 0 && b.0 < 0)
        }),
{
    let index = tiler.index();
    assert(loc_key(index[i].col(), index[i].row()) <= loc_key(index[j].col(), index[j].row()));
    assert(index[i].col() == index_col(tiler.indexed_loc(i).0));
    assert(index[j].col() == index_col(tiler.indexed_loc(j).0));
}

/// A sequence of `n` distinct positions, each below `n`, holds every position below `n`.
proof fn lemma_distinct_positions_reach(q: Seq<int>, j: int)
    requires
        forall|k: int| 0 <= k < q.len() ==> 0 <= #[trigger] q[k] < q.len(),
        forall|a: int, b: int| 0 <= a < q.len() && 0 <= b < q.len() && a != b ==> q[a] != q[b],
        0 <= j < q.len(),
    ensures
        exists|k: int| 0 <= k < q.len() && q[k] == j,
{
    let n = q.len() as int;
    assert(q.no_duplicates());
    q.unique_seq_to_set();
    vstd::set_lib::lemma_int_range(0, n);
    let range = vstd::set_lib::set_int_range(0, n);
    assert(q.to_set().subset_of(range)) by {
        assert forall|v: int| q.to_set().contains(v) implies range.contains(v) by {
            assert(q.contains(v));
        }
    }
    vstd::set_lib::lemma_len_subset(q.to_set(), range);
    vstd::set_lib::lemma_subset_equality(q.to_set(), range);
    assert(range.contains(j));
    assert(q.to_set().contains(j));
    assert(q.contains(j));
}

/// The positions of the tiles that the index entries point at, in index order.
spec fn index_positions(index: Seq<TileIndex>) -> Seq<int> {
    Seq::new(index.len(), |k: int| index[k].idx() as int)
}

proof fn lemma_index_positions<T>(tiler: Tiler<T>)
    requires
        tiler.wf(),
    ensures
        ({
            let q = index_positions(tiler.index());
            &&& q.len() == tiler.tiles().len()
            &&& forall|k: int| 0 <= k < q.len() ==> 0 <= #[trigger] q[k] < q.len()
            &&& forall|a: int, b: int| 0 <= a < q.len() && 0 <= b < q.len() && a != b ==> q[a] != q[b]
        }),
{
    let index = tiler.index();
    let q = index_positions(index);
    assert forall|a: int, b: int| 0 <= a < q.len() && 0 <= b < q.len() && a != b implies q[a] != q[b] by {
        assert(index[a].idx() != index[b].idx());
    }
    assert forall|k: int| 0 <= k < q.len() implies 0 <= #[trigger] q[k] < q.len() by {
        assert(index[k].idx() < tiler.tiles().len());
    }
}

/// The index reaches every tile: some entry points at tile `j`. With `wf`'s distinct
/// entries, reading the tiles through the index positions 0..len reads each tile
/// exactly once.
pub proof fn lemma_index_reaches_every_tile<T>(tiler: Tiler<T>, j: int)
    requires
        tiler.wf(),
        0 <= j < tiler.tiles().len(),
    ensures
        exists|k: int| 0 <= k < tiler.index().len() && (#[trigger] tiler.index()[k]).idx() == j,
{
    let q = index_positions(tiler.index());
    lemma_index_positions(tiler);
    lemma_distinct_positions_reach(q, j);
    let k = choose|k: int| 0 <= k < q.len() && q[k] == j;
    assert(tiler.index()[k].idx() == j);
}

/// Reading `t` at `n` distinct positions below `n` (`n` the length of `t`) gives the
/// same elements as `t`, each as often.
proof fn lemma_gather_same_multiset<A>(t: Seq<A>, q: Seq<int>)
    requires
        q.len() == t.len(),
        forall|k: int| 0 <= k < q.len() ==> 0 <= #[trigger] q[k] < q.len(),
        forall|a: int, b: int| 0 <= a < q.len() && 0 <= b < q.len() && a != b ==> q[a] != q[b],
    ensures
        Seq::new(q.len(), |k: int| t[q[k]]).to_multiset() == t.to_multiset(),
    decreases t.len(),
{
    broadcast use vstd::seq_lib::group_to_multiset_ensures;
    let g = Seq::new(q.len(), |k: int| t[q[k]]);
    if t.len() == 0 {
        assert(g =~= t);
    } else {
        let m = t.len() - 1;
        lemma_distinct_positions_reach(q, m);
        let i = choose|i: int| 0 <= i < q.len() && q[i] == m;
        let q2 = q.remove(i);
        let t2 = t.drop_last();
        assert forall|k: int| 0 <= k < q2.len() implies 0 <= #[trigger] q2[k] < q2.len() by {
            if k < i {
                assert(q2[k] == q[k] && q[k] != q[i]);
            } else {
                assert(q2[k] == q[k + 1] && q[k + 1] != q[i]);
            }
        }
        assert forall|a: int, b: int| 0 <= a < q2.len() && 0 <= b < q2.len() && a != b implies q2[a] != q2[b] by {
            let a1 = if a < i { a } else { a + 1 };
            let b1 = if b < i { b } else { b + 1 };
            assert(q2[a] == q[a1] && q2[b] == q[b1]);
        }
        lemma_gather_same_multiset(t2, q2);
        let g2 = Seq::new(q2.len(), |k: int| t2[q2[k]]);
        assert(g.remove(i) =~= g2);
        assert(g.remove(i).insert(i, g[i]) =~= g);
        assert(t2.push(t[m]) =~= t);
        assert(g[i] == t[m]);
    }
}

impl<T> Tiler<T> {
    /// The tiles in the order that `get_tile` reads them: through the index.
    pub open spec fn sorted_tiles(self) -> Seq<T> {
        Seq::new(self.index().len(), |k: int| self.tiles()[self.index()[k].idx() as int])
    }

    /// The locations of those tiles, in the same order.
    pub open spec fn sorted_locs(self) -> Seq<(i32, u16)> {
        Seq::new(self.index().len(), |k: int| self.indexed_loc(k))
    }
}

/// Once sorted, reading positions 0..len through `get_tile` gives every tile that was
/// added, each as often as it was added, and their locations in order: rows first, then
/// columns (all negative columns alike); for columns below 0xffff, a later tile in a row
/// lies at a column no smaller, unless both lie left of the viewport.
pub proof fn lemma_sorted_tiles_are_the_tiles_in_location_order<T>(tiler: Tiler<T>)
    requires
        tiler.wf(),
        tiler.is_sorted(),
    ensures
        tiler.sorted_tiles().len() == tiler.tiles().len(),
        tiler.sorted_tiles().to_multiset() == tiler.tiles().to_multiset(),
        tiler.sorted_locs().to_multiset() == tiler.locs().to_multiset(),
        forall|i: int, j: int|
            0 <= i <= j < tiler.sorted_locs().len() ==> {
                let a = #[trigger] tiler.sorted_locs()[i];
                let b = #[trigger] tiler.sorted_locs()[j];
                &&& a.1 < b.1 || (a.1 == b.1 && index_col(a.0) <= index_col(b.0))
                &&& a.1 == b.1 && a.0 < 0xffff && b.0 < 0xffff ==> a.0 <= b.0 || (a.0 < 0 && b.0 < 0)
            },
{
    let q = index_positions(tiler.index());
    lemma_index_positions(tiler);
    lemma_gather_same_multiset(tiler.tiles(), q);
    lemma_gather_same_multiset(tiler.locs(), q);
    assert(Seq::new(q.len(), |k: int| tiler.tiles()[q[k]]) =~= tiler.sorted_tiles());
    assert(Seq::new(q.len(), |k: int| tiler.locs()[q[k]]) =~= tiler.sorted_locs());
    assert forall|i: int, j: int| 0 <= i <= j < tiler.sorted_locs().len() implies {
        let a = #[trigger] tiler.sorted_locs()[i];
        let b = #[trigger] tiler.sorted_locs()[j];
        &&& a.1 < b.1 || (a.1 == b.1 && index_col(a.0) <= index_col(b.0))
        &&& a.1 == b.1 && a.0 < 0xffff && b.0 < 0xffff ==> a.0 <= b.0 || (a.0 < 0 && b.0 < 0)
    } by {
        lemma_sorted_index_in_location_order(tiler, i, j);
    }
}

} // verus!
