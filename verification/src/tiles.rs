//! A uniform grid over two coordinate axes that buckets points and
//! triangles.

use vstd::prelude::*;
use std::collections::HashMap;
use vstd::std_specs::hash::group_hash_axioms;
use vstd::arithmetic::div_mod::lemma_fundamental_div_mod;
use vstd::arithmetic::div_mod::lemma_fundamental_div_mod_converse;
use vstd::arithmetic::div_mod::lemma_mod_pos_bound;
use crate::triangle::Triplet;
use crate::triangle::lemma_filter_keeps_valid;
use crate::triangle::triangles_valid;
use crate::vector::Vector3;
use crate::vector::fits;
use crate::vector::max3;
use crate::vector::min3;

verus! {

broadcast use group_hash_axioms;

/// The key of a grid cell.
pub type TileKey = (isize, isize);

/// The quotient rounded toward negative infinity.
pub open spec fn floor_div(n: int, d: int) -> int
    recommends
        d != 0,
{
    if d > 0 {
        n / d
    } else {
        (-n) / (-d)
    }
}

/// The nearest value that an `isize` can hold.
pub open spec fn saturate(v: int) -> int {
    if v < isize::MIN {
        isize::MIN as int
    } else if v > isize::MAX {
        isize::MAX as int
    } else {
        v
    }
}

/// The index of the cell of width `step` that holds `value`, counted from
/// `origin`: the floor of `(value - origin) / step`, saturated. With a zero
/// step the quotient is infinite, and the index is the end of the range on
/// the side of the offset (zero for a zero offset).
pub open spec fn tile_index_of(value: int, origin: int, step: int) -> int {
    let d = value - origin;
    if step == 0 {
        if d > 0 {
            isize::MAX as int
        } else if d < 0 {
            isize::MIN as int
        } else {
            0
        }
    } else {
        saturate(floor_div(d, step))
    }
}

/// Floor division of a negative number by a positive one, through the
/// magnitudes.
proof fn lemma_floor_of_negative(n: int, d: int)
    requires
        n > 0,
        d > 0,
    ensures
        (-n) / d == -((n - 1) / d) - 1,
{
    let q = (n - 1) / d;
    let r = (n - 1) % d;
    lemma_fundamental_div_mod(n - 1, d);
    lemma_mod_pos_bound(n - 1, d);
    assert((-q - 1) * d + (d - 1 - r) == -n) by (nonlinear_arith)
        requires
            n - 1 == d * q + r,
    ;
    lemma_fundamental_div_mod_converse(-n, d, -q - 1, d - 1 - r);
}

/// With a positive step, and where nothing saturates, the tile index is the
/// number of whole steps from the origin to the value: the value lies in
/// the cell from `index * step` on, and before `(index + 1) * step`.
pub proof fn lemma_tile_index_is_floor(value: int, origin: int, step: int)
    requires
        step > 0,
        isize::MIN <= floor_div(value - origin, step) <= isize::MAX,
    ensures
        tile_index_of(value, origin, step) * step <= value - origin < (tile_index_of(
            value,
            origin,
            step,
        ) + 1) * step,
{
    let d = value - origin;
    lemma_fundamental_div_mod(d, step);
    vstd::arithmetic::div_mod::lemma_mod_bound(d, step);
    let q = d / step;
    assert(q * step == step * q) by (nonlinear_arith);
    assert((q + 1) * step == step * q + step) by (nonlinear_arith);
}

/// With a step that is not negative, the tile index does not fall as the
/// value grows.
pub proof fn lemma_tile_index_monotonic(a: int, b: int, origin: int, step: int)
    requires
        a <= b,
        step >= 0,
    ensures
        tile_index_of(a, origin, step) <= tile_index_of(b, origin, step),
{
    if step > 0 {
        vstd::arithmetic::div_mod::lemma_div_is_ordered(a - origin, b - origin, step);
    }
}

/// The size of a number without its sign.
fn magnitude(v: i128) -> (m: u128)
    ensures
        v >= 0 ==> m == v,
        v < 0 ==> m == -v,
{
    if v >= 0 {
        v as u128
    } else {
        ((-(v + 1)) as u128) + 1
    }
}

/// The index of the cell of width `step` that holds `value`, counted from
/// `origin_value`.
pub fn tile_index(value: i128, origin_value: i128, step: i128) -> (r: isize)
    requires
        fits(value - origin_value),
    ensures
        r == tile_index_of(value as int, origin_value as int, step as int),
{
    let d: i128 = value - origin_value;
    if step == 0 {
        if d > 0 {
            isize::MAX
        } else if d < 0 {
            isize::MIN
        } else {
            0
        }
    } else {
        let d_mag: u128 = magnitude(d);
        let s_mag: u128 = magnitude(step);
        if d_mag == 0 || (d < 0) == (step < 0) {
            let q: u128 = d_mag / s_mag;
            assert(q == floor_div(d as int, step as int));
            if q > isize::MAX as u128 {
                isize::MAX
            } else {
                q as isize
            }
        } else {
            let q: u128 = (d_mag - 1) / s_mag + 1;
            proof {
                lemma_floor_of_negative(d_mag as int, s_mag as int);
                assert(-q == floor_div(d as int, step as int));
            }
            if q > isize::MAX as u128 {
                isize::MIN
            } else {
                -(q as isize)
            }
        }
    }
}

/// The code of a cell key in the index of a tile map: both indices shifted
/// to be non-negative, the first in the high half.
pub open spec fn tile_code_of(key: TileKey) -> int {
    (key.0 + 0x8000_0000_0000_0000) * 0x1_0000_0000_0000_0000 + (key.1 + 0x8000_0000_0000_0000)
}

/// Keys with the same code are the same key.
proof fn lemma_tile_code_injective(a: TileKey, b: TileKey)
    ensures
        tile_code_of(a) == tile_code_of(b) <==> a == b,
        0 <= tile_code_of(a) <= u128::MAX,
{
}

/// Computes the code of a cell key.
fn tile_code(key: TileKey) -> (r: u128)
    ensures
        r == tile_code_of(key),
{
    let high: u128 = (key.0 as i128 + 0x8000_0000_0000_0000) as u128;
    let low: u128 = (key.1 as i128 + 0x8000_0000_0000_0000) as u128;
    high * 0x1_0000_0000_0000_0000 + low
}

/// A map from grid cells to the items bucketed into them. A cell that was
/// never filled is empty.
pub struct TileMap<T> {
    keys: Vec<TileKey>,
    cells: Vec<Vec<T>>,
    places: HashMap<u128, usize>,
}

impl<T> TileMap<T> {
    /// Each key stands once, with its cell beside it, and the index leads
    /// to it.
    pub closed spec fn wf(&self) -> bool {
        &&& self.keys@.len() == self.cells@.len()
        &&& self.keys@.no_duplicates()
        &&& forall|key: TileKey|
            self.places@.contains_key(#[trigger] tile_code_of(key) as u128)
                <==> self.keys@.contains(key)
        &&& forall|i: int|
            0 <= i < self.keys@.len() ==> self.places@[tile_code_of(
                #[trigger] self.keys@[i],
            ) as u128] == i
    }

    /// The keys of the filled cells, in the order in which they were first
    /// filled.
    pub closed spec fn tiles(&self) -> Seq<TileKey> {
        self.keys@
    }

    /// Whether anything was bucketed into the cell.
    pub open spec fn has_tile(&self, key: TileKey) -> bool {
        self.tiles().contains(key)
    }

    /// The items of a cell, in the order in which they were added.
    pub closed spec fn cell(&self, key: TileKey) -> Seq<T> {
        if self.keys@.contains(key) {
            self.cells@[self.keys@.index_of(key)]@
        } else {
            Seq::empty()
        }
    }

    /// A cell that was never filled is empty.
    pub proof fn lemma_unfilled_cell_is_empty(&self, key: TileKey)
        requires
            !self.has_tile(key),
        ensures
            self.cell(key) == Seq::<T>::empty(),
    {
    }

    /// A map without filled cells.
    pub fn new() -> (r: Self)
        ensures
            r.wf(),
            r.tiles().len() == 0,
            forall|key: TileKey| (#[trigger] r.cell(key)).len() == 0,
    {
        TileMap { keys: Vec::new(), cells: Vec::new(), places: HashMap::new() }
    }

    /// The number of filled cells.
    pub fn len(&self) -> (r: usize)
        ensures
            r == self.tiles().len(),
    {
        self.keys.len()
    }

    /// The key of the `i`-th filled cell.
    pub fn key_at(&self, i: usize) -> (r: TileKey)
        requires
            i < self.tiles().len(),
        ensures
            r == self.tiles()[i as int],
    {
        self.keys[i]
    }

    /// The items of the `i`-th filled cell.
    pub fn cell_at(&self, i: usize) -> (r: &Vec<T>)
        requires
            self.wf(),
            i < self.tiles().len(),
        ensures
            r@ == self.cell(self.tiles()[i as int]),
    {
        &self.cells[i]
    }

    /// The place of a key among the filled cells.
    pub fn find(&self, key: TileKey) -> (r: Option<usize>)
        requires
            self.wf(),
        ensures
            match r {
                Some(i) => i < self.tiles().len() && self.tiles()[i as int] == key,
                None => !self.has_tile(key),
            },
    {
        let code: u128 = tile_code(key);
        match self.places.get(&code) {
            Some(place) => {
                proof {
                    let i = self.keys@.index_of(key);
                    assert(self.keys@[i] == key);
                }
                Some(*place)
            },
            None => None,
        }
    }

    /// The items of a cell; `None` for a cell that was never filled.
    pub fn get(&self, key: TileKey) -> (r: Option<&Vec<T>>)
        requires
            self.wf(),
        ensures
            match r {
                Some(items) => self.has_tile(key) && items@ == self.cell(key),
                None => !self.has_tile(key) && self.cell(key).len() == 0,
            },
    {
        match self.find(key) {
            Some(i) => Some(self.cell_at(i)),
            None => None,
        }
    }

    /// Adds an item at the end of a cell.
    pub fn insert(&mut self, key: TileKey, item: T)
        requires
            old(self).wf(),
        ensures
            final(self).wf(),
            final(self).cell(key) == old(self).cell(key).push(item),
            forall|other: TileKey|
                other != key ==> final(self).cell(other) == old(self).cell(other),
            forall|other: TileKey|
                final(self).has_tile(other) <==> (other == key || old(self).has_tile(other)),
            final(self).tiles() == if old(self).has_tile(key) {
                old(self).tiles()
            } else {
                old(self).tiles().push(key)
            },
    {
        match self.find(key) {
            Some(i) => {
                self.cells[i].push(item);
            },
            None => {
                let mut items: Vec<T> = Vec::new();
                items.push(item);
                self.places.insert(tile_code(key), self.keys.len());
                self.keys.push(key);
                self.cells.push(items);
                proof {
                    let n = old(self).keys@.len() as int;
                    assert(self.keys@[n] == key);
                    assert forall|other: TileKey|
                        self.places@.contains_key(
                            #[trigger] tile_code_of(other) as u128,
                        ) <==> self.keys@.contains(other) by {
                        lemma_tile_code_injective(other, key);
                        if old(self).keys@.contains(other) {
                            let j = old(self).keys@.index_of(other);
                            assert(self.keys@[j] == other);
                        }
                        if self.keys@.contains(other) && other != key {
                            let j = self.keys@.index_of(other);
                            assert(old(self).keys@[j] == other);
                        }
                    }
                    assert forall|i: int|
                        0 <= i < self.keys@.len() implies self.places@[tile_code_of(
                        #[trigger] self.keys@[i],
                    ) as u128] == i by {
                        lemma_tile_code_injective(self.keys@[i], key);
                        if i < n {
                            assert(old(self).keys@[i] == self.keys@[i]);
                        }
                    }
                    assert(self.cell(key) =~= old(self).cell(key).push(item));
                    assert forall|other: TileKey| other != key implies self.cell(other) == old(
                        self,
                    ).cell(other) by {
                        if old(self).keys@.contains(other) {
                            let j = old(self).keys@.index_of(other);
                            assert(self.keys@[j] == other);
                        }
                    }
                    assert forall|other: TileKey| self.has_tile(other) <==> (other == key || old(
                        self,
                    ).has_tile(other)) by {
                        if old(self).keys@.contains(other) {
                            let j = old(self).keys@.index_of(other);
                            assert(self.keys@[j] == other);
                        }
                    }
                }
            },
        }
    }
}

/// The smallest of three.
fn smallest(a: i128, b: i128, c: i128) -> (r: i128)
    ensures
        r == min3(a as int, b as int, c as int),
{
    if a <= b && a <= c {
        a
    } else if b <= c {
        b
    } else {
        c
    }
}

/// The largest of three.
fn largest(a: i128, b: i128, c: i128) -> (r: i128)
    ensures
        r == max3(a as int, b as int, c as int),
{
    if a >= b && a >= c {
        a
    } else if b >= c {
        b
    } else {
        c
    }
}

/// Every point index bucketed in the map is an index of a list of `n`
/// points.
pub open spec fn point_tiles_valid(point_tiles: TileMap<usize>, n: int) -> bool {
    forall|key: TileKey, i: int|
        0 <= i < point_tiles.cell(key).len() ==> #[trigger] point_tiles.cell(key)[i] < n
}

/// Every triangle bucketed in the map refers to a list of `n` points.
pub open spec fn triangle_tiles_valid(triangle_tiles: TileMap<Triplet>, n: int) -> bool {
    forall|key: TileKey| triangles_valid(#[trigger] triangle_tiles.cell(key), n)
}

/// The cell of the grid over (y, z) that holds a point: rays along x that
/// pass the point stay in this cell.
pub open spec fn tile_along_x(p: Vector3, step: Vector3) -> (int, int) {
    (tile_index_of(p.y as int, 0, step.y as int), tile_index_of(p.z as int, 0, step.z as int))
}

/// The cell of the grid over (x, z) that holds a point: rays along y that
/// pass the point stay in this cell.
pub open spec fn tile_along_y(p: Vector3, step: Vector3) -> (int, int) {
    (tile_index_of(p.x as int, 0, step.x as int), tile_index_of(p.z as int, 0, step.z as int))
}

/// Whether a key names a cell.
pub open spec fn is_tile(key: TileKey, cell: (int, int)) -> bool {
    key.0 == cell.0 && key.1 == cell.1
}

/// The point indices `0, 1, .., n - 1`.
pub open spec fn point_ids(n: nat) -> Seq<usize> {
    Seq::new(n, |i: int| i as usize)
}

/// The test "the point with this index lies in the cell `key` of the grid
/// over (y, z)".
pub open spec fn in_tile_along_x(points: Seq<Vector3>, step: Vector3, key: TileKey) -> spec_fn(
    usize,
) -> bool {
    |p: usize| is_tile(key, tile_along_x(points[p as int], step))
}

/// The test "the point with this index lies in the cell `key` of the grid
/// over (x, z)".
pub open spec fn in_tile_along_y(points: Seq<Vector3>, step: Vector3, key: TileKey) -> spec_fn(
    usize,
) -> bool {
    |p: usize| is_tile(key, tile_along_y(points[p as int], step))
}

/// Buckets every point into its cell of the grid over (y, z) and into its
/// cell of the grid over (x, z). A cell lists its points by ascending index.
pub fn distribute_points_to_tiles(coordinates: &[Vector3], step: Vector3) -> (r: (
    TileMap<usize>,
    TileMap<usize>,
))
    ensures
        r.0.wf(),
        r.1.wf(),
        forall|key: TileKey| #[trigger]
            r.0.cell(key) == point_ids(coordinates@.len()).filter(
                in_tile_along_x(coordinates@, step, key),
            ),
        forall|key: TileKey| #[trigger]
            r.1.cell(key) == point_ids(coordinates@.len()).filter(
                in_tile_along_y(coordinates@, step, key),
            ),
        forall|key: TileKey| #[trigger] r.0.has_tile(key) <==> r.0.cell(key).len() > 0,
        forall|key: TileKey| #[trigger] r.1.has_tile(key) <==> r.1.cell(key).len() > 0,
        point_tiles_valid(r.0, coordinates@.len() as int),
        point_tiles_valid(r.1, coordinates@.len() as int),
{
    let mut map_along_x: TileMap<usize> = TileMap::new();
    let mut map_along_y: TileMap<usize> = TileMap::new();
    let mut i: usize = 0;
    proof {
        assert(point_ids(0) =~= Seq::<usize>::empty());
        assert forall|key: TileKey| #[trigger]
            map_along_x.cell(key) == point_ids(0).filter(
                in_tile_along_x(coordinates@, step, key),
            ) by {
            crate::seqs::lemma_filter_empty(in_tile_along_x(coordinates@, step, key));
            assert(map_along_x.cell(key) =~= Seq::<usize>::empty());
        }
        assert forall|key: TileKey| #[trigger]
            map_along_y.cell(key) == point_ids(0).filter(
                in_tile_along_y(coordinates@, step, key),
            ) by {
            crate::seqs::lemma_filter_empty(in_tile_along_y(coordinates@, step, key));
            assert(map_along_y.cell(key) =~= Seq::<usize>::empty());
        }
    }
    while i < coordinates.len()
        invariant
            i <= coordinates.len(),
            map_along_x.wf(),
            map_along_y.wf(),
            forall|key: TileKey| #[trigger]
                map_along_x.cell(key) == point_ids(i as nat).filter(
                    in_tile_along_x(coordinates@, step, key),
                ),
            forall|key: TileKey| #[trigger]
                map_along_y.cell(key) == point_ids(i as nat).filter(
                    in_tile_along_y(coordinates@, step, key),
                ),
            forall|key: TileKey| #[trigger]
                map_along_x.has_tile(key) <==> map_along_x.cell(key).len() > 0,
            forall|key: TileKey| #[trigger]
                map_along_y.has_tile(key) <==> map_along_y.cell(key).len() > 0,
        decreases coordinates.len() - i,
    {
        let point: Vector3 = coordinates[i];
        let ix: isize = tile_index(point.x, 0, step.x);
        let iy: isize = tile_index(point.y, 0, step.y);
        let iz: isize = tile_index(point.z, 0, step.z);
        let ghost before_x = map_along_x;
        let ghost before_y = map_along_y;
        map_along_x.insert((iy, iz), i);
        map_along_y.insert((ix, iz), i);
        proof {
            assert(point_ids((i + 1) as nat) =~= point_ids(i as nat).push(i));
            assert forall|key: TileKey| #[trigger]
                map_along_x.cell(key) == point_ids((i + 1) as nat).filter(
                    in_tile_along_x(coordinates@, step, key),
                ) by {
                crate::seqs::lemma_filter_push(
                    point_ids(i as nat),
                    i,
                    in_tile_along_x(coordinates@, step, key),
                );
                assert(before_x.cell(key) == point_ids(i as nat).filter(
                    in_tile_along_x(coordinates@, step, key),
                ));
            }
            assert forall|key: TileKey| #[trigger]
                map_along_y.cell(key) == point_ids((i + 1) as nat).filter(
                    in_tile_along_y(coordinates@, step, key),
                ) by {
                crate::seqs::lemma_filter_push(
                    point_ids(i as nat),
                    i,
                    in_tile_along_y(coordinates@, step, key),
                );
                assert(before_y.cell(key) == point_ids(i as nat).filter(
                    in_tile_along_y(coordinates@, step, key),
                ));
            }
            assert forall|key: TileKey| #[trigger]
                map_along_x.has_tile(key) <==> map_along_x.cell(key).len() > 0 by {
                assert(before_x.has_tile(key) <==> before_x.cell(key).len() > 0);
            }
            assert forall|key: TileKey| #[trigger]
                map_along_y.has_tile(key) <==> map_along_y.cell(key).len() > 0 by {
                assert(before_y.has_tile(key) <==> before_y.cell(key).len() > 0);
            }
        }
        i += 1;
    }
    proof {
        let ids = point_ids(coordinates@.len());
        assert forall|key: TileKey, i: int| 0 <= i < map_along_x.cell(key).len() implies (
        #[trigger] map_along_x.cell(key)[i]) < coordinates@.len() by {
            let cell = map_along_x.cell(key);
            assert(cell.contains(cell[i]));
            ids.lemma_filter_contains_rev(in_tile_along_x(coordinates@, step, key), cell[i]);
            let w = choose|w: int| 0 <= w < ids.len() && ids[w] == cell[i];
        }
        assert forall|key: TileKey, i: int| 0 <= i < map_along_y.cell(key).len() implies (
        #[trigger] map_along_y.cell(key)[i]) < coordinates@.len() by {
            let cell = map_along_y.cell(key);
            assert(cell.contains(cell[i]));
            ids.lemma_filter_contains_rev(in_tile_along_y(coordinates@, step, key), cell[i]);
            let w = choose|w: int| 0 <= w < ids.len() && ids[w] == cell[i];
        }
    }
    (map_along_x, map_along_y)
}

/// Whether a cell lies in the block of cells between two corners, both
/// included.
pub open spec fn in_block(key: TileKey, low: TileKey, high: TileKey) -> bool {
    low.0 <= key.0 <= high.0 && low.1 <= key.1 <= high.1
}

impl<T: Copy> TileMap<T> {
    /// Adds an item to every cell of a block of cells.
    pub fn insert_block(&mut self, low: TileKey, high: TileKey, item: T)
        requires
            old(self).wf(),
        ensures
            final(self).wf(),
            forall|key: TileKey| #[trigger]
                final(self).cell(key) == if in_block(key, low, high) {
                    old(self).cell(key).push(item)
                } else {
                    old(self).cell(key)
                },
            forall|key: TileKey| #[trigger]
                final(self).has_tile(key) <==> (in_block(key, low, high) || old(self).has_tile(
                    key,
                )),
    {
        let mut i0: i128 = low.0 as i128;
        while i0 <= high.0 as i128
            invariant
                low.0 <= i0,
                i0 <= high.0 + 1 || high.0 < low.0,
                self.wf(),
                forall|key: TileKey| #[trigger]
                    self.cell(key) == if in_block(key, low, high) && key.0 < i0 {
                        old(self).cell(key).push(item)
                    } else {
                        old(self).cell(key)
                    },
                forall|key: TileKey| #[trigger]
                    self.has_tile(key) <==> ((in_block(key, low, high) && key.0 < i0) || old(
                        self,
                    ).has_tile(key)),
            decreases high.0 + 1 - i0,
        {
            let mut i1: i128 = low.1 as i128;
            while i1 <= high.1 as i128
                invariant
                    low.0 <= i0 <= high.0,
                    low.1 <= i1,
                    i1 <= high.1 + 1 || high.1 < low.1,
                    self.wf(),
                    forall|key: TileKey| #[trigger]
                        self.cell(key) == if in_block(key, low, high) && (key.0 < i0 || (key.0
                            == i0 && key.1 < i1)) {
                            old(self).cell(key).push(item)
                        } else {
                            old(self).cell(key)
                        },
                    forall|key: TileKey| #[trigger]
                        self.has_tile(key) <==> ((in_block(key, low, high) && (key.0 < i0 || (
                        key.0 == i0 && key.1 < i1))) || old(self).has_tile(key)),
                decreases high.1 + 1 - i1,
            {
                let ghost before = *self;
                self.insert((i0 as isize, i1 as isize), item);
                proof {
                    assert forall|key: TileKey| #[trigger]
                        self.cell(key) == if in_block(key, low, high) && (key.0 < i0 || (key.0
                            == i0 && key.1 < i1 + 1)) {
                            old(self).cell(key).push(item)
                        } else {
                            old(self).cell(key)
                        } by {
                        let _ = before.cell(key);
                    }
                    assert forall|key: TileKey| #[trigger]
                        self.has_tile(key) <==> ((in_block(key, low, high) && (key.0 < i0 || (
                        key.0 == i0 && key.1 < i1 + 1))) || old(self).has_tile(key)) by {
                        let _ = before.has_tile(key);
                    }
                }
                i1 += 1;
            }
            i0 += 1;
        }
    }
}

/// The corner with the lowest indices of the block of (y, z) cells that the
/// bounding box of a triangle overlaps.
pub open spec fn block_low_along_x(points: Seq<Vector3>, step: Vector3, t: Triplet) -> (int, int) {
    let (a, b, c) = (points[t.0 as int], points[t.1 as int], points[t.2 as int]);
    (
        tile_index_of(min3(a.y as int, b.y as int, c.y as int), 0, step.y as int),
        tile_index_of(min3(a.z as int, b.z as int, c.z as int), 0, step.z as int),
    )
}

/// The corner with the highest indices of that block.
pub open spec fn block_high_along_x(points: Seq<Vector3>, step: Vector3, t: Triplet) -> (int, int) {
    let (a, b, c) = (points[t.0 as int], points[t.1 as int], points[t.2 as int]);
    (
        tile_index_of(max3(a.y as int, b.y as int, c.y as int), 0, step.y as int),
        tile_index_of(max3(a.z as int, b.z as int, c.z as int), 0, step.z as int),
    )
}

/// The corner with the lowest indices of the block of (x, z) cells that the
/// bounding box of a triangle overlaps.
pub open spec fn block_low_along_y(points: Seq<Vector3>, step: Vector3, t: Triplet) -> (int, int) {
    let (a, b, c) = (points[t.0 as int], points[t.1 as int], points[t.2 as int]);
    (
        tile_index_of(min3(a.x as int, b.x as int, c.x as int), 0, step.x as int),
        tile_index_of(min3(a.z as int, b.z as int, c.z as int), 0, step.z as int),
    )
}

/// The corner with the highest indices of that block.
pub open spec fn block_high_along_y(points: Seq<Vector3>, step: Vector3, t: Triplet) -> (int, int) {
    let (a, b, c) = (points[t.0 as int], points[t.1 as int], points[t.2 as int]);
    (
        tile_index_of(max3(a.x as int, b.x as int, c.x as int), 0, step.x as int),
        tile_index_of(max3(a.z as int, b.z as int, c.z as int), 0, step.z as int),
    )
}

/// Whether a cell lies between two corners, both included.
pub open spec fn between(key: TileKey, low: (int, int), high: (int, int)) -> bool {
    low.0 <= key.0 <= high.0 && low.1 <= key.1 <= high.1
}

/// The test "the bounding box of this triangle overlaps the cell `key` of
/// the grid over (y, z)".
pub open spec fn covers_along_x(points: Seq<Vector3>, step: Vector3, key: TileKey) -> spec_fn(
    Triplet,
) -> bool {
    |t: Triplet|
        between(key, block_low_along_x(points, step, t), block_high_along_x(points, step, t))
}

/// The test "the bounding box of this triangle overlaps the cell `key` of
/// the grid over (x, z)".
pub open spec fn covers_along_y(points: Seq<Vector3>, step: Vector3, key: TileKey) -> spec_fn(
    Triplet,
) -> bool {
    |t: Triplet|
        between(key, block_low_along_y(points, step, t), block_high_along_y(points, step, t))
}

/// Buckets every triangle into each cell that its bounding box overlaps,
/// once for the grid over (y, z) and once for the grid over (x, z). A cell
/// lists its triangles in the order of the input.
pub fn distribute_triangles_to_tiles(
    coordinates: &[Vector3],
    triangles: &Vec<Triplet>,
    step: Vector3,
) -> (r: (TileMap<Triplet>, TileMap<Triplet>))
    requires
        triangles_valid(triangles@, coordinates@.len() as int),
    ensures
        r.0.wf(),
        r.1.wf(),
        forall|key: TileKey| #[trigger]
            r.0.cell(key) == triangles@.filter(covers_along_x(coordinates@, step, key)),
        forall|key: TileKey| #[trigger]
            r.1.cell(key) == triangles@.filter(covers_along_y(coordinates@, step, key)),
        forall|key: TileKey| #[trigger] r.0.has_tile(key) <==> r.0.cell(key).len() > 0,
        forall|key: TileKey| #[trigger] r.1.has_tile(key) <==> r.1.cell(key).len() > 0,
        triangle_tiles_valid(r.0, coordinates@.len() as int),
        triangle_tiles_valid(r.1, coordinates@.len() as int),
{
    let mut map_along_x: TileMap<Triplet> = TileMap::new();
    let mut map_along_y: TileMap<Triplet> = TileMap::new();
    let mut k: usize = 0;
    proof {
        assert(triangles@.take(0) =~= Seq::<Triplet>::empty());
        assert forall|key: TileKey| #[trigger]
            map_along_x.cell(key) == triangles@.take(0).filter(
                covers_along_x(coordinates@, step, key),
            ) by {
            crate::seqs::lemma_filter_empty(covers_along_x(coordinates@, step, key));
            assert(map_along_x.cell(key) =~= Seq::<Triplet>::empty());
        }
        assert forall|key: TileKey| #[trigger]
            map_along_y.cell(key) == triangles@.take(0).filter(
                covers_along_y(coordinates@, step, key),
            ) by {
            crate::seqs::lemma_filter_empty(covers_along_y(coordinates@, step, key));
            assert(map_along_y.cell(key) =~= Seq::<Triplet>::empty());
        }
    }
    while k < triangles.len()
        invariant
            k <= triangles.len(),
            triangles_valid(triangles@, coordinates@.len() as int),
            map_along_x.wf(),
            map_along_y.wf(),
            forall|key: TileKey| #[trigger]
                map_along_x.cell(key) == triangles@.take(k as int).filter(
                    covers_along_x(coordinates@, step, key),
                ),
            forall|key: TileKey| #[trigger]
                map_along_y.cell(key) == triangles@.take(k as int).filter(
                    covers_along_y(coordinates@, step, key),
                ),
            forall|key: TileKey| #[trigger]
                map_along_x.has_tile(key) <==> map_along_x.cell(key).len() > 0,
            forall|key: TileKey| #[trigger]
                map_along_y.has_tile(key) <==> map_along_y.cell(key).len() > 0,
        decreases triangles.len() - k,
    {
        let t: Triplet = triangles[k];
        let a: Vector3 = coordinates[t.0];
        let b: Vector3 = coordinates[t.1];
        let c: Vector3 = coordinates[t.2];

        let ix_min: isize = tile_index(smallest(a.x, b.x, c.x), 0, step.x);
        let ix_max: isize = tile_index(largest(a.x, b.x, c.x), 0, step.x);
        let iy_min: isize = tile_index(smallest(a.y, b.y, c.y), 0, step.y);
        let iy_max: isize = tile_index(largest(a.y, b.y, c.y), 0, step.y);
        let iz_min: isize = tile_index(smallest(a.z, b.z, c.z), 0, step.z);
        let iz_max: isize = tile_index(largest(a.z, b.z, c.z), 0, step.z);

        let ghost before_x = map_along_x;
        let ghost before_y = map_along_y;
        map_along_x.insert_block((iy_min, iz_min), (iy_max, iz_max), t);
        map_along_y.insert_block((ix_min, iz_min), (ix_max, iz_max), t);
        proof {
            crate::seqs::lemma_take_push(triangles@, k as int);
            assert forall|key: TileKey| #[trigger]
                map_along_x.cell(key) == triangles@.take(k + 1).filter(
                    covers_along_x(coordinates@, step, key),
                ) by {
                crate::seqs::lemma_filter_push(
                    triangles@.take(k as int),
                    t,
                    covers_along_x(coordinates@, step, key),
                );
                let _ = before_x.cell(key);
            }
            assert forall|key: TileKey| #[trigger]
                map_along_y.cell(key) == triangles@.take(k + 1).filter(
                    covers_along_y(coordinates@, step, key),
                ) by {
                crate::seqs::lemma_filter_push(
                    triangles@.take(k as int),
                    t,
                    covers_along_y(coordinates@, step, key),
                );
                let _ = before_y.cell(key);
            }
            assert forall|key: TileKey| #[trigger]
                map_along_x.has_tile(key) <==> map_along_x.cell(key).len() > 0 by {
                let _ = before_x.has_tile(key);
                let _ = before_x.cell(key);
            }
            assert forall|key: TileKey| #[trigger]
                map_along_y.has_tile(key) <==> map_along_y.cell(key).len() > 0 by {
                let _ = before_y.has_tile(key);
                let _ = before_y.cell(key);
            }
        }
        k += 1;
    }
    assert(triangles@.take(k as int) =~= triangles@);
    proof {
        assert forall|key: TileKey|
            triangles_valid(#[trigger] map_along_x.cell(key), coordinates@.len() as int) by {
            lemma_filter_keeps_valid(
                triangles@,
                covers_along_x(coordinates@, step, key),
                coordinates@.len() as int,
            );
        }
        assert forall|key: TileKey|
            triangles_valid(#[trigger] map_along_y.cell(key), coordinates@.len() as int) by {
            lemma_filter_keeps_valid(
                triangles@,
                covers_along_y(coordinates@, step, key),
                coordinates@.len() as int,
            );
        }
    }
    (map_along_x, map_along_y)
}

/// A coordinate of a point: axis 0 is x, axis 1 is y, any other is z.
pub open spec fn coordinate(p: Vector3, axis: int) -> int {
    if axis == 0 {
        p.x as int
    } else if axis == 1 {
        p.y as int
    } else {
        p.z as int
    }
}

/// The smallest coordinate of a list of points along an axis; zero for the
/// empty list.
pub open spec fn lowest(points: Seq<Vector3>, axis: int) -> int
    decreases points.len(),
{
    if points.len() == 0 {
        0
    } else if points.len() == 1 {
        coordinate(points[0], axis)
    } else {
        let rest = lowest(points.drop_last(), axis);
        let c = coordinate(points.last(), axis);
        if c < rest {
            c
        } else {
            rest
        }
    }
}

/// The largest coordinate of a list of points along an axis; zero for the
/// empty list.
pub open spec fn highest(points: Seq<Vector3>, axis: int) -> int
    decreases points.len(),
{
    if points.len() == 0 {
        0
    } else if points.len() == 1 {
        coordinate(points[0], axis)
    } else {
        let rest = highest(points.drop_last(), axis);
        let c = coordinate(points.last(), axis);
        if c > rest {
            c
        } else {
            rest
        }
    }
}

/// The width of a list of points along an axis.
pub open spec fn extent(points: Seq<Vector3>, axis: int) -> int {
    highest(points, axis) - lowest(points, axis)
}

/// The width of a cell of a grid of `num_steps` cells over the given
/// extent: the quotient, rounded up to a whole number of units.
pub open spec fn step_size(extent: int, num_steps: int) -> int {
    (extent + num_steps - 1) / num_steps
}

/// The step is zero for a zero extent only, and `num_steps` steps cover
/// the extent.
pub proof fn lemma_step_size(extent: int, num_steps: int)
    requires
        extent >= 0,
        num_steps > 0,
    ensures
        step_size(extent, num_steps) >= 0,
        step_size(extent, num_steps) == 0 <==> extent == 0,
        step_size(extent, num_steps) * num_steps >= extent,
{
    let n = extent + num_steps - 1;
    lemma_fundamental_div_mod(n, num_steps);
    lemma_mod_pos_bound(n, num_steps);
    let q = n / num_steps;
    assert(q * num_steps == num_steps * q) by (nonlinear_arith);
    if q <= 0 {
        assert(num_steps * q <= 0) by (nonlinear_arith)
            requires
                q <= 0,
                num_steps > 0,
        ;
    } else {
        assert(num_steps * q >= num_steps) by (nonlinear_arith)
            requires
                q >= 1,
                num_steps > 0,
        ;
    }
}

/// With the step that goes with an extent, the values of the extent fall
/// into `num_steps + 1` cells at most: the grid stays small however thin
/// the mesh is.
pub proof fn lemma_grid_has_few_cells(low: int, high: int, value: int, num_steps: int)
    requires
        low <= value <= high,
        num_steps > 0,
    ensures
        0 <= tile_index_of(value, 0, step_size(high - low, num_steps)) - tile_index_of(
            low,
            0,
            step_size(high - low, num_steps),
        ) <= num_steps,
{
    let step = step_size(high - low, num_steps);
    lemma_step_size(high - low, num_steps);
    lemma_tile_index_monotonic(low, value, 0, step);
    if step > 0 {
        let (qa, ra) = (value / step, value % step);
        let (qb, rb) = (low / step, low % step);
        lemma_fundamental_div_mod(value, step);
        lemma_fundamental_div_mod(low, step);
        vstd::arithmetic::div_mod::lemma_mod_bound(value, step);
        vstd::arithmetic::div_mod::lemma_mod_bound(low, step);
        assert(qa - qb <= num_steps) by (nonlinear_arith)
            requires
                step > 0,
                value == step * qa + ra,
                low == step * qb + rb,
                0 <= ra < step,
                0 <= rb < step,
                value - low <= step * num_steps,
        ;
    }
}

/// The cell widths that divide the extent of the points into `num_steps`
/// cells along each axis, rounded up to a whole number of units. An axis
/// along which all points agree has a zero step.
pub fn get_step_sizes(num_steps: usize, coordinates: &[Vector3]) -> (r: Vector3)
    requires
        num_steps > 0,
        crate::vector::points_in_range(coordinates@),
    ensures
        r.x == step_size(extent(coordinates@, 0), num_steps as int),
        r.y == step_size(extent(coordinates@, 1), num_steps as int),
        r.z == step_size(extent(coordinates@, 2), num_steps as int),
        r.x >= 0 && r.y >= 0 && r.z >= 0,
{
    if coordinates.len() == 0 {
        proof {
            lemma_step_size(0, num_steps as int);
        }
        return Vector3 { x: 0, y: 0, z: 0 };
    }
    let first: Vector3 = coordinates[0];
    let mut x_min: i128 = first.x;
    let mut x_max: i128 = first.x;
    let mut y_min: i128 = first.y;
    let mut y_max: i128 = first.y;
    let mut z_min: i128 = first.z;
    let mut z_max: i128 = first.z;
    let mut i: usize = 1;
    assert(coordinates@.take(1)[0] == coordinates@[0]);
    while i < coordinates.len()
        invariant
            1 <= i <= coordinates.len(),
            crate::vector::points_in_range(coordinates@),
            x_min == lowest(coordinates@.take(i as int), 0),
            x_max == highest(coordinates@.take(i as int), 0),
            y_min == lowest(coordinates@.take(i as int), 1),
            y_max == highest(coordinates@.take(i as int), 1),
            z_min == lowest(coordinates@.take(i as int), 2),
            z_max == highest(coordinates@.take(i as int), 2),
            -crate::vector::COORDINATE_LIMIT <= x_min <= x_max <= crate::vector::COORDINATE_LIMIT,
            -crate::vector::COORDINATE_LIMIT <= y_min <= y_max <= crate::vector::COORDINATE_LIMIT,
            -crate::vector::COORDINATE_LIMIT <= z_min <= z_max <= crate::vector::COORDINATE_LIMIT,
        decreases coordinates.len() - i,
    {
        let point: Vector3 = coordinates[i];
        proof {
            assert(coordinates@.take(i + 1).drop_last() =~= coordinates@.take(i as int));
            assert(coordinates@.take(i + 1).last() == point);
            assert(point.in_range());
        }
        if point.x < x_min {
            x_min = point.x;
        }
        if point.x > x_max {
            x_max = point.x;
        }
        if point.y < y_min {
            y_min = point.y;
        }
        if point.y > y_max {
            y_max = point.y;
        }
        if point.z < z_min {
            z_min = point.z;
        }
        if point.z > z_max {
            z_max = point.z;
        }
        i += 1;
    }
    assert(coordinates@.take(i as int) =~= coordinates@);
    let n: i128 = num_steps as i128;
    proof {
        lemma_step_size(x_max - x_min, n as int);
        lemma_step_size(y_max - y_min, n as int);
        lemma_step_size(z_max - z_min, n as int);
    }
    Vector3 {
        x: (x_max - x_min + (n - 1)) / n,
        y: (y_max - y_min + (n - 1)) / n,
        z: (z_max - z_min + (n - 1)) / n,
    }
}

} // verus!
