use vstd::prelude::*;
use std::collections::HashMap;

use crate::geometry::{
    Vec2, LIMIT, in_bounds, sq_dist, floor_div, div_floor, sq_distance,
};

verus! {

/// A body's id and its position in the plane, recorded for one tick.
#[derive(Clone, Copy, Debug, PartialEq, Eq, Structural)]
pub struct ColliderDesc {
    pub id: usize,
    pub position: Vec2,
}

/// The colliders that fell into one grid cell, in insertion order.
pub struct Cell {
    x: i64,
    y: i64,
    data: Vec<ColliderDesc>,
}

/// Why a grid could not be built.
#[derive(Clone, Copy, Debug, PartialEq, Eq, Structural)]
pub enum GridError {
    /// The cell size is not in `1..=LIMIT`.
    InvalidCellSize,
    /// The collision radius is negative.
    NegativeRadius,
    /// The collision radius exceeds the cell size, so that a search of the
    /// neighbouring cells could miss a collision.
    RadiusExceedsCellSize,
}

impl Cell {
    /// The integer coordinates of this cell.
    pub closed spec fn key(&self) -> (int, int) {
        (self.x as int, self.y as int)
    }

    /// The colliders of this cell, in insertion order.
    pub closed spec fn colliders(&self) -> Seq<ColliderDesc> {
        self.data@
    }

    pub fn get_colliders(&self) -> (r: &Vec<ColliderDesc>)
        ensures
            r@ == self.colliders(),
    {
        &self.data
    }
}

/// A uniform grid of square cells, each holding the colliders whose
/// position falls inside it.
pub struct Grid {
    cells: Vec<Cell>,
    /// Position in `cells` of the cell of each packed key.
    index: HashMap<i128, usize>,
    radius: i64,
    cell_size: i64,
}

/// The cell that holds `p` in a grid of cells of width `cell_size`.
pub open spec fn cell_key(p: Vec2, cell_size: int) -> (int, int) {
    (floor_div(p.x as int, cell_size), floor_div(p.y as int, cell_size))
}

/// One integer for a pair of cell coordinates, distinct for distinct
/// pairs whose second coordinate is below `2^63` in absolute value.
pub open spec fn pack(key: (int, int)) -> int {
    key.0 * 0x1_0000_0000_0000_0000 + key.1
}

proof fn lemma_pack_injective(a: (int, int), b: (int, int))
    requires
        -0x8000_0000_0000_0000 < a.1 < 0x8000_0000_0000_0000,
        -0x8000_0000_0000_0000 < b.1 < 0x8000_0000_0000_0000,
        pack(a) == pack(b),
    ensures
        a == b,
{
    assert(a.0 == b.0) by (nonlinear_arith)
        requires
            a.0 * 0x1_0000_0000_0000_0000 + a.1 == b.0 * 0x1_0000_0000_0000_0000 + b.1,
            -0x8000_0000_0000_0000 < a.1 < 0x8000_0000_0000_0000,
            -0x8000_0000_0000_0000 < b.1 < 0x8000_0000_0000_0000,
    ;
}

fn pack_key(x: i64, y: i64) -> (r: i128)
    requires
        -LIMIT - 1 <= x <= LIMIT + 1,
    ensures
        r == pack((x as int, y as int)),
{
    assert(-0x1_0000_0000_0000_0000_0000_0000_0000 <= x * 0x1_0000_0000_0000_0000 <= 0x1_0000_0000_0000_0000_0000_0000_0000) by (nonlinear_arith)
        requires -LIMIT - 1 <= x <= LIMIT + 1;
    x as i128 * 0x1_0000_0000_0000_0000 + y as i128
}

/// The `k`-th cell (`0 <= k < 9`) of the 3x3 block centred on `key`, row by row.
pub open spec fn block_key(key: (int, int), k: int) -> (int, int) {
    (key.0 + k / 3 - 1, key.1 + k % 3 - 1)
}

/// `key` lies in the 3x3 block of cells centred on `centre`.
pub open spec fn in_block(centre: (int, int), key: (int, int)) -> bool {
    -1 <= key.0 - centre.0 <= 1 && -1 <= key.1 - centre.1 <= 1
}

/// The position of `key` in the row-by-row order of the block centred on `centre`.
pub open spec fn block_index(centre: (int, int), key: (int, int)) -> int {
    (key.0 - centre.0 + 1) * 3 + (key.1 - centre.1 + 1)
}

proof fn lemma_block_key(centre: (int, int), k: int)
    requires
        0 <= k < 9,
    ensures
        in_block(centre, block_key(centre, k)),
        block_index(centre, block_key(centre, k)) == k,
        forall|key: (int, int)|
            in_block(centre, key) && #[trigger] block_index(centre, key) == k ==> key == block_key(
                centre,
                k,
            ),
{
}

/// Two coordinates closer than the cell size fall in the same or in adjacent cells.
proof fn lemma_adjacent_cells(a: int, b: int, s: int)
    requires
        s > 0,
        -s < a - b < s,
    ensures
        -1 <= floor_div(a, s) - floor_div(b, s) <= 1,
{
    vstd::arithmetic::div_mod::lemma_fundamental_div_mod(a, s);
    vstd::arithmetic::div_mod::lemma_fundamental_div_mod(b, s);
    let qa = a / s;
    let qb = b / s;
    let ra = a % s;
    let rb = b % s;
    assert(-1 <= qa - qb <= 1) by (nonlinear_arith)
        requires
            a == s * qa + ra,
            b == s * qb + rb,
            0 <= ra < s,
            0 <= rb < s,
            -s < a - b < s,
    ;
}

/// A square sum below `r * r` bounds each of its terms.
proof fn lemma_sq_bound(d: int, e: int, r: int)
    requires
        0 <= r,
        d * d + e * e < r * r,
    ensures
        -r < d < r,
        -r < e < r,
{
    assert(0 <= e * e) by (nonlinear_arith);
    assert(0 <= d * d) by (nonlinear_arith);
    if d >= r {
        assert(d * d >= r * r) by (nonlinear_arith) requires d >= r, r >= 0;
    }
    if d <= -r {
        assert(d * d >= r * r) by (nonlinear_arith) requires d <= -r, r >= 0;
    }
    if e >= r {
        assert(e * e >= r * r) by (nonlinear_arith) requires e >= r, r >= 0;
    }
    if e <= -r {
        assert(e * e >= r * r) by (nonlinear_arith) requires e <= -r, r >= 0;
    }
}

impl Grid {
    /// The cells, in the order they were created.
    pub closed spec fn cells_spec(&self) -> Seq<Cell> {
        self.cells@
    }

    pub closed spec fn cell_size_spec(&self) -> int {
        self.cell_size as int
    }

    pub closed spec fn radius_spec(&self) -> int {
        self.radius as int
    }

    /// The cell index agrees with the cell list: it maps the packed key of
    /// each cell, and nothing else, to that cell's position.
    pub closed spec fn index_wf(&self) -> bool {
        &&& forall|i: int| 0 <= i < self.cells@.len() ==> {
            let key = #[trigger] self.cells@[i].key();
            &&& -LIMIT <= key.0 <= LIMIT
            &&& -LIMIT <= key.1 <= LIMIT
            &&& self.index@.contains_key(pack(key) as i128)
            &&& self.index@[pack(key) as i128] == i
        }
        &&& forall|k: i128| #[trigger] self.index@.contains_key(k) ==> self.index@[k] < self.cells@.len()
            && pack(self.cells@[self.index@[k] as int].key()) == k
    }

    /// Well-formed: valid sizes, each collider in the cell that its position
    /// falls in, no two cells with the same coordinates, and an index that
    /// agrees with the cells.
    pub open spec fn wf(&self) -> bool {
        &&& 0 < self.cell_size_spec() <= LIMIT
        &&& 0 <= self.radius_spec() <= self.cell_size_spec()
        &&& forall|i: int, j: int|
            0 <= i < self.cells_spec().len() && 0 <= j < self.cells_spec()[i].colliders().len()
                ==> {
                let c = #[trigger] self.cells_spec()[i].colliders()[j];
                in_bounds(c.position) && cell_key(c.position, self.cell_size_spec())
                    == self.cells_spec()[i].key()
            }
        &&& forall|i: int, j: int|
            0 <= i < self.cells_spec().len() && 0 <= j < self.cells_spec().len() && i != j
                ==> #[trigger] self.cells_spec()[i].key() != #[trigger] self.cells_spec()[j].key()
        &&& forall|i: int| 0 <= i < self.cells_spec().len() ==> (#[trigger] self.cells_spec()[i]).colliders().len() > 0
        &&& self.index_wf()
    }

    /// Some cell of the grid has coordinates `key`.
    pub open spec fn has_cell(&self, key: (int, int)) -> bool {
        exists|i: int| 0 <= i < self.cells_spec().len() && #[trigger] self.cells_spec()[i].key() == key
    }

    /// The bucket of a key is the colliders of the cell with that key.
    proof fn lemma_bucket_of(&self, i: int)
        requires
            0 <= i < self.cells_spec().len(),
            forall|a: int, b: int|
                0 <= a < self.cells_spec().len() && 0 <= b < self.cells_spec().len() && a != b
                    ==> #[trigger] self.cells_spec()[a].key() != #[trigger] self.cells_spec()[b].key(),
        ensures
            self.bucket_at(self.cells_spec()[i].key()) == self.cells_spec()[i].colliders(),
    {
        let key = self.cells_spec()[i].key();
        let j = choose|j: int| 0 <= j < self.cells_spec().len() && #[trigger] self.cells_spec()[j].key() == key;
        assert(j == i);
    }

    /// `c` is held in some cell of the grid.
    pub open spec fn holds(&self, c: ColliderDesc) -> bool {
        exists|i: int, j: int|
            0 <= i < self.cells_spec().len() && 0 <= j < self.cells_spec()[i].colliders().len()
                && #[trigger] self.cells_spec()[i].colliders()[j] == c
    }

    /// `c` lies strictly within the collision radius of `p`, and not at `p` itself.
    pub open spec fn near(&self, c: ColliderDesc, p: Vec2) -> bool {
        sq_dist(c.position, p) < self.radius_spec() * self.radius_spec() && c.position != p
    }

    /// The colliders of the cell with coordinates `key`; empty if there is none.
    pub open spec fn bucket_at(&self, key: (int, int)) -> Seq<ColliderDesc> {
        if exists|i: int| 0 <= i < self.cells_spec().len() && #[trigger] self.cells_spec()[i].key() == key {
            let i = choose|i: int| 0 <= i < self.cells_spec().len() && #[trigger] self.cells_spec()[i].key() == key;
            self.cells_spec()[i].colliders()
        } else {
            Seq::empty()
        }
    }

    /// The colliders of `s` near `p`, in their order in `s`.
    pub open spec fn keep_near(&self, s: Seq<ColliderDesc>, p: Vec2) -> Seq<ColliderDesc>
        decreases s.len(),
    {
        if s.len() == 0 {
            Seq::empty()
        } else {
            let r = self.keep_near(s.drop_last(), p);
            if self.near(s.last(), p) {
                r.push(s.last())
            } else {
                r
            }
        }
    }

    /// The colliders of the first `k` cells of the block around `p`'s
    /// cell, row by row, each cell in insertion order.
    pub open spec fn neighbours_upto(&self, p: Vec2, k: int) -> Seq<ColliderDesc>
        decreases k,
    {
        if k <= 0 {
            Seq::empty()
        } else {
            self.neighbours_upto(p, k - 1) + self.bucket_at(
                block_key(cell_key(p, self.cell_size_spec()), k - 1),
            )
        }
    }

    /// The colliders near `p` in the first `k` cells of the block around
    /// `p`'s cell, row by row, each cell in insertion order.
    pub open spec fn collided_upto(&self, p: Vec2, k: int) -> Seq<ColliderDesc>
        decreases k,
    {
        if k <= 0 {
            Seq::empty()
        } else {
            self.collided_upto(p, k - 1) + self.keep_near(
                self.bucket_at(block_key(cell_key(p, self.cell_size_spec()), k - 1)),
                p,
            )
        }
    }

    pub fn get_cells(&self) -> (r: &Vec<Cell>)
        ensures
            r@ == self.cells_spec(),
    {
        &self.cells
    }

    /// The coordinates of the cell that holds `position`.
    pub fn get_cell(&self, position: Vec2) -> (r: (i64, i64))
        requires
            self.wf(),
        ensures
            (r.0 as int, r.1 as int) == cell_key(position, self.cell_size_spec()),
            in_bounds(position) ==> -LIMIT <= r.0 <= LIMIT && -LIMIT <= r.1 <= LIMIT,
    {
        let x = div_floor(position.x as i128, self.cell_size as i128);
        let y = div_floor(position.y as i128, self.cell_size as i128);
        (x as i64, y as i64)
    }

    /// An empty grid; the radius may not exceed the cell size.
    pub fn new(cell_size: i64, radius: i64) -> (r: Result<Grid, GridError>)
        ensures
            (cell_size <= 0 || cell_size > LIMIT) ==> r == Err::<Grid, GridError>(
                GridError::InvalidCellSize,
            ),
            (0 < cell_size <= LIMIT && radius < 0) ==> r == Err::<Grid, GridError>(
                GridError::NegativeRadius,
            ),
            (0 < cell_size <= LIMIT && radius > cell_size) ==> r == Err::<Grid, GridError>(
                GridError::RadiusExceedsCellSize,
            ),
            (0 < cell_size <= LIMIT && 0 <= radius <= cell_size) ==> (r matches Ok(g) && g.wf()
                && g.cells_spec().len() == 0 && g.cell_size_spec() == cell_size
                && g.radius_spec() == radius),
    {
        if cell_size <= 0 || cell_size > LIMIT {
            Err(GridError::InvalidCellSize)
        } else if radius < 0 {
            Err(GridError::NegativeRadius)
        } else if radius > cell_size {
            Err(GridError::RadiusExceedsCellSize)
        } else {
            Ok(Grid { cells: Vec::new(), index: HashMap::new(), cell_size, radius })
        }
    }

    /// The index of the cell with coordinates `(x, y)`, if there is one.
    fn find_cell(&self, x: i64, y: i64) -> (r: Option<usize>)
        requires
            self.wf(),
            -LIMIT - 1 <= x <= LIMIT + 1,
            -LIMIT - 1 <= y <= LIMIT + 1,
        ensures
            match r {
                Some(i) => i < self.cells_spec().len() && self.cells_spec()[i as int].key() == (
                x as int,
                y as int,
                ),
                None => forall|i: int|
                    0 <= i < self.cells_spec().len() ==> #[trigger] self.cells_spec()[i].key() != (
                    x as int,
                    y as int,
                    ),
            },
    {
        let k = pack_key(x, y);
        match self.index.get(&k) {
            Some(i) => {
                let i = *i;
                proof {
                    let key = self.cells@[i as int].key();
                    assert(pack(key) as i128 == k);
                    lemma_pack_injective(key, (x as int, y as int));
                }
                Some(i)
            },
            None => {
                proof {
                    assert forall|i: int| 0 <= i < self.cells_spec().len() implies #[trigger] self.cells_spec()[i].key() != (
                        x as int,
                        y as int,
                    ) by {
                        let key = self.cells@[i].key();
                        if key == (x as int, y as int) {
                            assert(self.index@.contains_key(pack(key) as i128));
                        }
                    }
                }
                None
            },
        }
    }

    /// Appends `collider` to the cell that holds its position, creating
    /// that cell at the end of the cell list if it does not exist yet.
    pub fn add(&mut self, collider: ColliderDesc)
        requires
            old(self).wf(),
            in_bounds(collider.position),
        ensures
            final(self).wf(),
            final(self).cell_size_spec() == old(self).cell_size_spec(),
            final(self).radius_spec() == old(self).radius_spec(),
            forall|c: ColliderDesc| #[trigger] final(self).holds(c) <==> (old(self).holds(c) || c == collider),
            final(self).bucket_at(cell_key(collider.position, old(self).cell_size_spec())) == old(self).bucket_at(
                cell_key(collider.position, old(self).cell_size_spec()),
            ).push(collider),
            forall|k: (int, int)| k != cell_key(collider.position, old(self).cell_size_spec())
                ==> #[trigger] final(self).bucket_at(k) == old(self).bucket_at(k),
            old(self).has_cell(cell_key(collider.position, old(self).cell_size_spec())) ==> final(self).cells_spec().len()
                == old(self).cells_spec().len(),
            !old(self).has_cell(cell_key(collider.position, old(self).cell_size_spec())) ==> final(self).cells_spec().len()
                == old(self).cells_spec().len() + 1 && final(self).cells_spec().last().key() == cell_key(
                collider.position,
                old(self).cell_size_spec(),
            ),
            forall|i: int| 0 <= i < old(self).cells_spec().len() ==> #[trigger] final(self).cells_spec()[i].key()
                == old(self).cells_spec()[i].key(),
    {
        let (x, y) = self.get_cell(collider.position);
        let ghost old_grid = *self;
        match self.find_cell(x, y) {
            Some(i) => {
                let mut cell = self.cells.remove(i);
                let ghost old_data = cell.data@;
                cell.data.push(collider);
                self.cells.insert(i, cell);
                proof {
                    assert(self.cells@ =~= old_grid.cells@.update(i as int, cell));
                    assert(cell.data@ == old_data.push(collider));
                    assert forall|c: ColliderDesc| #[trigger] self.holds(c) <==> (old_grid.holds(c) || c == collider) by {
                        if self.holds(c) {
                            let (a, b) = choose|a: int, b: int|
                                0 <= a < self.cells_spec().len() && 0 <= b < self.cells_spec()[a].colliders().len()
                                    && #[trigger] self.cells_spec()[a].colliders()[b] == c;
                            if a != i as int || b < old_data.len() {
                                assert(old_grid.cells_spec()[a].colliders()[b] == c);
                            }
                        }
                        if old_grid.holds(c) {
                            let (a, b) = choose|a: int, b: int|
                                0 <= a < old_grid.cells_spec().len() && 0 <= b < old_grid.cells_spec()[a].colliders().len()
                                    && #[trigger] old_grid.cells_spec()[a].colliders()[b] == c;
                            assert(self.cells_spec()[a].colliders()[b] == c);
                        }
                        if c == collider {
                            assert(self.cells_spec()[i as int].colliders()[old_data.len() as int] == c);
                        }
                    }
                    assert forall|a: int, b: int|
                        0 <= a < self.cells_spec().len() && 0 <= b < self.cells_spec()[a].colliders().len()
                        implies {
                        let c = #[trigger] self.cells_spec()[a].colliders()[b];
                        in_bounds(c.position) && cell_key(c.position, self.cell_size_spec())
                            == self.cells_spec()[a].key()
                    } by {
                        if a != i as int || b < old_data.len() {
                            assert(old_grid.cells_spec()[a].colliders()[b] == self.cells_spec()[a].colliders()[b]);
                        }
                    }
                    assert forall|a: int, b: int|
                        0 <= a < self.cells_spec().len() && 0 <= b < self.cells_spec().len() && a != b
                        implies #[trigger] self.cells_spec()[a].key() != #[trigger] self.cells_spec()[b].key() by {
                        assert(old_grid.cells_spec()[a].key() != old_grid.cells_spec()[b].key());
                    }
                }
                proof {
                    let key = (x as int, y as int);
                    self.lemma_bucket_of(i as int);
                    old_grid.lemma_bucket_of(i as int);
                    assert forall|k: (int, int)| k != key implies #[trigger] self.bucket_at(k) == old_grid.bucket_at(k) by {
                        if old_grid.has_cell(k) {
                            let j = choose|j: int| 0 <= j < old_grid.cells_spec().len() && #[trigger] old_grid.cells_spec()[j].key() == k;
                            self.lemma_bucket_of(j);
                            old_grid.lemma_bucket_of(j);
                        } else {
                            assert(!self.has_cell(k)) by {
                                if self.has_cell(k) {
                                    let j = choose|j: int| 0 <= j < self.cells_spec().len() && #[trigger] self.cells_spec()[j].key() == k;
                                    assert(old_grid.cells_spec()[j].key() == k);
                                }
                            }
                        }
                    }
                }
            },
            None => {
                let mut data: Vec<ColliderDesc> = Vec::new();
                data.push(collider);
                let cell = Cell { x, y, data };
                let ghost old_index = self.index@;
                self.index.insert(pack_key(x, y), self.cells.len());
                self.cells.push(cell);
                proof {
                    let n = old_grid.cells@.len() as int;
                    assert(self.cells@ =~= old_grid.cells@.push(cell));
                    assert forall|c: ColliderDesc| #[trigger] self.holds(c) <==> (old_grid.holds(c) || c == collider) by {
                        if self.holds(c) {
                            let (a, b) = choose|a: int, b: int|
                                0 <= a < self.cells_spec().len() && 0 <= b < self.cells_spec()[a].colliders().len()
                                    && #[trigger] self.cells_spec()[a].colliders()[b] == c;
                            if a != n {
                                assert(old_grid.cells_spec()[a].colliders()[b] == c);
                            }
                        }
                        if old_grid.holds(c) {
                            let (a, b) = choose|a: int, b: int|
                                0 <= a < old_grid.cells_spec().len() && 0 <= b < old_grid.cells_spec()[a].colliders().len()
                                    && #[trigger] old_grid.cells_spec()[a].colliders()[b] == c;
                            assert(self.cells_spec()[a].colliders()[b] == c);
                        }
                        if c == collider {
                            assert(self.cells_spec()[n].colliders()[0] == c);
                        }
                    }
                    assert forall|a: int, b: int|
                        0 <= a < self.cells_spec().len() && 0 <= b < self.cells_spec()[a].colliders().len()
                        implies {
                        let c = #[trigger] self.cells_spec()[a].colliders()[b];
                        in_bounds(c.position) && cell_key(c.position, self.cell_size_spec())
                            == self.cells_spec()[a].key()
                    } by {
                        if a != n {
                            assert(old_grid.cells_spec()[a].colliders()[b] == self.cells_spec()[a].colliders()[b]);
                        }
                    }
                    assert forall|a: int, b: int|
                        0 <= a < self.cells_spec().len() && 0 <= b < self.cells_spec().len() && a != b
                        implies #[trigger] self.cells_spec()[a].key() != #[trigger] self.cells_spec()[b].key() by {
                        if a != n && b != n {
                            assert(old_grid.cells_spec()[a].key() != old_grid.cells_spec()[b].key());
                        } else if a == n {
                            assert(old_grid.cells_spec()[b].key() == self.cells_spec()[b].key());
                        } else {
                            assert(old_grid.cells_spec()[a].key() == self.cells_spec()[a].key());
                        }
                    }
                    let key = (x as int, y as int);
                    self.lemma_bucket_of(n);
                    assert(self.cells_spec()[n].colliders() =~= Seq::<ColliderDesc>::empty().push(collider));
                    assert(!old_grid.has_cell(key));
                    assert forall|k: (int, int)| k != key implies #[trigger] self.bucket_at(k) == old_grid.bucket_at(k) by {
                        if old_grid.has_cell(k) {
                            let j = choose|j: int| 0 <= j < old_grid.cells_spec().len() && #[trigger] old_grid.cells_spec()[j].key() == k;
                            self.lemma_bucket_of(j);
                            old_grid.lemma_bucket_of(j);
                        } else {
                            assert(!self.has_cell(k)) by {
                                if self.has_cell(k) {
                                    let j = choose|j: int| 0 <= j < self.cells_spec().len() && #[trigger] self.cells_spec()[j].key() == k;
                                    if j < n {
                                        assert(old_grid.cells_spec()[j].key() == k);
                                    }
                                }
                            }
                        }
                    }
                }
            },
        }
    }

    /// Removes every cell.
    pub fn clear(&mut self)
        requires
            old(self).wf(),
        ensures
            final(self).wf(),
            final(self).cells_spec().len() == 0,
            final(self).cell_size_spec() == old(self).cell_size_spec(),
            final(self).radius_spec() == old(self).radius_spec(),
            forall|c: ColliderDesc| !(#[trigger] final(self).holds(c)),
    {
        self.cells.clear();
        self.index.clear();
    }
}

impl Grid {
    /// The colliders of the 3x3 block of cells centred on the cell of
    /// `position`, row by row, each cell in insertion order.
    pub fn get_neighbours(&self, position: Vec2) -> (r: Vec<ColliderDesc>)
        requires
            self.wf(),
            in_bounds(position),
        ensures
            r@ == self.neighbours_upto(position, 9),
    {
        let (cx, cy) = self.get_cell(position);
        let ghost centre = (cx as int, cy as int);
        let mut out: Vec<ColliderDesc> = Vec::new();
        let mut k: usize = 0;
        while k < 9
            invariant
                self.wf(),
                centre == cell_key(position, self.cell_size_spec()),
                centre == (cx as int, cy as int),
                k <= 9,
                out@ == self.neighbours_upto(position, k as int),
                -LIMIT <= cx <= LIMIT,
                -LIMIT <= cy <= LIMIT,
            decreases 9 - k,
        {
            let di: i64 = (k / 3) as i64 - 1;
            let dj: i64 = (k % 3) as i64 - 1;
            let ghost out_before = out@;
            let ghost key = block_key(centre, k as int);
            match self.find_cell(cx + di, cy + dj) {
                Some(i) => {
                    let data = self.cells[i].get_colliders();
                    let mut j: usize = 0;
                    while j < data.len()
                        invariant
                            j <= data@.len(),
                            out@ == out_before + data@.subrange(0, j as int),
                        decreases data@.len() - j,
                    {
                        out.push(data[j]);
                        assert(out@ =~= out_before + data@.subrange(0, j as int + 1));
                        j = j + 1;
                    }
                    proof {
                        assert(data@.subrange(0, data@.len() as int) =~= data@);
                        let i2 = choose|i2: int| 0 <= i2 < self.cells_spec().len() && #[trigger] self.cells_spec()[i2].key() == key;
                        assert(i2 == i);
                        assert(self.bucket_at(key) == data@);
                    }
                },
                None => {
                    proof {
                        assert(self.bucket_at(key) == Seq::<ColliderDesc>::empty());
                        assert(out@ =~= self.neighbours_upto(position, k as int + 1));
                    }
                },
            }
            k = k + 1;
        }
        out
    }
}

impl Grid {
    /// A collider near `p` lies in the 3x3 block of cells around `p`'s cell.
    proof fn lemma_near_in_block(&self, c: ColliderDesc, p: Vec2)
        requires
            self.wf(),
            self.near(c, p),
        ensures
            in_block(cell_key(p, self.cell_size_spec()), cell_key(c.position, self.cell_size_spec())),
    {
        let s = self.cell_size_spec();
        lemma_sq_bound(c.position.x - p.x, c.position.y - p.y, self.radius_spec());
        lemma_adjacent_cells(c.position.x as int, p.x as int, s);
        lemma_adjacent_cells(c.position.y as int, p.y as int, s);
    }

    /// The colliders strictly within the collision radius of `position`,
    /// other than those located exactly at `position`; the cells of the
    /// surrounding 3x3 block are searched row by row, each in insertion order.
    pub fn get_collided(&self, position: Vec2) -> (r: Vec<ColliderDesc>)
        requires
            self.wf(),
            in_bounds(position),
        ensures
            forall|m: int| 0 <= m < r@.len() ==> self.holds(#[trigger] r@[m]) && self.near(r@[m], position),
            forall|c: ColliderDesc| self.holds(c) && #[trigger] self.near(c, position) ==> r@.contains(c),
            r@ == self.collided_upto(position, 9),
    {
        let (cx, cy) = self.get_cell(position);
        let ghost centre = (cx as int, cy as int);
        let mut out: Vec<ColliderDesc> = Vec::new();
        let mut k: usize = 0;
        while k < 9
            invariant
                self.wf(),
                in_bounds(position),
                centre == cell_key(position, self.cell_size_spec()),
                centre == (cx as int, cy as int),
                k <= 9,
                out@ == self.collided_upto(position, k as int),
                -LIMIT <= cx <= LIMIT,
                -LIMIT <= cy <= LIMIT,
                forall|m: int| 0 <= m < out@.len() ==> self.holds(#[trigger] out@[m]) && self.near(out@[m], position),
                forall|a: int, b: int|
                    0 <= a < self.cells_spec().len() && 0 <= b < self.cells_spec()[a].colliders().len()
                        && in_block(centre, self.cells_spec()[a].key())
                        && block_index(centre, self.cells_spec()[a].key()) < k
                        && self.near(#[trigger] self.cells_spec()[a].colliders()[b], position)
                        ==> out@.contains(self.cells_spec()[a].colliders()[b]),
            decreases 9 - k,
        {
            proof { lemma_block_key(centre, k as int); }
            let di: i64 = (k / 3) as i64 - 1;
            let dj: i64 = (k % 3) as i64 - 1;
            let ghost out_before = out@;
            let found = self.find_cell(cx + di, cy + dj);
            let ghost found_at = found;
            match found {
                Some(i) => {
                    let data = self.cells[i].get_colliders();
                    let mut j: usize = 0;
                    while j < data.len()
                        invariant
                            self.wf(),
                            in_bounds(position),
                            i < self.cells_spec().len(),
                            data@ == self.cells_spec()[i as int].colliders(),
                            j <= data@.len(),
                            forall|m: int| 0 <= m < out@.len() ==> self.holds(#[trigger] out@[m]) && self.near(out@[m], position),
                            forall|c: ColliderDesc| out_before.contains(c) ==> out@.contains(c),
                            forall|b: int| 0 <= b < j && self.near(#[trigger] data@[b], position) ==> out@.contains(data@[b]),
                            out@ == out_before + self.keep_near(data@.subrange(0, j as int), position),
                        decreases data@.len() - j,
                    {
                        let c = data[j];
                        let d2 = sq_distance(c.position, position);
                        assert(self.holds(c)) by {
                            assert(self.cells_spec()[i as int].colliders()[j as int] == c);
                        }
                        let ghost out_prev = out@;
                        assert((self.radius as u128) * (self.radius as u128) <= LIMIT * LIMIT) by (nonlinear_arith)
                            requires 0 <= self.radius <= LIMIT;
                        assert(data@.subrange(0, j as int + 1).drop_last() =~= data@.subrange(0, j as int));
                        assert(data@.subrange(0, j as int + 1).last() == c);
                        let ghost is_near = self.near(c, position);
                        if d2 < (self.radius as u128) * (self.radius as u128) && c.position != position {
                            out.push(c);
                            assert(out@[out@.len() - 1] == c);
                        }
                        proof {
                            if is_near {
                                assert(out@ =~= out_prev.push(c));
                            } else {
                                assert(out@ =~= out_prev);
                            }
                            assert(out@ =~= out_before + self.keep_near(data@.subrange(0, j as int + 1), position));
                            assert forall|c2: ColliderDesc| out_prev.contains(c2) implies out@.contains(c2) by {
                                let m = choose|m: int| 0 <= m < out_prev.len() && out_prev[m] == c2;
                                assert(out@[m] == c2);
                            }
                        }
                        j = j + 1;
                    }
                    proof {
                        assert(data@.subrange(0, data@.len() as int) =~= data@);
                        let key = block_key(centre, k as int);
                        assert(self.cells_spec()[i as int].key() == key);
                        let i2 = choose|i2: int| 0 <= i2 < self.cells_spec().len() && #[trigger] self.cells_spec()[i2].key() == key;
                        assert(i2 == i);
                        assert(self.bucket_at(key) == data@);
                        assert(out@ == self.collided_upto(position, k as int + 1));
                        assert forall|b: int| 0 <= b < data@.len() && self.near(#[trigger] self.cells_spec()[i as int].colliders()[b], position)
                            implies out@.contains(self.cells_spec()[i as int].colliders()[b]) by {
                            assert(data@[b] == self.cells_spec()[i as int].colliders()[b]);
                        }
                    }
                },
                None => {
                    proof {
                        let key = block_key(centre, k as int);
                        assert(self.bucket_at(key) == Seq::<ColliderDesc>::empty());
                        assert(out@ =~= self.collided_upto(position, k as int + 1));
                    }
                },
            }
            proof {
                assert forall|a: int, b: int|
                    0 <= a < self.cells_spec().len() && 0 <= b < self.cells_spec()[a].colliders().len()
                        && in_block(centre, self.cells_spec()[a].key())
                        && block_index(centre, self.cells_spec()[a].key()) < k + 1
                        && self.near(#[trigger] self.cells_spec()[a].colliders()[b], position)
                    implies out@.contains(self.cells_spec()[a].colliders()[b]) by {
                    if block_index(centre, self.cells_spec()[a].key()) == k {
                        assert(self.cells_spec()[a].key() == block_key(centre, k as int));
                        assert(block_key(centre, k as int) == (cx + di, cy + dj));
                        match found_at {
                            Some(i) => {
                                assert(self.cells_spec()[i as int].key() == self.cells_spec()[a].key());
                                assert(i as int == a);
                            },
                            None => {
                                assert(self.cells_spec()[a].key() != (cx + di, cy + dj));
                            },
                        }
                    } else {
                        assert(out_before.contains(self.cells_spec()[a].colliders()[b]));
                    }
                }
            }
            k = k + 1;
        }
        proof {
            assert forall|c: ColliderDesc| self.holds(c) && #[trigger] self.near(c, position) implies out@.contains(c) by {
                let (a, b) = choose|a: int, b: int|
                    0 <= a < self.cells_spec().len() && 0 <= b < self.cells_spec()[a].colliders().len()
                        && #[trigger] self.cells_spec()[a].colliders()[b] == c;
                self.lemma_near_in_block(c, position);
            }
        }
        out
    }
}

impl Grid {
    proof fn lemma_keep_near_append(&self, a: Seq<ColliderDesc>, b: Seq<ColliderDesc>, p: Vec2)
        ensures
            self.keep_near(a + b, p) == self.keep_near(a, p) + self.keep_near(b, p),
        decreases b.len(),
    {
        if b.len() == 0 {
            assert(a + b =~= a);
            assert(self.keep_near(a, p) + self.keep_near(b, p) =~= self.keep_near(a, p));
        } else {
            assert((a + b).drop_last() =~= a + b.drop_last());
            assert((a + b).last() == b.last());
            self.lemma_keep_near_append(a, b.drop_last(), p);
            if self.near(b.last(), p) {
                assert(self.keep_near(a + b, p) =~= self.keep_near(a, p) + self.keep_near(b, p));
            } else {
                assert(self.keep_near(a + b, p) =~= self.keep_near(a, p) + self.keep_near(b, p));
            }
        }
    }

    /// What `get_collided` returns is what `get_neighbours` returns, with
    /// the colliders that are not near the queried position left out and
    /// the order kept.
    pub proof fn lemma_collided_filters_neighbours(&self, p: Vec2, k: int)
        ensures
            self.collided_upto(p, k) == self.keep_near(self.neighbours_upto(p, k), p),
        decreases k,
    {
        if k > 0 {
            self.lemma_collided_filters_neighbours(p, k - 1);
            self.lemma_keep_near_append(
                self.neighbours_upto(p, k - 1),
                self.bucket_at(block_key(cell_key(p, self.cell_size_spec()), k - 1)),
                p,
            );
        } else {
            assert(self.keep_near(Seq::<ColliderDesc>::empty(), p) == Seq::<ColliderDesc>::empty());
        }
    }
}

impl Grid {
    proof fn lemma_keep_near_contains(&self, s: Seq<ColliderDesc>, m: int, p: Vec2)
        requires
            0 <= m < s.len(),
            self.near(s[m], p),
        ensures
            self.keep_near(s, p).contains(s[m]),
        decreases s.len(),
    {
        let r = self.keep_near(s.drop_last(), p);
        if m == s.len() - 1 {
            assert(self.keep_near(s, p) == r.push(s[m]));
            assert(self.keep_near(s, p)[r.len() as int] == s[m]);
        } else {
            assert(s.drop_last()[m] == s[m]);
            self.lemma_keep_near_contains(s.drop_last(), m, p);
            let w = choose|w: int| 0 <= w < r.len() && r[w] == s[m];
            if self.near(s.last(), p) {
                assert(self.keep_near(s, p)[w] == s[m]);
            }
        }
    }

    proof fn lemma_collided_upto_grows(&self, p: Vec2, k: int, k2: int, c: ColliderDesc)
        requires
            0 <= k <= k2,
            self.collided_upto(p, k).contains(c),
        ensures
            self.collided_upto(p, k2).contains(c),
        decreases k2 - k,
    {
        if k < k2 {
            let s = self.collided_upto(p, k);
            let w = choose|w: int| 0 <= w < s.len() && s[w] == c;
            let t = self.collided_upto(p, k + 1);
            assert(t[w] == c);
            self.lemma_collided_upto_grows(p, k + 1, k2, c);
        }
    }

    /// Every collider of the grid near `p` is among the colliders that
    /// `get_collided(p)` returns, whatever cell it falls in: the radius
    /// never exceeds the cell size, so the block around `p`'s cell holds it.
    pub proof fn lemma_collided_complete(&self, c: ColliderDesc, p: Vec2)
        requires
            self.wf(),
            self.holds(c),
            self.near(c, p),
        ensures
            self.collided_upto(p, 9).contains(c),
    {
        let (a, b) = choose|a: int, b: int|
            0 <= a < self.cells_spec().len() && 0 <= b < self.cells_spec()[a].colliders().len()
                && #[trigger] self.cells_spec()[a].colliders()[b] == c;
        let centre = cell_key(p, self.cell_size_spec());
        self.lemma_near_in_block(c, p);
        let key = self.cells_spec()[a].key();
        let k = block_index(centre, key);
        lemma_block_key(centre, k);
        let i2 = choose|i2: int| 0 <= i2 < self.cells_spec().len() && #[trigger] self.cells_spec()[i2].key() == key;
        assert(i2 == a);
        assert(self.bucket_at(block_key(centre, k)) == self.cells_spec()[a].colliders());
        self.lemma_keep_near_contains(self.cells_spec()[a].colliders(), b, p);
        let seg = self.keep_near(self.cells_spec()[a].colliders(), p);
        let w = choose|w: int| 0 <= w < seg.len() && seg[w] == c;
        let before = self.collided_upto(p, k);
        assert(self.collided_upto(p, k + 1)[before.len() + w] == c);
        self.lemma_collided_upto_grows(p, k + 1, 9, c);
    }
}

/// Two colliders of a grid that lie strictly within the collision radius
/// of each other, at distinct positions, each appear in what
/// `get_collided` returns for the other's position, whatever cells they
/// fall in.
pub proof fn lemma_mutual_collision(grid: &Grid, a: ColliderDesc, b: ColliderDesc)
    requires
        grid.wf(),
        grid.holds(a),
        grid.holds(b),
        sq_dist(a.position, b.position) < grid.radius_spec() * grid.radius_spec(),
        a.position != b.position,
    ensures
        grid.collided_upto(a.position, 9).contains(b),
        grid.collided_upto(b.position, 9).contains(a),
{
    assert(sq_dist(b.position, a.position) == sq_dist(a.position, b.position)) by (nonlinear_arith);
    grid.lemma_collided_complete(b, a.position);
    grid.lemma_collided_complete(a, b.position);
}

impl Grid {
    proof fn lemma_keep_near_only_near(&self, s: Seq<ColliderDesc>, p: Vec2)
        ensures
            forall|m: int| 0 <= m < self.keep_near(s, p).len() ==> self.near(#[trigger] self.keep_near(s, p)[m], p),
        decreases s.len(),
    {
        if s.len() > 0 {
            self.lemma_keep_near_only_near(s.drop_last(), p);
            let r = self.keep_near(s.drop_last(), p);
            assert forall|m: int| 0 <= m < self.keep_near(s, p).len() implies self.near(#[trigger] self.keep_near(s, p)[m], p) by {
                if m < r.len() {
                    assert(self.keep_near(s, p)[m] == r[m]);
                }
            }
        }
    }

    /// Every collider that `get_collided(p)` returns is near `p`.
    pub proof fn lemma_collided_only_near(&self, p: Vec2, k: int)
        ensures
            forall|m: int| 0 <= m < self.collided_upto(p, k).len() ==> self.near(#[trigger] self.collided_upto(p, k)[m], p),
        decreases k,
    {
        if k > 0 {
            self.lemma_collided_only_near(p, k - 1);
            self.lemma_keep_near_only_near(self.bucket_at(block_key(cell_key(p, self.cell_size_spec()), k - 1)), p);
            let a = self.collided_upto(p, k - 1);
            let b = self.keep_near(self.bucket_at(block_key(cell_key(p, self.cell_size_spec()), k - 1)), p);
            assert forall|m: int| 0 <= m < self.collided_upto(p, k).len() implies self.near(#[trigger] self.collided_upto(p, k)[m], p) by {
                if m < a.len() {
                    assert(self.collided_upto(p, k)[m] == a[m]);
                } else {
                    assert(self.collided_upto(p, k)[m] == b[m - a.len()]);
                }
            }
        }
    }

    /// No collider that `get_collided(p)` returns lies exactly at `p`: a
    /// body queried at its own position never collides with itself.
    pub proof fn lemma_no_self_collision(&self, p: Vec2)
        ensures
            forall|m: int| 0 <= m < self.collided_upto(p, 9).len() ==> (#[trigger] self.collided_upto(p, 9)[m]).position != p,
    {
        self.lemma_collided_only_near(p, 9);
    }
}

impl Grid {
    proof fn lemma_keep_near_from(&self, s: Seq<ColliderDesc>, p: Vec2)
        ensures
            forall|m: int| 0 <= m < self.keep_near(s, p).len() ==> s.contains(#[trigger] self.keep_near(s, p)[m]),
        decreases s.len(),
    {
        if s.len() > 0 {
            self.lemma_keep_near_from(s.drop_last(), p);
            let r = self.keep_near(s.drop_last(), p);
            assert forall|m: int| 0 <= m < self.keep_near(s, p).len() implies s.contains(#[trigger] self.keep_near(s, p)[m]) by {
                if m < r.len() {
                    assert(self.keep_near(s, p)[m] == r[m]);
                    let w = choose|w: int| 0 <= w < s.drop_last().len() && s.drop_last()[w] == r[m];
                    assert(s[w] == r[m]);
                } else {
                    assert(s[s.len() - 1] == self.keep_near(s, p)[m]);
                }
            }
        }
    }

    /// Every collider that `get_collided(p)` returns is held by the grid.
    pub proof fn lemma_collided_held(&self, p: Vec2, k: int)
        ensures
            forall|m: int| 0 <= m < self.collided_upto(p, k).len() ==> self.holds(#[trigger] self.collided_upto(p, k)[m]),
        decreases k,
    {
        if k > 0 {
            self.lemma_collided_held(p, k - 1);
            let key = block_key(cell_key(p, self.cell_size_spec()), k - 1);
            let bucket = self.bucket_at(key);
            self.lemma_keep_near_from(bucket, p);
            let a = self.collided_upto(p, k - 1);
            let b = self.keep_near(bucket, p);
            assert forall|m: int| 0 <= m < self.collided_upto(p, k).len() implies self.holds(#[trigger] self.collided_upto(p, k)[m]) by {
                if m < a.len() {
                    assert(self.collided_upto(p, k)[m] == a[m]);
                } else {
                    let c = b[m - a.len()];
                    assert(self.collided_upto(p, k)[m] == c);
                    assert(bucket.contains(c));
                    let w = choose|w: int| 0 <= w < bucket.len() && bucket[w] == c;
                    let i = choose|i: int| 0 <= i < self.cells_spec().len() && #[trigger] self.cells_spec()[i].key() == key;
                    assert(self.cells_spec()[i].colliders()[w] == c);
                }
            }
        }
    }
}

} // verus!
