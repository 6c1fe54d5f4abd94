//! The square tiling of the plane: positions, zones, and the arithmetic that
//! relates them.

use vstd::prelude::*;
use vstd::arithmetic::div_mod::lemma_fundamental_div_mod;
use vstd::arithmetic::div_mod::lemma_fundamental_div_mod_converse;
use vstd::arithmetic::div_mod::lemma_mod_bound;

verus! {

/// Largest half side that a grid accepts. With it, the bounds of every zone
/// fit in 128 bits with room to spare.
pub const MAX_HALF_SIZE: i64 = 0x4000_0000;

/// Half side of a zone where nothing else is asked for.
pub const STANDARD_HALF_SIZE: i64 = 300;

/// Number of candidate spawn points along each axis of a zone.
pub const GRID_POINTS: i64 = 15;

/// A point of the world, in whole world units.
#[derive(Clone, Copy, Debug, PartialEq, Eq, Hash, Structural)]
pub struct Position {
    pub x: i64,
    pub y: i64,
}

/// One cell of the tiling. Rows run along the y axis, columns along the x axis.
#[derive(Clone, Copy, Debug, Default, PartialEq, Eq, Hash, Structural)]
pub struct Zone {
    pub row: i64,
    pub col: i64,
}

/// Why a configuration was turned down.
#[derive(Clone, Copy, Debug, PartialEq, Eq, Structural)]
pub enum ConfigError {
    /// The half side of a zone is zero or negative.
    NonPositiveCellSize,
    /// The half side of a zone is above `MAX_HALF_SIZE`.
    CellSizeTooLarge,
    /// The despawn distance does not clear the neighbourhood in which zones
    /// are spawned.
    DespawnTooClose,
    /// The far-eviction distance is below the despawn distance.
    FarBelowDespawn,
}

/// The tiling itself: squares of side `2 * half_size`, the one at row 0 and
/// column 0 centred on the origin.
#[derive(Clone, Copy, Debug)]
pub struct ZoneGrid {
    half_size: i64,
}

/// Offset of the `k`-th candidate point from the low edge of a zone of half
/// side `half`: the middle of the `k`-th of `GRID_POINTS` equal strips.
pub open spec fn lattice_offset(half: int, k: int) -> int {
    ((2 * k + 1) * half) / (GRID_POINTS as int)
}

impl Zone {
    /// Whether all eight adjacent zones have coordinates that fit.
    pub open spec fn has_neighbors(&self) -> bool {
        &&& i64::MIN < self.row < i64::MAX
        &&& i64::MIN < self.col < i64::MAX
    }

    /// The zone `dr` rows and `dc` columns away, or the nearest zone that
    /// exists where that one would leave the coordinate range.
    pub open spec fn offset(&self, dr: int, dc: int) -> Zone {
        Zone { row: step_clamped(self.row, dr), col: step_clamped(self.col, dc) }
    }

    /// The zone and its eight neighbours, the zone itself last.
    pub open spec fn spec_neighbors(&self) -> Seq<Zone> {
        seq![
            self.offset(-1, -1),
            self.offset(-1, 0),
            self.offset(-1, 1),
            self.offset(0, -1),
            self.offset(0, 1),
            self.offset(1, -1),
            self.offset(1, 0),
            self.offset(1, 1),
            self.offset(0, 0),
        ]
    }

    /// The larger of the row distance and the column distance.
    pub open spec fn chebyshev(&self, other: Zone) -> int {
        let dr = if self.row >= other.row { self.row - other.row } else { other.row - self.row };
        let dc = if self.col >= other.col { self.col - other.col } else { other.col - self.col };
        if dr >= dc { dr } else { dc }
    }

    pub fn new(row: i64, col: i64) -> (zone: Zone)
        ensures
            zone == (Zone { row, col }),
    {
        Zone { row, col }
    }
}

impl ZoneGrid {
    pub closed spec fn spec_half_size(&self) -> int {
        self.half_size as int
    }

    /// What every grid satisfies.
    pub open spec fn valid(&self) -> bool {
        1 <= self.spec_half_size() <= MAX_HALF_SIZE
    }

    #[verifier::type_invariant]
    pub open spec fn type_inv(self) -> bool {
        self.valid()
    }

    /// Side of a zone.
    pub open spec fn side(&self) -> int {
        2 * self.spec_half_size()
    }

    /// Index, along one axis, of the zone that holds coordinate `c`: `c`
    /// over the side of a zone, rounded to the nearest whole number, halves
    /// going up.
    pub open spec fn index_of(&self, c: int) -> int {
        (c + self.spec_half_size()) / self.side()
    }

    /// The zone that holds `p`.
    pub open spec fn spec_zone_of(&self, p: Position) -> Zone {
        Zone { row: self.index_of(p.y as int) as i64, col: self.index_of(p.x as int) as i64 }
    }

    pub open spec fn center_x(&self, zone: Zone) -> int {
        zone.col * self.side()
    }

    pub open spec fn center_y(&self, zone: Zone) -> int {
        zone.row * self.side()
    }

    pub open spec fn spec_min_x(&self, zone: Zone) -> int {
        self.center_x(zone) - self.spec_half_size()
    }

    pub open spec fn spec_max_x(&self, zone: Zone) -> int {
        self.center_x(zone) + self.spec_half_size()
    }

    pub open spec fn spec_min_y(&self, zone: Zone) -> int {
        self.center_y(zone) - self.spec_half_size()
    }

    pub open spec fn spec_max_y(&self, zone: Zone) -> int {
        self.center_y(zone) + self.spec_half_size()
    }

    /// Whether `p` lies in the half-open square of `zone`: the low edges
    /// belong to it, the high edges to the next zone.
    pub open spec fn contains(&self, zone: Zone, p: Position) -> bool {
        &&& self.spec_min_x(zone) <= p.x < self.spec_max_x(zone)
        &&& self.spec_min_y(zone) <= p.y < self.spec_max_y(zone)
    }

    /// Whether the whole square of `zone`, edges included, has coordinates
    /// that fit in a `Position`.
    pub open spec fn in_world(&self, zone: Zone) -> bool {
        &&& i64::MIN <= self.spec_min_x(zone)
        &&& self.spec_max_x(zone) <= i64::MAX
        &&& i64::MIN <= self.spec_min_y(zone)
        &&& self.spec_max_y(zone) <= i64::MAX
    }

    /// Whether `p` keeps four half sides away from the ends of the
    /// coordinate range, so that the zones around it fit the range.
    pub open spec fn roomy(&self, p: Position) -> bool {
        &&& i64::MIN + 4 * self.spec_half_size() <= p.x <= i64::MAX - 4 * self.spec_half_size()
        &&& i64::MIN + 4 * self.spec_half_size() <= p.y <= i64::MAX - 4 * self.spec_half_size()
    }

    /// Whether the centre of `zone` is farther than `dist` from `p`.
    pub open spec fn spec_farther_than(&self, zone: Zone, p: Position, dist: int) -> bool {
        spec_exceeds(self.center_x(zone) - p.x, self.center_y(zone) - p.y, dist)
    }

    /// The `k`-th candidate spawn point of `zone`, counted row by row from
    /// the low corner.
    pub open spec fn lattice_point(&self, zone: Zone, k: int) -> Position {
        let r = k / (GRID_POINTS as int);
        let c = k % (GRID_POINTS as int);
        Position {
            x: (self.spec_min_x(zone) + lattice_offset(self.spec_half_size(), c)) as i64,
            y: (self.spec_min_y(zone) + lattice_offset(self.spec_half_size(), r)) as i64,
        }
    }

    /// A grid of the given half side.
    pub fn new(half_size: i64) -> (made: Result<ZoneGrid, ConfigError>)
        ensures
            half_size <= 0 <==> made == Err::<ZoneGrid, ConfigError>(
                ConfigError::NonPositiveCellSize,
            ),
            half_size > MAX_HALF_SIZE <==> made == Err::<ZoneGrid, ConfigError>(
                ConfigError::CellSizeTooLarge,
            ),
            1 <= half_size <= MAX_HALF_SIZE <==> made is Ok,
            made matches Ok(grid) ==> grid.spec_half_size() == half_size && grid.valid(),
    {
        if half_size <= 0 {
            Err(ConfigError::NonPositiveCellSize)
        } else if half_size > MAX_HALF_SIZE {
            Err(ConfigError::CellSizeTooLarge)
        } else {
            Ok(ZoneGrid { half_size })
        }
    }

    /// The grid of half side `STANDARD_HALF_SIZE`.
    pub fn standard() -> (grid: ZoneGrid)
        ensures
            grid.valid(),
            grid.spec_half_size() == STANDARD_HALF_SIZE,
    {
        ZoneGrid { half_size: STANDARD_HALF_SIZE }
    }

    pub fn half_size(&self) -> (half: i64)
        ensures
            half == self.spec_half_size(),
            self.valid(),
    {
        proof {
            use_type_invariant(self);
        }
        self.half_size
    }
}

/// One step along an axis, stopping at the ends of the machine range.
pub open spec fn step_clamped(v: i64, d: int) -> i64 {
    if v + d > i64::MAX {
        i64::MAX
    } else if v + d < i64::MIN {
        i64::MIN
    } else {
        (v + d) as i64
    }
}

fn step(v: i64, d: i8) -> (w: i64)
    requires
        -1 <= d <= 1,
    ensures
        w == step_clamped(v, d as int),
{
    if d > 0 {
        if v == i64::MAX {
            v
        } else {
            v + 1
        }
    } else if d < 0 {
        if v == i64::MIN {
            v
        } else {
            v - 1
        }
    } else {
        v
    }
}

impl ZoneGrid {
    /// `index * side`, with the bound that keeps later sums in range.
    fn scaled(&self, index: i64) -> (v: i128)
        ensures
            v == index * self.side(),
            -0x4000_0000_0000_0000_0000_0000 <= v <= 0x4000_0000_0000_0000_0000_0000,
            self.valid(),
    {
        proof {
            use_type_invariant(self);
            lemma_product_bound(
                index as int,
                self.side(),
                0x8000_0000_0000_0000,
                0x8000_0000,
            );
        }
        let side: i128 = 2 * (self.half_size as i128);
        (index as i128) * side
    }

    fn axis_index(&self, c: i64) -> (q: i64)
        ensures
            q == self.index_of(c as int),
            q * self.side() - self.spec_half_size() <= c < q * self.side() + self.spec_half_size(),
            i64::MIN < q < i64::MAX,
            self.valid(),
    {
        proof {
            use_type_invariant(self);
        }
        let half: i128 = self.half_size as i128;
        let q: i128 = floor_div(c as i128 + half, 2 * half);
        proof {
            lemma_index_brackets(*self, c as int);
            lemma_index_range(*self, c as int);
        }
        q as i64
    }

    /// Whether the zones around `p` fit the coordinate range.
    pub fn is_roomy(&self, p: Position) -> (room: bool)
        ensures
            room == self.roomy(p),
    {
        proof {
            use_type_invariant(self);
        }
        let margin: i64 = 4 * self.half_size;
        i64::MIN + margin <= p.x && p.x <= i64::MAX - margin && i64::MIN + margin <= p.y && p.y
            <= i64::MAX - margin
    }

    /// The zone in which `p` lies.
    pub fn zone_of(&self, p: Position) -> (zone: Zone)
        ensures
            zone == self.spec_zone_of(p),
            self.contains(zone, p),
            zone.has_neighbors(),
    {
        let row: i64 = self.axis_index(p.y);
        let col: i64 = self.axis_index(p.x);
        Zone { row, col }
    }
}

impl Zone {
    /// The middle of the zone.
    pub fn center(&self, grid: &ZoneGrid) -> (c: Position)
        requires
            grid.in_world(*self),
        ensures
            c.x == grid.center_x(*self),
            c.y == grid.center_y(*self),
    {
        let x: i128 = grid.scaled(self.col);
        let y: i128 = grid.scaled(self.row);
        Position { x: x as i64, y: y as i64 }
    }

    /// Whether `center` may be called: the zone's square fits the
    /// coordinate range.
    pub fn in_world(&self, grid: &ZoneGrid) -> (fits: bool)
        ensures
            fits == grid.in_world(*self),
    {
        let half: i128 = grid.half_size() as i128;
        let x: i128 = grid.scaled(self.col);
        let y: i128 = grid.scaled(self.row);
        let low: i128 = i64::MIN as i128;
        let high: i128 = i64::MAX as i128;
        low <= x - half && x + half <= high && low <= y - half && y + half <= high
    }

    pub fn min_x(&self, grid: &ZoneGrid) -> (edge: i128)
        ensures
            edge == grid.spec_min_x(*self),
    {
        grid.scaled(self.col) - grid.half_size() as i128
    }

    pub fn max_x(&self, grid: &ZoneGrid) -> (edge: i128)
        ensures
            edge == grid.spec_max_x(*self),
    {
        grid.scaled(self.col) + grid.half_size() as i128
    }

    pub fn min_y(&self, grid: &ZoneGrid) -> (edge: i128)
        ensures
            edge == grid.spec_min_y(*self),
    {
        grid.scaled(self.row) - grid.half_size() as i128
    }

    pub fn max_y(&self, grid: &ZoneGrid) -> (edge: i128)
        ensures
            edge == grid.spec_max_y(*self),
    {
        grid.scaled(self.row) + grid.half_size() as i128
    }

    /// Whether `v` lies in the zone's square.
    pub fn inside(&self, grid: &ZoneGrid, v: Position) -> (within: bool)
        ensures
            within == grid.contains(*self, v),
    {
        if (v.x as i128) < self.min_x(grid) {
            return false;
        }
        if (v.x as i128) >= self.max_x(grid) {
            return false;
        }
        if (v.y as i128) < self.min_y(grid) {
            return false;
        }
        if (v.y as i128) >= self.max_y(grid) {
            return false;
        }
        true
    }

    /// The zone and the eight around it, the zone itself last. At the ends
    /// of the coordinate range the missing neighbours are replaced by the
    /// nearest zone that exists.
    pub fn neighbors(&self) -> (around: [Zone; 9])
        ensures
            around@ == self.spec_neighbors(),
            around@.len() == 9,
            around@.contains(*self),
            forall|i: int| 0 <= i < 9 ==> (#[trigger] around@[i]).chebyshev(*self) <= 1,
    {
        let up: i64 = step(self.row, -1);
        let down: i64 = step(self.row, 1);
        let left: i64 = step(self.col, -1);
        let right: i64 = step(self.col, 1);
        let around: [Zone; 9] = [
            Zone { row: up, col: left },
            Zone { row: up, col: self.col },
            Zone { row: up, col: right },
            Zone { row: self.row, col: left },
            Zone { row: self.row, col: right },
            Zone { row: down, col: left },
            Zone { row: down, col: self.col },
            Zone { row: down, col: right },
            Zone { row: self.row, col: self.col },
        ];
        proof {
            assert(around@ =~= self.spec_neighbors());
            assert(around@[8] == *self);
        }
        around
    }

    /// Whether the centre of the zone is farther than `dist` from `p`.
    pub fn farther_than(&self, grid: &ZoneGrid, p: Position, dist: i64) -> (far: bool)
        ensures
            far == grid.spec_farther_than(*self, p, dist as int),
    {
        let dx: i128 = grid.scaled(self.col) - p.x as i128;
        let dy: i128 = grid.scaled(self.row) - p.y as i128;
        exceeds(dx, dy, dist)
    }
}

/// Whether the vector `(dx, dy)` is longer than `dist`.
pub open spec fn spec_exceeds(dx: int, dy: int, dist: int) -> bool {
    dist < 0 || dx * dx + dy * dy > dist * dist
}

pub(crate) fn exceeds(dx: i128, dy: i128, dist: i64) -> (far: bool)
    requires
        -0x8000_0000_0000_0000_0000_0000 <= dx <= 0x8000_0000_0000_0000_0000_0000,
        -0x8000_0000_0000_0000_0000_0000 <= dy <= 0x8000_0000_0000_0000_0000_0000,
    ensures
        far == spec_exceeds(dx as int, dy as int, dist as int),
{
    if dist < 0 {
        return true;
    }
    let d: i128 = dist as i128;
    if dx > d || dx < -d {
        proof {
            lemma_square_exceeds(dx as int, d as int);
            lemma_square_bound(dy as int, 0x8000_0000_0000_0000_0000_0000);
        }
        return true;
    }
    if dy > d || dy < -d {
        proof {
            lemma_square_exceeds(dy as int, d as int);
            lemma_square_bound(dx as int, 0x8000_0000_0000_0000_0000_0000);
        }
        return true;
    }
    proof {
        lemma_square_bound(dx as int, d as int);
        lemma_square_bound(dy as int, d as int);
        lemma_square_bound(d as int, 0x7fff_ffff_ffff_ffff);
    }
    dx * dx + dy * dy > d * d
}

/// A coordinate lies between the edges of the zone that its index names.
pub proof fn lemma_index_brackets(grid: ZoneGrid, c: int)
    requires
        grid.valid(),
    ensures
        grid.index_of(c) * grid.side() - grid.spec_half_size() <= c,
        c < grid.index_of(c) * grid.side() + grid.spec_half_size(),
{
    lemma_floor_brackets(c + grid.spec_half_size(), grid.side());
}

/// The index of a machine coordinate is well inside the machine range.
pub proof fn lemma_index_range(grid: ZoneGrid, c: int)
    requires
        grid.valid(),
        i64::MIN <= c <= i64::MAX,
    ensures
        -0x4000_0000_0000_0001 <= grid.index_of(c) <= 0x4000_0000_0000_0001,
{
    lemma_index_brackets(grid, c);
    let q = grid.index_of(c);
    let h = grid.spec_half_size();
    assert(q <= 0x4000_0000_0000_0001) by (nonlinear_arith)
        requires
            q * (2 * h) - h <= c,
            c <= 0x7fff_ffff_ffff_ffff,
            h >= 1,
    ;
    assert(q >= -0x4000_0000_0000_0001) by (nonlinear_arith)
        requires
            c < q * (2 * h) + h,
            c >= -0x8000_0000_0000_0000,
            h >= 1,
    ;
}

impl Zone {
    /// The candidate spawn points of the zone: `GRID_POINTS` rows of
    /// `GRID_POINTS` points, each in the middle of its cell, listed row by
    /// row from the low corner.
    pub fn grid_coordinates(&self, grid: &ZoneGrid) -> (coords: Vec<Position>)
        requires
            grid.in_world(*self),
        ensures
            coords@.len() == GRID_POINTS * GRID_POINTS,
            forall|k: int|
                0 <= k < coords@.len() ==> #[trigger] coords@[k] == grid.lattice_point(*self, k),
            forall|k: int| 0 <= k < coords@.len() ==> grid.contains(*self, #[trigger] coords@[k]),
    {
        let half: i128 = grid.half_size() as i128;
        let low_x: i128 = self.min_x(grid);
        let low_y: i128 = self.min_y(grid);
        let mut coords: Vec<Position> = Vec::new();
        let mut r: i64 = 0;
        while r < GRID_POINTS
            invariant
                0 <= r <= GRID_POINTS,
                grid.valid(),
                grid.in_world(*self),
                half == grid.spec_half_size(),
                low_x == grid.spec_min_x(*self),
                low_y == grid.spec_min_y(*self),
                coords@.len() == r * GRID_POINTS,
                forall|k: int|
                    0 <= k < coords@.len() ==> #[trigger] coords@[k] == grid.lattice_point(
                        *self,
                        k,
                    ),
                forall|k: int|
                    0 <= k < coords@.len() ==> grid.contains(*self, #[trigger] coords@[k]),
            decreases GRID_POINTS - r,
        {
            proof {
                lemma_lattice_offset_bounds(half as int, r as int);
            }
            let dy: i128 = ((2 * r + 1) as i128 * half) / (GRID_POINTS as i128);
            let y: i64 = (low_y + dy) as i64;
            let mut c: i64 = 0;
            while c < GRID_POINTS
                invariant
                    0 <= c <= GRID_POINTS,
                    0 <= r < GRID_POINTS,
                    grid.valid(),
                    grid.in_world(*self),
                    half == grid.spec_half_size(),
                    low_x == grid.spec_min_x(*self),
                    low_y == grid.spec_min_y(*self),
                    y == low_y + lattice_offset(half as int, r as int),
                    0 <= lattice_offset(half as int, r as int) < 2 * half,
                    coords@.len() == r * GRID_POINTS + c,
                    forall|k: int|
                        0 <= k < coords@.len() ==> #[trigger] coords@[k] == grid.lattice_point(
                            *self,
                            k,
                        ),
                    forall|k: int|
                        0 <= k < coords@.len() ==> grid.contains(*self, #[trigger] coords@[k]),
                decreases GRID_POINTS - c,
            {
                proof {
                    lemma_lattice_offset_bounds(half as int, c as int);
                }
                let dx: i128 = ((2 * c + 1) as i128 * half) / (GRID_POINTS as i128);
                let point = Position { x: (low_x + dx) as i64, y };
                proof {
                    let k: int = r * GRID_POINTS + c;
                    assert(k / (GRID_POINTS as int) == r && k % (GRID_POINTS as int) == c);
                    assert(point == grid.lattice_point(*self, k));
                }
                coords.push(point);
                c = c + 1;
            }
            r = r + 1;
        }
        coords
    }
}

/// A candidate point's offset stays inside the zone's side.
pub proof fn lemma_lattice_offset_bounds(half: int, k: int)
    requires
        1 <= half,
        0 <= k < GRID_POINTS,
    ensures
        0 <= (2 * k + 1) * half <= 29 * half,
        0 <= lattice_offset(half, k) < 2 * half,
{
    assert(0 <= (2 * k + 1) * half <= 29 * half) by (nonlinear_arith)
        requires
            1 <= half,
            0 <= k < 15,
    ;
}

/// The zones tile the plane: a position lies in the zone that `zone_of`
/// names, and in no other.
pub proof fn lemma_partition(grid: ZoneGrid, p: Position, zone: Zone)
    requires
        grid.valid(),
    ensures
        grid.contains(grid.spec_zone_of(p), p),
        grid.contains(zone, p) <==> zone == grid.spec_zone_of(p),
{
    lemma_index_brackets(grid, p.x as int);
    lemma_index_brackets(grid, p.y as int);
    lemma_index_range(grid, p.x as int);
    lemma_index_range(grid, p.y as int);
    if grid.contains(zone, p) {
        lemma_floor_unique(p.x + grid.spec_half_size(), grid.side(), zone.col as int);
        lemma_floor_unique(p.y + grid.spec_half_size(), grid.side(), zone.row as int);
    }
}

/// No two zones overlap: zones that share a position are the same zone.
pub proof fn lemma_zones_disjoint(grid: ZoneGrid, a: Zone, b: Zone, p: Position)
    requires
        grid.valid(),
        grid.contains(a, p),
        grid.contains(b, p),
    ensures
        a == b,
{
    lemma_partition(grid, p, a);
    lemma_partition(grid, p, b);
}

/// Along one axis, the centre of a zone next to the player's zone is at most
/// three half sides from the player.
pub proof fn lemma_neighbor_axis_reach(grid: ZoneGrid, c: int, d: int)
    requires
        grid.valid(),
        -1 <= d <= 1,
    ensures
        -3 * grid.spec_half_size() <= (grid.index_of(c) + d) * grid.side() - c <= 3
            * grid.spec_half_size(),
{
    lemma_index_brackets(grid, c);
    let q = grid.index_of(c);
    let s = grid.side();
    assert((q + d) * s == q * s + d * s) by (nonlinear_arith);
    assert(-s <= d * s <= s) by (nonlinear_arith)
        requires
            -1 <= d <= 1,
            s >= 0,
    ;
}

/// Around a position with room, every zone of the neighbourhood fits the
/// coordinate range.
pub proof fn lemma_roomy(grid: ZoneGrid, p: Position, i: int)
    requires
        grid.valid(),
        grid.roomy(p),
        0 <= i < 9,
    ensures
        grid.in_world(grid.spec_zone_of(p).spec_neighbors()[i]),
{
    let home = grid.spec_zone_of(p);
    let zone: Zone = home.spec_neighbors()[i];
    lemma_index_range(grid, p.x as int);
    lemma_index_range(grid, p.y as int);
    let dr: int = zone.row - home.row;
    let dc: int = zone.col - home.col;
    assert(-1 <= dr <= 1 && -1 <= dc <= 1);
    lemma_neighbor_axis_reach(grid, p.x as int, dc);
    lemma_neighbor_axis_reach(grid, p.y as int, dr);
}

/// The zones of a neighbourhood that is not cut off by the ends of the
/// coordinate range are nine different zones.
pub proof fn lemma_neighbors_distinct(zone: Zone, i: int, j: int)
    requires
        zone.has_neighbors(),
        0 <= i < 9,
        0 <= j < 9,
        i != j,
    ensures
        zone.spec_neighbors()[i] != zone.spec_neighbors()[j],
{
}

/// The neighbourhood has nine entries, holds the zone itself, and holds
/// nothing farther than one step away.
pub proof fn lemma_neighborhood_shape(zone: Zone, i: int)
    requires
        0 <= i < 9,
    ensures
        zone.spec_neighbors().len() == 9,
        zone.spec_neighbors().contains(zone),
        zone.spec_neighbors()[i].chebyshev(zone) <= 1,
{
    assert(zone.spec_neighbors()[8] == zone);
}

/// Floor division brackets its argument: `q * d <= a < q * d + d`.
pub proof fn lemma_floor_brackets(a: int, d: int)
    requires
        d > 0,
    ensures
        (a / d) * d <= a < (a / d) * d + d,
{
    lemma_fundamental_div_mod(a, d);
    lemma_mod_bound(a, d);
    assert((a / d) * d == d * (a / d)) by (nonlinear_arith);
}

/// The only `q` with `q * d <= a < q * d + d` is the floor of `a / d`.
pub proof fn lemma_floor_unique(a: int, d: int, q: int)
    requires
        d > 0,
        q * d <= a < q * d + d,
    ensures
        q == a / d,
{
    lemma_fundamental_div_mod_converse(a, d, q, a - q * d);
}

/// A product of bounded factors is bounded by the product of the bounds.
pub proof fn lemma_product_bound(a: int, b: int, bound_a: int, bound_b: int)
    requires
        -bound_a <= a <= bound_a,
        0 <= b <= bound_b,
    ensures
        -(bound_a * bound_b) <= a * b <= bound_a * bound_b,
{
    assert(-(bound_a * bound_b) <= a * b <= bound_a * bound_b) by (nonlinear_arith)
        requires
            -bound_a <= a <= bound_a,
            0 <= b <= bound_b,
    ;
}

/// Squares grow with the magnitude of their argument.
pub proof fn lemma_square_bound(a: int, bound: int)
    requires
        -bound <= a <= bound,
    ensures
        0 <= a * a <= bound * bound,
{
    assert(0 <= a * a <= bound * bound) by (nonlinear_arith)
        requires
            -bound <= a <= bound,
    ;
}

/// Beyond the bound, the square is beyond the bound's square.
pub proof fn lemma_square_exceeds(a: int, bound: int)
    requires
        0 <= bound,
        a > bound || a < -bound,
    ensures
        a * a > bound * bound,
{
    assert(a * a > bound * bound) by (nonlinear_arith)
        requires
            0 <= bound,
            a > bound || a < -bound,
    ;
}

/// Floor division of `a` by a positive `d`, in machine integers.
pub fn floor_div(a: i128, d: i128) -> (q: i128)
    requires
        d > 0,
        a > i128::MIN,
    ensures
        q == a / d,
{
    let t: i128 = a / d;
    let r: i128 = a % d;
    if r < 0 {
        proof {
            let m: int = -(a as int);
            lemma_fundamental_div_mod(m, d as int);
            lemma_mod_bound(m, d as int);
            let tq: int = m / (d as int);
            let tr: int = m % (d as int);
            assert(a == (t - 1) * d + (d - tr)) by (nonlinear_arith)
                requires
                    m == d * tq + tr,
                    a == -m,
                    t == -tq,
            ;
            lemma_fundamental_div_mod_converse(a as int, d as int, t - 1, d - tr);
        }
        t - 1
    } else {
        proof {
            if a < 0 {
                let m: int = -(a as int);
                lemma_fundamental_div_mod(m, d as int);
                let tq: int = m / (d as int);
                assert(a == t * d + 0) by (nonlinear_arith)
                    requires
                        m == d * tq + 0,
                        a == -m,
                        t == -tq,
                ;
                lemma_fundamental_div_mod_converse(a as int, d as int, t as int, 0);
            }
        }
        t
    }
}

} // verus!
