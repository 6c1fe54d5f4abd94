//! The lengths that govern streaming, checked once at start-up.

use vstd::prelude::*;
use crate::grid::lemma_index_range;
use crate::grid::lemma_neighbor_axis_reach;
use crate::grid::lemma_square_bound;
use crate::grid::ConfigError;
use crate::grid::Position;
use crate::grid::Zone;
use crate::grid::ZoneGrid;

verus! {

/// Despawn distance where nothing else is asked for: five half sides.
pub const STANDARD_DESPAWN_DISTANCE: i64 = 1500;

/// Far-eviction distance where nothing else is asked for: eight half sides.
pub const STANDARD_FAR_DISTANCE: i64 = 2400;

/// Whether a despawn distance clears the spawn neighbourhood of a grid of
/// half side `half`. The player is at most `3 * half` away, along each axis,
/// from the centre of any zone of the neighbourhood, so the square of that
/// distance is at most `18 * half * half`.
pub open spec fn clears_neighborhood(half: int, despawn: int) -> bool {
    despawn > 0 && despawn * despawn > 18 * half * half
}

/// A grid with the two distances at which objects are given up: zones whose
/// centre is beyond the despawn distance are despawned as a whole, and single
/// objects beyond the far distance are evicted wherever they are.
#[derive(Clone, Copy, Debug)]
pub struct StreamConfig {
    grid: ZoneGrid,
    despawn_distance: i64,
    far_distance: i64,
}

impl StreamConfig {
    pub closed spec fn spec_grid(&self) -> ZoneGrid {
        self.grid
    }

    pub closed spec fn spec_despawn_distance(&self) -> int {
        self.despawn_distance as int
    }

    pub closed spec fn spec_far_distance(&self) -> int {
        self.far_distance as int
    }

    /// What every configuration satisfies.
    pub open spec fn valid(&self) -> bool {
        &&& self.spec_grid().valid()
        &&& clears_neighborhood(self.spec_grid().spec_half_size(), self.spec_despawn_distance())
        &&& self.spec_far_distance() >= self.spec_despawn_distance()
    }

    #[verifier::type_invariant]
    pub open spec fn type_inv(self) -> bool {
        self.valid()
    }

    /// Checks the three lengths and joins them into a configuration. The
    /// first fault found, in the order of the parameters, is the one reported.
    pub fn new(half_size: i64, despawn_distance: i64, far_distance: i64) -> (made: Result<
        StreamConfig,
        ConfigError,
    >)
        ensures
            made == Err::<StreamConfig, ConfigError>(ConfigError::NonPositiveCellSize)
                <==> half_size <= 0,
            made == Err::<StreamConfig, ConfigError>(ConfigError::CellSizeTooLarge)
                <==> half_size > crate::grid::MAX_HALF_SIZE,
            made == Err::<StreamConfig, ConfigError>(ConfigError::DespawnTooClose) <==> 1
                <= half_size <= crate::grid::MAX_HALF_SIZE && !clears_neighborhood(
                half_size as int,
                despawn_distance as int,
            ),
            made == Err::<StreamConfig, ConfigError>(ConfigError::FarBelowDespawn) <==> 1
                <= half_size <= crate::grid::MAX_HALF_SIZE && clears_neighborhood(
                half_size as int,
                despawn_distance as int,
            ) && far_distance < despawn_distance,
            made matches Ok(config) ==> {
                &&& config.valid()
                &&& config.spec_grid().spec_half_size() == half_size
                &&& config.spec_despawn_distance() == despawn_distance
                &&& config.spec_far_distance() == far_distance
            },
    {
        let grid = match ZoneGrid::new(half_size) {
            Ok(grid) => grid,
            Err(fault) => {
                return Err(fault);
            },
        };
        if despawn_distance <= 0 {
            return Err(ConfigError::DespawnTooClose);
        }
        proof {
            lemma_square_bound(half_size as int, crate::grid::MAX_HALF_SIZE as int);
            lemma_square_bound(despawn_distance as int, i64::MAX as int);
            assert(18 * half_size * half_size == 18 * (half_size * half_size)) by (nonlinear_arith);
        }
        let reach: i128 = 18 * ((half_size as i128) * (half_size as i128));
        let despawn: i128 = (despawn_distance as i128) * (despawn_distance as i128);
        if despawn <= reach {
            return Err(ConfigError::DespawnTooClose);
        }
        if far_distance < despawn_distance {
            return Err(ConfigError::FarBelowDespawn);
        }
        Ok(StreamConfig { grid, despawn_distance, far_distance })
    }

    /// Zones of half side 300, despawned beyond 1500 and swept beyond 2400.
    pub fn standard() -> (config: StreamConfig)
        ensures
            config.valid(),
            config.spec_grid().spec_half_size() == crate::grid::STANDARD_HALF_SIZE,
            config.spec_despawn_distance() == STANDARD_DESPAWN_DISTANCE,
            config.spec_far_distance() == STANDARD_FAR_DISTANCE,
    {
        StreamConfig {
            grid: ZoneGrid::standard(),
            despawn_distance: STANDARD_DESPAWN_DISTANCE,
            far_distance: STANDARD_FAR_DISTANCE,
        }
    }

    pub fn grid(&self) -> (grid: &ZoneGrid)
        ensures
            *grid == self.spec_grid(),
            grid.valid(),
    {
        proof {
            use_type_invariant(self);
        }
        &self.grid
    }

    pub fn despawn_distance(&self) -> (dist: i64)
        ensures
            dist == self.spec_despawn_distance(),
            self.valid(),
    {
        proof {
            use_type_invariant(self);
        }
        self.despawn_distance
    }

    pub fn far_distance(&self) -> (dist: i64)
        ensures
            dist == self.spec_far_distance(),
            self.valid(),
    {
        proof {
            use_type_invariant(self);
        }
        self.far_distance
    }
}

/// Hysteresis: the centre of every zone in the spawn neighbourhood of the
/// player's zone is within the despawn distance of the player, so a zone
/// that is spawned for a position is never despawned for the same position.
pub proof fn lemma_hysteresis(config: StreamConfig, player: Position, i: int)
    requires
        config.valid(),
        0 <= i < 9,
    ensures
        !config.spec_grid().spec_farther_than(
            config.spec_grid().spec_zone_of(player).spec_neighbors()[i],
            player,
            config.spec_despawn_distance(),
        ),
{
    let grid = config.spec_grid();
    let home = grid.spec_zone_of(player);
    let zone: Zone = home.spec_neighbors()[i];
    let h = grid.spec_half_size();
    lemma_index_range(grid, player.x as int);
    lemma_index_range(grid, player.y as int);
    let dr: int = zone.row - home.row;
    let dc: int = zone.col - home.col;
    assert(-1 <= dr <= 1 && -1 <= dc <= 1);
    lemma_neighbor_axis_reach(grid, player.x as int, dc);
    lemma_neighbor_axis_reach(grid, player.y as int, dr);
    let dx: int = grid.center_x(zone) - player.x;
    let dy: int = grid.center_y(zone) - player.y;
    lemma_square_bound(dx, 3 * h);
    lemma_square_bound(dy, 3 * h);
    assert((3 * h) * (3 * h) + (3 * h) * (3 * h) == 18 * h * h) by (nonlinear_arith);
}

/// Where the far distance reaches across the whole neighbourhood, which it
/// does from `4 * sqrt(2)` half sides on, no point of a zone around the
/// player is beyond it: what is created around the player is not swept away
/// while the player stands still.
pub proof fn lemma_neighborhood_within_far(
    config: StreamConfig,
    player: Position,
    i: int,
    p: Position,
)
    requires
        config.valid(),
        0 <= i < 9,
        config.spec_far_distance() * config.spec_far_distance() >= 32
            * config.spec_grid().spec_half_size() * config.spec_grid().spec_half_size(),
        config.spec_grid().contains(
            config.spec_grid().spec_zone_of(player).spec_neighbors()[i],
            p,
        ),
    ensures
        !crate::grid::spec_exceeds(p.x - player.x, p.y - player.y, config.spec_far_distance()),
{
    let grid = config.spec_grid();
    let home = grid.spec_zone_of(player);
    let zone: Zone = home.spec_neighbors()[i];
    let h = grid.spec_half_size();
    lemma_index_range(grid, player.x as int);
    lemma_index_range(grid, player.y as int);
    let dr: int = zone.row - home.row;
    let dc: int = zone.col - home.col;
    assert(-1 <= dr <= 1 && -1 <= dc <= 1);
    lemma_neighbor_axis_reach(grid, player.x as int, dc);
    lemma_neighbor_axis_reach(grid, player.y as int, dr);
    let dx: int = p.x - player.x;
    let dy: int = p.y - player.y;
    lemma_square_bound(dx, 4 * h);
    lemma_square_bound(dy, 4 * h);
    assert((4 * h) * (4 * h) + (4 * h) * (4 * h) == 32 * h * h) by (nonlinear_arith);
}

} // verus!
