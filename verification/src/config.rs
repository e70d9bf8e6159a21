//! Parameters of a run and the test that they describe a world the
//! simulation can be started in.

use crate::grid::{Grid, GridSpec};
use vstd::prelude::*;

verus! {

/// Most players that a run can have: one block of the start layout each.
pub const MAX_PLAYERS: usize = 8;

/// Distance between neighbouring particles in the start layout.
pub const SPACING: i32 = 10;

/// What is fixed when a run starts. The cell side is the distance within
/// which two particles act on each other.
#[derive(Clone, Copy, Debug, PartialEq, Eq, Structural)]
pub struct Config {
    pub world_width: i32,
    pub world_height: i32,
    pub cell_size: i32,
    pub player_count: usize,
    pub particles_per_player: usize,
}

/// Why a run cannot be started with the parameters given.
#[derive(Clone, Copy, Debug, PartialEq, Eq, Structural)]
pub enum ConfigurationError {
    /// There is no player.
    NoPlayers,
    /// There are more players than blocks in the start layout.
    TooManyPlayers,
    /// A player has no particle.
    NoParticles,
    /// The world's width or height is zero or negative.
    NonPositiveWorld,
    /// The cell side is not positive, or does not divide the world's width
    /// and height evenly.
    CellSizeMismatch,
    /// The grid would have more than `i32::MAX` cells.
    TooManyCells,
    /// A player has more particles than its block of the start layout has
    /// places, or there are more particles in all than can be numbered.
    TooManyParticles,
}

impl Config {
    /// The grid that the parameters describe.
    pub open spec fn grid(self) -> GridSpec {
        GridSpec {
            width: self.world_width as int,
            height: self.world_height as int,
            cell: self.cell_size as int,
        }
    }

    /// Columns of places in one player's block of the start layout.
    pub open spec fn columns(self) -> int {
        (self.world_width / 5 + SPACING - 1) / (SPACING as int)
    }

    /// Rows of places in one player's block of the start layout.
    pub open spec fn rows(self) -> int {
        (self.world_height / 3 + SPACING - 1) / (SPACING as int)
    }

    /// Places in one player's block of the start layout.
    pub open spec fn capacity(self) -> int {
        self.columns() * self.rows()
    }

    /// Particles in all.
    pub open spec fn particle_count(self) -> int {
        self.player_count * self.particles_per_player
    }

    /// The first fault of the parameters, if they have one.
    pub open spec fn fault(self) -> Option<ConfigurationError> {
        if self.player_count == 0 {
            Some(ConfigurationError::NoPlayers)
        } else if self.player_count > MAX_PLAYERS {
            Some(ConfigurationError::TooManyPlayers)
        } else if self.particles_per_player == 0 {
            Some(ConfigurationError::NoParticles)
        } else if self.world_width <= 0 || self.world_height <= 0 {
            Some(ConfigurationError::NonPositiveWorld)
        } else if self.cell_size <= 0 || self.world_width as int % self.cell_size as int != 0
            || self.world_height as int % self.cell_size as int != 0 {
            Some(ConfigurationError::CellSizeMismatch)
        } else if self.grid().bucket_count() > i32::MAX {
            Some(ConfigurationError::TooManyCells)
        } else if self.particles_per_player > self.capacity() || self.particle_count()
            > usize::MAX {
            Some(ConfigurationError::TooManyParticles)
        } else {
            None
        }
    }

    /// Whether a run can be started with these parameters.
    pub open spec fn valid(self) -> bool {
        self.fault() is None
    }

    /// Columns of places in one player's block of the start layout.
    pub fn layout_columns(&self) -> (n: i32)
        requires
            self.world_width > 0,
        ensures
            n == self.columns(),
            0 <= n,
            (n - 1) * SPACING < self.world_width / 5,
    {
        (self.world_width / 5 + (SPACING - 1)) / SPACING
    }

    /// Rows of places in one player's block of the start layout.
    pub fn layout_rows(&self) -> (n: i32)
        requires
            self.world_height > 0,
        ensures
            n == self.rows(),
            0 <= n,
            (n - 1) * SPACING < self.world_height / 3,
    {
        (self.world_height / 3 + (SPACING - 1)) / SPACING
    }

    /// Tests the parameters and names their first fault.
    pub fn validate(&self) -> (r: Result<(), ConfigurationError>)
        ensures
            match r {
                Ok(_) => self.fault() is None,
                Err(e) => self.fault() == Some(e),
            },
    {
        if self.player_count == 0 {
            return Err(ConfigurationError::NoPlayers);
        }
        if self.player_count > MAX_PLAYERS {
            return Err(ConfigurationError::TooManyPlayers);
        }
        if self.particles_per_player == 0 {
            return Err(ConfigurationError::NoParticles);
        }
        if self.world_width <= 0 || self.world_height <= 0 {
            return Err(ConfigurationError::NonPositiveWorld);
        }
        if self.cell_size <= 0 || self.world_width % self.cell_size != 0 || self.world_height
            % self.cell_size != 0 {
            return Err(ConfigurationError::CellSizeMismatch);
        }
        match Grid::new(self.world_width, self.world_height, self.cell_size) {
            Ok(_) => {},
            Err(_) => {
                return Err(ConfigurationError::TooManyCells);
            },
        }
        let columns: u64 = self.layout_columns() as u64;
        let rows: u64 = self.layout_rows() as u64;
        assert(columns * rows <= 0x7fff_ffff * 0x7fff_ffff) by (nonlinear_arith)
            requires
                columns <= 0x7fff_ffff,
                rows <= 0x7fff_ffff,
        ;
        let capacity: u64 = columns * rows;
        if self.particles_per_player as u64 > capacity {
            return Err(ConfigurationError::TooManyParticles);
        }
        match self.player_count.checked_mul(self.particles_per_player) {
            Some(_) => Ok(()),
            None => Err(ConfigurationError::TooManyParticles),
        }
    }
}

} // verus!
