//! What can be spawned: rocks of a material and a bulk.

use vstd::prelude::*;

verus! {

/// Rolls are drawn from `0..ROLL_RANGE`.
pub const ROLL_RANGE: u32 = 1000;

/// Rolls below this give ice.
pub const ICE_PROB: u32 = 300;

/// This many rolls, right above those for ice, give metal.
pub const METAL_PROB: u32 = 100;

/// Hit points per unit of bulk.
pub const LIFE_MOD: i32 = 10;

/// Material of a rock.
#[derive(Clone, Copy, Debug, Default, PartialEq, Eq, Hash, Structural)]
pub enum Rock {
    #[default]
    Stone,
    Ice,
    Metal,
}

/// A rock of a given bulk and material.
#[derive(Clone, Copy, Debug, PartialEq, Eq, Hash, Structural)]
pub struct Astroid {
    pub bulk: u8,
    pub kind: Rock,
}

/// One variant of spawnable object. Zones count what they owe per seed.
#[derive(Clone, Copy, Debug, PartialEq, Eq, Hash, Structural)]
pub enum Seed {
    Rock(Astroid),
}

/// The material that a roll from `0..ROLL_RANGE` stands for.
pub open spec fn spec_rock_of_roll(roll: int) -> Rock {
    if roll < ICE_PROB {
        Rock::Ice
    } else if roll < ICE_PROB + METAL_PROB {
        Rock::Metal
    } else {
        Rock::Stone
    }
}

/// The bulk of a rock of size class `size`: the square of the class counted
/// from one, cut to eight bits.
pub open spec fn spec_bulk_of_size(size: int) -> int {
    ((size + 1) * (size + 1)) % 256
}

impl Rock {
    /// A number that tells the materials apart.
    pub open spec fn spec_code(&self) -> int {
        match self {
            Rock::Stone => 0,
            Rock::Ice => 1,
            Rock::Metal => 2,
        }
    }

    pub fn code(&self) -> (code: i64)
        ensures
            code == self.spec_code(),
    {
        match self {
            Rock::Stone => 0,
            Rock::Ice => 1,
            Rock::Metal => 2,
        }
    }

    /// The material for a roll: ice for the lowest `ICE_PROB` rolls, metal
    /// for the next `METAL_PROB`, stone for all others.
    pub fn from_roll(roll: u32) -> (kind: Rock)
        ensures
            kind == spec_rock_of_roll(roll as int),
    {
        if roll < ICE_PROB {
            Rock::Ice
        } else if roll < ICE_PROB + METAL_PROB {
            Rock::Metal
        } else {
            Rock::Stone
        }
    }
}

impl Astroid {
    /// The rock of size class `size` and material `kind`.
    pub fn of_size(size: u8, kind: Rock) -> (rock: Astroid)
        ensures
            rock.kind == kind,
            rock.bulk == spec_bulk_of_size(size as int),
    {
        let side: u32 = size as u32 + 1;
        assert(side * side <= 256 * 256) by (nonlinear_arith)
            requires
                0 <= side <= 256,
        ;
        let grown: u32 = side * side;
        Astroid { bulk: (grown % 256) as u8, kind }
    }

    /// What a rock breaks into when it is destroyed: pieces of half its
    /// bulk, or nothing if it cannot be halved.
    pub fn shard(&self) -> (piece: Option<Astroid>)
        ensures
            self.bulk <= 1 <==> piece is None,
            piece matches Some(rock) ==> rock.kind == self.kind && rock.bulk == self.bulk / 2,
    {
        if self.bulk <= 1 {
            None
        } else {
            Some(Astroid { bulk: self.bulk / 2, kind: self.kind })
        }
    }

    /// Hit points of the rock: `LIFE_MOD` for each unit of bulk.
    pub fn health(&self) -> (life: i32)
        ensures
            life == self.bulk * LIFE_MOD,
    {
        self.bulk as i32 * LIFE_MOD
    }
}

impl Seed {
    /// The pair of integers under which the seed is filed: bulk and material.
    pub open spec fn spec_key(&self) -> (i64, i64) {
        match self {
            Seed::Rock(rock) => (rock.bulk as i64, rock.kind.spec_code() as i64),
        }
    }

    pub fn key(&self) -> (key: (i64, i64))
        ensures
            key == self.spec_key(),
    {
        match self {
            Seed::Rock(rock) => (rock.bulk as i64, rock.kind.code()),
        }
    }
}

/// Different seeds are filed under different keys.
pub proof fn lemma_key_injective(a: Seed, b: Seed)
    requires
        a.spec_key() == b.spec_key(),
    ensures
        a == b,
{
}

} // verus!
