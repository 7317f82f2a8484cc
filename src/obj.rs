//! Objects, grounds and tiles, with the static attributes of each kind of object.

use vstd::prelude::*;
use crate::coords::{Coord, is_dir};

verus! {

/// A tile holds zero or one object, and objects can be moved.
#[derive(Clone, Copy, PartialEq, Eq, Debug, Structural)]
pub enum Obj {
    /// Hard to move, it just stays there, being a wall.
    Wall,
    /// Does more damages. Great weapon, terrible for protection.
    Sword,
    /// Does zero damages. Great for protection, terrible weapon.
    Shield,
    /// Can mine walls.
    Pickaxe,
    /// The average pushable object.
    Rock,
    /// A door that objects go through to leave the level.
    Exit,
    /// Grants wall-through vision to the player when adjacent.
    VisionGem,
    /// Restores health when eaten.
    Heart,
    /// Grants a redo when eaten.
    RedoHeart,
    /// Like a wall, but a key opens it.
    Door,
    /// Opens a door.
    Key,
    /// Pulls and is pulled.
    Rope,
    /// Vision-blocking pushable object.
    Bush,
    /// The player.
    Bunny { hp: i32, max_hp: i32 },
    /// The basic enemy.
    Slime { hp: i32, move_token: bool },
    /// An enemy that leaves shrooms behind it.
    Shroomer { hp: i32, move_token: bool },
    /// Stationary spore that attacks an adjacent player.
    Shroom { move_token: bool },
    /// Patrols back and forth along its facing.
    Fish { direction: Coord, move_token: bool },
}

/// Lowest hit points (and maximum hit points) that an object of a world may
/// hold, so that taking a hit never leaves the range of `i32`.
pub const HP_FLOOR: i32 = -1_000_000_000;

impl Obj {
    pub open spec fn spec_mass(&self) -> i32 {
        match self {
            Obj::Wall | Obj::Door | Obj::Shroom { .. } => 10,
            Obj::Bunny { .. } | Obj::Slime { .. } | Obj::Shroomer { .. } => 3,
            _ => 1,
        }
    }

    /// Resistance to being pushed: a push succeeds while the pusher's force
    /// covers the sum of the masses of what it pushes.
    #[verifier::when_used_as_spec(spec_mass)]
    pub fn mass(&self) -> (r: i32)
        ensures
            r == self.spec_mass(),
            1 <= r <= 10,
    {
        match self {
            Obj::Wall | Obj::Door | Obj::Shroom { .. } => 10,
            Obj::Bunny { .. } | Obj::Slime { .. } | Obj::Shroomer { .. } => 3,
            _ => 1,
        }
    }

    pub open spec fn spec_damages(&self) -> i32 {
        match self {
            Obj::Sword => 3,
            Obj::Shield | Obj::Exit | Obj::Heart | Obj::RedoHeart => 0,
            Obj::Slime { .. } => 2,
            Obj::Shroomer { .. } => 2,
            _ => 1,
        }
    }

    /// Damages dealt by this object when it is pushed, in vain, into a target
    /// that has hit points.
    #[verifier::when_used_as_spec(spec_damages)]
    pub fn damages(&self) -> (r: i32)
        ensures
            r == self.spec_damages(),
            0 <= r <= 3,
    {
        match self {
            Obj::Sword => 3,
            Obj::Shield | Obj::Exit | Obj::Heart | Obj::RedoHeart => 0,
            Obj::Slime { .. } => 2,
            Obj::Shroomer { .. } => 2,
            _ => 1,
        }
    }

    pub open spec fn spec_hp(&self) -> Option<i32> {
        match self {
            Obj::Bunny { hp, .. } | Obj::Slime { hp, .. } | Obj::Shroomer { hp, .. } => Some(*hp),
            _ => None,
        }
    }

    /// The hit points of an object that can take damages.
    #[verifier::when_used_as_spec(spec_hp)]
    pub fn hp(&self) -> (r: Option<i32>)
        ensures
            r == self.spec_hp(),
    {
        match self {
            Obj::Bunny { hp, .. } | Obj::Slime { hp, .. } | Obj::Shroomer { hp, .. } => Some(*hp),
            _ => None,
        }
    }

    /// The object after losing `damages` hit points; objects without hit points
    /// are unaffected. Whether it survives is for the caller to decide.
    pub open spec fn damaged(self, damages: i32) -> Obj {
        match self {
            Obj::Bunny { hp, max_hp } => Obj::Bunny { hp: (hp - damages) as i32, max_hp },
            Obj::Slime { hp, move_token } => Obj::Slime { hp: (hp - damages) as i32, move_token },
            Obj::Shroomer { hp, move_token } => Obj::Shroomer {
                hp: (hp - damages) as i32,
                move_token,
            },
            _ => self,
        }
    }

    /// Loses `damages` hit points; killing hits are handled by the caller.
    pub fn take_damage(&mut self, damages: i32)
        requires
            0 <= damages,
            old(self).spec_hp() is Some ==> old(self).spec_hp()->0 - damages >= i32::MIN,
        ensures
            *final(self) == old(self).damaged(damages),
    {
        match self {
            Obj::Bunny { hp, .. } => *hp = *hp - damages,
            Obj::Slime { hp, .. } => *hp = *hp - damages,
            Obj::Shroomer { hp, .. } => *hp = *hp - damages,
            _ => {},
        }
    }

    pub open spec fn spec_blocks_vision(&self) -> bool {
        self is Wall || self is Bush
    }

    /// Can the player see over it?
    #[verifier::when_used_as_spec(spec_blocks_vision)]
    pub fn blocks_vision(&self) -> (r: bool)
        ensures
            r == self.spec_blocks_vision(),
    {
        matches!(self, Obj::Wall | Obj::Bush)
    }

    pub open spec fn spec_is_enemy(&self) -> bool {
        self is Slime || self is Shroomer
    }

    /// Agents hostile to the player.
    #[verifier::when_used_as_spec(spec_is_enemy)]
    pub fn is_enemy(&self) -> (r: bool)
        ensures
            r == self.spec_is_enemy(),
    {
        matches!(self, Obj::Slime { .. } | Obj::Shroomer { .. })
    }

    /// Objects that act on their own after the player's move.
    pub open spec fn is_agent(self) -> bool {
        self is Slime || self is Shroomer || self is Shroom || self is Fish
    }

    /// The object with its move token set to `token` (agents only).
    pub open spec fn with_token(self, token: bool) -> Obj {
        match self {
            Obj::Slime { hp, .. } => Obj::Slime { hp, move_token: token },
            Obj::Shroomer { hp, .. } => Obj::Shroomer { hp, move_token: token },
            Obj::Shroom { .. } => Obj::Shroom { move_token: token },
            Obj::Fish { direction, .. } => Obj::Fish { direction, move_token: token },
            _ => self,
        }
    }

    pub fn give_move_token(&mut self)
        ensures
            *final(self) == old(self).with_token(true),
    {
        match self {
            Obj::Slime { move_token, .. } => *move_token = true,
            Obj::Shroomer { move_token, .. } => *move_token = true,
            Obj::Shroom { move_token } => *move_token = true,
            Obj::Fish { move_token, .. } => *move_token = true,
            _ => {},
        }
    }

    pub open spec fn spec_has_move_token(&self) -> bool {
        match self {
            Obj::Slime { move_token, .. }
            | Obj::Shroomer { move_token, .. }
            | Obj::Shroom { move_token }
            | Obj::Fish { move_token, .. } => *move_token,
            _ => false,
        }
    }

    /// Has this agent yet to act in the current turn?
    #[verifier::when_used_as_spec(spec_has_move_token)]
    pub fn has_move_token(&self) -> (r: bool)
        ensures
            r == self.spec_has_move_token(),
    {
        match self {
            Obj::Slime { move_token, .. }
            | Obj::Shroomer { move_token, .. }
            | Obj::Shroom { move_token }
            | Obj::Fish { move_token, .. } => *move_token,
            _ => false,
        }
    }

    /// Removes the move token, telling whether there was one.
    pub fn take_move_token(&mut self) -> (r: bool)
        ensures
            r == old(self).spec_has_move_token(),
            *final(self) == old(self).with_token(false),
    {
        let had_move_token = self.has_move_token();
        match self {
            Obj::Slime { move_token, .. } => *move_token = false,
            Obj::Shroomer { move_token, .. } => *move_token = false,
            Obj::Shroom { move_token } => *move_token = false,
            Obj::Fish { move_token, .. } => *move_token = false,
            _ => {},
        }
        had_move_token
    }

    /// What a world may hold: hit points far from the edge of `i32`, and a fish
    /// facing one of the four directions.
    pub open spec fn is_valid(self) -> bool {
        &&& (self.spec_hp() is Some ==> self.spec_hp()->0 >= HP_FLOOR)
        &&& (self matches Obj::Bunny { max_hp, .. } ==> max_hp >= HP_FLOOR)
        &&& (self matches Obj::Fish { direction, .. } ==> is_dir(direction))
    }
}

/// The ground below the potential object of a tile; it does not move.
#[derive(Clone, Copy, PartialEq, Eq, Debug, Structural)]
pub enum Ground {
    /// The classic ground, nothing special.
    Floor,
}

#[derive(Clone, Copy, PartialEq, Eq, Debug, Structural)]
pub struct Tile {
    pub ground: Ground,
    pub obj: Option<Obj>,
    /// Recomputed from scratch by each visibility pass.
    pub visible: bool,
}

impl Tile {
    pub fn floor() -> (r: Tile)
        ensures
            r == (Tile { ground: Ground::Floor, obj: None, visible: false }),
    {
        Tile { ground: Ground::Floor, obj: None, visible: false }
    }

    pub fn obj(obj: Obj) -> (r: Tile)
        ensures
            r == (Tile { ground: Ground::Floor, obj: Some(obj), visible: false }),
    {
        Tile { ground: Ground::Floor, obj: Some(obj), visible: false }
    }

    pub open spec fn is_valid(self) -> bool {
        self.obj matches Some(o) ==> o.is_valid()
    }
}

} // verus!
