//! Rooms: one game instance each, with its participants, their roles, the
//! board it owns, and turn dispatch.

use vstd::prelude::*;

use crate::grid::{
    ai_move_transition, move_transition, place_random_transition, place_transition, Entity, Grid,
};

verus! {

/// Outcome of a single action on the board or on a room.
#[derive(PartialEq, Eq, Structural, Clone, Copy, Debug)]
pub enum TurnResult {
    /// The action was legal and the state advanced.
    Good,
    /// The action was illegal; nothing changed.
    Bad,
    /// The action was legal and ended the game.
    GameOver,
}

/// The two asymmetric roles a participant can hold.
#[derive(PartialEq, Eq, Structural, Clone, Copy, Debug)]
pub enum PlayerType {
    Mouse,
    Wall,
}

/// The role the first `(user, role)` pair with this user id holds, if any.
pub open spec fn find_role(players: Seq<(u128, PlayerType)>, uid: u128) -> Option<PlayerType>
    decreases players.len(),
{
    if players.len() == 0 {
        None
    } else if players[0].0 == uid {
        Some(players[0].1)
    } else {
        find_role(players.drop_first(), uid)
    }
}

/// A board as a fresh room builds it: 11 x 11, the Mouse at the center
/// cell, exactly five Walls, the rest Empty.
pub open spec fn spec_default_board(g: Grid) -> bool {
    &&& g.wf()
    &&& g.spec_width() == 11
    &&& g.spec_height() == 11
    &&& g.mouse_row() == 5
    &&& g.mouse_col() == 5
    &&& g.count(Entity::Wall) == 5
}

/// One game instance: up to `max_players` participants, each with a role,
/// and the board they play on.
pub struct Room {
    pub players: Vec<(u128, PlayerType)>,
    pub max_players: u8,
    pub grid: Grid,
}

impl Room {
    /// The board this room owns.
    pub open spec fn spec_grid(self) -> Grid {
        self.grid
    }

    /// Well-formed room: a sound board, no more participants than allowed,
    /// and participants pairwise distinct in id and in role — so a
    /// 2-participant room always holds the two different roles.
    pub open spec fn wf(self) -> bool {
        &&& self.spec_grid().wf()
        &&& self.players@.len() <= self.max_players
        &&& forall|i: int, j: int|
            0 <= i < j < self.players@.len() ==> (#[trigger] self.players@[i]).0
                != (#[trigger] self.players@[j]).0 && self.players@[i].1 != self.players@[j].1
    }

    /// No present participant holds the role `t`.
    pub open spec fn spec_role_available(self, t: PlayerType) -> bool {
        forall|i: int| 0 <= i < self.players@.len() ==> (#[trigger] self.players@[i]).1 != t
    }

    /// A fresh room: the default 11 x 11 board and no participants yet.
    pub fn new(max_players: u8) -> (r: Room)
        ensures
            r.wf(),
            r.players@.len() == 0,
            r.max_players == max_players,
            spec_default_board(r.spec_grid()),
    {
        Room { players: Vec::new(), max_players, grid: Grid::new(11, 11) }
    }

    /// Whether the room still has space for a participant.
    pub fn is_available(&self) -> (r: bool)
        requires
            self.wf(),
        ensures
            r == (self.players@.len() < self.max_players),
    {
        (self.get_player_count() as u8) < self.max_players
    }

    /// Append a participant. The caller must have checked the capacity and
    /// that the role is free.
    pub fn add_player(&mut self, uid: &u128, player_type: &PlayerType)
        requires
            old(self).wf(),
            old(self).players@.len() < old(self).max_players,
            old(self).spec_role_available(*player_type),
            forall|i: int|
                0 <= i < old(self).players@.len() ==> (#[trigger] old(self).players@[i]).0 != uid,
        ensures
            final(self).wf(),
            final(self).players@ == old(self).players@.push((*uid, *player_type)),
            final(self).max_players == old(self).max_players,
            final(self).spec_grid() == old(self).spec_grid(),
    {
        self.players.push((*uid, *player_type));
    }

    /// How many participants the room holds.
    pub fn get_player_count(&self) -> (r: u8)
        requires
            self.wf(),
        ensures
            r == self.players@.len(),
    {
        self.players.len() as u8
    }

    /// The wire form of the room's board.
    pub fn get_grid(&self) -> (r: Vec<u8>)
        requires
            self.wf(),
        ensures
            r@ == self.spec_grid().spec_bytes(),
    {
        self.grid.as_bytes()
    }

    /// In a full 2-participant room, the id of the participant other than
    /// `uid`; nothing otherwise.
    pub fn get_other_player(&self, uid: &u128) -> (r: Option<u128>)
        requires
            self.wf(),
        ensures
            r == if self.players@.len() == 2 {
                Some(
                    if self.players@[0].0 == uid {
                        self.players@[1].0
                    } else {
                        self.players@[0].0
                    },
                )
            } else {
                None::<u128>
            },
    {
        if self.players.len() == 2 {
            if self.players[0].0 == *uid {
                Some(self.players[1].0)
            } else {
                Some(self.players[0].0)
            }
        } else {
            None
        }
    }

    /// Whether no present participant holds the role `t`.
    pub fn role_available(&self, t: &PlayerType) -> (r: bool)
        ensures
            r == self.spec_role_available(*t),
    {
        let mut i: usize = 0;
        while i < self.players.len()
            invariant
                i <= self.players@.len(),
                forall|m: int| 0 <= m < i ==> (#[trigger] self.players@[m]).1 != t,
            decreases self.players@.len() - i,
        {
            if self.players[i].1 == *t {
                return false;
            }
            i += 1;
        }
        true
    }

    /// Whether `uid` already participates in this room.
    pub fn contains_player(&self, uid: &u128) -> (r: bool)
        ensures
            r == exists|i: int| 0 <= i < self.players@.len() && (#[trigger] self.players@[i]).0 == uid,
    {
        let mut i: usize = 0;
        while i < self.players.len()
            invariant
                i <= self.players@.len(),
                forall|m: int| 0 <= m < i ==> (#[trigger] self.players@[m]).0 != uid,
            decreases self.players@.len() - i,
        {
            if self.players[i].0 == *uid {
                return true;
            }
            i += 1;
        }
        false
    }

    /// The role `uid` holds in this room, if it participates.
    fn get_player_type(&self, uid: &u128) -> (r: Option<PlayerType>)
        ensures
            r == find_role(self.players@, *uid),
    {
        let mut i: usize = 0;
        proof {
            assert(self.players@.skip(0) =~= self.players@);
        }
        while i < self.players.len()
            invariant
                i <= self.players@.len(),
                find_role(self.players@, *uid) == find_role(self.players@.skip(i as int), *uid),
            decreases self.players@.len() - i,
        {
            if self.players[i].0 == *uid {
                proof {
                    assert(self.players@.skip(i as int)[0] == self.players@[i as int]);
                }
                return Some(self.players[i].1);
            }
            proof {
                assert(self.players@.skip(i as int).drop_first() =~= self.players@.skip(
                    i as int + 1,
                ));
                assert(self.players@.skip(i as int)[0] == self.players@[i as int]);
            }
            i += 1;
        }
        proof {
            assert(self.players@.skip(i as int).len() == 0);
        }
        None
    }

    /// Dispatch one turn of `uid`: a Mouse participant moves the Mouse to
    /// `(y, x)`, a Wall participant places a Wall there, and anyone else is
    /// turned away with Bad.
    pub fn process_turn(&mut self, uid: &u128, y: &usize, x: &usize) -> (r: TurnResult)
        requires
            old(self).wf(),
            *y < old(self).spec_grid().spec_height(),
            *x < old(self).spec_grid().spec_width(),
        ensures
            final(self).wf(),
            final(self).players@ == old(self).players@,
            final(self).max_players == old(self).max_players,
            match find_role(old(self).players@, *uid) {
                Some(PlayerType::Mouse) => move_transition(
                    old(self).spec_grid(),
                    final(self).spec_grid(),
                    *y as int,
                    *x as int,
                    r,
                ),
                Some(PlayerType::Wall) => place_transition(
                    old(self).spec_grid(),
                    final(self).spec_grid(),
                    *y as int,
                    *x as int,
                    Entity::Wall,
                    r,
                ),
                None => r == TurnResult::Bad && final(self).spec_grid() == old(self).spec_grid(),
            },
    {
        match self.get_player_type(uid) {
            Some(PlayerType::Mouse) => self.grid.move_mouse(y, x),
            Some(PlayerType::Wall) => self.grid.place(y, x, Entity::Wall),
            None => TurnResult::Bad,
        }
    }

    /// The server-side opponent's turn in a solo room: when the human plays
    /// the Mouse the AI places a random Wall, and when the human plays the
    /// Wall the AI steps the Mouse toward the border.
    pub fn ai_turn(&mut self) -> (r: TurnResult)
        requires
            old(self).wf(),
            old(self).players@.len() >= 1,
        ensures
            final(self).wf(),
            final(self).players@ == old(self).players@,
            final(self).max_players == old(self).max_players,
            match old(self).players@[0].1 {
                PlayerType::Mouse => place_random_transition(
                    old(self).spec_grid(),
                    final(self).spec_grid(),
                    Entity::Wall,
                    r,
                ),
                PlayerType::Wall => ai_move_transition(
                    old(self).spec_grid(),
                    final(self).spec_grid(),
                    r,
                ),
            },
    {
        match self.players[0].1 {
            PlayerType::Mouse => self.grid.place_random(Entity::Wall),
            PlayerType::Wall => self.grid.move_mouse_random(),
        }
    }
}

/// In any well-formed 2-participant room, the two participants hold
/// different roles.
pub proof fn lemma_two_participants_roles_differ(r: Room)
    requires
        r.wf(),
        r.players@.len() == 2,
    ensures
        r.players@[0].1 != r.players@[1].1,
{
}

} // verus!
