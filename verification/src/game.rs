use vstd::prelude::*;

use crate::grid::{fleet_placed, in_bounds, lengths_from_fleet, Cell, Grid, Placement};

verus! {

/// One frame of the wire protocol: an attack on a coordinate, the answer
/// resolving it, the acknowledgement closing the half-round, or the stop
/// signal ending the session.
#[derive(Copy, Clone, PartialEq, Eq, Structural, Debug)]
pub enum GameMessage {
    Attack { x: i32, y: i32 },
    Answer { x: i32, y: i32, r: bool },
    Ack,
    Stop,
}

impl GameMessage {
    pub fn is_attack(&self) -> (b: bool)
        ensures
            b == (self is Attack),
    {
        match *self {
            GameMessage::Attack { .. } => true,
            _ => false,
        }
    }

    pub fn is_answer(&self) -> (b: bool)
        ensures
            b == (self is Answer),
    {
        match *self {
            GameMessage::Answer { .. } => true,
            _ => false,
        }
    }

    pub fn is_ack(&self) -> (b: bool)
        ensures
            b == (self is Ack),
    {
        *self == GameMessage::Ack
    }

    pub fn is_stop(&self) -> (b: bool)
        ensures
            b == (self is Stop),
    {
        *self == GameMessage::Stop
    }
}

/// An attack hits exactly the cells that carry a ship section.
pub open spec fn attack_hits(c: Cell) -> bool {
    c == Cell::Ship
}

/// What an attacked cell becomes: a hit ship section turns to Wreckage,
/// anything else keeps its value.
pub open spec fn cell_after_attack(c: Cell) -> Cell {
    if c == Cell::Ship {
        Cell::Wreckage
    } else {
        c
    }
}

/// What a confirmed answer records on the enemy-view board.
pub open spec fn answer_mark(hit: bool) -> Cell {
    if hit {
        Cell::Wreckage
    } else {
        Cell::Tagged
    }
}

/// `after` is `before` with the attacked cell resolved and every other
/// cell untouched.
pub open spec fn board_after_attack(before: Grid, after: Grid, x: int, y: int) -> bool {
    forall|i: int, j: int|
        in_bounds(i, j) ==> (#[trigger] after.spec_at(i, j)) == (if i == x && j == y {
            cell_after_attack(before.spec_at(i, j))
        } else {
            before.spec_at(i, j)
        })
}

/// `after` is `before` with the answered cell marked if it was still
/// unknown; a cell already marked keeps its value (a mark is never
/// re-derived), and every other cell is untouched.
pub open spec fn view_after_answer(before: Grid, after: Grid, x: int, y: int, hit: bool) -> bool {
    forall|i: int, j: int|
        in_bounds(i, j) ==> (#[trigger] after.spec_at(i, j)) == (if i == x && j == y
            && before.spec_at(i, j) == Cell::Empty {
            answer_mark(hit)
        } else {
            before.spec_at(i, j)
        })
}

/// Attacking the same cell twice: the second attack always reports a miss
/// and leaves the cell exactly as the first attack left it.
pub proof fn lemma_attack_idempotent(c: Cell)
    ensures
        !attack_hits(cell_after_attack(c)),
        cell_after_attack(cell_after_attack(c)) == cell_after_attack(c),
{
}

/// Once an answer has marked an enemy-view cell, no later answer changes
/// that mark, whether it targets the same cell or another.
pub proof fn lemma_answer_mark_stable(
    before: Grid,
    mid: Grid,
    after: Grid,
    x: int,
    y: int,
    hit: bool,
    x2: int,
    y2: int,
    hit2: bool,
)
    requires
        in_bounds(x, y),
        in_bounds(x2, y2),
        before.spec_at(x, y) == Cell::Empty,
        view_after_answer(before, mid, x, y, hit),
        view_after_answer(mid, after, x2, y2, hit2),
    ensures
        after.spec_at(x, y) == answer_mark(hit),
{
}

/// One player's session state: the own board, seeded with the fleet, and
/// the view of the enemy board, learned from answers alone.
pub struct Game {
    pub player: Grid,
    pub enemy: Grid,
}

impl Game {
    /// A fresh session: a random fleet of one's own, nothing known of the
    /// enemy.
    pub fn new() -> (g: Game)
        ensures
            exists|ships: Seq<Placement>, idx: Seq<int>|
                fleet_placed(g.player, ships) && ships.len() <= 6 && lengths_from_fleet(
                    ships,
                    idx,
                ),
            forall|i: int, j: int| in_bounds(i, j) ==> g.enemy.spec_at(i, j) == Cell::Empty,
    {
        let player = Grid::new_random();
        let g = Game { player, enemy: Grid::new_empty() };
        proof {
            let (ships, idx) = choose|ships: Seq<Placement>, idx: Seq<int>|
                fleet_placed(player, ships) && ships.len() <= 6 && lengths_from_fleet(ships, idx);
            assert(fleet_placed(g.player, ships) && lengths_from_fleet(ships, idx));
        }
        g
    }

    /// Resolve the peer's attack against the own board: a ship section is
    /// hit and becomes Wreckage, any other cell is a miss and nothing
    /// changes; the answer reports the target and the outcome.
    pub fn receive_attack(&mut self, x: i32, y: i32) -> (m: GameMessage)
        requires
            in_bounds(x as int, y as int),
        ensures
            m == (GameMessage::Answer {
                x,
                y,
                r: attack_hits(old(self).player.spec_at(x as int, y as int)),
            }),
            final(self).enemy == old(self).enemy,
            board_after_attack(old(self).player, final(self).player, x as int, y as int),
            !attack_hits(old(self).player.spec_at(x as int, y as int)) ==> *final(self) == *old(
                self,
            ),
    {
        let r = match self.player.at(x, y) {
            Cell::Empty | Cell::Tagged | Cell::Wreckage => false,
            Cell::Ship => {
                self.player.set(x, y, Cell::Wreckage);
                true
            },
        };
        GameMessage::Answer { x, y, r }
    }

    /// Record the peer's answer on the enemy-view board: an unknown cell
    /// becomes Wreckage on a confirmed hit and Tagged on a miss; a cell
    /// already marked is never re-derived, every other cell keeps its
    /// value, and the own board is untouched.
    pub fn acknowledge_answer(&mut self, x: i32, y: i32, r: bool) -> (m: GameMessage)
        requires
            in_bounds(x as int, y as int),
        ensures
            m == GameMessage::Ack,
            final(self).player == old(self).player,
            view_after_answer(old(self).enemy, final(self).enemy, x as int, y as int, r),
    {
        if self.enemy.at(x, y) == Cell::Empty {
            match r {
                true => self.enemy.set(x, y, Cell::Wreckage),
                false => self.enemy.set(x, y, Cell::Tagged),
            };
        }
        GameMessage::Ack
    }

    /// Wrap the chosen coordinate as the attack to send.
    pub fn make_attack(&self, xy: (i32, i32)) -> (m: GameMessage)
        ensures
            m == (GameMessage::Attack { x: xy.0, y: xy.1 }),
    {
        GameMessage::Attack { x: xy.0, y: xy.1 }
    }
}

} // verus!
