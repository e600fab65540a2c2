//! A snapshot of a game, and what of its map every team can see.

use std::collections::{BTreeMap, HashSet};
use vstd::prelude::*;
use vstd::std_specs::iter::IteratorSpec;
use crate::grid::{
    cells_within, lemma_cell_index, lemma_cell_position, lemma_cells_within_holds_origin,
    lemma_cells_within_monotonic, lemma_positions_hold, positions_hold, scanned,
};
use crate::map::{CountryKind, TileKind};
use crate::officer::{no_modifier, OfficerKind, PowerKind, VisionModifier};
use crate::order::{lemma_taken_all, lemma_taken_none, lemma_taken_step, taken};
use crate::unit::UnitKind;

verus! {

/// One unit on the map.
#[derive(Debug, Clone, Copy, PartialEq, Eq, Structural, Hash)]
pub struct UnitState {
    /// Index into the players of who owns the unit.
    pub player: usize,
    /// If true then only adjacent units can reveal it.
    pub stealthed: bool,
    /// What kind of unit it is, which sets how far it sees.
    pub kind: UnitKind,
}

impl UnitState {
    /// A unit of the given kind, owned by `player`.
    pub fn new(player: usize, stealthed: bool, kind: UnitKind) -> (unit: UnitState)
        ensures
            unit == (UnitState { player, stealthed, kind }),
    {
        UnitState { player, stealthed, kind }
    }
}

/// A snapshot of map, units, players and teams.
#[derive(Debug, PartialEq, Eq)]
pub struct GameState {
    /// The map's tiles, row by row from the top left.
    pub map: Vec<TileKind>,
    /// The (width, height) of the map.
    pub map_dimensions: (usize, usize),
    /// For an index into `map`, the unit that stands there.
    pub units: BTreeMap<usize, UnitState>,
    /// For a player index, the player's country, officer and power level.
    pub players: Vec<(CountryKind, OfficerKind, PowerKind)>,
    /// The player indices of each team.
    pub teams: Vec<HashSet<usize>>,
}

/// Copies a set of indices, member by member.
pub fn copy_set(set: &HashSet<usize>) -> (copy: HashSet<usize>)
    ensures
        copy@ == set@,
{
    let mut copy: HashSet<usize> = HashSet::new();
    let ghost order = set.iter().remaining();
    let ghost mut done: int = 0;
    proof {
        lemma_taken_none(order);
        lemma_taken_all(order, set@);
    }
    for member in it: set.iter()
        invariant
            it.seq() == order,
            done == it.index(),
            copy@ == taken(order, done),
    {
        copy.insert(*member);
        proof {
            lemma_taken_step(order, done);
            done = done + 1;
        }
    }
    copy
}

impl GameState {
    /// The two snapshots hold the same map, units, players and teams.
    pub open spec fn same_as(&self, other: &GameState) -> bool {
        &&& self.map@ == other.map@
        &&& self.map_dimensions == other.map_dimensions
        &&& self.units@ == other.units@
        &&& self.players@ == other.players@
        &&& self.teams.len() == other.teams.len()
        &&& forall|team: int|
            0 <= team < self.teams.len() ==> (#[trigger] self.teams[team])@ == other.teams[team]@
    }
}

impl Clone for GameState {
    fn clone(&self) -> (copy: GameState)
        ensures
            copy.same_as(self),
    {
        let mut players: Vec<(CountryKind, OfficerKind, PowerKind)> = Vec::new();
        let mut index: usize = 0;
        while index < self.players.len()
            invariant
                index <= self.players.len(),
                players@ =~= self.players@.take(index as int),
            decreases self.players.len() - index,
        {
            players.push(self.players[index]);
            index += 1;
        }
        let mut teams: Vec<HashSet<usize>> = Vec::new();
        let mut team: usize = 0;
        while team < self.teams.len()
            invariant
                team <= self.teams.len(),
                teams.len() == team,
                forall|t: int| 0 <= t < team ==> (#[trigger] teams[t])@ == self.teams[t]@,
            decreases self.teams.len() - team,
        {
            teams.push(copy_set(&self.teams[team]));
            team += 1;
        }
        let copy = GameState {
            map: self.map.clone(),
            map_dimensions: (self.map_dimensions.0, self.map_dimensions.1),
            units: self.units.clone(),
            players,
            teams,
        };
        assert(copy.map@ =~= self.map@);
        assert(copy.players@ =~= self.players@);
        copy
    }
}

impl GameState {
    /// The grid has columns, and its cell indices fit the machine word.
    pub open spec fn has_grid(&self) -> bool {
        &&& self.map_dimensions.0 > 0
        &&& self.map_dimensions.0 * self.map_dimensions.1 <= usize::MAX
    }

    /// The grid has columns, and every cell of it has a tile.
    pub open spec fn wf(&self) -> bool {
        &&& self.map_dimensions.0 > 0
        &&& self.map_dimensions.0 * self.map_dimensions.1 <= self.map.len()
    }

    /// Tells whether the grid has columns and every cell of it has a tile,
    /// which is what the queries on teams and common vision ask for.
    pub fn is_well_formed(&self) -> (ok: bool)
        ensures
            ok == self.wf(),
    {
        let width = self.map_dimensions.0;
        let height = self.map_dimensions.1;
        if width == 0 {
            return false;
        }
        let rows: usize = self.map.len() / width;
        proof {
            let w = width as int;
            let h = height as int;
            let len = self.map.len() as int;
            lemma_cell_position(w, h, len);
            if h <= rows {
                assert(w * h <= (len / w) * w) by (nonlinear_arith)
                    requires
                        0 < w,
                        0 <= h <= len / w,
                ;
            } else {
                assert(w * h > len) by (nonlinear_arith)
                    requires
                        0 < w,
                        h >= len / w + 1,
                        len == (len / w) * w + len % w,
                        len % w < w,
                ;
            }
        }
        height <= rows
    }

    /// The cells of the grid at most `distance` steps away from `location`.
    pub open spec fn neighbors_spec(&self, location: usize, distance: usize) -> Set<usize> {
        cells_within(self.map_dimensions.0, self.map_dimensions.1, location, distance as int)
    }

    /// For a given location returns all of the tiles within a certain
    /// distance of that tile. The location need not lie on the grid.
    pub fn neighbors(&self, location: usize, distance: usize) -> (cells: HashSet<usize>)
        requires
            self.has_grid(),
        ensures
            cells@ == self.neighbors_spec(location, distance),
    {
        let width = self.map_dimensions.0;
        let height = self.map_dimensions.1;
        let ghost wi = width as int;
        let ghost hi = height as int;
        let ghost origin = location as int;
        let ghost reach = distance as int;
        let mut cells: HashSet<usize> = HashSet::new();

        let x: usize = location % width;
        let y: usize = location / width;
        let col_first: usize = x.saturating_sub(distance);
        let col_reach: usize = x.saturating_add(distance).saturating_add(1);
        let col_end: usize = if col_reach < width { col_reach } else { width };
        let row_first: usize = y.saturating_sub(distance);
        let row_reach: usize = y.saturating_add(distance).saturating_add(1);
        let row_end: usize = if row_reach < height { row_reach } else { height };

        proof {
            lemma_positions_hold(wi, hi);
        }

        let mut w: usize = col_first;
        while w < col_end
            invariant
                self.has_grid(),
                width == self.map_dimensions.0,
                height == self.map_dimensions.1,
                wi == width as int,
                hi == height as int,
                origin == location as int,
                reach == distance as int,
                x == location % width,
                y == location / width,
                col_first == x.saturating_sub(distance),
                col_reach == x.saturating_add(distance).saturating_add(1),
                col_end == if col_reach < width { col_reach } else { width },
                row_first == y.saturating_sub(distance),
                row_reach == y.saturating_add(distance).saturating_add(1),
                row_end == if row_reach < height { row_reach } else { height },
                col_first <= w <= col_end,
                positions_hold(wi, hi),
                cells@ =~= Set::new(
                    |c: usize| scanned(wi, hi, origin, reach, w as int, 0, c as int),
                ),
            decreases col_end - w,
        {
            let mut h: usize = row_first;
            while h < row_end
                invariant
                    self.has_grid(),
                    width == self.map_dimensions.0,
                    height == self.map_dimensions.1,
                    wi == width as int,
                    hi == height as int,
                    origin == location as int,
                    reach == distance as int,
                    x == location % width,
                    y == location / width,
                    row_first == y.saturating_sub(distance),
                    row_reach == y.saturating_add(distance).saturating_add(1),
                    row_end == if row_reach < height { row_reach } else { height },
                    w < col_end <= width,
                    row_first <= h,
                    h <= row_end || h == row_first,
                    positions_hold(wi, hi),
                    cells@ =~= Set::new(
                        |c: usize| scanned(wi, hi, origin, reach, w as int, h as int, c as int),
                    ),
                decreases row_end - h,
            {
                let dx: usize = if w >= x { w - x } else { x - w };
                let dy: usize = if h >= y { h - y } else { y - h };
                proof {
                    lemma_cell_index(wi, hi, h as int, w as int);
                }
                if dx <= distance && dy <= distance - dx {
                    cells.insert(h * width + w);
                }
                h += 1;
            }
            w += 1;
        }
        cells
    }

    /// What the officer of `player` adds to sight. A player index without
    /// an entry in `players` adds nothing.
    pub open spec fn modifier_of(&self, player: usize) -> VisionModifier {
        if player < self.players.len() {
            self.players[player as int].1.vision_modifier_spec(self.players[player as int].2)
        } else {
            no_modifier()
        }
    }

    /// A stealthed unit stands on `cell`.
    pub open spec fn stealthed_at(&self, cell: usize) -> bool {
        self.units@.contains_key(cell) && self.units@[cell].stealthed
    }

    /// The terrain of `cell` conceals units.
    pub open spec fn concealed_at(&self, cell: usize) -> bool {
        cell < self.map.len() && self.map[cell as int].conceals()
    }

    /// The vision range of `unit` with its owner's bonus.
    pub open spec fn sight_range(&self, unit: UnitState) -> int {
        unit.kind.base_vision() + self.modifier_of(unit.player).bonus
    }

    /// A cell within range of `unit` is revealed to it from a distance:
    /// no stealthed unit stands there, and its terrain does not conceal or
    /// the owner's officer sees through cover.
    pub open spec fn revealed_at_range(&self, unit: UnitState, cell: usize) -> bool {
        !self.stealthed_at(cell) && (!self.concealed_at(cell) || self.modifier_of(
            unit.player,
        ).sees_through_cover)
    }

    /// The cells that `unit`, standing on `location`, reveals: all cells at
    /// most one step away, whatever stands or grows there, and the cells
    /// within its range that are revealed from a distance.
    pub open spec fn sight_of(&self, unit: UnitState, location: usize) -> Set<usize> {
        Set::new(
            |cell: usize|
                cells_within(self.map_dimensions.0, self.map_dimensions.1, location, 1).contains(
                    cell,
                ) || (cells_within(
                    self.map_dimensions.0,
                    self.map_dimensions.1,
                    location,
                    self.sight_range(unit),
                ).contains(cell) && self.revealed_at_range(unit, cell)),
        )
    }

    /// The owner of the unit on `location` and the cells it reveals, if a
    /// unit stands there.
    pub open spec fn vision_from_tiles_spec(&self, location: usize) -> Option<(usize, Set<usize>)> {
        if self.units@.contains_key(location) {
            Some((self.units@[location].player, self.sight_of(self.units@[location], location)))
        } else {
            None
        }
    }

    /// For a given location returns all of the tiles that are revealed by a
    /// unit on that tile and which player (index) owns that unit.
    ///
    /// Returns None if no unit is on the tile.
    pub fn vision_from_tiles(&self, location: usize) -> (vision: Option<(usize, HashSet<usize>)>)
        requires
            self.has_grid(),
        ensures
            vision is None <==> !self.units@.contains_key(location),
            vision is None <==> self.vision_from_tiles_spec(location) is None,
            vision matches Some((player, cells)) ==> self.vision_from_tiles_spec(location) == Some(
                (player, cells@),
            ) && self.neighbors_spec(location, 1).subset_of(cells@),
    {
        let unit: UnitState = match self.units.get(&location) {
            Some(unit) => *unit,
            None => {
                return None;
            },
        };
        let modifier = if unit.player < self.players.len() {
            self.players[unit.player].1.vision_modifier(&self.players[unit.player].2)
        } else {
            VisionModifier { bonus: 0, sees_through_cover: false }
        };
        let vision_range: u8 = unit.kind.vision() + modifier.bonus;

        // Adjacent tiles are always revealed, forest or stealth or not.
        let mut revealed: HashSet<usize> = self.neighbors(location, 1);
        let in_range: HashSet<usize> = self.neighbors(location, vision_range as usize);
        let ghost near = revealed@;
        let ghost order = in_range.iter().remaining();
        let ghost mut done: int = 0;
        proof {
            lemma_taken_none(order);
            lemma_taken_all(order, in_range@);
        }

        for cell in it: in_range.iter()
            invariant
                self.has_grid(),
                self.units@.contains_key(location),
                unit == self.units@[location],
                modifier == self.modifier_of(unit.player),
                it.seq() == order,
                done == it.index(),
                forall|c: usize|
                    #![trigger revealed@.contains(c)]
                    #![trigger taken(order, done).contains(c)]
                    revealed@.contains(c) <==> near.contains(c) || (taken(order, done).contains(c)
                        && self.revealed_at_range(unit, c)),
        {
            let stealthed = match self.units.get(cell) {
                Some(other) => other.stealthed,
                None => false,
            };
            let concealed = *cell < self.map.len() && self.map[*cell].hides_units();
            if !stealthed && (!concealed || modifier.sees_through_cover) {
                revealed.insert(*cell);
            }
            proof {
                assert(stealthed == self.stealthed_at(*cell));
                assert(concealed == self.concealed_at(*cell));
                lemma_taken_step(order, done);
                done = done + 1;
            }
        }
        assert(revealed@ =~= self.sight_of(unit, location));
        Some((unit.player, revealed))
    }

    /// Growing the distance by one loses no neighbor.
    pub proof fn lemma_neighbors_grow(&self, location: usize, distance: usize)
        requires
            distance < usize::MAX,
        ensures
            self.neighbors_spec(location, distance).subset_of(
                self.neighbors_spec(location, (distance + 1) as usize),
            ),
    {
        lemma_cells_within_monotonic(
            self.map_dimensions.0,
            self.map_dimensions.1,
            location,
            distance as int,
            distance + 1,
        );
    }

    /// A location on the grid is among its own neighbors at every distance.
    pub proof fn lemma_neighbors_hold_origin(&self, location: usize, distance: usize)
        requires
            location < self.map_dimensions.0 * self.map_dimensions.1,
        ensures
            self.neighbors_spec(location, distance).contains(location),
    {
        lemma_cells_within_holds_origin(
            self.map_dimensions.0,
            self.map_dimensions.1,
            location,
            distance as int,
        );
    }

    /// There is vision from a location exactly if a unit stands on it, and
    /// that vision holds every cell at most one step away, whatever the
    /// terrain there and whether or not a stealthed unit stands on it.
    pub proof fn lemma_vision_holds_adjacent(&self, location: usize)
        ensures
            self.vision_from_tiles_spec(location) is None <==> !self.units@.contains_key(location),
            self.vision_from_tiles_spec(location) matches Some((_, cells))
                ==> self.neighbors_spec(location, 1).subset_of(cells),
    {
    }
}

} // verus!
