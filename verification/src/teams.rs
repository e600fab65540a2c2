//! Per-team visibility: which team sees which cell, through which units.

use std::collections::{BTreeMap, HashMap, HashSet};
use vstd::prelude::*;
use vstd::std_specs::iter::IteratorSpec;
use crate::order::{lemma_taken_all, lemma_taken_none, lemma_taken_step, taken};
use crate::state::{GameState, UnitState};

verus! {

/// A table with one row per map cell and one entry per team.
pub open spec fn has_shape(table: Seq<Vec<HashSet<usize>>>, cells: int, teams: int) -> bool {
    &&& table.len() == cells
    &&& forall|cell: int| 0 <= cell < cells ==> (#[trigger] table[cell]).len() == teams
}

/// The mark that a team sees a cell: the cell itself, or nothing.
pub open spec fn mark(cell: int, seen: bool) -> Set<usize> {
    if seen {
        set![cell as usize]
    } else {
        Set::empty()
    }
}

impl GameState {
    /// Among the first `count` teams of the list, `team` is the last that
    /// has `player` as a member.
    pub open spec fn is_team_among(&self, player: usize, team: int, count: int) -> bool {
        &&& 0 <= team < count
        &&& self.teams[team]@.contains(player)
        &&& forall|later: int|
            team < later < count ==> !(#[trigger] self.teams[later])@.contains(player)
    }

    /// None of the first `count` teams has `player` as a member.
    pub open spec fn is_unassigned_among(&self, player: usize, count: int) -> bool {
        forall|team: int| 0 <= team < count ==> !(#[trigger] self.teams[team])@.contains(player)
    }

    /// `team` is the team that `player` counts for: the last team in the
    /// list that has the player as a member.
    pub open spec fn is_team_of(&self, player: usize, team: int) -> bool {
        self.is_team_among(player, team, self.teams.len() as int)
    }

    /// No team has `player` as a member.
    pub open spec fn is_unassigned(&self, player: usize) -> bool {
        self.is_unassigned_among(player, self.teams.len() as int)
    }

    /// The lookup has, for every player, the last of the first `count`
    /// teams that the player is a member of, and has no entry for the
    /// players that are in none of them.
    pub open spec fn is_lookup_among(&self, lookup: Map<usize, usize>, count: int) -> bool {
        forall|player: usize|
            if #[trigger] lookup.contains_key(player) {
                self.is_team_among(player, lookup[player] as int, count)
            } else {
                self.is_unassigned_among(player, count)
            }
    }

    /// For every player that is in a team, the team that the player counts
    /// for.
    pub fn player_teams(&self) -> (lookup: HashMap<usize, usize>)
        ensures
            forall|player: usize|
                if #[trigger] lookup@.contains_key(player) {
                    self.is_team_of(player, lookup@[player] as int)
                } else {
                    self.is_unassigned(player)
                },
    {
        let mut lookup: HashMap<usize, usize> = HashMap::new();
        let mut index: usize = 0;
        while index < self.teams.len()
            invariant
                index <= self.teams.len(),
                self.is_lookup_among(lookup@, index as int),
            decreases self.teams.len() - index,
        {
            let team = &self.teams[index];
            let ghost order = team.iter().remaining();
            let ghost mut done: int = 0;
            proof {
                lemma_taken_none(order);
                lemma_taken_all(order, team@);
            }
            for player in it: team.iter()
                invariant
                    index < self.teams.len(),
                    team@ == self.teams[index as int]@,
                    it.seq() == order,
                    done == it.index(),
                    forall|p: usize|
                        #![trigger lookup@.contains_key(p)]
                        #![trigger taken(order, done).contains(p)]
                        if taken(order, done).contains(p) {
                            lookup@.contains_key(p) && lookup@[p] == index
                        } else if lookup@.contains_key(p) {
                            self.is_team_among(p, lookup@[p] as int, index as int)
                        } else {
                            self.is_unassigned_among(p, index as int)
                        },
            {
                proof {
                    lemma_taken_step(order, done);
                }
                lookup.insert(*player, index);
                proof {
                    done = done + 1;
                }
            }
            index += 1;
        }
        lookup
    }

    /// The unit on `location` lets `team` see `cell`.
    pub open spec fn shows(&self, location: usize, team: int, cell: usize) -> bool {
        &&& self.units@.contains_key(location)
        &&& self.is_team_of(self.units@[location].player, team)
        &&& self.sight_of(self.units@[location], location).contains(cell)
    }

    /// Some unit on one of the `sources` lets `team` see `cell`.
    pub open spec fn team_sees(&self, sources: Set<usize>, team: int, cell: usize) -> bool {
        exists|location: usize| sources.contains(location) && #[trigger] self.shows(location, team, cell)
    }

    /// The table in which no team sees any cell.
    pub fn blank_vision(&self) -> (table: Vec<Vec<HashSet<usize>>>)
        ensures
            has_shape(table@, self.map.len() as int, self.teams.len() as int),
            forall|cell: int, team: int|
                0 <= cell < self.map.len() && 0 <= team < self.teams.len() ==> (
                #[trigger] table[cell][team])@ == Set::<usize>::empty(),
    {
        let mut table: Vec<Vec<HashSet<usize>>> = Vec::new();
        let mut cell: usize = 0;
        while cell < self.map.len()
            invariant
                cell <= self.map.len(),
                has_shape(table@, cell as int, self.teams.len() as int),
                forall|c: int, team: int|
                    0 <= c < cell && 0 <= team < self.teams.len() ==> (
                    #[trigger] table[c][team])@ == Set::<usize>::empty(),
            decreases self.map.len() - cell,
        {
            let mut row: Vec<HashSet<usize>> = Vec::new();
            let mut team: usize = 0;
            while team < self.teams.len()
                invariant
                    team <= self.teams.len(),
                    row.len() == team,
                    forall|t: int| 0 <= t < team ==> (#[trigger] row[t])@ == Set::<usize>::empty(),
                decreases self.teams.len() - team,
            {
                row.push(HashSet::new());
                team += 1;
            }
            table.push(row);
            cell += 1;
        }
        table
    }

    /// Marks every cell of `tiles` as seen by `team`.
    pub fn record_sight(
        &self,
        table: &mut Vec<Vec<HashSet<usize>>>,
        team: usize,
        tiles: &HashSet<usize>,
    )
        requires
            has_shape(old(table)@, self.map.len() as int, self.teams.len() as int),
            team < self.teams.len(),
            forall|tile: usize| tiles@.contains(tile) ==> tile < self.map.len(),
        ensures
            has_shape(final(table)@, self.map.len() as int, self.teams.len() as int),
            forall|cell: int, t: int|
                0 <= cell < self.map.len() && 0 <= t < self.teams.len() ==> (
                #[trigger] final(table)[cell][t])@ == if t == team && tiles@.contains(
                    cell as usize,
                ) {
                    old(table)[cell][t]@.insert(cell as usize)
                } else {
                    old(table)[cell][t]@
                },
    {
        let ghost order = tiles.iter().remaining();
        let ghost mut done: int = 0;
        let ghost before = table@;
        proof {
            lemma_taken_none(order);
            lemma_taken_all(order, tiles@);
        }
        for tile in it: tiles.iter()
            invariant
                it.seq() == order,
                done == it.index(),
                team < self.teams.len(),
                has_shape(before, self.map.len() as int, self.teams.len() as int),
                has_shape(table@, self.map.len() as int, self.teams.len() as int),
                taken(order, order.len() as int) == tiles@,
                forall|tile: usize| tiles@.contains(tile) ==> tile < self.map.len(),
                forall|cell: int, t: int|
                    0 <= cell < self.map.len() && 0 <= t < self.teams.len() ==> (
                    #[trigger] table[cell][t])@ == if t == team && taken(order, done).contains(
                        cell as usize,
                    ) {
                        before[cell][t]@.insert(cell as usize)
                    } else {
                        before[cell][t]@
                    },
        {
            proof {
                lemma_taken_step(order, done);
                assert(*order[done] == *tile);
                assert(taken(order, order.len() as int).contains(*tile));
            }
            table[*tile][team].insert(*tile);
            proof {
                done = done + 1;
            }
        }
    }

    /// The table marks, for every cell and team, whether some unit on one of
    /// the `sources` lets the team see the cell.
    pub open spec fn is_vision_of(
        &self,
        table: Seq<Vec<HashSet<usize>>>,
        sources: Set<usize>,
    ) -> bool {
        &&& has_shape(table, self.map.len() as int, self.teams.len() as int)
        &&& forall|cell: int, team: int|
            0 <= cell < self.map.len() && 0 <= team < self.teams.len() ==> (
            #[trigger] table[cell][team])@ == mark(
                cell,
                self.team_sees(sources, team, cell as usize),
            )
    }

    /// Returns, for each cell of the map and each team, a mark of whether
    /// the team sees the cell through one of the given units. Only where
    /// the units stand is read from `units`; what stands there is taken
    /// from the snapshot, and a location without a unit in the snapshot, or
    /// with a unit whose owner is in no team, shows nothing.
    pub fn vision_for_units(&self, units: &BTreeMap<usize, UnitState>) -> (table: Vec<
        Vec<HashSet<usize>>,
    >)
        requires
            self.wf(),
        ensures
            self.is_vision_of(table@, units@.dom()),
    {
        let player_to_team = self.player_teams();
        let mut table = self.blank_vision();
        let ghost order = units.keys().remaining();
        let ghost mut done: int = 0;
        proof {
            lemma_taken_none(order);
            lemma_taken_all(order, units@.dom());
        }
        for location in it: units.keys()
            invariant
                self.wf(),
                it.seq() == order,
                done == it.index(),
                forall|player: usize|
                    if #[trigger] player_to_team@.contains_key(player) {
                        self.is_team_of(player, player_to_team@[player] as int)
                    } else {
                        self.is_unassigned(player)
                    },
                self.is_vision_of(table@, taken(order, done)),
        {
            let ghost sources = taken(order, done);
            let ghost previous = table@;
            proof {
                lemma_taken_step(order, done);
                done = done + 1;
                self.lemma_team_sees_insert(sources, *location);
            }
            match self.vision_from_tiles(*location) {
                Some((player, tiles)) => {
                    match player_to_team.get(&player) {
                        Some(team) => {
                            let team: usize = *team;
                            proof {
                                assert(player_to_team@.contains_key(player));
                                self.lemma_sight_on_map(self.units@[*location], *location);
                            }
                            self.record_sight(&mut table, team, &tiles);
                            proof {
                                assert forall|cell: int, t: int|
                                    0 <= cell < self.map.len() && 0 <= t
                                        < self.teams.len() implies (#[trigger] table[cell][t])@
                                    == mark(
                                    cell,
                                    self.team_sees(taken(order, done), t, cell as usize),
                                ) by {
                                    assert(self.shows(*location, t, cell as usize) <==> (t == team
                                        && tiles@.contains(cell as usize)));
                                    assert(previous[cell][t]@ == mark(
                                        cell,
                                        self.team_sees(sources, t, cell as usize),
                                    ));
                                    assert(mark(cell, true).insert(cell as usize) =~= mark(
                                        cell,
                                        true,
                                    ));
                                    assert(mark(cell, false).insert(cell as usize) =~= mark(
                                        cell,
                                        true,
                                    ));
                                }
                            }
                        },
                        None => {
                            proof {
                                assert(!player_to_team@.contains_key(player));
                                assert forall|t: int, cell: usize|
                                    !#[trigger] self.shows(*location, t, cell) by {}
                            }
                        },
                    }
                },
                None => {},
            }
        }
        table
    }

    /// A team sees a cell through the sources and one more location exactly
    /// if it saw the cell before or the unit on that location shows it.
    pub proof fn lemma_team_sees_insert(&self, sources: Set<usize>, location: usize)
        ensures
            forall|team: int, cell: usize|
                #![trigger self.team_sees(sources.insert(location), team, cell)]
                #![trigger self.team_sees(sources, team, cell)]
                self.team_sees(sources.insert(location), team, cell) <==> (self.team_sees(
                    sources,
                    team,
                    cell,
                ) || self.shows(location, team, cell)),
    {
        assert forall|team: int, cell: usize|
            #![trigger self.team_sees(sources.insert(location), team, cell)]
            #![trigger self.team_sees(sources, team, cell)]
            self.team_sees(sources.insert(location), team, cell) <==> (self.team_sees(
                sources,
                team,
                cell,
            ) || self.shows(location, team, cell)) by {
            if self.team_sees(sources, team, cell) {
                let from = choose|from: usize|
                    sources.contains(from) && #[trigger] self.shows(from, team, cell);
                assert(sources.insert(location).contains(from));
            }
            if self.shows(location, team, cell) {
                assert(sources.insert(location).contains(location));
            }
        }
    }

    /// Whatever a unit reveals is a cell of the grid, and so has a tile.
    pub proof fn lemma_sight_on_map(&self, unit: UnitState, location: usize)
        requires
            self.wf(),
        ensures
            forall|cell: usize| #[trigger]
                self.sight_of(unit, location).contains(cell) ==> cell < self.map_dimensions.0
                    * self.map_dimensions.1 && cell < self.map.len(),
    {
    }
}

} // verus!
