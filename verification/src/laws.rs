//! Laws of common vision that relate several snapshots or several passes.

use vstd::prelude::*;
use crate::grid::lemma_cells_within_holds_origin;
use crate::state::GameState;

verus! {

impl GameState {
    /// No player is a member of two teams.
    pub open spec fn teams_disjoint(&self) -> bool {
        forall|first: int, second: int, player: usize|
            0 <= first < second < self.teams.len() && #[trigger] self.teams[first]@.contains(
                player,
            ) ==> !#[trigger] self.teams[second]@.contains(player)
    }

    /// Every team of this snapshot is, with the same members, a team of
    /// the other.
    pub open spec fn teams_among(&self, other: &GameState) -> bool {
        forall|team: int|
            0 <= team < self.teams.len() ==> exists|twin: int|
                0 <= twin < other.teams.len() && (#[trigger] other.teams[twin])@ == (
                #[trigger] self.teams[team])@
    }

    /// The two snapshots differ in nothing but, at most, their team lists.
    pub open spec fn same_board(&self, other: &GameState) -> bool {
        &&& self.map@ == other.map@
        &&& self.map_dimensions == other.map_dimensions
        &&& self.units@ == other.units@
        &&& self.players@ == other.players@
    }

    /// Where no player is in two teams, a team that the other snapshot has
    /// too sees there whatever it sees here.
    pub proof fn lemma_twin_team_sees(
        &self,
        other: &GameState,
        sources: Set<usize>,
        team: int,
        twin: int,
        cell: usize,
    )
        requires
            self.same_board(other),
            other.teams_disjoint(),
            0 <= team < self.teams.len(),
            0 <= twin < other.teams.len(),
            other.teams[twin]@ == self.teams[team]@,
            self.team_sees(sources, team, cell),
        ensures
            other.team_sees(sources, twin, cell),
    {
        let location = choose|location: usize|
            sources.contains(location) && #[trigger] self.shows(location, team, cell);
        let unit = self.units@[location];
        assert(other.sight_of(unit, location) =~= self.sight_of(unit, location));
        assert(other.is_team_of(unit.player, twin));
        assert(other.shows(location, twin, cell));
    }

    /// Whether every team sees a cell depends on the members of the teams
    /// alone, not on the places of the teams in the list.
    pub proof fn lemma_seen_by_all_ignores_team_order(
        &self,
        other: &GameState,
        sources: Set<usize>,
        cell: usize,
    )
        requires
            self.same_board(other),
            self.teams_disjoint(),
            other.teams_disjoint(),
            self.teams_among(other),
            other.teams_among(self),
        ensures
            self.seen_by_all(sources, cell) == other.seen_by_all(sources, cell),
    {
        if self.seen_by_all(sources, cell) {
            assert forall|twin: int| 0 <= twin < other.teams.len() implies #[trigger] other.team_sees(
                sources,
                twin,
                cell,
            ) by {
                let team = choose|team: int|
                    0 <= team < self.teams.len() && (#[trigger] self.teams[team])@ == (
                    #[trigger] other.teams[twin])@;
                assert(self.team_sees(sources, team, cell));
                self.lemma_twin_team_sees(other, sources, team, twin, cell);
            }
        }
        if other.seen_by_all(sources, cell) {
            assert forall|team: int| 0 <= team < self.teams.len() implies #[trigger] self.team_sees(
                sources,
                team,
                cell,
            ) by {
                let twin = choose|twin: int|
                    0 <= twin < other.teams.len() && (#[trigger] other.teams[twin])@ == (
                    #[trigger] self.teams[team])@;
                assert(other.team_sees(sources, twin, cell));
                other.lemma_twin_team_sees(self, sources, twin, team, cell);
            }
        }
    }

    /// The two snapshots have as many tiles, and whatever the sources, every
    /// team of the one sees a cell exactly if every team of the other does.
    pub open spec fn agrees_on_sight(&self, other: &GameState) -> bool {
        &&& self.map.len() == other.map.len()
        &&& forall|sources: Set<usize>, cell: usize| #[trigger]
            self.seen_by_all(sources, cell) == other.seen_by_all(sources, cell)
    }

    /// Pruning reads a snapshot only through what every team sees: where
    /// two snapshots agree on that, pruning takes the same course in both.
    pub proof fn lemma_solve_follows_sight(
        &self,
        other: &GameState,
        sources: Set<usize>,
        tiles: Set<usize>,
        passes: nat,
    )
        requires
            self.agrees_on_sight(other),
        ensures
            self.solve(sources, tiles, passes) == other.solve(sources, tiles, passes),
        decreases passes,
    {
        assert forall|cell: usize|
            #![trigger self.drops(sources, tiles, cell)]
            #![trigger other.drops(sources, tiles, cell)]
            self.drops(sources, tiles, cell) == other.drops(sources, tiles, cell) by {
            assert(self.seen_by_all(sources, cell) == other.seen_by_all(sources, cell));
        }
        if passes > 0 && !self.settled(sources, tiles) {
            assert forall|cell: usize| self.dark(sources, cell) == other.dark(sources, cell) by {
                assert(self.seen_by_all(sources, cell) == other.seen_by_all(sources, cell));
            }
            assert(self.lit(sources, sources) =~= other.lit(sources, sources));
            assert(self.lit(sources, tiles) =~= other.lit(sources, tiles));
            let left = self.pruned(sources, tiles);
            self.lemma_solve_follows_sight(other, left.0, left.1, (passes - 1) as nat);
        }
    }

    /// The commonly visible cells do not depend on the order in which the
    /// teams are listed: two snapshots that differ only in their team
    /// lists, each without a player in two teams, and each holding every
    /// team of the other, have the same common vision.
    pub proof fn lemma_common_vision_ignores_team_order(&self, other: &GameState)
        requires
            self.same_board(other),
            self.teams_disjoint(),
            other.teams_disjoint(),
            self.teams_among(other),
            other.teams_among(self),
        ensures
            self.common_vision_spec() == other.common_vision_spec(),
    {
        assert forall|sources: Set<usize>, cell: usize| #[trigger]
            self.seen_by_all(sources, cell) == other.seen_by_all(sources, cell) by {
            self.lemma_seen_by_all_ignores_team_order(other, sources, cell);
        }
        assert(self.all_cells() =~= other.all_cells());
        self.lemma_solve_follows_sight(
            other,
            self.units@.dom(),
            self.all_cells(),
            self.units@.len() + 1,
        );
    }

    /// The two snapshots have the same map and as many teams, units of the
    /// same kind and stealth on the same cells, and for each unit an owner
    /// whose officer adds the same to sight and who counts for the team at
    /// the same place in the list. How the players are numbered, and which
    /// country each has, is left open.
    pub open spec fn same_standing(&self, other: &GameState) -> bool {
        &&& self.map@ == other.map@
        &&& self.map_dimensions == other.map_dimensions
        &&& self.teams.len() == other.teams.len()
        &&& self.units@.dom() == other.units@.dom()
        &&& forall|location: usize| #[trigger]
            self.units@.contains_key(location) ==> {
                &&& self.units@[location].kind == other.units@[location].kind
                &&& self.units@[location].stealthed == other.units@[location].stealthed
                &&& self.modifier_of(self.units@[location].player) == other.modifier_of(
                    other.units@[location].player,
                )
                &&& forall|team: int| #[trigger]
                    self.is_team_of(self.units@[location].player, team) == other.is_team_of(
                        other.units@[location].player,
                        team,
                    )
            }
    }

    /// In two snapshots of the same standing, a team of the other sees
    /// whatever the team at its place sees here.
    pub proof fn lemma_same_standing_team_sees(
        &self,
        other: &GameState,
        sources: Set<usize>,
        team: int,
        cell: usize,
    )
        requires
            self.same_standing(other),
            self.team_sees(sources, team, cell),
        ensures
            other.team_sees(sources, team, cell),
    {
        let location = choose|location: usize|
            sources.contains(location) && #[trigger] self.shows(location, team, cell);
        assert(self.units@.contains_key(location));
        assert(other.units@.dom().contains(location));
        let mine = self.units@[location];
        let theirs = other.units@[location];
        assert forall|c: usize| self.stealthed_at(c) == other.stealthed_at(c) by {
            if self.units@.contains_key(c) {
                assert(other.units@.dom().contains(c));
            }
            if other.units@.contains_key(c) {
                assert(self.units@.dom().contains(c));
            }
        }
        assert(other.sight_of(theirs, location) =~= self.sight_of(mine, location));
        assert(self.is_team_of(mine.player, team) == other.is_team_of(theirs.player, team));
        assert(other.shows(location, team, cell));
    }

    /// The commonly visible cells depend on the players only through what
    /// each unit owner's officer adds to sight and through the team that
    /// the owner counts for: renumbering the players, with units and teams
    /// following, changes nothing, and neither does a player's country.
    pub proof fn lemma_common_vision_ignores_player_order(&self, other: &GameState)
        requires
            self.same_standing(other),
        ensures
            self.common_vision_spec() == other.common_vision_spec(),
    {
        assert(other.same_standing(self)) by {
            assert forall|location: usize| #[trigger]
                other.units@.contains_key(location) implies self.units@.contains_key(location) by {
                assert(self.units@.dom().contains(location));
            }
        }
        assert forall|sources: Set<usize>, cell: usize| #[trigger]
            self.seen_by_all(sources, cell) == other.seen_by_all(sources, cell) by {
            if self.seen_by_all(sources, cell) {
                assert forall|team: int|
                    0 <= team < other.teams.len() implies #[trigger] other.team_sees(
                    sources,
                    team,
                    cell,
                ) by {
                    assert(self.team_sees(sources, team, cell));
                    self.lemma_same_standing_team_sees(other, sources, team, cell);
                }
            }
            if other.seen_by_all(sources, cell) {
                assert forall|team: int|
                    0 <= team < self.teams.len() implies #[trigger] self.team_sees(
                    sources,
                    team,
                    cell,
                ) by {
                    assert(other.team_sees(sources, team, cell));
                    other.lemma_same_standing_team_sees(self, sources, team, cell);
                }
            }
        }
        assert(self.all_cells() =~= other.all_cells());
        self.lemma_solve_follows_sight(
            other,
            self.units@.dom(),
            self.all_cells(),
            self.units@.len() + 1,
        );
    }

    /// There is one team, and every unit stands on the grid and is owned
    /// by a member of that team.
    pub open spec fn one_team_owns_all(&self) -> bool {
        &&& self.teams.len() == 1
        &&& forall|location: usize| #[trigger]
            self.units@.contains_key(location) ==> location < self.map_dimensions.0
                * self.map_dimensions.1 && self.teams[0]@.contains(self.units@[location].player)
    }

    /// The cells that at least one unit reveals.
    pub open spec fn all_sight(&self) -> Set<usize> {
        Set::new(
            |cell: usize|
                exists|location: usize|
                    self.units@.contains_key(location) && #[trigger] self.sight_of(
                        self.units@[location],
                        location,
                    ).contains(cell),
        )
    }

    /// With one team that owns every unit, the team sees exactly what some
    /// unit reveals, and that includes every cell on which a unit stands.
    pub proof fn lemma_one_team_sees_all_sight(&self)
        requires
            self.wf(),
            self.one_team_owns_all(),
        ensures
            forall|cell: usize| #[trigger]
                self.seen_by_all(self.units@.dom(), cell) <==> self.all_sight().contains(cell),
            forall|location: usize| #[trigger]
                self.units@.contains_key(location) ==> self.all_sight().contains(location),
            self.all_sight().subset_of(self.all_cells()),
    {
        let sources = self.units@.dom();
        assert forall|cell: usize| #[trigger]
            self.seen_by_all(sources, cell) <==> self.all_sight().contains(cell) by {
            if self.seen_by_all(sources, cell) {
                assert(self.team_sees(sources, 0, cell));
                let location = choose|location: usize|
                    sources.contains(location) && #[trigger] self.shows(location, 0, cell);
                assert(self.sight_of(self.units@[location], location).contains(cell));
            }
            if self.all_sight().contains(cell) {
                let location = choose|location: usize|
                    self.units@.contains_key(location) && #[trigger] self.sight_of(
                        self.units@[location],
                        location,
                    ).contains(cell);
                assert(self.shows(location, 0, cell));
                assert(self.team_sees(sources, 0, cell));
            }
        }
        assert forall|location: usize| #[trigger]
            self.units@.contains_key(location) implies self.all_sight().contains(location) by {
            lemma_cells_within_holds_origin(
                self.map_dimensions.0,
                self.map_dimensions.1,
                location,
                1,
            );
            assert(self.sight_of(self.units@[location], location).contains(location));
        }
        assert forall|cell: usize| self.all_sight().contains(cell) implies self.all_cells().contains(
            cell,
        ) by {
            let location = choose|location: usize|
                self.units@.contains_key(location) && #[trigger] self.sight_of(
                    self.units@[location],
                    location,
                ).contains(cell);
            self.lemma_sight_on_map(self.units@[location], location);
        }
    }

    /// With a single team that owns every unit, and every unit on the
    /// grid, nothing is pruned but the cells that no unit reveals: the
    /// common vision is all that the units reveal between them.
    pub proof fn lemma_one_team_common_vision(&self)
        requires
            self.wf(),
            self.one_team_owns_all(),
        ensures
            self.common_vision_spec() == self.all_sight(),
    {
        let sources = self.units@.dom();
        let sight = self.all_sight();
        let cells = self.all_cells();
        let passes = self.units@.len();
        self.lemma_one_team_sees_all_sight();
        assert forall|cell: usize| !#[trigger] self.drops(sources, sight, cell) by {
            if self.dark(sources, cell) {
                assert(!self.seen_by_all(sources, cell));
                assert(!sight.contains(cell));
                assert(!self.units@.contains_key(cell));
            }
        }
        assert(self.settled(sources, sight));
        if self.settled(sources, cells) {
            assert forall|cell: usize| cells.contains(cell) implies sight.contains(cell) by {
                assert(!self.drops(sources, cells, cell));
                assert(self.seen_by_all(sources, cell));
            }
            assert(cells =~= sight);
        } else {
            assert forall|cell: usize| sources.contains(cell) implies !self.dark(
                sources,
                cell,
            ) by {
                assert(self.units@.contains_key(cell));
                assert(sight.contains(cell));
                assert(self.seen_by_all(sources, cell));
            }
            assert(self.lit(sources, sources) =~= sources);
            assert forall|cell: usize| self.lit(sources, cells).contains(cell) <==> sight.contains(
                cell,
            ) by {
                if sight.contains(cell) {
                    assert(cells.contains(cell));
                    assert(self.seen_by_all(sources, cell));
                }
                if self.lit(sources, cells).contains(cell) {
                    assert(self.seen_by_all(sources, cell));
                }
            }
            assert(self.lit(sources, cells) =~= sight);
            assert(self.pruned(sources, cells) == (sources, sight));
            if passes == 0 {
                assert(sources.len() == 0);
                assert(self.units@.dom().finite());
                assert(sources =~= Set::<usize>::empty());
                assert forall|cell: usize| !sight.contains(cell) by {
                    if sight.contains(cell) {
                        assert(self.seen_by_all(sources, cell));
                        assert(self.team_sees(sources, 0, cell));
                    }
                }
                assert(sight =~= Set::<usize>::empty());
            }
            assert(self.solve(sources, sight, passes) == sight);
        }
    }

    /// The sources that pruning is left with: those of the first settled
    /// pass, and none when no pass among the given ones is settled.
    pub open spec fn survivors(&self, sources: Set<usize>, tiles: Set<usize>, passes: nat) -> Set<
        usize,
    >
        decreases passes,
    {
        if passes == 0 {
            Set::empty()
        } else if self.settled(sources, tiles) {
            sources
        } else {
            let left = self.pruned(sources, tiles);
            self.survivors(left.0, left.1, (passes - 1) as nat)
        }
    }

    /// The units that pruning leaves to show the common vision.
    pub open spec fn common_sources_spec(&self) -> Set<usize> {
        self.survivors(self.units@.dom(), self.all_cells(), self.units@.len() + 1)
    }

    /// No source stands on a cell that is dark to the sources themselves.
    pub open spec fn supports_itself(&self, sources: Set<usize>) -> bool {
        forall|location: usize| sources.contains(location) ==> !#[trigger] self.dark(
            sources,
            location,
        )
    }

    /// `sources` is the largest set of units that supports itself: it
    /// does, and it holds every set of units that does.
    pub open spec fn is_greatest_support(&self, sources: Set<usize>) -> bool {
        &&& sources.subset_of(self.units@.dom())
        &&& self.supports_itself(sources)
        &&& forall|other: Set<usize>|
            other.subset_of(self.units@.dom()) && #[trigger] self.supports_itself(other)
                ==> other.subset_of(sources)
    }

    /// The cells with a tile that every team sees through the `sources`.
    pub open spec fn seen_through(&self, sources: Set<usize>) -> Set<usize> {
        Set::new(|cell: usize| cell < self.map.len() && self.seen_by_all(sources, cell))
    }

    /// What every team sees through some sources, it sees through more.
    pub proof fn lemma_more_sources_see_more(
        &self,
        fewer: Set<usize>,
        more: Set<usize>,
        cell: usize,
    )
        requires
            fewer.subset_of(more),
            self.seen_by_all(fewer, cell),
        ensures
            self.seen_by_all(more, cell),
    {
        assert forall|team: int| 0 <= team < self.teams.len() implies #[trigger] self.team_sees(
            more,
            team,
            cell,
        ) by {
            assert(self.team_sees(fewer, team, cell));
            let location = choose|location: usize|
                fewer.contains(location) && #[trigger] self.shows(location, team, cell);
            assert(more.contains(location));
        }
    }

    /// Given a pass more than there are sources, pruning ends with the
    /// largest set of sources that supports itself, and with exactly the
    /// cells that every team sees through that set.
    pub proof fn lemma_solve_is_greatest(&self, sources: Set<usize>, tiles: Set<usize>, passes: nat)
        requires
            sources.finite(),
            passes >= sources.len() + 1,
            tiles.subset_of(self.all_cells()),
            self.seen_through(sources).subset_of(tiles),
        ensures
            self.solve(sources, tiles, passes) == self.seen_through(
                self.survivors(sources, tiles, passes),
            ),
            self.survivors(sources, tiles, passes).subset_of(sources),
            self.supports_itself(self.survivors(sources, tiles, passes)),
            forall|other: Set<usize>|
                other.subset_of(sources) && #[trigger] self.supports_itself(other)
                    ==> other.subset_of(self.survivors(sources, tiles, passes)),
        decreases passes,
    {
        if self.settled(sources, tiles) {
            assert forall|cell: usize| tiles.contains(cell) || sources.contains(
                cell,
            ) implies !self.dark(sources, cell) by {
                assert(!self.drops(sources, tiles, cell));
            }
            assert(tiles =~= self.seen_through(sources));
        } else {
            let left = self.lit(sources, sources);
            let rest = self.lit(sources, tiles);
            assert(self.pruned(sources, tiles) == (left, rest));
            assert(left.subset_of(sources));
            assert forall|cell: usize| self.seen_through(left).contains(cell) implies rest.contains(
                cell,
            ) by {
                self.lemma_more_sources_see_more(left, sources, cell);
                assert(self.seen_through(sources).contains(cell));
            }
            assert forall|other: Set<usize>|
                other.subset_of(sources) && #[trigger] self.supports_itself(
                    other,
                ) implies other.subset_of(left) by {
                assert forall|location: usize| other.contains(location) implies left.contains(
                    location,
                ) by {
                    assert(!self.dark(other, location));
                    if location < self.map.len() {
                        self.lemma_more_sources_see_more(other, sources, location);
                    }
                }
            }
            let fewer = (passes - 1) as nat;
            assert(self.solve(sources, tiles, passes) == self.solve(left, rest, fewer));
            assert(self.survivors(sources, tiles, passes) == self.survivors(left, rest, fewer));
            if left =~= sources {
                assert(rest =~= self.seen_through(sources));
                assert forall|cell: usize| !#[trigger] self.drops(sources, rest, cell) by {
                    if self.dark(sources, cell) && sources.contains(cell) {
                        assert(left.contains(cell));
                    }
                }
                assert(self.settled(sources, rest));
                assert(self.supports_itself(sources)) by {
                    assert forall|location: usize| sources.contains(location) implies !self.dark(
                        sources,
                        location,
                    ) by {
                        assert(left.contains(location));
                    }
                }
                if passes == 1 {
                    assert(sources.len() == 0);
                    assert(sources =~= Set::<usize>::empty());
                    let gone = choose|gone: usize| #[trigger] self.drops(sources, tiles, gone);
                    assert(!self.seen_by_all(sources, gone));
                    let blind = choose|blind: int|
                        0 <= blind < self.teams.len() && !#[trigger] self.team_sees(
                            sources,
                            blind,
                            gone,
                        );
                    assert forall|cell: usize| !self.seen_through(sources).contains(cell) by {
                        if self.seen_by_all(sources, cell) {
                            assert(self.team_sees(sources, blind, cell));
                        }
                    }
                    assert(self.seen_through(sources) =~= Set::<usize>::empty());
                    assert(self.solve(left, rest, fewer) == Set::<usize>::empty());
                    assert(self.survivors(left, rest, fewer) == Set::<usize>::empty());
                } else {
                    assert(self.solve(sources, rest, fewer) == rest);
                    assert(self.survivors(sources, rest, fewer) == sources);
                }
            } else {
                let lost = choose|lost: usize| sources.contains(lost) && !left.contains(lost);
                vstd::set_lib::lemma_len_subset(left, sources.remove(lost));
                self.lemma_solve_is_greatest(left, rest, (passes - 1) as nat);
            }
        }
    }

    /// The common vision is what every team sees through the largest set
    /// of units that supports itself: the largest set in which every unit
    /// that stands on a tile is seen by every team through units of the
    /// set. It holds only cells that have a tile.
    pub proof fn lemma_common_vision_is_greatest(&self)
        ensures
            self.common_vision_spec() == self.seen_through(self.common_sources_spec()),
            self.common_vision_spec().subset_of(self.all_cells()),
            self.is_greatest_support(self.common_sources_spec()),
    {
        self.lemma_solve_is_greatest(self.units@.dom(), self.all_cells(), self.units@.len() + 1);
    }
}

} // verus!
