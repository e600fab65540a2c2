//! The cells that every team sees at once.
//!
//! A unit that is not itself seen by every team may not show anything, or
//! what it shows would tell one side where the other stands. Taking it away
//! can darken further cells, so units and cells are pruned pass by pass
//! until a pass finds nothing to take away.
//!
//! Each pass works out afresh what every team sees through the units that
//! are left, and then takes away every cell that not every team sees,
//! together with the unit on it. There is one pass more than the snapshot
//! has units. If even the last of them took something away, nothing counts
//! as commonly visible.

use std::collections::HashSet;
use vstd::prelude::*;
use crate::state::GameState;
use crate::teams::mark;

verus! {

/// Every entry of the row is marked.
pub open spec fn all_marked(row: Seq<HashSet<usize>>) -> bool {
    forall|team: int| 0 <= team < row.len() ==> !(#[trigger] row[team])@.is_empty()
}

/// The number of marked entries of the row.
pub open spec fn marked_count(row: Seq<HashSet<usize>>) -> nat
    decreases row.len(),
{
    if row.len() == 0 {
        0
    } else {
        marked_count(row.drop_last()) + if row.last()@.is_empty() {
            0nat
        } else {
            1nat
        }
    }
}

/// As many entries as the row has are marked exactly if all are.
pub proof fn lemma_marked_count(row: Seq<HashSet<usize>>)
    ensures
        marked_count(row) <= row.len(),
        marked_count(row) == row.len() <==> all_marked(row),
    decreases row.len(),
{
    if row.len() > 0 {
        let front = row.drop_last();
        lemma_marked_count(front);
        if all_marked(row) {
            assert forall|team: int| 0 <= team < front.len() implies !(#[trigger] front[team])@.is_empty() by {
                assert(front[team] == row[team]);
            }
        }
        if marked_count(row) == row.len() {
            assert forall|team: int| 0 <= team < row.len() implies !(#[trigger] row[team])@.is_empty() by {
                if team < front.len() {
                    assert(front[team] == row[team]);
                }
            }
        }
    }
}

/// Counts the teams that have a mark in the row of one cell.
pub fn count_watching(row: &Vec<HashSet<usize>>) -> (count: usize)
    ensures
        count == marked_count(row@),
        count == row.len() <==> all_marked(row@),
{
    let mut count: usize = 0;
    let mut team: usize = 0;
    while team < row.len()
        invariant
            team <= row.len(),
            count <= team,
            count == marked_count(row@.take(team as int)),
        decreases row.len() - team,
    {
        proof {
            assert(row@.take(team + 1).drop_last() =~= row@.take(team as int));
        }
        if !row[team].is_empty() {
            count += 1;
        }
        team += 1;
        proof {
            lemma_marked_count(row@.take(team as int));
        }
    }
    proof {
        assert(row@.take(team as int) =~= row@);
        lemma_marked_count(row@);
    }
    count
}

impl GameState {
    /// Every team sees `cell` through some unit on one of the `sources`.
    pub open spec fn seen_by_all(&self, sources: Set<usize>, cell: usize) -> bool {
        forall|team: int|
            0 <= team < self.teams.len() ==> #[trigger] self.team_sees(sources, team, cell)
    }

    /// `cell` has a tile, and not every team sees it through the `sources`.
    pub open spec fn dark(&self, sources: Set<usize>, cell: usize) -> bool {
        cell < self.map.len() && !self.seen_by_all(sources, cell)
    }

    /// A pass over the map takes something away at `cell`: the cell is
    /// dark, and it still holds a source or counts as visible.
    pub open spec fn drops(&self, sources: Set<usize>, tiles: Set<usize>, cell: usize) -> bool {
        self.dark(sources, cell) && (sources.contains(cell) || tiles.contains(cell))
    }

    /// A pass takes nothing away.
    pub open spec fn settled(&self, sources: Set<usize>, tiles: Set<usize>) -> bool {
        forall|cell: usize| !#[trigger] self.drops(sources, tiles, cell)
    }

    /// The members of `cells` that a pass has left when it has come to
    /// the cell `upto`: all but the dark cells before it.
    pub open spec fn lit_before(&self, sources: Set<usize>, cells: Set<usize>, upto: int) -> Set<
        usize,
    > {
        Set::new(|cell: usize| cells.contains(cell) && !(cell < upto && self.dark(sources, cell)))
    }

    /// The members of `cells` that a whole pass leaves: all but the dark.
    pub open spec fn lit(&self, sources: Set<usize>, cells: Set<usize>) -> Set<usize> {
        Set::new(|cell: usize| cells.contains(cell) && !self.dark(sources, cell))
    }

    /// What one pass leaves of sources and visible cells: it takes away
    /// every dark cell, and the source on every dark cell.
    pub open spec fn pruned(&self, sources: Set<usize>, tiles: Set<usize>) -> (Set<usize>, Set<
        usize,
    >) {
        (self.lit(sources, sources), self.lit(sources, tiles))
    }

    /// The visible cells after at most `passes` passes: those of the first
    /// settled pass, and none at all when no pass among them is settled.
    pub open spec fn solve(&self, sources: Set<usize>, tiles: Set<usize>, passes: nat) -> Set<
        usize,
    >
        decreases passes,
    {
        if passes == 0 {
            Set::empty()
        } else if self.settled(sources, tiles) {
            tiles
        } else {
            let left = self.pruned(sources, tiles);
            self.solve(left.0, left.1, (passes - 1) as nat)
        }
    }

    /// Every cell that has a tile.
    pub open spec fn all_cells(&self) -> Set<usize> {
        Set::new(|cell: usize| cell < self.map.len())
    }

    /// The cells commonly visible: pruning starts from every unit and every
    /// cell, and is given one pass more than there are units.
    pub open spec fn common_vision_spec(&self) -> Set<usize> {
        self.solve(self.units@.dom(), self.all_cells(), self.units@.len() + 1)
    }

    /// Computes all of the tiles that are commonly visible to all teams:
    /// what is left when pruning has settled, which is what every team
    /// sees through the largest set of units that are themselves seen by
    /// every team through units of the set.
    pub fn common_vision(&self) -> (cells: HashSet<usize>)
        requires
            self.wf(),
        ensures
            cells@ == self.common_vision_spec(),
            cells@.subset_of(self.all_cells()),
            exists|sources: Set<usize>| #[trigger]
                self.is_greatest_support(sources) && cells@ == self.seen_through(sources),
    {
        let mut visible_units = self.units.clone();
        let mut visible_tiles: HashSet<usize> = HashSet::new();
        let mut index: usize = 0;
        while index < self.map.len()
            invariant
                index <= self.map.len(),
                visible_tiles@ =~= Set::new(|cell: usize| cell < index),
            decreases self.map.len() - index,
        {
            visible_tiles.insert(index);
            index += 1;
        }
        assert(visible_tiles@ =~= self.all_cells());

        let total: usize = self.units.len();
        let mut counter: usize = 0;
        let mut exhausted = false;
        while !exhausted
            invariant
                self.wf(),
                total == self.units@.len(),
                visible_tiles@.subset_of(self.all_cells()),
                exhausted ==> self.common_vision_spec() == Set::<usize>::empty(),
                !exhausted ==> counter <= total && self.solve(
                    visible_units@.dom(),
                    visible_tiles@,
                    (total - counter + 1) as nat,
                ) == self.common_vision_spec(),
            decreases
                    if exhausted {
                        0
                    } else {
                        total - counter + 1
                    },
        {
            let vision = self.vision_for_units(&visible_units);
            let ghost sources = visible_units@.dom();
            let ghost tiles = visible_tiles@;
            let ghost mut dropped: usize = 0;
            let mut vision_changed = false;
            let mut location: usize = 0;
            while location < vision.len()
                invariant
                    self.is_vision_of(vision@, sources),
                    location <= vision.len() == self.map.len(),
                    visible_units@.dom() == self.lit_before(sources, sources, location as int),
                    visible_tiles@ == self.lit_before(sources, tiles, location as int),
                    vision_changed ==> self.drops(sources, tiles, dropped),
                    !vision_changed ==> forall|cell: usize|
                        cell < location ==> !#[trigger] self.drops(sources, tiles, cell),
                decreases vision.len() - location,
            {
                let num_teams_with_vision = count_watching(&vision[location]);
                proof {
                    self.lemma_row_marks(vision@, sources, location);
                }
                let ghost units_before = visible_units@.dom();
                let ghost tiles_before = visible_tiles@;
                if num_teams_with_vision != self.teams.len() {
                    let had_unit = visible_units.remove(&location).is_some();
                    let had_tile = visible_tiles.remove(&location);
                    if had_unit || had_tile {
                        vision_changed = true;
                        proof {
                            dropped = location;
                        }
                    }
                    proof {
                        assert(visible_units@.dom() =~= units_before.remove(location));
                        assert(visible_tiles@ =~= tiles_before.remove(location));
                    }
                }
                location += 1;
                proof {
                    assert(visible_units@.dom() =~= self.lit_before(
                        sources,
                        sources,
                        location as int,
                    ));
                    assert(visible_tiles@ =~= self.lit_before(sources, tiles, location as int));
                }
            }
            proof {
                assert(visible_units@.dom() =~= self.lit(sources, sources));
                assert(visible_tiles@ =~= self.lit(sources, tiles));
            }
            if !vision_changed {
                proof {
                    assert(self.settled(sources, tiles));
                    assert forall|cell: usize| tiles.contains(cell) implies !self.dark(
                        sources,
                        cell,
                    ) by {
                        assert(!self.drops(sources, tiles, cell));
                    }
                    assert(visible_tiles@ =~= tiles);
                    self.lemma_common_vision_is_greatest();
                    assert(self.is_greatest_support(self.common_sources_spec()));
                }
                return visible_tiles;
            }
            proof {
                assert(self.drops(sources, tiles, dropped));
                assert(!self.settled(sources, tiles));
                assert(self.pruned(sources, tiles) == (visible_units@.dom(), visible_tiles@));
                assert(self.solve(sources, tiles, (total - counter + 1) as nat) == self.solve(
                    visible_units@.dom(),
                    visible_tiles@,
                    (total - counter) as nat,
                ));
            }
            if counter == total {
                exhausted = true;
            } else {
                counter += 1;
            }
        }
        proof {
            self.lemma_common_vision_is_greatest();
            assert(self.is_greatest_support(self.common_sources_spec()));
        }
        HashSet::new()
    }

    /// In a table of what the teams see, the row of a cell is fully marked
    /// exactly if every team sees the cell.
    pub proof fn lemma_row_marks(
        &self,
        table: Seq<Vec<HashSet<usize>>>,
        sources: Set<usize>,
        cell: usize,
    )
        requires
            self.is_vision_of(table, sources),
            cell < self.map.len(),
        ensures
            all_marked(table[cell as int]@) <==> self.seen_by_all(sources, cell),
    {
        let row = table[cell as int];
        assert forall|team: int| 0 <= team < self.teams.len() implies (!row[team]@.is_empty()
            <==> self.team_sees(sources, team, cell)) by {
            assert(table[cell as int][team]@ == mark(
                cell as int,
                self.team_sees(sources, team, cell),
            ));
            assert(mark(cell as int, true).contains(cell));
        }
    }
}

} // verus!
