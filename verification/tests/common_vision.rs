use std::collections::HashSet;

use common::map::{CountryKind, TileKind};
use common::officer::{OfficerKind, PowerKind};
use common::unit::UnitKind;
use common::{GameState, UnitState};

fn into_set(items: Vec<usize>) -> HashSet<usize> {
    items.into_iter().collect()
}

#[test]
fn simple_2x2_all() {
    let game_state = GameState {
        map: vec![
            TileKind::HeadQuarters,
            TileKind::Plain,
            TileKind::Plain,
            TileKind::HeadQuarters,
        ],
        map_dimensions: (2, 2),
        units: [
            (0, UnitState::new(0, false, UnitKind::Infantry)),
            (3, UnitState::new(1, false, UnitKind::Infantry)),
        ]
        .into_iter()
        .collect(),
        players: vec![
            (CountryKind::OrangeStar, OfficerKind::Andy, PowerKind::NoPower),
            (CountryKind::BlueMoon, OfficerKind::Olaf, PowerKind::NoPower),
        ],
        teams: vec![into_set(vec![0]), into_set(vec![1])],
    };

    assert_eq!(into_set(vec![0, 1, 2, 3]), game_state.common_vision());
}

#[test]
fn simple_2x2_none() {
    let game_state = GameState {
        map: vec![
            TileKind::HeadQuarters,
            TileKind::Plain,
            TileKind::Plain,
            TileKind::HeadQuarters,
        ],
        map_dimensions: (2, 2),
        units: [
            (0, UnitState::new(0, false, UnitKind::Artillery)),
            (3, UnitState::new(1, false, UnitKind::Artillery)),
        ]
        .into_iter()
        .collect(),
        players: vec![
            (CountryKind::OrangeStar, OfficerKind::Andy, PowerKind::NoPower),
            (CountryKind::BlueMoon, OfficerKind::Olaf, PowerKind::NoPower),
        ],
        teams: vec![into_set(vec![0]), into_set(vec![1])],
    };

    assert_eq!(into_set(vec![]), game_state.common_vision());
}

#[test]
fn lib_sonja_2x2() {
    let game_state = GameState {
        map: vec![
            TileKind::HeadQuarters,
            TileKind::Plain,
            TileKind::Plain,
            TileKind::HeadQuarters,
        ],
        map_dimensions: (2, 2),
        units: [
            (0, UnitState::new(0, false, UnitKind::Artillery)),
            (3, UnitState::new(1, false, UnitKind::Artillery)),
        ]
        .into_iter()
        .collect(),
        players: vec![
            (CountryKind::OrangeStar, OfficerKind::Sonja, PowerKind::NoPower),
            (CountryKind::BlueMoon, OfficerKind::Sonja, PowerKind::NoPower),
        ],
        teams: vec![into_set(vec![0]), into_set(vec![1])],
    };

    assert_eq!(into_set(vec![0, 1, 2, 3]), game_state.common_vision());
}

#[test]
fn lib_sonja_2x2__forest__no_power() {
    let game_state = GameState {
        map: vec![
            TileKind::Forest,
            TileKind::Forest,
            TileKind::Forest,
            TileKind::Forest,
        ],
        map_dimensions: (2, 2),
        units: [
            (0, UnitState::new(0, false, UnitKind::Artillery)),
            (3, UnitState::new(1, false, UnitKind::Artillery)),
        ]
        .into_iter()
        .collect(),
        players: vec![
            (CountryKind::OrangeStar, OfficerKind::Sonja, PowerKind::NoPower),
            (CountryKind::BlueMoon, OfficerKind::Sonja, PowerKind::NoPower),
        ],
        teams: vec![into_set(vec![0]), into_set(vec![1])],
    };

    assert_eq!(into_set(vec![]), game_state.common_vision());
}

#[test]
fn lib_sonja_2x2__forest__power() {
    let game_state = GameState {
        map: vec![
            TileKind::Forest,
            TileKind::Forest,
            TileKind::Forest,
            TileKind::Forest,
        ],
        map_dimensions: (2, 2),
        units: [
            (0, UnitState::new(0, false, UnitKind::Artillery)),
            (3, UnitState::new(1, false, UnitKind::Artillery)),
        ]
        .into_iter()
        .collect(),
        players: vec![
            (
                CountryKind::OrangeStar,
                OfficerKind::Sonja,
                PowerKind::Normal,
            ),
            (CountryKind::BlueMoon, OfficerKind::Sonja, PowerKind::Super),
        ],
        teams: vec![into_set(vec![0]), into_set(vec![1])],
    };

    assert_eq!(into_set(vec![0, 1, 2, 3]), game_state.common_vision());
}

#[test]
fn team_2x2__cycle__all() {
    let game_state = GameState {
        map: vec![
            TileKind::Forest,
            TileKind::Forest,
            TileKind::Forest,
            TileKind::Forest,
        ],
        map_dimensions: (2, 2),
        units: [
            (0, UnitState::new(0, false, UnitKind::Artillery)),
            (1, UnitState::new(1, false, UnitKind::Artillery)),
            (2, UnitState::new(2, false, UnitKind::Artillery)),
            (3, UnitState::new(3, false, UnitKind::Artillery)),
        ]
        .into_iter()
        .collect(),
        players: vec![
            (CountryKind::OrangeStar, OfficerKind::Andy, PowerKind::NoPower),
            (CountryKind::BlueMoon, OfficerKind::Olaf, PowerKind::NoPower),
            (CountryKind::GreenEarth, OfficerKind::Drake, PowerKind::NoPower),
            (
                CountryKind::YellowComet,
                OfficerKind::Kanbei,
                PowerKind::Super,
            ),
        ],
        teams: vec![into_set(vec![0, 2]), into_set(vec![1, 3])],
    };

    assert_eq!(into_set(vec![0, 1, 2, 3]), game_state.common_vision());
}

#[test]
fn team_3x3__recon() {
    let game_state = GameState {
        map: vec![
            TileKind::Plain,
            TileKind::Plain,
            TileKind::City,
            TileKind::Plain,
            TileKind::Plain,
            TileKind::Plain,
            TileKind::Plain,
            TileKind::Plain,
            TileKind::Forest,
        ],
        map_dimensions: (2, 2),
        units: [
            (0, UnitState::new(0, false, UnitKind::Artillery)),
            (2, UnitState::new(1, false, UnitKind::Infantry)),
            (8, UnitState::new(0, false, UnitKind::Recon)),
        ]
        .into_iter()
        .collect(),
        players: vec![
            (CountryKind::OrangeStar, OfficerKind::Andy, PowerKind::NoPower),
            (CountryKind::BlueMoon, OfficerKind::Olaf, PowerKind::NoPower),
        ],
        teams: vec![into_set(vec![0]), into_set(vec![1])],
    };

    assert_eq!(into_set(vec![0, 1, 2]), game_state.common_vision());
}
