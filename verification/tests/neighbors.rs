use std::collections::{BTreeMap, HashSet};

use common::map::TileKind;
use common::GameState;

fn into_set(items: Vec<usize>) -> HashSet<usize> {
    items.into_iter().collect()
}

fn make_map(map_tile: TileKind, map_dimensions: (usize, usize)) -> GameState {
    let mut map = Vec::with_capacity(map_dimensions.0 * map_dimensions.1);
    for _ in 0..(map_dimensions.0 * map_dimensions.1) {
        map.push(map_tile.clone());
    }

    GameState {
        map,
        map_dimensions,
        units: BTreeMap::new(),
        players: Vec::new(),
        teams: Vec::new(),
    }
}

#[test]
fn neighbors_1x1() {
    let game_state = make_map(TileKind::Sea, (1, 1));

    assert_eq!(into_set(vec![0]), game_state.neighbors(0, 1));
    assert_eq!(into_set(vec![0]), game_state.neighbors(0, 2));
    assert_eq!(into_set(vec![0]), game_state.neighbors(0, 3));

    // An out of bounds index can have an in-bound neighbor
    assert_eq!(into_set(vec![0]), game_state.neighbors(1, 1));

    // However, if the out of bounds index is far enough it won't
    assert_eq!(into_set(vec![]), game_state.neighbors(100, 1));
}

#[test]
fn neighbors_2x2() {
    let game_state = make_map(TileKind::Sea, (2, 2));

    assert_eq!(into_set(vec![0, 1, 2]), game_state.neighbors(0, 1));
    assert_eq!(into_set(vec![0, 1, 2, 3]), game_state.neighbors(0, 2));
    assert_eq!(into_set(vec![0, 1, 2, 3]), game_state.neighbors(0, 3));

    // An out of bounds index can have an in-bound neighbor
    assert_eq!(into_set(vec![2]), game_state.neighbors(4, 1));

    // However, if the out of bounds index is far enough it won't
    assert_eq!(into_set(vec![]), game_state.neighbors(100, 1));
}

#[test]
fn neighbors_3x3() {
    let game_state = make_map(TileKind::Sea, (3, 3));

    assert_eq!(into_set(vec![1, 3, 4, 5, 7]), game_state.neighbors(4, 1));
    assert_eq!(
        into_set(vec![0, 1, 2, 3, 4, 5, 6, 7, 8]),
        game_state.neighbors(4, 2)
    );
    assert_eq!(
        into_set(vec![0, 1, 2, 3, 4, 5, 6, 7]),
        game_state.neighbors(0, 3)
    );
    assert_eq!(
        into_set(vec![0, 1, 2, 3, 4, 5, 6, 7, 8]),
        game_state.neighbors(0, 4)
    );

    // An out of bounds index can have an in-bound neighbor
    assert_eq!(into_set(vec![6]), game_state.neighbors(9, 1));

    // However, if the out of bounds index is far enough it won't
    assert_eq!(into_set(vec![]), game_state.neighbors(100, 1));
}

#[test]
fn neighbors_distance_zero_is_the_origin() {
    let game_state = make_map(TileKind::Plain, (3, 3));

    assert_eq!(into_set(vec![4]), game_state.neighbors(4, 0));
    assert_eq!(into_set(vec![8]), game_state.neighbors(8, 0));
    assert_eq!(into_set(vec![]), game_state.neighbors(9, 0));
}

#[test]
fn neighbors_grow_with_distance() {
    let game_state = make_map(TileKind::Plain, (4, 3));

    for origin in 0..20 {
        for distance in 0..8 {
            let near = game_state.neighbors(origin, distance);
            let far = game_state.neighbors(origin, distance + 1);
            assert!(near.is_subset(&far));
        }
    }
}

#[test]
fn neighbors_hold_an_origin_on_the_grid() {
    let game_state = make_map(TileKind::Plain, (4, 3));

    for origin in 0..12 {
        for distance in 0..4 {
            assert!(game_state.neighbors(origin, distance).contains(&origin));
        }
    }
}

#[test]
fn neighbors_with_the_largest_distance() {
    let game_state = make_map(TileKind::Plain, (3, 2));

    assert_eq!(
        into_set(vec![0, 1, 2, 3, 4, 5]),
        game_state.neighbors(4, usize::MAX)
    );
    assert_eq!(
        into_set(vec![0, 1, 2, 3, 4, 5]),
        game_state.neighbors(usize::MAX, usize::MAX)
    );
}

#[test]
fn neighbors_without_rows() {
    let game_state = make_map(TileKind::Plain, (3, 0));

    assert_eq!(into_set(vec![]), game_state.neighbors(0, 5));
}

#[test]
fn neighbors_on_a_wide_grid() {
    let game_state = make_map(TileKind::Plain, (4, 3));

    assert_eq!(into_set(vec![1, 4, 5, 6, 9]), game_state.neighbors(5, 1));
    assert_eq!(into_set(vec![3, 6, 7, 11]), game_state.neighbors(7, 1));
}
