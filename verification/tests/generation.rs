use colonizer::cell::{CellType, GameCell};
use colonizer::map::GameMap;

fn plain(cell_type: CellType) -> GameCell {
    GameCell {
        army_size: 0,
        owner: None,
        cell_type,
        is_friend: false,
        last_seen_type: CellType::Empty,
        last_update_time: 0,
    }
}

/// A grid drawn with `.` for open ground and `#` for mountains.
fn terrain(rows: &[&str]) -> Vec<Vec<GameCell>> {
    rows.iter()
        .map(|row| {
            row.chars()
                .map(|c| plain(if c == '#' { CellType::Mountains } else { CellType::Empty }))
                .collect()
        })
        .collect()
}

fn hangs_together(rows: &[&str]) -> bool {
    let grid = terrain(rows);
    let m = if grid.is_empty() { 0 } else { grid[0].len() };
    GameMap::is_connected(grid.len(), m, &grid)
}

fn count(map: &GameMap, cell_type: CellType) -> usize {
    map.grid.iter().flatten().filter(|c| c.cell_type == cell_type).count()
}

#[test]
fn open_ground_hangs_together() {
    assert!(hangs_together(&["...", "...", "..."]));
    assert!(hangs_together(&["."]));
    assert!(hangs_together(&[".#.", "...", ".#."]));
    assert!(hangs_together(&["#####", "#...#", "#.#.#", "#...#", "#####"]));
}

#[test]
fn a_wall_of_mountains_parts_the_ground() {
    assert!(!hangs_together(&[".#.", ".#.", ".#."]));
    assert!(!hangs_together(&["...", "###", "..."]));
    assert!(!hangs_together(&[".#", "#."]));
    assert!(!hangs_together(&["#.#.#"]));
    assert!(!hangs_together(&["..#", ".#.", "#.."]));
}

#[test]
fn squares_that_touch_only_at_a_corner_are_apart() {
    assert!(!hangs_together(&[".#", "#."]));
    assert!(hangs_together(&["..", "#."]));
}

#[test]
fn ground_without_a_passable_square_hangs_together() {
    assert!(hangs_together(&["###", "###"]));
    assert!(hangs_together(&["#"]));
    assert!(hangs_together(&[]));
    let no_columns: Vec<Vec<GameCell>> = vec![vec![], vec![]];
    assert!(GameMap::is_connected(2, 0, &no_columns));
}

#[test]
fn cities_and_capitals_are_passable() {
    let mut grid = terrain(&["...", "#.#", "..."]);
    grid[1][1].cell_type = CellType::City;
    assert!(GameMap::is_connected(3, 3, &grid));
    grid[1][1].cell_type = CellType::General;
    assert!(GameMap::is_connected(3, 3, &grid));
    grid[1][1].cell_type = CellType::Mountains;
    assert!(!GameMap::is_connected(3, 3, &grid));
}

#[test]
fn a_long_winding_corridor_hangs_together() {
    let rows = [
        ".........",
        "########.",
        ".........",
        ".########",
        ".........",
    ];
    assert!(hangs_together(&rows));
    let cut = [
        ".........",
        "########.",
        "....#....",
        ".########",
        ".........",
    ];
    assert!(!hangs_together(&cut));
}

#[test]
fn a_blank_map_is_open_ground() {
    let map = GameMap::new_blank(3, 4, 2);
    assert_eq!((map.n, map.m, map.players_num, map.curr_color, map.turn), (3, 4, 2, 0, 0));
    assert!(map.is_well_formed());
    assert_eq!(count(&map, CellType::Empty), 12);
    assert!(map.grid.iter().flatten().all(|c| *c == plain(CellType::Empty)));
}

#[test]
fn a_mountain_stands_where_it_parts_nothing() {
    let mut map = GameMap::new_blank(3, 3, 2);
    assert!(map.try_place_mountain(1, 1));
    assert_eq!(map.grid[1][1].cell_type, CellType::Mountains);
    assert!(map.try_place_mountain(0, 0));
    assert_eq!(map.grid[0][0].cell_type, CellType::Mountains);
    assert_eq!(count(&map, CellType::Mountains), 2);
}

#[test]
fn a_mountain_that_would_part_the_ground_is_not_raised() {
    let mut map = GameMap::new_blank(1, 3, 2);
    assert!(!map.try_place_mountain(0, 1));
    assert_eq!(map.grid[0][1].cell_type, CellType::Empty);
    assert!(map.try_place_mountain(0, 0));
    assert!(map.try_place_mountain(0, 1));
    assert!(map.try_place_mountain(0, 2));
    assert_eq!(count(&map, CellType::Mountains), 3);
}

#[test]
fn free_cells_are_the_open_squares_nobody_holds() {
    let mut map = GameMap::new_blank(2, 3, 2);
    map.grid[0][1].cell_type = CellType::Mountains;
    map.grid[1][0].owner = Some(1);
    map.grid[1][2].cell_type = CellType::City;
    assert_eq!(map.free_cells(), vec![(0, 0), (0, 2), (1, 1)]);
    assert!(map.grid[0][0].is_empty_not_owned());
    assert!(!map.grid[1][0].is_empty_not_owned());
    assert!(!map.grid[1][2].is_empty_not_owned());
}

#[test]
fn a_dealt_map_is_as_the_rules_say() {
    for round in 0..20 {
        let (n, m, k) = (10 + round % 5, 12, 2 + round % 4);
        let map = GameMap::new_random(n, m, k).expect("room for every capital");
        assert_eq!((map.n, map.m, map.players_num, map.curr_color, map.turn), (n, m, k, 0, 0));
        assert!(map.is_well_formed());
        assert!(GameMap::is_connected(n, m, &map.grid));
        for id in 0..k {
            let capitals = map
                .grid
                .iter()
                .flatten()
                .filter(|c| c.cell_type == CellType::General && c.owner == Some(id))
                .count();
            assert_eq!(capitals, 1);
        }
        assert_eq!(count(&map, CellType::General), k);
        for c in map.grid.iter().flatten() {
            assert!(!c.is_friend);
            assert_eq!(c.last_seen_type, CellType::Empty);
            assert_eq!(c.last_update_time, 0);
            match c.cell_type {
                CellType::Empty | CellType::Mountains => {
                    assert_eq!((c.army_size, c.owner), (0, None));
                }
                CellType::City => {
                    assert!((20..=50).contains(&c.army_size));
                    assert_eq!(c.owner, None);
                }
                CellType::General => {
                    assert_eq!(c.army_size, 1);
                    assert!(matches!(c.owner, Some(id) if id < k));
                }
            }
        }
        assert!(map.is_playable());
    }
}

#[test]
fn the_dice_decide_the_terrain() {
    let map = GameMap::new_random(40, 40, 2).expect("room for every capital");
    let mountains = count(&map, CellType::Mountains);
    assert!(mountains > 0);
    assert!(mountains < 1600 / 2);
    let garrisons: Vec<i64> = map
        .grid
        .iter()
        .flatten()
        .filter(|c| c.cell_type == CellType::City)
        .map(|c| c.army_size)
        .collect();
    assert!(garrisons.len() > 1);
    assert!(garrisons.iter().any(|a| *a != garrisons[0]));
}

#[test]
fn no_map_is_dealt_without_room_for_the_capitals() {
    assert!(GameMap::new_random(1, 1, 2).is_none());
    assert!(GameMap::new_random(0, 5, 1).is_none());
    assert!(GameMap::new_random(5, 0, 1).is_none());
    assert!(GameMap::new_random(2, 2, 5).is_none());
}

#[test]
fn a_map_without_players_is_always_dealt() {
    let map = GameMap::new_random(4, 4, 0).expect("nothing to place");
    assert_eq!(count(&map, CellType::General), 0);
    assert!(GameMap::new_random(0, 0, 0).is_some());
}

#[test]
fn a_low_roll_raises_a_mountain_where_the_ground_allows() {
    let mut map = GameMap::new_blank(1, 3, 2);
    assert!(!map.roll_mountain(0, 0, 15));
    assert_eq!(count(&map, CellType::Mountains), 0);
    assert!(!map.roll_mountain(0, 0, 99));
    assert!(map.roll_mountain(0, 0, 14));
    assert_eq!(map.grid[0][0].cell_type, CellType::Mountains);
    let mut map = GameMap::new_blank(1, 3, 2);
    assert!(!map.roll_mountain(0, 1, 0));
    assert_eq!(map.grid[0][1].cell_type, CellType::Empty);
    assert!(map.roll_mountain(0, 2, 0));
    assert_eq!(count(&map, CellType::Mountains), 1);
}

#[test]
fn a_roll_that_would_part_the_ground_clears_the_square() {
    let mut map = GameMap::new_blank(1, 3, 2);
    map.grid[0][1].cell_type = CellType::City;
    // A higher roll leaves the square alone; a low one that fails leaves open ground.
    assert!(!map.roll_mountain(0, 1, 50));
    assert_eq!(map.grid[0][1].cell_type, CellType::City);
    assert!(!map.roll_mountain(0, 1, 3));
    assert_eq!(map.grid[0][1].cell_type, CellType::Empty);
}

#[test]
fn a_capital_goes_to_the_place_that_was_drawn() {
    let mut map = GameMap::new_blank(2, 3, 4);
    map.grid[0][1].cell_type = CellType::Mountains;
    let free = map.free_cells();
    assert_eq!(free, vec![(0, 0), (0, 2), (1, 0), (1, 1), (1, 2)]);
    assert!(map.place_capital(3, &free, 2));
    assert_eq!(
        map.grid[1][0],
        GameCell { army_size: 1, owner: Some(3), cell_type: CellType::General, ..plain(CellType::Empty) }
    );
    assert_eq!(count(&map, CellType::General), 1);
    assert_eq!(map.free_cells(), vec![(0, 0), (0, 2), (1, 1), (1, 2)]);
    assert!(map.place_capital(0, &free, 4));
    assert_eq!(map.grid[1][2].owner, Some(0));
    assert_eq!(map.grid[1][2].army_size, 1);
}

#[test]
fn no_capital_is_placed_without_a_place() {
    let mut map = GameMap::new_blank(2, 2, 2);
    let before = map.grid.clone();
    let free = map.free_cells();
    assert!(!map.place_capital(1, &free, 4));
    assert!(!map.place_capital(1, &free, usize::MAX));
    assert!(!map.place_capital(1, &vec![], 0));
    assert_eq!(map.grid, before);
    let mut nothing = GameMap::new_blank(0, 0, 2);
    let free = nothing.free_cells();
    assert!(free.is_empty());
    assert!(!nothing.place_capital(0, &free, 0));
}

#[test]
fn a_city_is_wanted_on_a_low_roll_on_free_open_ground() {
    let mut map = GameMap::new_blank(1, 4, 2);
    map.grid[0][1].cell_type = CellType::Mountains;
    map.grid[0][2].owner = Some(0);
    map.grid[0][3].cell_type = CellType::City;
    assert!(map.wants_city(0, 0, 0));
    assert!(map.wants_city(0, 0, 4));
    assert!(!map.wants_city(0, 0, 5));
    assert!(!map.wants_city(0, 0, 99));
    for x in 1..4 {
        assert!(!map.wants_city(0, x, 0));
    }
}

#[test]
fn a_city_is_founded_on_free_open_ground_only() {
    let mut map = GameMap::new_blank(1, 4, 2);
    map.grid[0][1].cell_type = CellType::Mountains;
    map.grid[0][2].owner = Some(0);
    map.grid[0][3].cell_type = CellType::General;
    let before = map.grid.clone();
    for x in 1..4 {
        assert!(!map.place_city(0, x, 33));
    }
    assert_eq!(map.grid, before);
    assert!(map.place_city(0, 0, 33));
    assert_eq!(map.grid[0][0], GameCell { army_size: 33, ..plain(CellType::City) });
    assert!(!map.place_city(0, 0, 40));
    assert_eq!(map.grid[0][0].army_size, 33);
    assert_eq!(&map.grid[0][1..], &before[0][1..]);
}
