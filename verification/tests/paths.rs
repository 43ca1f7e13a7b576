use colonizer::bot::PathFinderBot;
use colonizer::cell::{CellType, GameCell};
use colonizer::map::GameMap;
use colonizer::search::{explore, VertexData, INF, MAX_CELLS};

fn unit(army_size: i64, owner: Option<usize>, cell_type: CellType) -> GameCell {
    GameCell {
        army_size,
        owner,
        cell_type,
        is_friend: false,
        last_seen_type: CellType::Empty,
        last_update_time: 0,
    }
}

fn ground() -> GameCell {
    unit(0, None, CellType::Empty)
}

fn land(grid: Vec<Vec<GameCell>>) -> GameMap {
    let n = grid.len();
    let m = if n == 0 { 0 } else { grid[0].len() };
    GameMap { n, m, players_num: 2, curr_color: 0, turn: 0, grid }
}

const NOWHERE: (usize, usize) = (usize::MAX, usize::MAX);

fn entry(v: &VertexData) -> (i64, i64, (usize, usize), (usize, usize)) {
    (v.dist, v.value, v.coords, v.parent)
}

#[test]
fn merge_takes_a_shorter_way() {
    let mut known = VertexData { dist: 5, value: 9, coords: (1, 1), parent: (1, 0) };
    let offer = VertexData { dist: 4, value: 2, coords: (7, 7), parent: (0, 1) };
    assert!(known.merge(offer));
    assert_eq!(entry(&known), (4, 2, (1, 1), (0, 1)));
}

#[test]
fn merge_takes_more_units_over_the_same_distance_without_a_new_look() {
    let mut known = VertexData { dist: 4, value: 2, coords: (1, 1), parent: (1, 0) };
    let offer = VertexData { dist: 4, value: 3, coords: (1, 1), parent: (2, 1) };
    assert!(!known.merge(offer));
    assert_eq!(entry(&known), (4, 3, (1, 1), (2, 1)));
}

#[test]
fn merge_keeps_what_is_no_worse() {
    let mut known = VertexData { dist: 4, value: 3, coords: (1, 1), parent: (1, 0) };
    assert!(!known.merge(VertexData { dist: 4, value: 3, coords: (1, 1), parent: (2, 1) }));
    assert_eq!(entry(&known), (4, 3, (1, 1), (1, 0)));
    assert!(!known.merge(VertexData { dist: 5, value: 100, coords: (1, 1), parent: (2, 1) }));
    assert_eq!(entry(&known), (4, 3, (1, 1), (1, 0)));
    assert!(!known.merge(VertexData { dist: 4, value: i64::MIN, coords: (1, 1), parent: (2, 1) }));
    assert_eq!(entry(&known), (4, 3, (1, 1), (1, 0)));
}

#[test]
fn a_vertex_starts_at_zero() {
    assert_eq!(entry(&VertexData::default()), (0, 0, (0, 0), (0, 0)));
    assert_eq!(INF, 10_000_000_000);
}

#[test]
fn cities_and_capitals_are_expected_to_grow() {
    let mut map = land(vec![vec![ground()]]);
    map.turn = 5;
    let mut city = unit(7, Some(1), CellType::City);
    city.last_update_time = 2;
    assert_eq!(city.army_after_time(&map, 4), 7 + 4 + 3);
    assert_eq!(city.army_after_time(&map, 0), 7 + 3);
    let mut capital = unit(1, Some(1), CellType::General);
    capital.last_update_time = 5;
    assert_eq!(capital.army_after_time(&map, 6), 7);
    assert!(city.city_or_general());
    assert!(capital.city_or_general());
}

#[test]
fn other_squares_are_expected_as_they_were_seen() {
    let mut map = land(vec![vec![ground()]]);
    map.turn = 5;
    let mut field = unit(7, Some(1), CellType::Empty);
    field.last_update_time = 2;
    assert_eq!(field.army_after_time(&map, 4), 7);
    // Knowledge from a turn to come does no harm here.
    field.last_update_time = 9;
    assert_eq!(field.army_after_time(&map, 4), 7);
    let rock = unit(0, None, CellType::Mountains);
    assert_eq!(rock.army_after_time(&map, 100), 0);
    assert!(!field.city_or_general());
    assert!(!rock.city_or_general());
}

#[test]
fn a_search_along_a_strip() {
    let map = land(vec![vec![
        unit(10, Some(0), CellType::Empty),
        unit(2, None, CellType::Empty),
        unit(2, Some(1), CellType::City),
        ground(),
    ]]);
    let out = explore(&map, (0, 0));
    let row: Vec<_> = out.nodes[0].iter().map(entry).collect();
    assert_eq!(
        row,
        vec![
            (0, 10, (0, 0), NOWHERE),
            (1, 10 - 1 - 2, (0, 1), (0, 0)),
            (2, 7 - 1 - (2 + 2), (0, 2), (0, 1)),
            (INF, 0, (0, 3), NOWHERE),
        ]
    );
    assert_eq!(out.relaxations, 12);
    let bot = PathFinderBot::from_map(&map, 0);
    let paths = bot.find_paths(&map, (0, 0));
    let again: Vec<_> = paths[0].iter().map(entry).collect();
    assert_eq!(again, row);
}

#[test]
fn a_search_counts_the_turns_since_a_city_was_seen() {
    let mut map = land(vec![vec![
        unit(10, Some(0), CellType::Empty),
        unit(2, None, CellType::Empty),
        unit(2, Some(1), CellType::City),
    ]]);
    map.turn = 3;
    map.grid[0][2].last_update_time = 1;
    let out = explore(&map, (0, 0));
    // 7 - 1 - (2 + 2 + 2) is no more than one unit: the city is out of reach.
    assert_eq!(entry(&out.nodes[0][2]), (INF, 0, (0, 2), NOWHERE));
    assert_eq!(entry(&out.nodes[0][1]), (1, 7, (0, 1), (0, 0)));
    assert_eq!(out.relaxations, 8);
}

#[test]
fn a_search_gathers_the_armies_of_its_own_side() {
    let map = land(vec![vec![
        unit(10, Some(0), CellType::Empty),
        unit(5, Some(0), CellType::Empty),
        unit(3, Some(0), CellType::General),
        unit(20, Some(1), CellType::Empty),
    ]]);
    let out = explore(&map, (0, 0));
    let row: Vec<_> = out.nodes[0].iter().map(entry).collect();
    assert_eq!(
        row,
        vec![
            (0, 10, (0, 0), NOWHERE),
            (1, 14, (0, 1), (0, 0)),
            (2, 14 - 1 + (3 + 2), (0, 2), (0, 1)),
            (INF, 0, (0, 3), NOWHERE),
        ]
    );
}

#[test]
fn a_search_stops_where_one_unit_is_left() {
    let map = land(vec![vec![unit(1, Some(0), CellType::Empty), ground(), ground()]]);
    let out = explore(&map, (0, 0));
    assert_eq!(entry(&out.nodes[0][0]), (0, 1, (0, 0), NOWHERE));
    assert_eq!(entry(&out.nodes[0][1]), (INF, 0, (0, 1), NOWHERE));
    assert_eq!(out.relaxations, 0);
    let map = land(vec![vec![unit(3, Some(0), CellType::Empty), ground(), ground()]]);
    let out = explore(&map, (0, 0));
    assert_eq!(entry(&out.nodes[0][1]), (1, 2, (0, 1), (0, 0)));
    assert_eq!(entry(&out.nodes[0][2]), (INF, 0, (0, 2), NOWHERE));
}

#[test]
fn a_search_goes_round_what_is_remembered_as_a_mountain() {
    let mut grid = vec![vec![ground(); 3]; 3];
    grid[0][0] = unit(20, Some(0), CellType::Empty);
    grid[0][1].last_seen_type = CellType::Mountains;
    grid[1][1].last_seen_type = CellType::Mountains;
    // A mountain that nobody remembers is walked over.
    grid[1][0].cell_type = CellType::Mountains;
    let map = land(grid);
    let out = explore(&map, (0, 0));
    let dist: Vec<Vec<i64>> =
        out.nodes.iter().map(|row| row.iter().map(|v| v.dist).collect()).collect();
    assert_eq!(dist, vec![vec![0, INF, 6], vec![1, INF, 5], vec![2, 3, 4]]);
    assert_eq!(out.nodes[0][2].value, 14);
    assert_eq!(out.nodes[0][2].parent, (1, 2));
    assert_eq!(out.nodes[2][1].parent, (2, 0));
    assert!(out.relaxations <= 4 * 9);
}

#[test]
fn a_search_keeps_the_larger_army_of_two_ways_of_one_length() {
    // Two ways lead from the corner to the square across: over the enemy, or
    // over the friend.
    let grid = vec![
        vec![unit(10, Some(0), CellType::Empty), unit(4, Some(1), CellType::Empty)],
        vec![unit(4, Some(0), CellType::Empty), ground()],
    ];
    let map = land(grid);
    let out = explore(&map, (0, 0));
    assert_eq!(entry(&out.nodes[0][1]), (1, 5, (0, 1), (0, 0)));
    assert_eq!(entry(&out.nodes[1][0]), (1, 13, (1, 0), (0, 0)));
    assert_eq!(entry(&out.nodes[1][1]), (2, 12, (1, 1), (1, 0)));
    assert_eq!(out.relaxations, 16);
}

#[test]
fn a_search_from_a_mountain_remembered_goes_nowhere() {
    let mut grid = vec![vec![ground(); 2]; 2];
    grid[0][0] = unit(9, Some(0), CellType::Empty);
    grid[0][0].last_seen_type = CellType::Mountains;
    let map = land(grid);
    let out = explore(&map, (0, 0));
    assert_eq!(out.nodes[0][1].dist, INF);
    assert_eq!(out.nodes[1][0].dist, INF);
    assert_eq!(out.relaxations, 4);
}

#[test]
fn a_search_tries_no_more_than_four_steps_for_each_square() {
    let mut grid = vec![vec![ground(); 12]; 9];
    grid[4][6] = unit(1000, Some(0), CellType::General);
    grid[2][2] = unit(30, Some(1), CellType::City);
    grid[7][9].last_seen_type = CellType::Mountains;
    let map = land(grid);
    assert!(map.is_playable());
    let out = explore(&map, (4, 6));
    assert!(out.relaxations <= 4 * 9 * 12);
    assert_eq!(out.relaxations, 4 * (9 * 12 - 1));
    assert_eq!(out.nodes[7][9].dist, INF);
    assert_eq!(out.nodes[4][6].dist, 0);
    assert_eq!(out.nodes[0][0].dist, 10);
    assert_eq!(out.nodes[0][0].value, 1000 - 10);
    assert_eq!(out.nodes[2][2].dist, 6);
    assert_eq!(out.nodes[2][2].value, 1000 - 5 - 1 - (30 + 6));
}

#[test]
fn a_map_can_be_searched_within_limits() {
    let mut map = land(vec![vec![unit(5, Some(0), CellType::General), ground()]]);
    assert!(map.is_playable());
    map.grid[0][1].army_size = INF + 1;
    assert!(!map.is_playable());
    map.grid[0][1].army_size = -INF;
    assert!(map.is_playable());
    map.grid[0][0].last_update_time = 1;
    assert!(!map.is_playable());
    map.turn = 1;
    assert!(map.is_playable());
    map.grid[0][0].owner = None;
    assert!(!map.is_playable());
    map.grid[0][0].owner = Some(3);
    map.n = 2;
    assert!(!map.is_playable());
    assert_eq!(MAX_CELLS, 100_000_000);
}
