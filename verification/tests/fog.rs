use colonizer::cell::{CellType, GameCell};
use colonizer::map::GameMap;

fn square(army_size: i64, owner: Option<usize>, cell_type: CellType) -> GameCell {
    GameCell {
        army_size,
        owner,
        cell_type,
        is_friend: false,
        last_seen_type: CellType::Empty,
        last_update_time: 0,
    }
}

fn open() -> GameCell {
    square(0, None, CellType::Empty)
}

fn field(players_num: usize, grid: Vec<Vec<GameCell>>) -> GameMap {
    let n = grid.len();
    let m = if n == 0 { 0 } else { grid[0].len() };
    GameMap { n, m, players_num, curr_color: 0, turn: 0, grid }
}

/// Five by five, with one square of player 0 in the middle.
fn lone_square() -> GameMap {
    let mut grid = vec![vec![open(); 5]; 5];
    grid[2][2] = square(3, Some(0), CellType::Empty);
    field(2, grid)
}

#[test]
fn a_player_sees_the_eight_squares_around_his_own() {
    let map = lone_square();
    for y in 0..5usize {
        for x in 0..5usize {
            let near = y.abs_diff(2) <= 1 && x.abs_diff(2) <= 1;
            assert_eq!(map.is_visible_to(y, x, 0), near, "square ({y}, {x})");
            assert!(!map.is_visible_to(y, x, 1));
        }
    }
}

#[test]
fn sight_is_defined_off_the_board_too() {
    let mut map = lone_square();
    map.grid[4][4] = square(2, Some(1), CellType::Empty);
    assert!(map.is_visible_to(5, 5, 1));
    assert!(map.is_visible_to(5, 4, 1));
    assert!(!map.is_visible_to(6, 4, 1));
    assert!(!map.is_visible_to(usize::MAX, usize::MAX, 1));
    assert!(!map.is_visible_to(usize::MAX, 0, 0));
    let nothing = GameMap::default();
    assert!(!nothing.is_visible_to(0, 0, 0));
}

#[test]
fn a_square_in_view_is_shown_as_it_is() {
    let mut map = lone_square();
    map.grid[1][3] = GameCell {
        army_size: 40,
        owner: Some(1),
        cell_type: CellType::City,
        is_friend: true,
        last_seen_type: CellType::General,
        last_update_time: 9,
    };
    assert_eq!(map.get_with_fog(1, 3, 0), map.grid[1][3]);
    assert_eq!(map.get_with_fog(2, 2, 0), map.grid[2][2]);
}

#[test]
fn the_fog_turns_cities_into_mountains() {
    let mut map = lone_square();
    map.grid[0][4] = GameCell {
        army_size: 40,
        owner: Some(1),
        cell_type: CellType::City,
        is_friend: true,
        last_seen_type: CellType::General,
        last_update_time: 9,
    };
    map.grid[4][0] = square(0, None, CellType::Mountains);
    let city = map.get_with_fog(0, 4, 0);
    assert_eq!(
        city,
        GameCell {
            army_size: 0,
            owner: None,
            cell_type: CellType::Mountains,
            is_friend: false,
            last_seen_type: CellType::General,
            last_update_time: 9,
        }
    );
    let mountain = map.get_with_fog(4, 0, 0);
    assert_eq!(mountain.cell_type, CellType::Mountains);
    assert_eq!(mountain.army_size, 0);
    assert_eq!(mountain.owner, None);
}

#[test]
fn the_fog_turns_everything_else_into_open_ground() {
    let mut map = lone_square();
    map.grid[0][0] = GameCell {
        army_size: 17,
        owner: Some(1),
        cell_type: CellType::General,
        is_friend: false,
        last_seen_type: CellType::Mountains,
        last_update_time: 4,
    };
    map.grid[4][4] = square(6, Some(1), CellType::Empty);
    let capital = map.get_with_fog(0, 0, 0);
    assert_eq!(
        capital,
        GameCell {
            army_size: 0,
            owner: None,
            cell_type: CellType::Empty,
            is_friend: false,
            last_seen_type: CellType::Mountains,
            last_update_time: 4,
        }
    );
    let ground = map.get_with_fog(4, 4, 0);
    assert_eq!(ground, open());
    // The owner of the square sees it.
    assert_eq!(map.get_with_fog(4, 4, 1), map.grid[4][4]);
    assert_eq!(map.get_with_fog(0, 0, 1), map.grid[0][0]);
}

#[test]
fn an_update_copies_what_is_in_view_and_stamps_it() {
    let mut truth = lone_square();
    truth.turn = 6;
    truth.curr_color = 1;
    truth.players_num = 3;
    truth.grid[1][1] = square(25, None, CellType::City);
    truth.grid[3][2] = square(0, None, CellType::Mountains);
    let mut view = field(9, vec![vec![open(); 5]; 5]);
    view.curr_color = 0;
    view.update_from(&truth);
    assert_eq!((view.n, view.m, view.players_num, view.turn), (5, 5, 3, 6));
    assert_eq!(view.curr_color, 0);
    assert_eq!(
        view.grid[1][1],
        GameCell {
            army_size: 25,
            owner: None,
            cell_type: CellType::City,
            is_friend: false,
            last_seen_type: CellType::City,
            last_update_time: 6,
        }
    );
    assert_eq!(view.grid[3][2].cell_type, CellType::Mountains);
    assert_eq!(view.grid[3][2].last_seen_type, CellType::Mountains);
    assert_eq!(view.grid[3][2].last_update_time, 6);
    assert_eq!(view.grid[2][2].owner, Some(0));
    assert_eq!(view.grid[2][2].army_size, 3);
    assert_eq!(view.grid[2][2].last_update_time, 6);
}

#[test]
fn an_update_keeps_what_was_remembered_of_the_fog() {
    let mut truth = lone_square();
    truth.turn = 6;
    truth.grid[0][0] = square(25, Some(1), CellType::City);
    truth.grid[0][4] = square(9, Some(1), CellType::General);
    truth.grid[4][4] = square(0, None, CellType::Mountains);
    truth.grid[4][4].last_update_time = 6;
    let mut view = field(2, vec![vec![open(); 5]; 5]);
    view.grid[0][0].last_update_time = 2;
    view.grid[0][0].last_seen_type = CellType::City;
    view.grid[0][4].last_update_time = 3;
    view.grid[0][4].last_seen_type = CellType::Empty;
    view.update_from(&truth);
    // Seen once as a city: now hidden, shown as a mountain, remembered as a city.
    assert_eq!(
        view.grid[0][0],
        GameCell {
            army_size: 0,
            owner: None,
            cell_type: CellType::Mountains,
            is_friend: false,
            last_seen_type: CellType::City,
            last_update_time: 2,
        }
    );
    assert_eq!(
        view.grid[0][4],
        GameCell {
            army_size: 0,
            owner: None,
            cell_type: CellType::Empty,
            is_friend: false,
            last_seen_type: CellType::Empty,
            last_update_time: 3,
        }
    );
    // Never seen: remembered as the fog shows it, with the time of the true map.
    assert_eq!(
        view.grid[4][4],
        GameCell {
            army_size: 0,
            owner: None,
            cell_type: CellType::Mountains,
            is_friend: false,
            last_seen_type: CellType::Mountains,
            last_update_time: 6,
        }
    );
    assert_eq!(view.grid[4][0], open());
}

#[test]
fn an_update_shrinks_a_larger_picture() {
    let mut truth = field(2, vec![vec![open(); 2]; 2]);
    truth.grid[0][0] = square(3, Some(1), CellType::General);
    let mut view = field(2, vec![vec![open(); 4]; 3]);
    view.curr_color = 1;
    view.update_from(&truth);
    assert_eq!((view.n, view.m), (2, 2));
    assert!(view.is_well_formed());
    assert_eq!(view.grid[0][0].owner, Some(1));
    assert_eq!(view.grid[1][1].last_update_time, 0);
}

#[test]
fn an_update_needs_no_picture_of_what_is_in_view() {
    let mut truth = field(2, vec![vec![open(); 2]; 2]);
    truth.turn = 4;
    truth.grid[0][0] = square(3, Some(1), CellType::General);
    let mut view = GameMap::default();
    view.curr_color = 1;
    view.update_from(&truth);
    assert_eq!((view.n, view.m, view.turn, view.curr_color), (2, 2, 4, 1));
    assert!(view.is_well_formed());
    assert_eq!(view.grid[0][0].owner, Some(1));
    assert!(view.grid.iter().flatten().all(|c| c.last_update_time == 4));
}
