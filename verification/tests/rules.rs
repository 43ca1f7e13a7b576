use colonizer::cell::{CellType, GameCell};
use colonizer::map::{GameMap, Move, PlayerStatistics};

fn cell(army_size: i64, owner: Option<usize>, cell_type: CellType) -> GameCell {
    GameCell {
        army_size,
        owner,
        cell_type,
        is_friend: false,
        last_seen_type: CellType::Empty,
        last_update_time: 0,
    }
}

fn empty() -> GameCell {
    cell(0, None, CellType::Empty)
}

fn mountain() -> GameCell {
    cell(0, None, CellType::Mountains)
}

fn board(players_num: usize, grid: Vec<Vec<GameCell>>) -> GameMap {
    let n = grid.len();
    let m = if n == 0 { 0 } else { grid[0].len() };
    GameMap { n, m, players_num, curr_color: 0, turn: 0, grid }
}

fn strip(players_num: usize, cells: Vec<GameCell>) -> GameMap {
    board(players_num, vec![cells])
}

#[test]
fn general_marches_right_twice() {
    let mut map = strip(2, vec![cell(5, Some(0), CellType::General), empty(), empty()]);
    let first = Move::new(0, 0, 0, 1);
    assert!(map.is_a_valid_move(first));
    assert!(map.can_make_move(first));
    map.make_move(first);
    assert_eq!(map.grid[0][0].army_size, 1);
    assert_eq!(map.grid[0][0].cell_type, CellType::General);
    assert_eq!(map.grid[0][1].army_size, 4);
    assert_eq!(map.grid[0][1].owner, Some(0));
    assert_eq!(map.grid[0][2].owner, None);
    assert_eq!(map.curr_color, 1);
    map.skip_turn();
    assert_eq!(map.curr_color, 0);
    assert_eq!(map.turn, 1);
    map.stamp_turn();
    let second = Move::new(0, 1, 0, 2);
    assert!(map.is_a_valid_move(second));
    map.make_move(second);
    assert_eq!(map.grid[0][0].army_size, 1);
    assert_eq!(map.grid[0][1].army_size, 1);
    assert_eq!(map.grid[0][1].owner, Some(0));
    assert_eq!(map.grid[0][2].army_size, 3);
    assert_eq!(map.grid[0][2].owner, Some(0));
}

#[test]
fn move_new_keeps_the_coordinates() {
    let mv = Move::new(1, 2, 3, 4);
    assert_eq!(mv.from, (1, 2));
    assert_eq!(mv.to, (3, 4));
    assert!(!mv.is_adjacent());
    assert!(Move::new(1, 2, 1, 3).is_adjacent());
    assert!(Move::new(1, 2, 0, 2).is_adjacent());
    assert!(!Move::new(1, 2, 1, 2).is_adjacent());
    assert!(!Move::new(1, 2, 2, 3).is_adjacent());
    assert!(!Move::new(0, 0, usize::MAX, usize::MAX).is_adjacent());
}

#[test]
fn player_statistics_start_at_zero() {
    let stats = PlayerStatistics::default();
    assert_eq!(stats, PlayerStatistics { total_army: 0, total_fields: 0 });
}

#[test]
fn default_map_is_empty() {
    let map = GameMap::default();
    assert_eq!((map.n, map.m, map.players_num, map.curr_color, map.turn), (0, 0, 0, 0, 0));
    assert!(map.grid.is_empty());
    assert!(map.is_well_formed());
    assert!(map.get_all_moves().is_empty());
}

#[test]
fn well_formed_means_rows_and_columns_match() {
    let mut map = board(2, vec![vec![empty(), empty()], vec![empty(), empty()]]);
    assert!(map.is_well_formed());
    map.m = 3;
    assert!(!map.is_well_formed());
    map.m = 2;
    map.n = 1;
    assert!(!map.is_well_formed());
    map.n = 2;
    map.grid[1].pop();
    assert!(!map.is_well_formed());
}

#[test]
fn a_legal_move_needs_more_than_one_unit() {
    let mut map = strip(2, vec![cell(1, Some(0), CellType::Empty), empty()]);
    assert!(!map.is_a_valid_move(Move::new(0, 0, 0, 1)));
    map.grid[0][0].army_size = 2;
    assert!(map.is_a_valid_move(Move::new(0, 0, 0, 1)));
}

#[test]
fn a_legal_move_starts_on_a_square_of_the_player_to_move() {
    let mut map = strip(2, vec![cell(5, Some(1), CellType::Empty), empty()]);
    assert!(!map.is_a_valid_move(Move::new(0, 0, 0, 1)));
    map.curr_color = 1;
    assert!(map.is_a_valid_move(Move::new(0, 0, 0, 1)));
    map.grid[0][0].owner = None;
    assert!(!map.is_a_valid_move(Move::new(0, 0, 0, 1)));
}

#[test]
fn a_legal_move_needs_knowledge_of_this_turn() {
    let mut map = strip(2, vec![cell(5, Some(0), CellType::Empty), empty()]);
    map.turn = 3;
    assert!(!map.is_a_valid_move(Move::new(0, 0, 0, 1)));
    map.grid[0][0].last_update_time = 3;
    assert!(map.is_a_valid_move(Move::new(0, 0, 0, 1)));
}

#[test]
fn a_legal_move_does_not_touch_a_mountain() {
    let mut map = strip(2, vec![cell(5, Some(0), CellType::Empty), mountain()]);
    assert!(!map.is_a_valid_move(Move::new(0, 0, 0, 1)));
    map.grid[0][1] = empty();
    map.grid[0][0].cell_type = CellType::Mountains;
    assert!(!map.is_a_valid_move(Move::new(0, 0, 0, 1)));
}

#[test]
fn a_legal_move_is_one_step_on_the_board() {
    let map = board(
        2,
        vec![
            vec![cell(5, Some(0), CellType::Empty), empty(), empty()],
            vec![empty(), empty(), empty()],
        ],
    );
    assert!(map.is_a_valid_move(Move::new(0, 0, 0, 1)));
    assert!(map.is_a_valid_move(Move::new(0, 0, 1, 0)));
    assert!(!map.is_a_valid_move(Move::new(0, 0, 1, 1)));
    assert!(!map.is_a_valid_move(Move::new(0, 0, 0, 2)));
    assert!(!map.is_a_valid_move(Move::new(0, 0, 0, 0)));
    assert!(!map.is_a_valid_move(Move::new(0, 0, usize::MAX, 0)));
    assert!(!map.is_a_valid_move(Move::new(0, 0, 0, usize::MAX)));
    assert!(!map.is_a_valid_move(Move::new(2, 0, 1, 0)));
    assert!(!map.is_a_valid_move(Move::new(0, 3, 0, 2)));
}

#[test]
fn a_move_may_become_legal_whatever_the_armies() {
    let map = strip(2, vec![empty(), empty(), empty()]);
    assert!(map.could_become_a_valid_move(Move::new(0, 0, 0, 1)));
    assert!(map.could_become_a_valid_move(Move::new(0, 2, 0, 1)));
    assert!(!map.could_become_a_valid_move(Move::new(0, 0, 0, 2)));
    assert!(!map.could_become_a_valid_move(Move::new(0, 1, 0, 1)));
}

#[test]
fn a_move_off_the_board_cannot_become_legal() {
    let map = strip(2, vec![empty(), empty(), empty()]);
    assert!(!map.could_become_a_valid_move(Move::new(0, 2, 0, 3)));
    assert!(!map.could_become_a_valid_move(Move::new(0, 3, 0, 2)));
    assert!(!map.could_become_a_valid_move(Move::new(1, 0, 0, 0)));
    assert!(!map.could_become_a_valid_move(Move::new(0, 0, usize::MAX, 0)));
    assert!(!map.could_become_a_valid_move(Move::new(usize::MAX, usize::MAX, 0, 0)));
}

#[test]
fn a_move_onto_a_remembered_mountain_cannot_become_legal() {
    let mut map = strip(2, vec![empty(), empty()]);
    map.grid[0][1].last_seen_type = CellType::Mountains;
    assert!(!map.could_become_a_valid_move(Move::new(0, 0, 0, 1)));
    assert!(!map.could_become_a_valid_move(Move::new(0, 1, 0, 0)));
    map.grid[0][1].last_seen_type = CellType::City;
    assert!(map.could_become_a_valid_move(Move::new(0, 0, 0, 1)));
    // What stands there now does not count, only what is remembered.
    map.grid[0][1].cell_type = CellType::Mountains;
    assert!(map.could_become_a_valid_move(Move::new(0, 0, 0, 1)));
}

#[test]
fn every_legal_move_may_become_legal_where_memory_is_true() {
    let map = board(
        2,
        vec![
            vec![cell(5, Some(0), CellType::General), empty(), mountain()],
            vec![cell(3, Some(0), CellType::Empty), cell(2, Some(1), CellType::City), empty()],
        ],
    );
    let mut legal = 0;
    for y1 in 0..2 {
        for x1 in 0..3 {
            for y2 in 0..2 {
                for x2 in 0..3 {
                    let mv = Move::new(y1, x1, y2, x2);
                    if map.is_a_valid_move(mv) {
                        legal += 1;
                        assert!(map.could_become_a_valid_move(mv));
                    }
                }
            }
        }
    }
    assert_eq!(legal, 4);
}

#[test]
fn a_legal_move_may_fail_to_become_legal_where_memory_is_false() {
    let mut map = strip(2, vec![cell(5, Some(0), CellType::Empty), empty()]);
    map.grid[0][1].last_seen_type = CellType::Mountains;
    let mv = Move::new(0, 0, 0, 1);
    assert!(map.is_a_valid_move(mv));
    assert!(!map.could_become_a_valid_move(mv));
}

#[test]
fn an_army_that_joins_its_own_side_loses_nothing() {
    let mut map = strip(
        3,
        vec![cell(7, Some(0), CellType::Empty), cell(5, Some(0), CellType::City)],
    );
    map.make_move(Move::new(0, 0, 0, 1));
    assert_eq!(map.grid[0][0].army_size, 1);
    assert_eq!(map.grid[0][0].owner, Some(0));
    assert_eq!(map.grid[0][1].army_size, 5 + 7 - 1);
    assert_eq!(map.grid[0][1].owner, Some(0));
    assert_eq!(map.grid[0][1].cell_type, CellType::City);
    assert_eq!(map.curr_color, 1);
    assert_eq!(map.turn, 0);
}

#[test]
fn an_attack_that_is_too_weak_only_wears_the_defenders_down() {
    let mut map = strip(
        3,
        vec![cell(5, Some(0), CellType::Empty), cell(10, Some(1), CellType::General)],
    );
    map.make_move(Move::new(0, 0, 0, 1));
    assert_eq!(map.grid[0][0].army_size, 1);
    assert_eq!(map.grid[0][1].army_size, 6);
    assert_eq!(map.grid[0][1].owner, Some(1));
    assert_eq!(map.grid[0][1].cell_type, CellType::General);
}

#[test]
fn an_attack_that_matches_the_defenders_takes_nothing() {
    let mut map = strip(
        3,
        vec![cell(5, Some(0), CellType::Empty), cell(4, Some(1), CellType::City)],
    );
    map.make_move(Move::new(0, 0, 0, 1));
    assert_eq!(map.grid[0][1].army_size, 0);
    assert_eq!(map.grid[0][1].owner, Some(1));
}

#[test]
fn an_attack_that_is_stronger_takes_the_square() {
    let mut map = strip(
        3,
        vec![cell(5, Some(0), CellType::Empty), cell(1, Some(1), CellType::City)],
    );
    map.make_move(Move::new(0, 0, 0, 1));
    assert_eq!(map.grid[0][0].army_size, 1);
    assert_eq!(map.grid[0][1].army_size, 4 - 1);
    assert_eq!(map.grid[0][1].owner, Some(0));
    assert_eq!(map.grid[0][1].cell_type, CellType::City);
}

#[test]
fn unclaimed_ground_is_taken_like_an_enemy() {
    let mut map = strip(3, vec![cell(2, Some(0), CellType::Empty), empty()]);
    map.make_move(Move::new(0, 0, 0, 1));
    assert_eq!(map.grid[0][1].army_size, 1);
    assert_eq!(map.grid[0][1].owner, Some(0));
    let mut map = strip(3, vec![cell(3, Some(0), CellType::Empty), cell(30, None, CellType::City)]);
    map.make_move(Move::new(0, 0, 0, 1));
    assert_eq!(map.grid[0][1].army_size, 28);
    assert_eq!(map.grid[0][1].owner, None);
}

#[test]
fn a_fallen_capital_hands_over_everything() {
    let mut map = board(
        3,
        vec![
            vec![
                cell(9, Some(0), CellType::Empty),
                cell(3, Some(1), CellType::General),
                cell(6, Some(1), CellType::Empty),
            ],
            vec![
                cell(2, Some(2), CellType::General),
                cell(4, Some(1), CellType::City),
                cell(0, None, CellType::Empty),
            ],
        ],
    );
    map.make_move(Move::new(0, 0, 0, 1));
    assert_eq!(map.grid[0][1].cell_type, CellType::City);
    assert_eq!(map.grid[0][1].owner, Some(0));
    assert_eq!(map.grid[0][1].army_size, 8 - 3);
    assert_eq!(map.grid[0][0].army_size, 1);
    assert_eq!(map.grid[0][2].owner, Some(0));
    assert_eq!(map.grid[0][2].army_size, 6);
    assert_eq!(map.grid[1][1].owner, Some(0));
    assert_eq!(map.grid[1][1].army_size, 4);
    assert_eq!(map.grid[1][0].owner, Some(2));
    assert_eq!(map.grid[1][2].owner, None);
    for row in &map.grid {
        for c in row {
            assert_ne!(c.owner, Some(1));
        }
    }
}

#[test]
fn a_capital_without_an_owner_cannot_be_taken() {
    let map = strip(2, vec![cell(9, Some(0), CellType::Empty), cell(3, None, CellType::General)]);
    assert!(!map.can_resolve(Move::new(0, 0, 0, 1)));
    assert!(!map.can_make_move(Move::new(0, 0, 0, 1)));
    let map = strip(2, vec![cell(3, Some(0), CellType::Empty), cell(3, None, CellType::General)]);
    assert!(map.can_make_move(Move::new(0, 0, 0, 1)));
}

#[test]
fn a_move_that_overflows_cannot_be_made() {
    let map = strip(
        2,
        vec![cell(i64::MAX, Some(0), CellType::Empty), cell(2, Some(0), CellType::Empty)],
    );
    assert!(!map.can_make_move(Move::new(0, 0, 0, 1)));
    let map = strip(
        2,
        vec![cell(i64::MAX, Some(0), CellType::Empty), cell(1, Some(0), CellType::Empty)],
    );
    assert!(map.can_make_move(Move::new(0, 0, 0, 1)));
    let map = strip(2, vec![cell(i64::MIN, Some(0), CellType::Empty), empty()]);
    assert!(!map.can_make_move(Move::new(0, 0, 0, 1)));
    let map = strip(2, vec![cell(3, Some(0), CellType::Empty), empty()]);
    assert!(!map.can_make_move(Move::new(0, 0, 0, 2)));
}

#[test]
fn a_move_that_ends_a_round_must_leave_room_to_grow() {
    // One player: every move ends the round, and turn 50 adds a unit everywhere.
    let mut map = strip(
        1,
        vec![cell(5, Some(0), CellType::Empty), empty(), cell(i64::MAX, Some(0), CellType::Empty)],
    );
    map.turn = 49;
    assert!(!map.can_skip_turn());
    assert!(!map.can_make_move(Move::new(0, 0, 0, 1)));
    map.turn = 48;
    assert!(map.can_skip_turn());
    assert!(map.can_make_move(Move::new(0, 0, 0, 1)));
    map.turn = u32::MAX;
    assert!(!map.can_next_turn());
    assert!(!map.can_skip_turn());
    map.players_num = 2;
    assert!(map.can_skip_turn());
    map.curr_color = usize::MAX;
    assert!(!map.can_skip_turn());
}

#[test]
fn a_round_lasts_as_many_moves_as_there_are_players() {
    let mut map = strip(3, vec![cell(5, Some(0), CellType::General), empty()]);
    map.skip_turn();
    assert_eq!((map.curr_color, map.turn), (1, 0));
    map.skip_turn();
    assert_eq!((map.curr_color, map.turn), (2, 0));
    map.skip_turn();
    assert_eq!((map.curr_color, map.turn), (0, 1));
    assert_eq!(map.grid[0][0].army_size, 5);
    for _ in 0..3 {
        map.skip_turn();
    }
    assert_eq!((map.curr_color, map.turn), (0, 2));
    assert_eq!(map.grid[0][0].army_size, 6);
}

#[test]
fn cities_and_capitals_grow_every_other_turn() {
    let mut map = strip(
        1,
        vec![
            cell(5, Some(0), CellType::General),
            cell(5, Some(0), CellType::City),
            cell(5, Some(0), CellType::Empty),
            cell(30, None, CellType::City),
            cell(0, None, CellType::Mountains),
        ],
    );
    map.next_turn();
    assert_eq!(map.turn, 1);
    let armies: Vec<i64> = map.grid[0].iter().map(|c| c.army_size).collect();
    assert_eq!(armies, vec![5, 5, 5, 30, 0]);
    map.next_turn();
    assert_eq!(map.turn, 2);
    let armies: Vec<i64> = map.grid[0].iter().map(|c| c.army_size).collect();
    assert_eq!(armies, vec![6, 6, 5, 30, 0]);
}

#[test]
fn every_held_square_grows_each_fiftieth_turn() {
    let mut map = strip(
        1,
        vec![
            cell(5, Some(0), CellType::General),
            cell(5, Some(0), CellType::Empty),
            cell(30, None, CellType::City),
            cell(0, None, CellType::Empty),
        ],
    );
    map.turn = 49;
    map.skip_turn();
    assert_eq!(map.turn, 50);
    let armies: Vec<i64> = map.grid[0].iter().map(|c| c.army_size).collect();
    assert_eq!(armies, vec![6, 6, 30, 0]);
    map.turn = 50;
    map.skip_turn();
    assert_eq!(map.turn, 51);
    let armies: Vec<i64> = map.grid[0].iter().map(|c| c.army_size).collect();
    assert_eq!(armies, vec![6, 6, 30, 0]);
}

#[test]
fn a_move_that_ends_a_round_is_followed_by_growth() {
    let mut map = strip(
        1,
        vec![cell(7, Some(0), CellType::Empty), cell(5, Some(0), CellType::City)],
    );
    map.turn = 1;
    map.grid[0][0].last_update_time = 1;
    map.make_move(Move::new(0, 0, 0, 1));
    assert_eq!(map.turn, 2);
    assert_eq!(map.curr_color, 0);
    assert_eq!(map.grid[0][0].army_size, 1);
    assert_eq!(map.grid[0][1].army_size, 5 + 7 - 1 + 1);
}

#[test]
fn resolve_lets_the_armies_meet_and_leaves_the_turn() {
    let mut map = strip(
        1,
        vec![cell(7, Some(0), CellType::Empty), cell(5, Some(0), CellType::City)],
    );
    map.turn = 1;
    assert!(map.can_resolve(Move::new(0, 0, 0, 1)));
    map.resolve(Move::new(0, 0, 0, 1));
    assert_eq!((map.turn, map.curr_color), (1, 0));
    assert_eq!(map.grid[0][0].army_size, 1);
    assert_eq!(map.grid[0][1].army_size, 11);
}

#[test]
fn destroy_player_hands_his_squares_over() {
    let mut map = strip(
        3,
        vec![cell(1, Some(0), CellType::Empty), cell(2, Some(1), CellType::City), cell(3, Some(1), CellType::Empty), empty()],
    );
    map.destroy_player(1, Some(2));
    let owners: Vec<Option<usize>> = map.grid[0].iter().map(|c| c.owner).collect();
    assert_eq!(owners, vec![Some(0), Some(2), Some(2), None]);
    map.destroy_player(2, None);
    let owners: Vec<Option<usize>> = map.grid[0].iter().map(|c| c.owner).collect();
    assert_eq!(owners, vec![Some(0), None, None, None]);
    assert_eq!(map.grid[0][1].army_size, 2);
}

#[test]
fn an_illegal_answer_passes_the_move_on() {
    let mut map = strip(2, vec![cell(5, Some(0), CellType::Empty), empty(), empty()]);
    assert!(!map.play(Some(Move::new(0, 0, 0, 2))));
    assert_eq!(map.curr_color, 1);
    assert_eq!(map.grid[0][0].army_size, 5);
    assert!(!map.play(None));
    assert_eq!((map.curr_color, map.turn), (0, 1));
    // The square was last known in turn 0: the move is stale.
    assert!(!map.play(Some(Move::new(0, 0, 0, 1))));
    assert_eq!(map.curr_color, 1);
    map.skip_turn();
    map.stamp_turn();
    assert!(map.play(Some(Move::new(0, 0, 0, 1))));
    assert_eq!(map.grid[0][1].army_size, 4);
    assert_eq!(map.grid[0][1].owner, Some(0));
}

#[test]
fn stamp_turn_marks_every_square() {
    let mut map = board(2, vec![vec![empty(), mountain()], vec![cell(3, Some(1), CellType::City), empty()]]);
    map.turn = 7;
    map.stamp_turn();
    for row in &map.grid {
        for c in row {
            assert_eq!(c.last_update_time, 7);
        }
    }
    assert_eq!(map.grid[1][0], GameCell { last_update_time: 7, ..cell(3, Some(1), CellType::City) });
}

#[test]
fn all_moves_are_listed_in_reading_order() {
    let map = board(
        2,
        vec![
            vec![empty(), cell(5, Some(0), CellType::Empty), mountain()],
            vec![cell(2, Some(0), CellType::General), cell(1, Some(0), CellType::Empty), cell(9, Some(1), CellType::Empty)],
            vec![empty(), empty(), empty()],
        ],
    );
    let moves: Vec<((usize, usize), (usize, usize))> =
        map.get_all_moves().iter().map(|mv| (mv.from, mv.to)).collect();
    assert_eq!(
        moves,
        vec![
            ((0, 1), (0, 0)),
            ((0, 1), (1, 1)),
            ((1, 0), (0, 0)),
            ((1, 0), (1, 1)),
            ((1, 0), (2, 0)),
        ]
    );
}

#[test]
fn all_moves_do_not_ask_how_old_the_knowledge_is() {
    let mut map = strip(2, vec![cell(5, Some(0), CellType::Empty), empty()]);
    map.turn = 4;
    assert_eq!(map.get_all_moves().len(), 1);
    assert!(!map.is_a_valid_move(map.get_all_moves()[0]));
}

#[test]
fn set_cell_replaces_one_square() {
    let mut map = board(2, vec![vec![empty(), empty()], vec![empty(), empty()]]);
    map.set_cell(1, 0, cell(4, Some(1), CellType::City));
    assert_eq!(map.grid[1][0], cell(4, Some(1), CellType::City));
    assert_eq!(map.grid[0][0], empty());
    assert_eq!(map.grid[1][1], empty());
}

#[test]
fn a_clone_is_a_map_of_its_own() {
    let map = strip(2, vec![cell(5, Some(0), CellType::Empty), empty()]);
    let mut copy = map.clone();
    copy.make_move(Move::new(0, 0, 0, 1));
    assert_eq!(map.grid[0][0].army_size, 5);
    assert_eq!(copy.grid[0][0].army_size, 1);
    assert_eq!(map.curr_color, 0);
}
