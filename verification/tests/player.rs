use colonizer::bot::{
    Bot, PathFinderBot, ENEMY_CITY_WORTH, ENEMY_EMPTY_WORTH, ENEMY_GENERAL_WORTH, FREE_CITY_WORTH,
    FREE_EMPTY_WORTH,
};
use colonizer::cell::{CellType, GameCell};
use colonizer::map::GameMap;
use colonizer::rank::MAX_ORIGINS;
use colonizer::target::{scores_higher, Target};
use colonizer::map::Move;

fn piece(army_size: i64, owner: Option<usize>, cell_type: CellType) -> GameCell {
    GameCell {
        army_size,
        owner,
        cell_type,
        is_friend: false,
        last_seen_type: CellType::Empty,
        last_update_time: 0,
    }
}

fn bare() -> GameCell {
    piece(0, None, CellType::Empty)
}

fn player(grid: Vec<Vec<GameCell>>) -> PathFinderBot {
    let n = grid.len();
    let m = if n == 0 { 0 } else { grid[0].len() };
    PathFinderBot { map: GameMap { n, m, players_num: 2, curr_color: 0, turn: 0, grid } }
}

fn ends(mv: Option<Move>) -> Option<((usize, usize), (usize, usize))> {
    mv.map(|mv| (mv.from, mv.to))
}

#[test]
fn a_new_player_has_seen_nothing() {
    let mut truth = GameMap::new_blank(3, 4, 5);
    truth.turn = 8;
    truth.curr_color = 2;
    truth.grid[1][1] = piece(9, Some(3), CellType::General);
    let bot = PathFinderBot::from_map(&truth, 3);
    assert_eq!((bot.map.n, bot.map.m, bot.map.players_num), (3, 4, 5));
    assert_eq!((bot.map.curr_color, bot.map.turn), (3, 8));
    assert!(bot.map.is_well_formed());
    assert!(bot.map.grid.iter().flatten().all(|c| *c == bare()));
    let idle = PathFinderBot::default();
    assert_eq!((idle.map.n, idle.map.m, idle.map.players_num), (0, 0, 0));
}

#[test]
fn what_targets_are_worth() {
    let bot = player(vec![vec![
        bare(),
        piece(30, None, CellType::City),
        piece(3, Some(1), CellType::Empty),
        piece(3, Some(1), CellType::City),
        piece(3, Some(1), CellType::General),
        piece(3, Some(0), CellType::Empty),
        piece(3, Some(0), CellType::General),
        piece(0, None, CellType::Mountains),
    ]]);
    let worth: Vec<Option<u64>> =
        (0..8).map(|x| bot.eval_target_cell(&bot.map, (0, x))).collect();
    assert_eq!(
        worth,
        vec![
            Some(6),
            Some(250),
            Some(100),
            Some(1500),
            Some(1_000_000_000_000_000_000),
            None,
            None,
            None,
        ]
    );
    assert_eq!(
        (FREE_EMPTY_WORTH, FREE_CITY_WORTH, ENEMY_EMPTY_WORTH, ENEMY_CITY_WORTH, ENEMY_GENERAL_WORTH),
        (6, 250, 100, 1500, 1_000_000_000_000_000_000)
    );
}

#[test]
fn a_friend_or_a_stale_square_is_no_target() {
    let mut bot = player(vec![vec![bare(), piece(3, Some(1), CellType::City), bare()]]);
    bot.map.grid[0][1].is_friend = true;
    assert_eq!(bot.eval_target_cell(&bot.map, (0, 1)), None);
    bot.map.grid[0][1].is_friend = false;
    assert_eq!(bot.eval_target_cell(&bot.map, (0, 1)), Some(1500));
    bot.map.turn = 2;
    assert_eq!(bot.eval_target_cell(&bot.map, (0, 1)), None);
    bot.map.grid[0][1].last_update_time = 2;
    assert_eq!(bot.eval_target_cell(&bot.map, (0, 1)), Some(1500));
    // The turn that counts is that of the player's own picture.
    let mut other = bot.map.clone();
    other.turn = 7;
    other.curr_color = 1;
    assert_eq!(bot.eval_target_cell(&other, (0, 1)), None);
    other.grid[0][1].owner = Some(0);
    assert_eq!(bot.eval_target_cell(&other, (0, 1)), Some(1500));
}

#[test]
fn the_player_lists_only_moves_that_are_legal_now() {
    let mut bot = player(vec![
        vec![piece(5, Some(0), CellType::Empty), bare(), piece(4, Some(0), CellType::Empty)],
        vec![piece(0, None, CellType::Mountains), bare(), piece(9, Some(1), CellType::Empty)],
    ]);
    bot.map.turn = 1;
    bot.map.grid[0][2].last_update_time = 1;
    let moves: Vec<_> = bot.get_all_moves().iter().map(|mv| (mv.from, mv.to)).collect();
    assert_eq!(moves, vec![((0, 2), (0, 1)), ((0, 2), (1, 2))]);
    for mv in bot.get_all_moves() {
        assert!(bot.map.is_a_valid_move(mv));
    }
    assert_eq!(bot.map.get_all_moves().len(), 3);
}

#[test]
fn a_random_move_is_a_legal_move() {
    let bot = player(vec![
        vec![piece(5, Some(0), CellType::Empty), bare(), piece(4, Some(0), CellType::Empty)],
        vec![bare(), bare(), bare()],
    ]);
    let mut seen = std::collections::HashSet::new();
    for _ in 0..200 {
        let mv = bot.get_random_move().expect("there are legal moves");
        assert!(bot.map.is_a_valid_move(mv));
        seen.insert((mv.from, mv.to));
    }
    assert_eq!(seen.len(), 4);
    let stuck = player(vec![vec![piece(1, Some(0), CellType::Empty), bare()]]);
    assert!(stuck.get_random_move().is_none());
}

#[test]
fn the_largest_armies_attack_first() {
    let armies = [3, 9, 5, 20, 7, 2, 8];
    let mut row: Vec<GameCell> =
        armies.iter().map(|a| piece(*a, Some(0), CellType::Empty)).collect();
    // Half of what the capital has beyond ten units counts: 5.
    row[3].cell_type = CellType::General;
    let bot = player(vec![row]);
    for _ in 0..20 {
        let origins = bot.pick_origins();
        assert_eq!(origins.len(), MAX_ORIGINS);
        assert_eq!(&origins[..3], &[(0, 1), (0, 6), (0, 4)]);
        let mut tied = origins[3..].to_vec();
        tied.sort();
        assert_eq!(tied, vec![(0, 2), (0, 3)]);
    }
}

#[test]
fn a_small_capital_ranks_behind_everything() {
    // (2 - 10) / 2 is -4, (3 - 10) / 2 is -3 when rounded towards zero.
    let mut bot = player(vec![vec![
        piece(3, Some(0), CellType::General),
        piece(2, Some(0), CellType::Empty),
        piece(2, Some(0), CellType::General),
    ]]);
    assert_eq!(bot.pick_origins(), vec![(0, 1), (0, 0), (0, 2)]);
    bot.map.grid[0][0].army_size = 14;
    bot.map.grid[0][2].army_size = 17;
    // 14 counts as 2, like the field; 17 counts as 3.
    let origins = bot.pick_origins();
    assert_eq!(origins[0], (0, 2));
}

#[test]
fn only_armies_that_can_move_attack() {
    let mut bot = player(vec![vec![
        piece(1, Some(0), CellType::Empty),
        piece(5, Some(1), CellType::Empty),
        piece(5, None, CellType::City),
        piece(4, Some(0), CellType::Empty),
        piece(6, Some(0), CellType::Empty),
    ]]);
    bot.map.grid[0][4].last_update_time = 3;
    assert_eq!(bot.pick_origins(), vec![(0, 3)]);
    bot.map.turn = 3;
    assert_eq!(bot.pick_origins(), vec![(0, 4)]);
    bot.map.curr_color = 1;
    assert_eq!(bot.pick_origins(), vec![]);
}

#[test]
fn a_higher_worth_or_a_shorter_way_scores_higher() {
    let mv = Move::new(0, 0, 0, 1);
    let best = Some(Target { coords: (0, 2), worth: 100, dist: 2, first: mv });
    assert!(scores_higher(6, 1, &None));
    assert!(scores_higher(51, 1, &best));
    assert!(!scores_higher(50, 1, &best));
    assert!(scores_higher(100, 1, &best));
    assert!(!scores_higher(100, 2, &best));
    assert!(!scores_higher(250, 5, &best));
    assert!(scores_higher(250, 4, &best));
    let capital = Some(Target { coords: (0, 2), worth: ENEMY_GENERAL_WORTH, dist: 2_500, first: mv });
    assert!(!scores_higher(ENEMY_CITY_WORTH, 1, &capital));
    assert!(scores_higher(ENEMY_GENERAL_WORTH, 2_499, &capital));
    assert!(!scores_higher(ENEMY_GENERAL_WORTH, 2_500, &capital));
}

#[test]
fn the_first_step_leads_towards_the_target() {
    let mut grid = vec![vec![bare(); 3]; 3];
    grid[0][0] = piece(20, Some(0), CellType::Empty);
    grid[0][1].last_seen_type = CellType::Mountains;
    grid[1][1].last_seen_type = CellType::Mountains;
    let bot = player(grid);
    let paths = bot.find_paths(&bot.map, (0, 0));
    let mv = bot.first_hop(&paths, (0, 0), (0, 2));
    assert_eq!((mv.from, mv.to), ((0, 0), (1, 0)));
    let mv = bot.first_hop(&paths, (0, 0), (1, 0));
    assert_eq!((mv.from, mv.to), ((0, 0), (1, 0)));
}

#[test]
fn the_best_target_has_the_highest_score() {
    let mut grid = vec![vec![bare(); 3]; 3];
    grid[1][1] = piece(10, Some(0), CellType::Empty);
    grid[0][1] = piece(2, Some(1), CellType::City);
    let bot = player(grid);
    let paths = bot.find_paths(&bot.map, (1, 1));
    let pick = bot.best_target((1, 1), &paths, None).expect("there are targets");
    assert_eq!(pick.coords, (0, 1));
    assert_eq!((pick.worth, pick.dist), (1500, 1));
    assert_eq!((pick.first.from, pick.first.to), ((1, 1), (0, 1)));
    // A pick from elsewhere stays unless it is beaten.
    let elsewhere = Target { coords: (2, 2), worth: 1500, dist: 1, first: Move::new(1, 1, 1, 2) };
    let kept = bot.best_target((1, 1), &paths, Some(elsewhere)).expect("a pick was given");
    assert_eq!(kept.coords, (2, 2));
    let weak = Target { coords: (2, 2), worth: 1499, dist: 1, first: Move::new(1, 1, 1, 2) };
    let taken = bot.best_target((1, 1), &paths, Some(weak)).expect("a pick was given");
    assert_eq!(taken.coords, (0, 1));
}

#[test]
fn of_equal_scores_the_first_in_reading_order_wins() {
    let mut grid = vec![vec![bare(); 3]; 3];
    grid[1][1] = piece(10, Some(0), CellType::Empty);
    let mut bot = player(grid);
    let paths = bot.find_paths(&bot.map, (1, 1));
    let pick = bot.best_target((1, 1), &paths, None).expect("there are targets");
    assert_eq!(pick.coords, (0, 1));
    assert_eq!((pick.worth, pick.dist), (6, 1));
    assert_eq!(ends(bot.get_best_move(100)), Some(((1, 1), (0, 1))));
}

#[test]
fn a_capital_in_reach_is_preferred_to_anything_near() {
    let mut bot = player(vec![vec![
        piece(1, Some(1), CellType::General),
        bare(),
        bare(),
        piece(40, Some(0), CellType::Empty),
        piece(2, Some(1), CellType::City),
    ]]);
    assert_eq!(ends(bot.get_best_move(100)), Some(((0, 3), (0, 2))));
    // Without the capital in view, the city next door is taken.
    bot.map.grid[0][0] = bare();
    assert_eq!(ends(bot.get_best_move(100)), Some(((0, 3), (0, 4))));
}

#[test]
fn a_target_out_of_reach_is_not_attacked() {
    let mut bot = player(vec![vec![
        piece(5, Some(0), CellType::Empty),
        piece(9, Some(1), CellType::City),
    ]]);
    // 5 - 1 - (9 + 1) units would arrive: nothing is reached, though the move is legal.
    assert!(bot.map.is_a_valid_move(Move::new(0, 0, 0, 1)));
    assert!(bot.get_best_move(100).is_none());
    assert_eq!(ends(bot.get_best_move(0)), Some(((0, 0), (0, 1))));
}

#[test]
fn a_player_without_a_legal_move_does_not_move() {
    let mut bot = player(vec![vec![piece(1, Some(0), CellType::General), bare(), bare()]]);
    for strength in [0, 50, 100] {
        assert!(bot.get_best_move(strength).is_none());
    }
    let mut walled = player(vec![vec![
        piece(0, None, CellType::Mountains),
        piece(9, Some(0), CellType::General),
        piece(0, None, CellType::Mountains),
    ]]);
    for strength in [0, 50, 100] {
        assert!(walled.get_best_move(strength).is_none());
    }
}

#[test]
fn whatever_the_strength_the_move_is_legal() {
    let truth = {
        let mut map = GameMap::new_blank(6, 6, 2);
        map.grid[0][0] = piece(12, Some(0), CellType::General);
        map.grid[0][1] = piece(4, Some(0), CellType::Empty);
        map.grid[5][5] = piece(3, Some(1), CellType::General);
        map.grid[2][2] = piece(25, None, CellType::City);
        map.grid[1][0] = piece(0, None, CellType::Mountains);
        map
    };
    let mut bot = PathFinderBot::from_map(&truth, 0);
    bot.update_from_map(&truth);
    assert!(bot.map.is_playable());
    let before = bot.map.clone();
    for strength in [0, 10, 50, 90, 100, 1000] {
        for _ in 0..20 {
            let mv = bot.get_best_move(strength).expect("there are legal moves and targets");
            assert!(bot.map.is_a_valid_move(mv));
            assert!(truth.is_a_valid_move(mv));
        }
    }
    assert_eq!(bot.map.grid, before.grid);
    // The field army ranks before the small capital, and open ground next to
    // it is the best that is in sight.
    assert_eq!(ends(bot.get_best_move(100)), Some(((0, 1), (0, 2))));
}

#[test]
fn the_player_sees_the_game_through_the_fog() {
    let mut truth = GameMap::new_blank(4, 4, 2);
    truth.turn = 3;
    truth.grid[0][0] = piece(12, Some(0), CellType::General);
    truth.grid[1][1] = piece(30, None, CellType::City);
    truth.grid[3][3] = piece(7, Some(1), CellType::General);
    truth.grid[3][0] = piece(40, None, CellType::City);
    let mut bot = PathFinderBot::from_map(&truth, 0);
    bot.update_from_map(&truth);
    assert_eq!(bot.map.curr_color, 0);
    assert_eq!(bot.map.turn, 3);
    assert_eq!(bot.map.grid[0][0].owner, Some(0));
    assert_eq!(bot.map.grid[0][0].last_update_time, 3);
    assert_eq!(bot.map.grid[1][1].cell_type, CellType::City);
    assert_eq!(bot.map.grid[1][1].army_size, 30);
    assert_eq!(bot.map.grid[3][3], piece(0, None, CellType::Empty));
    assert_eq!(bot.map.grid[3][0].cell_type, CellType::Mountains);
    assert_eq!(bot.map.grid[3][0].last_seen_type, CellType::Mountains);
    assert_eq!(bot.map.grid[3][0].army_size, 0);
}

#[test]
fn choose_target_takes_a_later_army_only_for_a_better_score() {
    let bot = player(vec![vec![
        piece(10, Some(0), CellType::Empty),
        bare(),
        bare(),
        piece(10, Some(0), CellType::Empty),
        piece(2, Some(1), CellType::Empty),
    ]]);
    let pick = bot.choose_target(&vec![(0, 0), (0, 3)]).expect("there are targets");
    assert_eq!(pick.coords, (0, 4));
    assert_eq!((pick.first.from, pick.first.to), ((0, 3), (0, 4)));
    // From the far army the way leads over its own side: 100 / 4 beats 6 / 1.
    let pick = bot.choose_target(&vec![(0, 0)]).expect("there are targets");
    assert_eq!(pick.coords, (0, 4));
    assert_eq!((pick.worth, pick.dist), (100, 4));
    assert_eq!((pick.first.from, pick.first.to), ((0, 0), (0, 1)));
    let pick = bot.choose_target(&vec![(0, 3), (0, 0)]).expect("there are targets");
    assert_eq!(pick.coords, (0, 4));
    assert!(bot.choose_target(&vec![]).is_none());
}
