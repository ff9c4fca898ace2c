use battlesnake::grid::{all_directions, coords_contain, extend_coords, insert_coord};
use battlesnake::model::{
    Battlesnake, Board, Coord, Customizations, Direction, Game, GameMap, GameMode, GameState, Ruleset, RulesetSettings,
    RoyaleSettings, Source, SquadSettings,
};

fn c(x: i32, y: i32) -> Coord {
    Coord { x, y }
}

fn snake(id: &str, body: Vec<Coord>, health: u32) -> Battlesnake {
    Battlesnake {
        id: id.to_string(),
        name: id.to_string(),
        health,
        head: body[0],
        length: body.len() as u32,
        body,
        latency: "0".to_string(),
        shout: String::new(),
        squad: String::new(),
        customizations: Customizations {
            color: "#888888".to_string(),
            head: "default".to_string(),
            tail: "default".to_string(),
        },
    }
}

fn state(mode: GameMode, width: i32, height: i32, food: Vec<Coord>, snakes: Vec<Battlesnake>, you: usize) -> GameState {
    let you = snakes[you].clone();
    GameState {
        game: Game {
            id: "game".to_string(),
            ruleset: Ruleset {
                name: mode,
                version: "v1.2.3".to_string(),
                settings: RulesetSettings {
                    food_spawn_chance: 15,
                    minimum_food: 1,
                    hazard_damage_per_turn: 14,
                    royale: RoyaleSettings { shrink_every_n_turns: 25 },
                    squad: SquadSettings {
                        allow_body_collisions: false,
                        shared_elimination: false,
                        shared_health: false,
                        shared_length: false,
                    },
                },
            },
            map: GameMap::Standard,
            timeout: 500,
            source: Source::Custom,
        },
        turn: 0,
        board: Board {
            height,
            width,
            food,
            hazards: Vec::new(),
            snakes,
            obstacles: Vec::new(),
            safe_tails: Vec::new(),
            safe_adjacent_heads: Vec::new(),
            dangerous_adjacent_heads: Vec::new(),
        },
        you,
    }
}

fn same_set(v: &Vec<Coord>, expected: &[Coord]) -> bool {
    v.len() == expected.len() && expected.iter().all(|e| v.contains(e))
}

#[test]
fn directions_come_in_order() {
    assert_eq!(all_directions(), vec![Direction::Up, Direction::Down, Direction::Left, Direction::Right]);
}

#[test]
fn standard_moves_step_off_the_board() {
    let me = snake("me", vec![c(0, 0)], 100);
    let gs = state(GameMode::Standard, 11, 11, vec![], vec![me], 0);
    assert_eq!(gs.new_adjacent_coord(&c(0, 0), &Direction::Up), c(0, 1));
    assert_eq!(gs.new_adjacent_coord(&c(0, 0), &Direction::Down), c(0, -1));
    assert_eq!(gs.new_adjacent_coord(&c(0, 0), &Direction::Left), c(-1, 0));
    assert_eq!(gs.new_adjacent_coord(&c(0, 0), &Direction::Right), c(1, 0));
    assert_eq!(gs.new_adjacent_coords(&c(3, 4)), vec![c(3, 5), c(3, 3), c(2, 4), c(4, 4)]);
    assert!(!gs.in_bounds(&c(-1, 0)));
    assert!(!gs.is_valid_at(&c(11, 0)));
    assert!(gs.is_valid_at(&c(10, 10)));
}

#[test]
fn wrapped_moves_wrap_around() {
    let me = snake("me", vec![c(0, 0)], 100);
    let gs = state(GameMode::Wrapped, 11, 7, vec![], vec![me], 0);
    assert_eq!(gs.new_adjacent_coord(&c(10, 5), &Direction::Right), c(0, 5));
    assert_eq!(gs.new_adjacent_coord(&c(0, 0), &Direction::Down), c(0, 6));
    assert_eq!(gs.new_adjacent_coord(&c(0, 3), &Direction::Left), c(10, 3));
    assert_eq!(gs.new_adjacent_coord(&c(4, 6), &Direction::Up), c(4, 0));
    assert_eq!(gs.new_adjacent_coord(&c(4, 2), &Direction::Up), c(4, 3));
}

#[test]
fn just_ate_needs_a_doubled_tail() {
    assert!(snake("a", vec![c(1, 1), c(1, 2), c(1, 2)], 100).just_ate());
    assert!(!snake("b", vec![c(1, 1), c(1, 2), c(1, 3)], 100).just_ate());
    assert!(!snake("c", vec![c(1, 1)], 100).just_ate());
}

#[test]
fn obstacles_tails_and_heads() {
    let me = snake("me", vec![c(1, 1), c(1, 2), c(1, 3)], 100);
    let big = snake("big", vec![c(5, 5), c(5, 6), c(5, 6)], 100);
    let small = snake("small", vec![c(8, 8), c(8, 9)], 100);
    let mut gs = state(GameMode::Standard, 11, 11, vec![], vec![me, big, small], 0);
    gs.board.hazards = vec![c(0, 0)];
    gs.init();
    assert!(same_set(&gs.board.obstacles, &[c(1, 1), c(1, 2), c(5, 5), c(5, 6), c(8, 8), c(0, 0)]));
    assert!(same_set(&gs.board.safe_tails, &[c(1, 3), c(8, 9)]));
    assert!(same_set(&gs.board.dangerous_adjacent_heads, &[c(5, 6), c(5, 4), c(4, 5), c(6, 5)]));
    assert!(same_set(&gs.board.safe_adjacent_heads, &[c(8, 9), c(8, 7), c(7, 8), c(9, 8)]));
    assert!(!gs.is_safe_at(&c(5, 6)));
    assert!(gs.is_safe_at(&c(1, 3)));
    assert!(!gs.is_valid_and_safe_at(&c(0, 0)));
    assert!(gs.is_valid_and_safe_at(&c(2, 2)));
}

#[test]
fn init_twice_is_init_once() {
    let me = snake("me", vec![c(1, 1), c(1, 2), c(1, 3)], 100);
    let big = snake("big", vec![c(5, 5), c(5, 6), c(5, 6)], 100);
    let mut once = state(GameMode::Standard, 11, 11, vec![], vec![me, big], 0);
    once.init();
    let mut twice = once.clone();
    twice.init();
    assert!(same_set(&twice.board.obstacles, &once.board.obstacles));
    assert!(same_set(&twice.board.safe_tails, &once.board.safe_tails));
    assert!(same_set(&twice.board.dangerous_adjacent_heads, &once.board.dangerous_adjacent_heads));
    assert!(same_set(&twice.board.safe_adjacent_heads, &once.board.safe_adjacent_heads));
}

#[test]
fn shortest_distance_costs_five_a_move() {
    let me = snake("me", vec![c(0, 0)], 100);
    let gs = state(GameMode::Standard, 11, 11, vec![], vec![me], 0);
    assert_eq!(gs.shortest_distance(&c(0, 0), &c(3, 4)), Some(35));
    assert_eq!(gs.shortest_distance(&c(2, 2), &c(2, 2)), Some(0));
    assert_eq!(gs.shortest_distance(&c(0, 0), &c(11, 0)), None);
}

#[test]
fn shortest_distance_goes_around_walls() {
    let me = snake("me", vec![c(0, 0)], 100);
    let mut gs = state(GameMode::Standard, 5, 5, vec![], vec![me], 0);
    gs.board.obstacles = vec![c(1, 0), c(1, 1), c(1, 2), c(1, 3)];
    assert_eq!(gs.shortest_distance(&c(0, 0), &c(2, 0)), Some(50));
    gs.board.obstacles.push(c(1, 4));
    assert_eq!(gs.shortest_distance(&c(0, 0), &c(2, 0)), None);
}

#[test]
fn shortest_distance_wraps() {
    let me = snake("me", vec![c(0, 0)], 100);
    let gs = state(GameMode::Wrapped, 11, 11, vec![], vec![me], 0);
    assert_eq!(gs.shortest_distance(&c(0, 0), &c(10, 10)), Some(10));
}

#[test]
fn closest_food_is_the_cheapest() {
    let me = snake("me", vec![c(0, 0)], 100);
    let gs = state(GameMode::Standard, 11, 11, vec![c(0, 5), c(2, 0)], vec![me.clone()], 0);
    assert_eq!(gs.closest_food_distance(&c(0, 0)), Some(10));
    let none = state(GameMode::Standard, 11, 11, vec![], vec![me], 0);
    assert_eq!(none.closest_food_distance(&c(0, 0)), None);
}

#[test]
fn territories_split_between_heads() {
    let a = snake("a", vec![c(0, 0)], 100);
    let b = snake("b", vec![c(4, 0)], 100);
    let mut gs = state(GameMode::Standard, 5, 1, vec![c(2, 0)], vec![a, b], 0);
    gs.board.safe_tails = vec![c(3, 0)];
    let cs = gs.compute_controlled_squares(&vec![]);
    assert_eq!(cs.squares.len(), 2);
    assert_eq!(cs.squares[0].len(), 3);
    assert_eq!(cs.squares[1].len(), 2);
    assert!(cs.squares[0].iter().any(|s| s.coord == c(2, 0) && s.distance == 2 && s.owner == "a"));
    assert!(cs.squares[1].iter().any(|s| s.coord == c(3, 0) && s.distance == 1 && s.owner == "b"));
    assert!(cs.squares[1].iter().any(|s| s.coord == c(4, 0) && s.distance == 0));
    assert_eq!(cs.closest_food_distance, vec![Some(2), None]);
    assert_eq!(cs.closest_tail_distance, vec![None, Some(1)]);
    // No square is held by both snakes.
    for sa in &cs.squares[0] {
        assert!(!cs.squares[1].iter().any(|sb| sb.coord == sa.coord));
    }
}

#[test]
fn excluded_squares_cut_the_territory() {
    let a = snake("a", vec![c(1, 1)], 100);
    let gs = state(GameMode::Standard, 3, 3, vec![], vec![a], 0);
    let all = gs.compute_controlled_squares(&vec![]);
    assert_eq!(all.squares[0].len(), 9);
    let cut = gs.compute_controlled_squares(&vec![c(1, 0), c(0, 1), c(2, 1)]);
    // Only the head and the row above it stay reachable.
    assert_eq!(cut.squares[0].len(), 4);
    assert!(cut.squares[0].iter().any(|s| s.coord == c(0, 2) && s.distance == 2));
}

#[test]
fn random_direction_is_valid() {
    let me = snake("me", vec![c(0, 0)], 100);
    let gs = state(GameMode::Standard, 1, 2, vec![], vec![me.clone()], 0);
    for _ in 0..20 {
        assert_eq!(gs.get_random_valid_direction(&c(0, 0)), Direction::Up);
    }
    let stuck = state(GameMode::Standard, 1, 1, vec![], vec![me], 0);
    assert_eq!(stuck.get_random_valid_direction(&c(0, 0)), Direction::Down);
}

#[test]
fn coordinate_sets() {
    let mut v = vec![c(1, 1)];
    insert_coord(&mut v, c(1, 1));
    assert_eq!(v, vec![c(1, 1)]);
    insert_coord(&mut v, c(2, 2));
    assert_eq!(v, vec![c(1, 1), c(2, 2)]);
    extend_coords(&mut v, &vec![c(2, 2), c(3, 3)]);
    assert_eq!(v, vec![c(1, 1), c(2, 2), c(3, 3)]);
    assert!(coords_contain(&v, &c(3, 3)));
    assert!(!coords_contain(&v, &c(4, 4)));
}

#[test]
fn distance_to_itself_is_zero_anywhere() {
    let me = snake("me", vec![c(0, 0)], 100);
    let mut gs = state(GameMode::Standard, 5, 5, vec![], vec![me.clone()], 0);
    gs.board.obstacles = vec![c(2, 2)];
    assert_eq!(gs.shortest_distance(&c(2, 2), &c(2, 2)), Some(0));
    assert_eq!(gs.shortest_distance(&c(-7, 40), &c(-7, 40)), Some(0));
    assert_eq!(gs.shortest_distance(&c(i32::MAX, i32::MIN), &c(i32::MAX, i32::MIN)), Some(0));
    let flat = state(GameMode::Wrapped, 0, 0, vec![], vec![me], 0);
    assert_eq!(flat.shortest_distance(&c(3, 3), &c(3, 3)), Some(0));
}

#[test]
fn food_on_the_square_itself_is_zero_away() {
    let me = snake("me", vec![c(0, 0)], 100);
    let edge = c(i32::MAX, 0);
    let gs = state(GameMode::Standard, 5, 5, vec![edge], vec![me.clone()], 0);
    assert_eq!(gs.closest_food_distance(&edge), Some(0));
    let bare = state(GameMode::Standard, 5, 5, vec![], vec![me], 0);
    assert_eq!(bare.closest_food_distance(&edge), None);
}

fn walled() -> GameState {
    let me = snake("me", vec![c(0, 0)], 100);
    let mut gs = state(GameMode::Standard, 5, 5, vec![], vec![me], 0);
    gs.board.obstacles = vec![c(1, 0), c(1, 1), c(1, 2), c(3, 4), c(3, 3)];
    gs
}

#[test]
fn distance_is_symmetric_between_valid_squares() {
    let gs = walled();
    let squares = [c(0, 0), c(2, 0), c(4, 4), c(0, 4), c(2, 3), c(4, 0)];
    for a in &squares {
        for b in &squares {
            assert_eq!(gs.shortest_distance(a, b), gs.shortest_distance(b, a));
        }
    }
}

#[test]
fn distances_obey_the_triangle_inequality() {
    let gs = walled();
    let squares = [c(0, 0), c(2, 0), c(4, 4), c(0, 4), c(2, 3), c(4, 0)];
    for a in &squares {
        for b in &squares {
            for d in &squares {
                let ab = gs.shortest_distance(a, b).unwrap();
                let bd = gs.shortest_distance(b, d).unwrap();
                let ad = gs.shortest_distance(a, d).unwrap();
                assert!(ad <= ab + bd);
            }
        }
    }
}

#[test]
fn more_obstacles_never_shorten_a_path() {
    let me = snake("me", vec![c(0, 0)], 100);
    let open = state(GameMode::Standard, 5, 5, vec![], vec![me], 0);
    let gs = walled();
    let squares = [c(0, 0), c(2, 0), c(4, 4), c(0, 4), c(2, 3)];
    for a in &squares {
        for b in &squares {
            let walled_cost = gs.shortest_distance(a, b).unwrap();
            let open_cost = open.shortest_distance(a, b).unwrap();
            assert!(open_cost <= walled_cost);
        }
    }
    assert_eq!(open.shortest_distance(&c(0, 0), &c(2, 0)), Some(10));
    assert_eq!(gs.shortest_distance(&c(0, 0), &c(2, 0)), Some(40));
}

#[test]
fn more_food_never_puts_food_farther() {
    let mut gs = walled();
    gs.board.food = vec![c(4, 4)];
    let far = gs.closest_food_distance(&c(0, 0)).unwrap();
    gs.board.food.push(c(2, 0));
    let near = gs.closest_food_distance(&c(0, 0)).unwrap();
    assert!(near <= far);
    assert_eq!(near, 40);
}

#[test]
fn searches_end_within_their_limits() {
    let me = snake("me", vec![c(0, 0)], 100);
    let gs = state(GameMode::Standard, 5, 1, vec![], vec![me], 0);
    // The row's far end is four moves away, and nothing lies farther.
    assert!(gs.search_ends_within(&c(0, 0), &c(4, 0), 4));
    assert!(!gs.search_ends_within(&c(0, 0), &c(4, 0), 3));
    assert!(gs.search_ends_within(&c(0, 0), &c(1, 0), 2));
    assert!(!gs.search_ends_within(&c(0, 0), &c(1, 0), 1));
    assert!(gs.search_ends_within(&c(0, 0), &c(0, 0), 0));
    assert!(gs.search_ends_within(&c(0, 0), &c(9, 0), 4));
    assert!(!gs.search_ends_within(&c(0, 0), &c(9, 0), 3));
}

#[test]
fn territory_search_settles_at_its_deepest_square() {
    let a = snake("a", vec![c(0, 0)], 100);
    let b = snake("b", vec![c(5, 0)], 100);
    let gs = state(GameMode::Standard, 6, 1, vec![], vec![a, b], 0);
    // Both heads reach the middle of the row in two moves.
    assert!(gs.territory_settles(&vec![], 2));
    assert!(!gs.territory_settles(&vec![], 1));
    // With the square next to a's head excluded, b goes three moves deep.
    assert!(gs.territory_settles(&vec![c(1, 0)], 3));
    assert!(!gs.territory_settles(&vec![c(1, 0)], 2));
}

#[test]
fn a_walled_corner_of_a_huge_board_is_searched_quickly() {
    let me = snake("me", vec![c(0, 1)], 100);
    let mut gs = state(GameMode::Standard, 40000, 40000, vec![c(0, 0)], vec![me], 0);
    gs.board.obstacles = vec![c(1, 0), c(1, 1), c(1, 2), c(0, 3)];
    assert_eq!(gs.shortest_distance(&c(0, 2), &c(0, 0)), Some(10));
    assert_eq!(gs.closest_food_distance(&c(0, 2)), Some(10));
    assert!(gs.search_ends_within(&c(0, 2), &c(5, 5), 2));
    assert!(gs.territory_settles(&vec![], 1));
    let cs = gs.compute_controlled_squares(&vec![]);
    assert_eq!(cs.squares[0].len(), 3);
    assert_eq!(cs.closest_food_distance, vec![Some(1)]);
}
