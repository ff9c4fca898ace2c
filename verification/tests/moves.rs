use battlesnake::model::{
    Battlesnake, Board, Coord, Customizations, Direction, Game, GameMap, GameMode, GameState, Ruleset, RulesetSettings,
    RoyaleSettings, Source, SquadSettings,
};
use battlesnake::moves::{decide_move, end, info, make_move, start};
use battlesnake::strategy::{pick_cheapest, CoordItem, Strategy, StrategyName};
use battlesnake::text::shout;

fn c(x: i32, y: i32) -> Coord {
    Coord { x, y }
}

fn looks() -> Customizations {
    Customizations { color: "#888888".to_string(), head: "default".to_string(), tail: "default".to_string() }
}

fn snake(id: &str, body: Vec<Coord>, health: u32) -> Battlesnake {
    Battlesnake {
        id: id.to_string(),
        name: id.to_string(),
        health,
        head: body[0],
        length: body.len() as u32,
        body,
        latency: "0".to_string(),
        shout: String::new(),
        squad: String::new(),
        customizations: looks(),
    }
}

fn game(mode: GameMode) -> Game {
    Game {
        id: "game".to_string(),
        ruleset: Ruleset {
            name: mode,
            version: "v1.2.3".to_string(),
            settings: RulesetSettings {
                food_spawn_chance: 15,
                minimum_food: 1,
                hazard_damage_per_turn: 14,
                royale: RoyaleSettings { shrink_every_n_turns: 25 },
                squad: SquadSettings {
                    allow_body_collisions: false,
                    shared_elimination: false,
                    shared_health: false,
                    shared_length: false,
                },
            },
        },
        map: GameMap::Standard,
        timeout: 500,
        source: Source::default(),
    }
}

fn state(mode: GameMode, width: i32, height: i32, food: Vec<Coord>, snakes: Vec<Battlesnake>, you: usize) -> GameState {
    let you = snakes[you].clone();
    GameState {
        game: game(mode),
        turn: 3,
        board: Board {
            height,
            width,
            food,
            hazards: Vec::new(),
            snakes,
            obstacles: Vec::new(),
            safe_tails: Vec::new(),
            safe_adjacent_heads: Vec::new(),
            dangerous_adjacent_heads: Vec::new(),
        },
        you,
    }
}

#[test]
fn info_describes_the_snake() {
    let i = info();
    assert_eq!(i.apiversion, "1");
    assert_eq!(i.author, "DeanRefined");
    assert_eq!(i.customizations.color, "#6434eb");
    assert_eq!(i.customizations.head, "pixel");
    assert_eq!(i.customizations.tail, "pixel");
    assert_eq!(i.version, "1.8.2");
}

#[test]
fn eats_food_in_its_territory() {
    let me = snake("me", vec![c(5, 5), c(5, 4), c(5, 3)], 90);
    let gs = state(GameMode::Standard, 11, 11, vec![c(5, 7)], vec![me], 0);
    let mr = make_move(gs);
    assert_eq!(mr.direction, Direction::Up);
    assert_eq!(mr.shout, "STRATEGY: NomNom | COST: 3 | MOVE: Up");
}

#[test]
fn cornered_snake_goes_down() {
    let me = snake("me", vec![c(0, 0)], 50);
    let gs = state(GameMode::Standard, 1, 1, vec![], vec![me], 0);
    let mr = make_move(gs);
    assert_eq!(mr.direction, Direction::Down);
    assert_eq!(mr.shout, "STRATEGY: Random | COST: 10000 | MOVE: Down");
}

#[test]
fn only_safe_move_is_taken() {
    // A corridor one square wide whose bottom our grown tail still holds:
    // the only way out is up.
    let me = snake("me", vec![c(0, 1), c(0, 0), c(0, 0)], 80);
    let gs = state(GameMode::Standard, 1, 5, vec![], vec![me], 0);
    let mr = make_move(gs);
    assert_eq!(mr.direction, Direction::Up);
    assert_eq!(mr.shout, "STRATEGY: Survival | COST: 996 | MOVE: Up");
}

#[test]
fn decision_with_a_given_random_move() {
    let me = snake("me", vec![c(5, 5), c(5, 4), c(5, 3)], 90);
    let mut gs = state(GameMode::Standard, 11, 11, vec![c(5, 7)], vec![me], 0);
    gs.init();
    let mr = decide_move(&gs, Direction::Left);
    assert_eq!(mr.direction, Direction::Up);
    assert_eq!(mr.shout, "STRATEGY: NomNom | COST: 3 | MOVE: Up");
}

#[test]
fn hungry_snake_heads_for_food() {
    // A column one square wide: up leads to food, down onto our own tail.
    let me = snake("me", vec![c(0, 1), c(0, 0)], 10);
    let gs = state(GameMode::Standard, 1, 4, vec![c(0, 3)], vec![me], 0);
    let mr = make_move(gs);
    assert_eq!(mr.direction, Direction::Up);
    assert_eq!(mr.shout, "STRATEGY: Starving | COST: 252 | MOVE: Up");
}

#[test]
fn fed_snake_follows_its_tail() {
    let me = snake("me", vec![c(0, 1), c(0, 0)], 90);
    let gs = state(GameMode::Standard, 1, 4, vec![c(0, 3)], vec![me], 0);
    let mr = make_move(gs);
    assert_eq!(mr.direction, Direction::Down);
    assert_eq!(mr.shout, "STRATEGY: FollowMySelf | COST: 500 | MOVE: Down");
}

#[test]
fn start_and_end_accept_a_state() {
    let me = snake("me", vec![c(0, 0)], 50);
    start(state(GameMode::Standard, 3, 3, vec![], vec![me.clone()], 0));
    end(state(GameMode::Standard, 3, 3, vec![], vec![me], 0));
}

#[test]
fn cheapest_strategy_is_the_first_of_the_cheapest() {
    let s = vec![
        Strategy { name: StrategyName::Random, direction: Direction::Down, cost: 10000 },
        Strategy { name: StrategyName::Survival, direction: Direction::Left, cost: 7 },
        Strategy { name: StrategyName::NomNom, direction: Direction::Up, cost: 7 },
        Strategy { name: StrategyName::FollowAFriend, direction: Direction::Right, cost: 9 },
    ];
    let best = pick_cheapest(&s);
    assert_eq!(best.name, StrategyName::Survival);
    assert_eq!(best.direction, Direction::Left);
}

#[test]
fn cheaper_strategy_ranks_higher() {
    let cheap = Strategy { name: StrategyName::NomNom, direction: Direction::Up, cost: 3 };
    let dear = Strategy { name: StrategyName::Survival, direction: Direction::Up, cost: 882 };
    assert_eq!(cheap.partial_cmp(&dear), Some(std::cmp::Ordering::Greater));
    assert_eq!(dear.partial_cmp(&cheap), Some(std::cmp::Ordering::Less));
    assert!(cheap > dear);
    let a = CoordItem { coord: c(0, 0), cost: 5 };
    let b = CoordItem { coord: c(1, 0), cost: 10 };
    assert_eq!(a.partial_cmp(&b), Some(std::cmp::Ordering::Greater));
    assert_eq!(b.partial_cmp(&a), Some(std::cmp::Ordering::Less));
}

#[test]
fn shout_writes_negative_costs() {
    let s = Strategy { name: StrategyName::Survival, direction: Direction::Left, cost: -17 };
    assert_eq!(shout(&s), "STRATEGY: Survival | COST: -17 | MOVE: Left");
    let s = Strategy { name: StrategyName::FollowMySelf, direction: Direction::Right, cost: i32::MIN };
    assert_eq!(shout(&s), "STRATEGY: FollowMySelf | COST: -2147483648 | MOVE: Right");
    let s = Strategy { name: StrategyName::Starving, direction: Direction::Down, cost: 0 };
    assert_eq!(shout(&s), "STRATEGY: Starving | COST: 0 | MOVE: Down");
}

#[test]
fn random_draw_never_decides_a_safe_move() {
    for _ in 0..20 {
        let me = snake("me", vec![c(5, 5), c(5, 4), c(5, 3)], 90);
        let gs = state(GameMode::Standard, 11, 11, vec![c(5, 7)], vec![me], 0);
        let mr = make_move(gs);
        assert_eq!(mr.direction, Direction::Up);
        assert_eq!(mr.shout, "STRATEGY: NomNom | COST: 3 | MOVE: Up");
    }
    let me = snake("me", vec![c(5, 5), c(5, 4), c(5, 3)], 90);
    let mut gs = state(GameMode::Standard, 11, 11, vec![c(5, 7)], vec![me], 0);
    gs.init();
    for r in [Direction::Up, Direction::Down, Direction::Left, Direction::Right] {
        assert_eq!(decide_move(&gs, r).shout, "STRATEGY: NomNom | COST: 3 | MOVE: Up");
    }
}

#[test]
fn walled_in_on_a_huge_board_follows_its_tail() {
    // Hazards wall our head into a corner of a board far too large for its
    // area to bound the move costs; the searches stay in the corner.
    let me = snake("me", vec![c(0, 1), c(0, 0)], 90);
    let mut gs = state(GameMode::Standard, 40000, 40000, vec![], vec![me], 0);
    gs.board.hazards = vec![c(1, 0), c(1, 1), c(1, 2), c(0, 3)];
    let mr = make_move(gs);
    assert_eq!(mr.direction, Direction::Down);
    assert_eq!(mr.shout, "STRATEGY: FollowMySelf | COST: 500 | MOVE: Down");
}

#[test]
fn nearest_food_across_moves_is_eaten() {
    // Up finds food two moves out, Left food on its own square, Right only
    // food four moves out, farther than what Left found.
    let me = snake("me", vec![c(5, 5), c(5, 4), c(5, 3)], 90);
    let gs = state(GameMode::Standard, 11, 11, vec![c(5, 7), c(4, 5)], vec![me], 0);
    let mr = make_move(gs);
    assert_eq!(mr.direction, Direction::Left);
    assert_eq!(mr.shout, "STRATEGY: NomNom | COST: 2 | MOVE: Left");
}
