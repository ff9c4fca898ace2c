//! The game's data: what a Battlesnake server is told about a game, and the
//! views that the contracts of the library speak of.
use vstd::prelude::*;

verus! {

/// A square of the board.
#[derive(Clone, Copy, Debug, PartialEq, Eq, Structural, Hash)]
pub struct Coord {
    pub x: i32,
    pub y: i32,
}

/// A move of a snake's head.
#[derive(Clone, Copy, Debug, PartialEq, Eq, Structural, Hash)]
pub enum Direction {
    Up,
    Down,
    Left,
    Right,
}

/// Where a game was started from.
#[derive(Clone, Copy, Debug, PartialEq, Eq, Structural)]
pub enum Source {
    Empty,
    Tournament,
    League,
    Arena,
    Challenge,
    Ladder,
    Custom,
}

impl Default for Source {
    fn default() -> (s: Source)
        ensures
            s == Source::Empty,
    {
        Source::Empty
    }
}

/// The rules a game is played by.
#[derive(Clone, Copy, Debug, PartialEq, Eq, Structural)]
pub enum GameMode {
    Standard,
    Solo,
    Royale,
    Squad,
    Constrictor,
    Wrapped,
}

/// The map a game's board was populated from.
#[derive(Clone, Copy, Debug, PartialEq, Eq, Structural)]
pub enum GameMap {
    Standard,
    Empty,
    ArcadeMaze,
    Royale,
    SoloMaze,
    HzInnerWall,
    HzRings,
    HzColumns,
    HzIslandsBridges,
    HzRiversBridges,
    HzSpiral,
    HzScatter,
    HzGrowBox,
    HzExpandBox,
    HzExpandScatter,
    HzCastleWall,
}

/// How a snake is drawn.
#[derive(Clone, Debug)]
pub struct Customizations {
    /// Hex color code, "#" and six digits.
    pub color: String,
    pub head: String,
    pub tail: String,
}

/// What the server answers about itself.
#[derive(Debug)]
pub struct Info {
    pub apiversion: String,
    pub author: String,
    pub customizations: Customizations,
    pub version: String,
}

#[derive(Clone, Debug)]
pub struct RoyaleSettings {
    /// Turns between two shrinks of the safe board space.
    pub shrink_every_n_turns: u32,
}

#[derive(Clone, Debug)]
pub struct SquadSettings {
    pub allow_body_collisions: bool,
    pub shared_elimination: bool,
    pub shared_health: bool,
    pub shared_length: bool,
}

#[derive(Clone, Debug)]
pub struct RulesetSettings {
    /// Percentage chance of spawning a new food every round.
    pub food_spawn_chance: u32,
    /// Minimum food kept on the board every turn.
    pub minimum_food: u32,
    /// Extra damage a snake takes when ending its turn in a hazard.
    pub hazard_damage_per_turn: u32,
    pub royale: RoyaleSettings,
    pub squad: SquadSettings,
}

#[derive(Clone, Debug)]
pub struct Ruleset {
    pub name: GameMode,
    pub version: String,
    pub settings: RulesetSettings,
}

#[derive(Clone, Debug)]
pub struct Game {
    pub id: String,
    pub ruleset: Ruleset,
    pub map: GameMap,
    /// Milliseconds a snake has to answer.
    pub timeout: u32,
    pub source: Source,
}

/// One snake on the board.
#[derive(Clone, Debug)]
pub struct Battlesnake {
    pub id: String,
    pub name: String,
    /// Between 0 and 100.
    pub health: u32,
    /// From head to tail.
    pub body: Vec<Coord>,
    pub latency: String,
    /// The first square of the body.
    pub head: Coord,
    /// The length of the body.
    pub length: u32,
    pub shout: String,
    pub squad: String,
    pub customizations: Customizations,
}

/// The board. Each `Vec<Coord>` field but `body` stands for a set of
/// squares: its order carries no meaning, and no square occurs in it twice.
#[derive(Clone, Debug)]
pub struct Board {
    pub height: i32,
    pub width: i32,
    pub food: Vec<Coord>,
    pub hazards: Vec<Coord>,
    pub snakes: Vec<Battlesnake>,
    /// Squares that a move must not enter (filled by `GameState::init`).
    pub obstacles: Vec<Coord>,
    /// Tails that move away on the next turn (filled by `GameState::init`).
    pub safe_tails: Vec<Coord>,
    /// Squares next to the head of a shorter opponent.
    pub safe_adjacent_heads: Vec<Coord>,
    /// Squares next to the head of an opponent at least as long as us.
    pub dangerous_adjacent_heads: Vec<Coord>,
}

/// What a move request carries.
#[derive(Clone, Debug)]
pub struct GameState {
    pub game: Game,
    /// Turn number, 0 for a new game.
    pub turn: u32,
    pub board: Board,
    /// Our own snake.
    pub you: Battlesnake,
}

/// The answer to a move request.
#[derive(Debug)]
pub struct MoveResponse {
    pub direction: Direction,
    pub shout: String,
}

/// A square that a snake reaches before every other snake, at `distance`
/// moves from its head.
#[derive(Clone, Debug)]
pub struct Square {
    /// The id of the snake that controls the square.
    pub owner: String,
    pub coord: Coord,
    pub distance: u32,
}

/// The squares that each snake controls; every vector is indexed like
/// `Board::snakes`.
#[derive(Debug)]
pub struct ControlledSquares {
    pub squares: Vec<Vec<Square>>,
    /// Distance of the nearest food the snake controls (its head not counted).
    pub closest_food_distance: Vec<Option<u32>>,
    /// Distance of the nearest safe tail the snake controls (its head not counted).
    pub closest_tail_distance: Vec<Option<u32>>,
}

/// The board seen as sets of squares.
pub struct BoardView {
    pub height: i32,
    pub width: i32,
    pub food: Set<Coord>,
    pub hazards: Set<Coord>,
    pub snakes: Seq<Battlesnake>,
    pub obstacles: Set<Coord>,
    pub safe_tails: Set<Coord>,
    pub safe_adjacent_heads: Set<Coord>,
    pub dangerous_adjacent_heads: Set<Coord>,
}

impl View for Board {
    type V = BoardView;

    open spec fn view(&self) -> BoardView {
        BoardView {
            height: self.height,
            width: self.width,
            food: self.food@.to_set(),
            hazards: self.hazards@.to_set(),
            snakes: self.snakes@,
            obstacles: self.obstacles@.to_set(),
            safe_tails: self.safe_tails@.to_set(),
            safe_adjacent_heads: self.safe_adjacent_heads@.to_set(),
            dangerous_adjacent_heads: self.dangerous_adjacent_heads@.to_set(),
        }
    }
}

impl Board {
    /// No square occurs twice in a field that stands for a set.
    pub open spec fn sets_distinct(&self) -> bool {
        &&& self.food@.no_duplicates()
        &&& self.hazards@.no_duplicates()
        &&& self.obstacles@.no_duplicates()
        &&& self.safe_tails@.no_duplicates()
        &&& self.safe_adjacent_heads@.no_duplicates()
        &&& self.dangerous_adjacent_heads@.no_duplicates()
    }
}

/// A game state seen through `BoardView`.
pub struct GameView {
    pub game: Game,
    pub turn: u32,
    pub board: BoardView,
    pub you: Battlesnake,
}

impl View for GameState {
    type V = GameView;

    open spec fn view(&self) -> GameView {
        GameView { game: self.game, turn: self.turn, board: self.board@, you: self.you }
    }
}

} // verus!
