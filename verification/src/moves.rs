//! How a move is chosen: each valid and safe move is weighed under several
//! strategies, and the cheapest strategy wins.
use vstd::prelude::*;

use crate::grid::{all_directions, coords_contain, direction_order};
use crate::paths::lemma_search_ends_fewest;
use crate::search::{lemma_controls_within, lemma_search_ends_mono, lemma_settles_mono, PATH_SEARCH_LIMIT};
use crate::model::{Coord, Customizations, Direction, GameState, GameView, Info, MoveResponse};
use crate::strategy::{cheapest, pick_cheapest, Strategy, StrategyName};
use crate::text::{shout, shout_text};

verus! {

/// The most moves a search from a square next to our head may count: a path
/// cost of five per move, plus 525, still fits an `i32`.
pub const MOVE_SEARCH_LIMIT: u32 = 429_496_624;

/// The most moves the territory search may count: a distance plus 5025
/// still fits an `i32`.
pub const TERRITORY_SEARCH_LIMIT: u32 = 2_147_478_622;

impl GameView {
    /// Our snake is among the board's snakes.
    pub open spec fn you_listed(self) -> bool {
        exists|i: int| 0 <= i < self.board.snakes.len() && #[trigger] self.board.snakes[i].id@ == self.you.id@
    }

    /// The position of our snake among the board's snakes.
    pub open spec fn you_index(self) -> int {
        choose|i: int| 0 <= i < self.board.snakes.len() && #[trigger] self.board.snakes[i].id@ == self.you.id@
    }

    /// Some move from our head enters a valid and safe square.
    pub open spec fn has_safe_move(self) -> bool {
        exists|d: Direction| #[trigger] self.valid_safe(self.adjacent(self.you.head, d))
    }

    /// What the move that the random strategy proposes must satisfy: a
    /// valid and safe move when there is one, else `Down`.
    pub open spec fn random_fallback(self, r: Direction) -> bool {
        &&& self.has_safe_move() ==> self.valid_safe(self.adjacent(self.you.head, r))
        &&& !self.has_safe_move() ==> r == Direction::Down
    }

    /// What a turn needs: the neighbours of the opponents' heads can be
    /// computed (to prepare the board), and what choosing the move needs.
    pub open spec fn ready_to_move(self) -> bool {
        &&& self.opponent_heads_defined()
        &&& self.ready_to_decide()
    }

    /// What choosing a move needs: the neighbours of our head can be
    /// computed; and, when some move is safe (the moves are then weighed),
    /// every head's neighbours can be computed, snake ids are distinct, our
    /// length can grow by one, our snake has a body and is on the board, and
    /// the searches that weigh each safe move keep its costs within an `i32`.
    pub open spec fn ready_to_decide(self) -> bool {
        &&& self.neighbours_defined(self.you.head)
        &&& self.has_safe_move() ==> {
            &&& self.heads_defined()
            &&& self.snake_ids_distinct()
            &&& self.you.length < u32::MAX
            &&& self.you.body@.len() > 0
            &&& self.you_listed()
            &&& forall|d: Direction| #[trigger] self.valid_safe(self.adjacent(self.you.head, d))
                ==> self.move_searches_fit(self.adjacent(self.you.head, d))
        }
    }

    /// The searches made when weighing a move onto `a` keep its costs within
    /// an `i32`: the search from `a` for our tail, and when we are hungry
    /// for each food, is over within `MOVE_SEARCH_LIMIT` moves; the territory
    /// search settles within `TERRITORY_SEARCH_LIMIT` moves; and our
    /// territory has at most `i32::MAX` squares.
    pub open spec fn move_searches_fit(self, a: Coord) -> bool {
        &&& self.search_ends_within(a, self.you.body@.last(), MOVE_SEARCH_LIMIT as int)
        &&& self.you.health <= 33 ==> forall|f: Coord| #[trigger] self.board.food.contains(f)
            ==> self.search_ends_within(a, f, MOVE_SEARCH_LIMIT as int)
        &&& self.settles(self.territory_blocked(self.other_neighbours(a)), self.heads(), TERRITORY_SEARCH_LIMIT as int)
        &&& self.controlled_count(a) <= i32::MAX
    }

    /// +25 next to a menacing head, -25 next to a shorter opponent's head.
    pub open spec fn cost_modifier(self, a: Coord) -> int {
        if self.board.dangerous_adjacent_heads.contains(a) {
            25
        } else if self.board.safe_adjacent_heads.contains(a) {
            -25
        } else {
            0
        }
    }

    /// The squares next to our head other than `a`.
    pub open spec fn other_neighbours(self, a: Coord) -> Set<Coord> {
        Set::new(|c: Coord| c != a && exists|d: Direction| #[trigger] self.adjacent(self.you.head, d) == c)
    }

    /// Following our own tail: five per move to it, unless `a` is food
    /// right next to the tail.
    pub open spec fn follow_self_strategy(self, dir: Direction) -> Seq<Strategy> {
        let a = self.adjacent(self.you.head, dir);
        match self.path_cost(a, self.you.body@.last()) {
            Some(t) => if t > 1 || !self.board.food.contains(a) {
                seq![Strategy { name: StrategyName::FollowMySelf, direction: dir, cost: (500 + t + self.cost_modifier(a)) as i32 }]
            } else {
                seq![]
            },
            None => seq![],
        }
    }

    /// The number of squares we control after moving onto `a`.
    pub open spec fn controlled_count(self, a: Coord) -> int {
        self.controlled(self.other_neighbours(a), self.you_index()).len() as int
    }

    /// Heading for the nearest food when hungry, wherever it is.
    pub open spec fn starving_strategy(self, dir: Direction) -> Seq<Strategy> {
        let a = self.adjacent(self.you.head, dir);
        if self.you.health <= 33 {
            match self.nearest_food_cost(a) {
                Some(f) => seq![Strategy {
                    name: StrategyName::Starving,
                    direction: dir,
                    cost: (250 - self.controlled_count(a) + f + self.cost_modifier(a)) as i32,
                }],
                None => seq![],
            }
        } else {
            seq![]
        }
    }

    /// Heading for the largest territory.
    pub open spec fn survival_strategy(self, dir: Direction) -> Seq<Strategy> {
        let a = self.adjacent(self.you.head, dir);
        seq![Strategy {
            name: StrategyName::Survival,
            direction: dir,
            cost: (1000 - self.controlled_count(a) + self.cost_modifier(a)) as i32,
        }]
    }

    /// The distance of the nearest food in our territory after moving onto `a`.
    pub open spec fn own_food(self, a: Coord) -> Option<u32> {
        self.nearest_controlled(self.other_neighbours(a), self.you_index(), self.board.food)
    }

    /// The distance of the nearest safe tail in our territory after moving onto `a`.
    pub open spec fn own_tail(self, a: Coord) -> Option<u32> {
        self.nearest_controlled(self.other_neighbours(a), self.you_index(), self.board.safe_tails)
    }

    /// Eating food in our territory, when the territory is roomy and the
    /// food is nearer than for every earlier move (`food_bar`).
    pub open spec fn nom_nom_taken(self, dir: Direction, food_bar: u32) -> bool {
        let a = self.adjacent(self.you.head, dir);
        &&& self.own_food(a) is Some
        &&& self.controlled_count(a) > self.you.length + 1
        &&& self.own_food(a).unwrap() < food_bar
    }

    /// Following another snake's tail, when nearer than for every earlier
    /// move (`tail_bar`).
    pub open spec fn friend_taken(self, dir: Direction, tail_bar: u32) -> bool {
        let a = self.adjacent(self.you.head, dir);
        self.own_tail(a) is Some && self.own_tail(a).unwrap() < tail_bar
    }

    /// The strategies of moving in direction `dir`, in the order they are
    /// weighed, with the food and tail distances to beat afterwards.
    pub open spec fn direction_strategies(self, dir: Direction, food_bar: u32, tail_bar: u32) -> (Seq<Strategy>, u32, u32) {
        let a = self.adjacent(self.you.head, dir);
        let nom = if self.nom_nom_taken(dir, food_bar) {
            seq![Strategy { name: StrategyName::NomNom, direction: dir, cost: (1 + self.own_food(a).unwrap()) as i32 }]
        } else {
            seq![]
        };
        let friend = if self.friend_taken(dir, tail_bar) {
            seq![Strategy {
                name: StrategyName::FollowAFriend,
                direction: dir,
                cost: (5000 + self.own_tail(a).unwrap() + self.cost_modifier(a)) as i32,
            }]
        } else {
            seq![]
        };
        (
            self.follow_self_strategy(dir) + self.starving_strategy(dir) + self.survival_strategy(dir) + nom + friend,
            if self.nom_nom_taken(dir, food_bar) { self.own_food(a).unwrap() } else { food_bar },
            if self.friend_taken(dir, tail_bar) { self.own_tail(a).unwrap() } else { tail_bar },
        )
    }

    /// The strategies of the moves from the `j`-th direction on, in the
    /// order of `direction_order`; a move that is not valid and safe has none.
    pub open spec fn move_strategies(self, j: int, food_bar: u32, tail_bar: u32) -> Seq<Strategy>
        decreases 4 - j,
    {
        if j < 0 || j >= 4 {
            seq![]
        } else {
            let dir = direction_order()[j];
            if self.valid_safe(self.adjacent(self.you.head, dir)) {
                let (block, f2, t2) = self.direction_strategies(dir, food_bar, tail_bar);
                block + self.move_strategies(j + 1, f2, t2)
            } else {
                self.move_strategies(j + 1, food_bar, tail_bar)
            }
        }
    }

    /// Every strategy of the turn: the random move at cost 10000, then the
    /// strategies of the moves.
    pub open spec fn all_strategies(self, random_direction: Direction) -> Seq<Strategy> {
        seq![Strategy { name: StrategyName::Random, direction: random_direction, cost: 10000 }]
            + self.move_strategies(0, u32::MAX, u32::MAX)
    }

    /// The strategy the turn goes with.
    pub open spec fn best_strategy(self, random_direction: Direction) -> Strategy {
        cheapest(self.all_strategies(random_direction))
    }
}

impl GameState {
    /// The position of our snake among the board's snakes.
    fn you_position(&self) -> (r: Option<usize>)
        ensures
            r is None ==> !self@.you_listed(),
            r matches Some(i) ==> i < self@.board.snakes.len() && self@.board.snakes[i as int].id@ == self@.you.id@,
    {
        let mut i: usize = 0;
        while i < self.board.snakes.len()
            invariant
                i <= self@.board.snakes.len(),
                forall|j: int| 0 <= j < i ==> (#[trigger] self@.board.snakes[j]).id@ != self@.you.id@,
            decreases self@.board.snakes.len() - i,
        {
            if self.board.snakes[i].id == self.you.id {
                return Some(i);
            }
            i = i + 1;
        }
        None
    }
}

/// The squares next to our head other than `a`.
fn other_neighbour_coords(gs: &GameState, a: &Coord) -> (exclusions: Vec<Coord>)
    requires
        gs@.neighbours_defined(gs@.you.head),
    ensures
        exclusions@.to_set() == gs@.other_neighbours(*a),
{
    let ghost g = gs@;
    let adjacent = gs.new_adjacent_coords(&gs.you.head);
    let mut exclusions: Vec<Coord> = Vec::new();
    let mut i: usize = 0;
    while i < adjacent.len()
        invariant
            adjacent@.len() == 4,
            i <= 4,
            forall|j: int| 0 <= j < 4 ==> adjacent@[j] == g.adjacent(g.you.head, #[trigger] direction_order()[j]),
            forall|c: Coord| exclusions@.contains(c) <==> (c != *a && exists|j: int| 0 <= j < i && adjacent@[j] == c),
        decreases 4 - i,
    {
        let ghost prev = exclusions@;
        if adjacent[i] != *a {
            exclusions.push(adjacent[i]);
        }
        proof {
            assert forall|c: Coord| exclusions@.contains(c) <==> (c != *a && exists|j: int| 0 <= j < i + 1 && adjacent@[j] == c) by {
                if exclusions@.contains(c) {
                    let k = choose|k: int| 0 <= k < exclusions@.len() && exclusions@[k] == c;
                    if k < prev.len() {
                        assert(prev[k] == c);
                        assert(prev.contains(c));
                    } else {
                        assert(adjacent@[i as int] == c);
                    }
                }
                if c != *a && exists|j: int| 0 <= j < i + 1 && adjacent@[j] == c {
                    let j = choose|j: int| 0 <= j < i + 1 && adjacent@[j] == c;
                    if j < i {
                        assert(prev.contains(c));
                        let k = choose|k: int| 0 <= k < prev.len() && prev[k] == c;
                        assert(exclusions@[k] == c);
                    } else {
                        assert(exclusions@[prev.len() as int] == c);
                    }
                }
            }
        }
        i = i + 1;
    }
    assert(exclusions@.to_set() =~= g.other_neighbours(*a)) by {
        assert forall|c: Coord| exclusions@.to_set().contains(c) implies g.other_neighbours(*a).contains(c) by {
            let j = choose|j: int| 0 <= j < 4 && adjacent@[j] == c;
            assert(g.adjacent(g.you.head, direction_order()[j]) == c);
        }
        assert forall|c: Coord| g.other_neighbours(*a).contains(c) implies exclusions@.to_set().contains(c) by {
            let d = choose|d: Direction| #[trigger] g.adjacent(g.you.head, d) == c;
            let j: int = match d {
                Direction::Up => 0,
                Direction::Down => 1,
                Direction::Left => 2,
                Direction::Right => 3,
            };
            assert(direction_order()[j] == d);
            assert(adjacent@[j] == c);
        }
    }
    exclusions
}

/// Adds the strategy of following our own tail after moving in direction
/// `dir` onto `adjacent_coord`.
fn follow_own_tail(gs: &GameState, dir: Direction, adjacent_coord: &Coord, cost_mod: i32, strategies: &mut Vec<Strategy>)
    requires
        gs@.ready_to_decide(),
        gs@.valid_safe(gs@.adjacent(gs@.you.head, dir)),
        *adjacent_coord == gs@.adjacent(gs@.you.head, dir),
        cost_mod == gs@.cost_modifier(*adjacent_coord),
    ensures
        final(strategies)@ == old(strategies)@ + gs@.follow_self_strategy(dir),
{
    let ghost g = gs@;
    let ghost a = *adjacent_coord;
    assert(g.has_safe_move());
    proof {
        crate::grid::lemma_in_bounds_neighbours_defined(g, a);
    }
    let tail = gs.you.body[gs.you.body.len() - 1];
    proof {
        assert(g.move_searches_fit(a));
        lemma_search_ends_mono(g, a, tail, MOVE_SEARCH_LIMIT as int, PATH_SEARCH_LIMIT as int);
        lemma_search_ends_fewest(g, a, tail, MOVE_SEARCH_LIMIT as int);
    }
    match gs.shortest_distance(adjacent_coord, &tail) {
        Some(my_tail_distance) => {
            if my_tail_distance > 1 || !coords_contain(&gs.board.food, adjacent_coord) {
                strategies.push(Strategy {
                    name: StrategyName::FollowMySelf,
                    direction: dir,
                    cost: 500 + my_tail_distance as i32 + cost_mod,
                });
            }
        },
        None => {},
    }
    assert(strategies@ =~= old(strategies)@ + g.follow_self_strategy(dir));
}

/// Adds the strategies of moving in direction `dir` and moves the food and
/// tail distances to beat.
#[verifier::spinoff_prover]
#[verifier::rlimit(60)]
fn consider_direction(gs: &GameState, dir: Direction, strategies: &mut Vec<Strategy>, food_bar: &mut u32, tail_bar: &mut u32)
    requires
        gs@.ready_to_decide(),
        gs@.valid_safe(gs@.adjacent(gs@.you.head, dir)),
    ensures
        final(strategies)@ == old(strategies)@ + gs@.direction_strategies(dir, *old(food_bar), *old(tail_bar)).0,
        *final(food_bar) == gs@.direction_strategies(dir, *old(food_bar), *old(tail_bar)).1,
        *final(tail_bar) == gs@.direction_strategies(dir, *old(food_bar), *old(tail_bar)).2,
{
    let ghost g = gs@;
    let ghost before = strategies@;
    assert(g.adjacent_defined(g.you.head, dir));
    let adjacent_coord = gs.new_adjacent_coord(&gs.you.head, &dir);
    let ghost a = adjacent_coord;
    assert(g.has_safe_move());
    proof {
        crate::grid::lemma_in_bounds_neighbours_defined(g, a);
    }
    let mut cost_mod: i32 = 0;
    if coords_contain(&gs.board.dangerous_adjacent_heads, &adjacent_coord) {
        cost_mod = 25;
    } else if coords_contain(&gs.board.safe_adjacent_heads, &adjacent_coord) {
        cost_mod = -25;
    }
    assert(cost_mod == g.cost_modifier(a));
    // Follow our own tail.
    follow_own_tail(gs, dir, &adjacent_coord, cost_mod, strategies);
    assert(strategies@ =~= before + g.follow_self_strategy(dir));
    // Our territory after the move.
    let exclusions = other_neighbour_coords(gs, &adjacent_coord);
    let ghost ex = exclusions@.to_set();
    assert(g.settles(g.territory_blocked(ex), g.heads(), u32::MAX as int)) by {
        assert(g.move_searches_fit(a));
        lemma_settles_mono(g, g.territory_blocked(ex), g.heads(), TERRITORY_SEARCH_LIMIT as int, u32::MAX as int);
    }
    let squares = gs.compute_controlled_squares(&exclusions);
    let me = match gs.you_position() {
        Some(me) => me,
        None => {
            return;
        },
    };
    proof {
        let yi = g.you_index();
        assert(g.board.snakes[me as int].id@ == g.you.id@);
        assert(g.board.snakes[yi].id@ == g.you.id@);
        assert(yi == me);
    }
    assert(squares.squares@[me as int]@.len() <= i32::MAX) by {
        assert(g.move_searches_fit(a));
    }
    let squares_count: i32 = squares.squares[me].len() as i32;
    assert(squares_count == g.controlled_count(a));
    // Eat any food when hungry enough.
    let ghost mark = strategies@;
    if gs.you.health <= 33 {
        assert forall|f: Coord| #[trigger] g.board.food.contains(f)
            implies g.search_ends_within(a, f, PATH_SEARCH_LIMIT as int) by {
            assert(g.move_searches_fit(a));
            lemma_search_ends_mono(g, a, f, MOVE_SEARCH_LIMIT as int, PATH_SEARCH_LIMIT as int);
        }
        match gs.closest_food_distance(&adjacent_coord) {
            Some(starving_food_distance) => {
                assert(starving_food_distance <= 5 * MOVE_SEARCH_LIMIT) by {
                    let f = choose|f: Coord| #[trigger] g.board.food.contains(f) && g.path_cost(a, f) == Some(starving_food_distance);
                    assert(g.move_searches_fit(a));
                    lemma_search_ends_fewest(g, a, f, MOVE_SEARCH_LIMIT as int);
                    assert(g.fewest_moves(a, f) is Some);
                    let k = g.fewest_moves(a, f).unwrap();
                    crate::paths::lemma_fewest_moves_some(g, a, f);
                    assert(0 <= k <= MOVE_SEARCH_LIMIT);
                    assert(starving_food_distance == 5 * k);
                }
                strategies.push(Strategy {
                    name: StrategyName::Starving,
                    direction: dir,
                    cost: 250 - squares_count + starving_food_distance as i32 + cost_mod,
                });
            },
            None => {},
        }
    }
    assert(strategies@ =~= mark + g.starving_strategy(dir));
    // Head for the largest territory.
    strategies.push(Strategy { name: StrategyName::Survival, direction: dir, cost: 1000 - squares_count + cost_mod });
    assert(strategies@ =~= mark + g.starving_strategy(dir) + g.survival_strategy(dir));
    let ghost mark2 = strategies@;
    // Eat food in our territory.
    assert(squares.closest_food_distance@[me as int] == g.own_food(a));
    match squares.closest_food_distance[me] {
        Some(direction_food_distance) => {
            assert(direction_food_distance <= TERRITORY_SEARCH_LIMIT) by {
                let c = choose|c: Coord| #[trigger] g.board.food.contains(c) && g.controls(ex, me as int, c, direction_food_distance as int);
                assert(g.move_searches_fit(a));
                lemma_controls_within(g, ex, me as int, c, direction_food_distance as int, TERRITORY_SEARCH_LIMIT as int);
            }
            if squares_count as u32 > gs.you.length + 1 && direction_food_distance < *food_bar {
                strategies.push(Strategy {
                    name: StrategyName::NomNom,
                    direction: dir,
                    cost: 1 + direction_food_distance as i32,
                });
                *food_bar = direction_food_distance;
            }
        },
        None => {},
    }
    let ghost mark3 = strategies@;
    // Follow another snake's tail.
    assert(squares.closest_tail_distance@[me as int] == g.own_tail(a));
    match squares.closest_tail_distance[me] {
        Some(direction_tail_distance) => {
            assert(direction_tail_distance <= TERRITORY_SEARCH_LIMIT) by {
                let c = choose|c: Coord| #[trigger] g.board.safe_tails.contains(c) && g.controls(ex, me as int, c, direction_tail_distance as int);
                assert(g.move_searches_fit(a));
                lemma_controls_within(g, ex, me as int, c, direction_tail_distance as int, TERRITORY_SEARCH_LIMIT as int);
            }
            if direction_tail_distance < *tail_bar {
                strategies.push(Strategy {
                    name: StrategyName::FollowAFriend,
                    direction: dir,
                    cost: 5000 + direction_tail_distance as i32 + cost_mod,
                });
                *tail_bar = direction_tail_distance;
            }
        },
        None => {},
    }
    proof {
        let block = g.direction_strategies(dir, *old(food_bar), *old(tail_bar)).0;
        assert(strategies@ =~= before + block);
    }
}

/// Chooses this turn's move for a state whose board sets are filled (see
/// `GameState::init`), with `random_direction` as the move of the random
/// strategy.
pub fn decide_move(gs: &GameState, random_direction: Direction) -> (mr: MoveResponse)
    requires
        gs@.ready_to_decide(),
    ensures
        mr.direction == gs@.best_strategy(random_direction).direction,
        mr.shout@ == shout_text(gs@.best_strategy(random_direction)),
{
    let ghost g = gs@;
    let mut strategies: Vec<Strategy> = Vec::new();
    strategies.push(Strategy { name: StrategyName::Random, direction: random_direction, cost: 10000 });
    let mut closest_food_distance: u32 = u32::MAX;
    let mut closest_tail_distance: u32 = u32::MAX;
    let dirs = all_directions();
    let mut j: usize = 0;
    assert(strategies@ + g.move_strategies(0, closest_food_distance, closest_tail_distance) =~= g.all_strategies(random_direction));
    while j < dirs.len()
        invariant
            g == gs@,
            g.ready_to_decide(),
            dirs@ == direction_order(),
            j <= 4,
            strategies@.len() >= 1,
            strategies@ + g.move_strategies(j as int, closest_food_distance, closest_tail_distance) == g.all_strategies(random_direction),
        decreases 4 - j,
    {
        let direction = dirs[j];
        assert(g.adjacent_defined(g.you.head, direction));
        let adjacent_coord = gs.new_adjacent_coord(&gs.you.head, &direction);
        let ghost before = strategies@;
        let ghost fb = closest_food_distance;
        let ghost tb = closest_tail_distance;
        if gs.is_valid_and_safe_at(&adjacent_coord) {
            consider_direction(gs, direction, &mut strategies, &mut closest_food_distance, &mut closest_tail_distance);
            proof {
                let (block, f2, t2) = g.direction_strategies(direction, fb, tb);
                assert(g.move_strategies(j as int, fb, tb) == block + g.move_strategies(j + 1, f2, t2));
                assert(strategies@ + g.move_strategies(j + 1, closest_food_distance, closest_tail_distance)
                    =~= before + g.move_strategies(j as int, fb, tb));
            }
        } else {
            assert(g.move_strategies(j as int, fb, tb) == g.move_strategies(j + 1, fb, tb));
        }
        j = j + 1;
    }
    assert(g.move_strategies(4, closest_food_distance, closest_tail_distance) =~= Seq::<Strategy>::empty());
    assert(strategies@ =~= g.all_strategies(random_direction));
    let strategy = pick_cheapest(&strategies);
    MoveResponse { direction: strategy.direction, shout: shout(&strategy) }
}

/// This turn's move: fills the board's sets, draws a random valid move as
/// the fallback, and goes with the cheapest strategy.
pub fn make_move(gs: GameState) -> (mr: MoveResponse)
    requires
        gs@.prepared().ready_to_move(),
        gs.board.sets_distinct(),
    ensures
        exists|r: Direction| {
            &&& gs@.prepared().random_fallback(r)
            &&& mr.direction == gs@.prepared().best_strategy(r).direction
            &&& mr.shout@ == shout_text(gs@.prepared().best_strategy(r))
        },
        gs@.prepared().has_safe_move() ==> forall|r: Direction| {
            &&& mr.direction == (#[trigger] gs@.prepared().best_strategy(r)).direction
            &&& mr.shout@ == shout_text(gs@.prepared().best_strategy(r))
        },
{
    let mut gs = gs;
    proof {
        assert forall|s: int| 0 <= s < gs@.board.snakes.len() && gs@.is_opponent(s)
            implies gs@.neighbours_defined(#[trigger] gs@.board.snakes[s].head) by {
            assert(gs@.prepared().board.snakes == gs@.board.snakes);
            assert(gs@.prepared().is_opponent(s));
            assert(gs@.prepared().neighbours_defined(gs@.prepared().board.snakes[s].head));
            assert forall|d: Direction| #[trigger] gs@.adjacent_defined(gs@.board.snakes[s].head, d) by {
                assert(gs@.prepared().adjacent_defined(gs@.board.snakes[s].head, d));
            }
        }
    }
    let ghost g = gs@.prepared();
    gs.init();
    assert forall|d: Direction| #[trigger] gs@.adjacent_defined(gs@.you.head, d) by {
        assert(g.adjacent_defined(g.you.head, d));
    }
    let random_direction = gs.get_random_valid_direction(&gs.you.head);
    assert(g.random_fallback(random_direction));
    proof {
        if g.has_safe_move() {
            assert forall|r: Direction| #[trigger] g.best_strategy(r) == g.best_strategy(random_direction) by {
                lemma_choice_ignores_random(g, r, random_direction);
            }
        }
    }
    decide_move(&gs, random_direction)
}

/// Every strategy from the `j`-th direction on proposes a valid and safe move.
proof fn lemma_move_strategies_safe(g: GameView, j: int, food_bar: u32, tail_bar: u32)
    ensures
        forall|i: int| 0 <= i < g.move_strategies(j, food_bar, tail_bar).len()
            ==> g.valid_safe(g.adjacent(g.you.head, (#[trigger] g.move_strategies(j, food_bar, tail_bar)[i]).direction)),
    decreases 4 - j,
{
    if 0 <= j < 4 {
        let dir = direction_order()[j];
        if g.valid_safe(g.adjacent(g.you.head, dir)) {
            let (block, f2, t2) = g.direction_strategies(dir, food_bar, tail_bar);
            lemma_move_strategies_safe(g, j + 1, f2, t2);
            let rest = g.move_strategies(j + 1, f2, t2);
            assert forall|i: int| 0 <= i < block.len() implies (#[trigger] block[i]).direction == dir by {
                let p1 = g.follow_self_strategy(dir);
                let p2 = g.starving_strategy(dir);
                let p3 = g.survival_strategy(dir);
                assert(forall|x: int| 0 <= x < p1.len() ==> (#[trigger] p1[x]).direction == dir);
                assert(forall|x: int| 0 <= x < p2.len() ==> (#[trigger] p2[x]).direction == dir);
            }
            assert forall|i: int| 0 <= i < (block + rest).len()
                implies g.valid_safe(g.adjacent(g.you.head, (#[trigger] (block + rest)[i]).direction)) by {
                if i >= block.len() {
                    assert((block + rest)[i] == rest[i - block.len()]);
                } else {
                    assert((block + rest)[i] == block[i]);
                }
            }
        } else {
            lemma_move_strategies_safe(g, j + 1, food_bar, tail_bar);
        }
    }
}

/// No move is weighed when none is safe.
proof fn lemma_no_move_strategies(g: GameView, j: int, food_bar: u32, tail_bar: u32)
    requires
        !g.has_safe_move(),
    ensures
        g.move_strategies(j, food_bar, tail_bar).len() == 0,
    decreases 4 - j,
{
    if 0 <= j < 4 {
        let dir = direction_order()[j];
        assert(!g.valid_safe(g.adjacent(g.you.head, dir)));
        lemma_no_move_strategies(g, j + 1, food_bar, tail_bar);
    }
}

/// The snake never moves into danger it can avoid: when some move enters a
/// valid and safe square, the chosen move does; when none does, the snake
/// makes the random strategy's move, `Down`.
pub proof fn lemma_chosen_move_safe(g: GameView, r: Direction)
    requires
        g.random_fallback(r),
    ensures
        g.has_safe_move() ==> g.valid_safe(g.adjacent(g.you.head, g.best_strategy(r).direction)),
        !g.has_safe_move() ==> g.best_strategy(r) == (Strategy { name: StrategyName::Random, direction: Direction::Down, cost: 10000 }),
{
    let all = g.all_strategies(r);
    let moves = g.move_strategies(0, u32::MAX, u32::MAX);
    crate::strategy::lemma_cheapest(all);
    lemma_move_strategies_safe(g, 0, u32::MAX, u32::MAX);
    let i = choose|i: int| 0 <= i < all.len() && all[i] == cheapest(all);
    if i > 0 {
        assert(all[i] == moves[i - 1]);
    }
    if !g.has_safe_move() {
        lemma_no_move_strategies(g, 0, u32::MAX, u32::MAX);
        assert(all.len() == 1);
    }
}

/// From the `j`-th direction on, a valid and safe move at `j0 >= j` gives a
/// strategy cheaper than the random one.
proof fn lemma_move_strategies_cheap(g: GameView, j: int, j0: int, food_bar: u32, tail_bar: u32)
    requires
        0 <= j <= j0 < 4,
        g.valid_safe(g.adjacent(g.you.head, direction_order()[j0])),
        g.ready_to_decide(),
    ensures
        exists|i: int| 0 <= i < g.move_strategies(j, food_bar, tail_bar).len()
            && (#[trigger] g.move_strategies(j, food_bar, tail_bar)[i]).cost < 10000,
    decreases 4 - j,
{
    let dir = direction_order()[j];
    let moves = g.move_strategies(j, food_bar, tail_bar);
    assert(g.has_safe_move());
    if g.valid_safe(g.adjacent(g.you.head, dir)) {
        let (block, f2, t2) = g.direction_strategies(dir, food_bar, tail_bar);
        let rest = g.move_strategies(j + 1, f2, t2);
        assert(moves == block + rest);
        let a = g.adjacent(g.you.head, dir);
        let me = g.you_index();
        assert(0 <= me < g.board.snakes.len() && g.board.snakes[me].id@ == g.you.id@);
        assert(g.heads().len() == g.board.snakes.len());
        let count = g.controlled_count(a);
        assert(g.move_searches_fit(a));
        assert(0 <= count <= i32::MAX);
        let p1 = g.follow_self_strategy(dir);
        let p2 = g.starving_strategy(dir);
        let p3 = g.survival_strategy(dir);
        let i: int = (p1.len() + p2.len()) as int;
        assert(p3[0].cost == (1000 - count + g.cost_modifier(a)) as i32);
        assert(p3[0].cost < 10000);
        assert(block[i] == p3[0]);
        assert(moves[i] == block[i]);
    } else {
        assert(j < j0);
        lemma_move_strategies_cheap(g, j + 1, j0, food_bar, tail_bar);
        assert(moves == g.move_strategies(j + 1, food_bar, tail_bar));
    }
}

/// The random draw never decides the move while some move is safe: the
/// strategy chosen is the same for every random move, and it is not the
/// random one.
pub proof fn lemma_choice_ignores_random(g: GameView, r1: Direction, r2: Direction)
    requires
        g.ready_to_decide(),
        g.has_safe_move(),
    ensures
        g.best_strategy(r1) == g.best_strategy(r2),
        g.best_strategy(r1).name != StrategyName::Random,
{
    let d = choose|d: Direction| #[trigger] g.valid_safe(g.adjacent(g.you.head, d));
    let j0: int = match d {
        Direction::Up => 0,
        Direction::Down => 1,
        Direction::Left => 2,
        Direction::Right => 3,
    };
    assert(direction_order()[j0] == d);
    let moves = g.move_strategies(0, u32::MAX, u32::MAX);
    lemma_move_strategies_cheap(g, 0, j0, u32::MAX, u32::MAX);
    crate::strategy::lemma_cheapest(moves);
    let i = choose|i: int| 0 <= i < moves.len() && (#[trigger] moves[i]).cost < 10000;
    assert(cheapest(moves).cost <= moves[i].cost);
    let x1 = Strategy { name: StrategyName::Random, direction: r1, cost: 10000 };
    let x2 = Strategy { name: StrategyName::Random, direction: r2, cost: 10000 };
    crate::strategy::lemma_cheapest_prepend(x1, moves);
    crate::strategy::lemma_cheapest_prepend(x2, moves);
    let k = choose|k: int| 0 <= k < moves.len() && moves[k] == cheapest(moves);
    lemma_move_strategies_names(g, 0, u32::MAX, u32::MAX);
    assert(moves[k].name != StrategyName::Random);
}

/// No move's strategy is the random one.
proof fn lemma_move_strategies_names(g: GameView, j: int, food_bar: u32, tail_bar: u32)
    ensures
        forall|i: int| 0 <= i < g.move_strategies(j, food_bar, tail_bar).len()
            ==> (#[trigger] g.move_strategies(j, food_bar, tail_bar)[i]).name != StrategyName::Random,
    decreases 4 - j,
{
    if 0 <= j < 4 {
        let dir = direction_order()[j];
        if g.valid_safe(g.adjacent(g.you.head, dir)) {
            let (block, f2, t2) = g.direction_strategies(dir, food_bar, tail_bar);
            lemma_move_strategies_names(g, j + 1, f2, t2);
            let rest = g.move_strategies(j + 1, f2, t2);
            let p1 = g.follow_self_strategy(dir);
            let p2 = g.starving_strategy(dir);
            assert(forall|x: int| 0 <= x < p1.len() ==> (#[trigger] p1[x]).name != StrategyName::Random);
            assert(forall|x: int| 0 <= x < p2.len() ==> (#[trigger] p2[x]).name != StrategyName::Random);
            assert forall|i: int| 0 <= i < (block + rest).len()
                implies (#[trigger] (block + rest)[i]).name != StrategyName::Random by {
                if i >= block.len() {
                    assert((block + rest)[i] == rest[i - block.len()]);
                }
            }
        } else {
            lemma_move_strategies_names(g, j + 1, food_bar, tail_bar);
        }
    }
}

/// Some strategy of `s` has the name `name` and the direction `dir`.
pub open spec fn lists(s: Seq<Strategy>, name: StrategyName, dir: Direction) -> bool {
    exists|i: int| 0 <= i < s.len() && (#[trigger] s[i]).name == name && s[i].direction == dir
}

impl GameView {
    /// The square that the `j`-th direction moves our head to.
    pub open spec fn target(self, j: int) -> Coord {
        self.adjacent(self.you.head, direction_order()[j])
    }

    /// Moving in the `j`-th direction could eat food in our territory, as
    /// far as that move alone decides: it is valid and safe, our territory
    /// holds food and is roomy, and the food is nearer than `u32::MAX`.
    pub open spec fn nom_nom_fits(self, j: int) -> bool {
        let a = self.target(j);
        &&& self.valid_safe(a)
        &&& self.own_food(a) is Some
        &&& self.controlled_count(a) > self.you.length + 1
        &&& self.own_food(a).unwrap() < u32::MAX
    }

    /// Moving in the `j`-th direction could follow another snake's tail, as
    /// far as that move alone decides: it is valid and safe, and a safe tail
    /// in our territory is nearer than `u32::MAX`.
    pub open spec fn friend_fits(self, j: int) -> bool {
        let a = self.target(j);
        &&& self.valid_safe(a)
        &&& self.own_tail(a) is Some
        &&& self.own_tail(a).unwrap() < u32::MAX
    }
}

/// The place of `d` in `direction_order`.
pub open spec fn direction_rank(d: Direction) -> int {
    match d {
        Direction::Up => 0,
        Direction::Down => 1,
        Direction::Left => 2,
        Direction::Right => 3,
    }
}

/// A listing in two parts is a listing in one of them.
proof fn lemma_lists_concat(x: Seq<Strategy>, y: Seq<Strategy>, name: StrategyName, d: Direction)
    ensures
        lists(x + y, name, d) <==> (lists(x, name, d) || lists(y, name, d)),
{
    let s = x + y;
    if lists(s, name, d) {
        let i = choose|i: int| 0 <= i < s.len() && (#[trigger] s[i]).name == name && s[i].direction == d;
        if i < x.len() {
            assert(x[i] == s[i]);
        } else {
            assert(y[i - x.len()] == s[i]);
        }
    }
    if lists(x, name, d) {
        let i = choose|i: int| 0 <= i < x.len() && (#[trigger] x[i]).name == name && x[i].direction == d;
        assert(s[i] == x[i]);
    }
    if lists(y, name, d) {
        let i = choose|i: int| 0 <= i < y.len() && (#[trigger] y[i]).name == name && y[i].direction == d;
        assert(s[i + x.len()] == y[i]);
    }
}

/// Every strategy from the `j`-th direction on moves in a direction from the
/// `j`-th on.
#[verifier::rlimit(30)]
proof fn lemma_move_strategies_ranks(g: GameView, j: int, food_bar: u32, tail_bar: u32)
    ensures
        forall|i: int| 0 <= i < g.move_strategies(j, food_bar, tail_bar).len()
            ==> direction_rank((#[trigger] g.move_strategies(j, food_bar, tail_bar)[i]).direction) >= j,
    decreases 4 - j,
{
    if 0 <= j < 4 {
        let dir = direction_order()[j];
        if g.valid_safe(g.adjacent(g.you.head, dir)) {
            let (block, f2, t2) = g.direction_strategies(dir, food_bar, tail_bar);
            lemma_move_strategies_ranks(g, j + 1, f2, t2);
            let rest = g.move_strategies(j + 1, f2, t2);
            let p1 = g.follow_self_strategy(dir);
            let p2 = g.starving_strategy(dir);
            assert(direction_rank(dir) == j);
            assert forall|i: int| 0 <= i < block.len() implies (#[trigger] block[i]).direction == dir by {
                assert(forall|x: int| 0 <= x < p1.len() ==> (#[trigger] p1[x]).direction == dir);
                assert(forall|x: int| 0 <= x < p2.len() ==> (#[trigger] p2[x]).direction == dir);
            }
            assert forall|i: int| 0 <= i < (block + rest).len()
                implies direction_rank((#[trigger] (block + rest)[i]).direction) >= j by {
                if i >= block.len() {
                    assert((block + rest)[i] == rest[i - block.len()]);
                } else {
                    assert((block + rest)[i] == block[i]);
                }
            }
        } else {
            lemma_move_strategies_ranks(g, j + 1, food_bar, tail_bar);
        }
    }
}

/// What one direction's strategies list of NomNom and FollowAFriend.
proof fn lemma_block_lists(g: GameView, dir: Direction, food_bar: u32, tail_bar: u32, d: Direction)
    ensures
        lists(g.direction_strategies(dir, food_bar, tail_bar).0, StrategyName::NomNom, d)
            <==> (g.nom_nom_taken(dir, food_bar) && d == dir),
        lists(g.direction_strategies(dir, food_bar, tail_bar).0, StrategyName::FollowAFriend, d)
            <==> (g.friend_taken(dir, tail_bar) && d == dir),
{
    let block = g.direction_strategies(dir, food_bar, tail_bar).0;
    let p1 = g.follow_self_strategy(dir);
    let p2 = g.starving_strategy(dir);
    let p3 = g.survival_strategy(dir);
    let head = p1 + p2 + p3;
    assert(forall|x: int| 0 <= x < p1.len() ==> (#[trigger] p1[x]).name == StrategyName::FollowMySelf);
    assert(forall|x: int| 0 <= x < p2.len() ==> (#[trigger] p2[x]).name == StrategyName::Starving);
    assert forall|name: StrategyName| name == StrategyName::NomNom || name == StrategyName::FollowAFriend
        implies !#[trigger] lists(head, name, d) by {
        if lists(head, name, d) {
            let i = choose|i: int| 0 <= i < head.len() && (#[trigger] head[i]).name == name && head[i].direction == d;
            if i < p1.len() {
                assert(head[i] == p1[i]);
            } else if i < p1.len() + p2.len() {
                assert(head[i] == p2[i - p1.len()]);
            } else {
                assert(head[i] == p3[i - p1.len() - p2.len()]);
            }
        }
    }
    let a = g.adjacent(g.you.head, dir);
    let nom = if g.nom_nom_taken(dir, food_bar) {
        seq![Strategy { name: StrategyName::NomNom, direction: dir, cost: (1 + g.own_food(a).unwrap()) as i32 }]
    } else {
        seq![]
    };
    let friend = if g.friend_taken(dir, tail_bar) {
        seq![Strategy {
            name: StrategyName::FollowAFriend,
            direction: dir,
            cost: (5000 + g.own_tail(a).unwrap() + g.cost_modifier(a)) as i32,
        }]
    } else {
        seq![]
    };
    assert(block == head + nom + friend);
    lemma_lists_concat(head + nom, friend, StrategyName::NomNom, d);
    lemma_lists_concat(head, nom, StrategyName::NomNom, d);
    lemma_lists_concat(head + nom, friend, StrategyName::FollowAFriend, d);
    lemma_lists_concat(head, nom, StrategyName::FollowAFriend, d);
    if g.nom_nom_taken(dir, food_bar) && d == dir {
        assert(nom[0].name == StrategyName::NomNom);
    }
    if g.friend_taken(dir, tail_bar) && d == dir {
        assert(friend[0].name == StrategyName::FollowAFriend);
    }
}

/// A listing from the `j`-th direction on moves in a direction from the
/// `j`-th on.
proof fn lemma_lists_rank(g: GameView, j: int, food_bar: u32, tail_bar: u32, name: StrategyName, d: Direction)
    requires
        lists(g.move_strategies(j, food_bar, tail_bar), name, d),
    ensures
        direction_rank(d) >= j,
{
    lemma_move_strategies_ranks(g, j, food_bar, tail_bar);
    let ms = g.move_strategies(j, food_bar, tail_bar);
    let i = choose|i: int| 0 <= i < ms.len() && (#[trigger] ms[i]).name == name && ms[i].direction == d;
}

/// From the `j0`-th direction on, with `food_bar` and `tail_bar` to beat: a
/// move's NomNom strategy is listed exactly when its food is nearer than
/// `food_bar` and than that of every earlier move whose NomNom strategy is
/// listed.
proof fn lemma_nom_nom_bar(g: GameView, j0: int, food_bar: u32, tail_bar: u32, j: int)
    requires
        0 <= j0 <= j < 4,
    ensures
        lists(g.move_strategies(j0, food_bar, tail_bar), StrategyName::NomNom, direction_order()[j]) <==> {
            &&& g.nom_nom_fits(j)
            &&& g.own_food(g.target(j)).unwrap() < food_bar
            &&& forall|k: int| j0 <= k < j
                && #[trigger] lists(g.move_strategies(j0, food_bar, tail_bar), StrategyName::NomNom, direction_order()[k])
                ==> g.own_food(g.target(j)).unwrap() < g.own_food(g.target(k)).unwrap()
        },
    decreases 4 - j0,
{
    let dir = direction_order()[j0];
    let ms = g.move_strategies(j0, food_bar, tail_bar);
    let fj = g.own_food(g.target(j)).unwrap();
    assert(direction_rank(dir) == j0);
    assert(forall|k: int| 0 <= k < 4 ==> direction_rank(#[trigger] direction_order()[k]) == k);
    if g.valid_safe(g.adjacent(g.you.head, dir)) {
        let (block, f2, t2) = g.direction_strategies(dir, food_bar, tail_bar);
        let rest = g.move_strategies(j0 + 1, f2, t2);
        assert(ms == block + rest);
        let taken = g.nom_nom_taken(dir, food_bar);
        assert forall|k: int| j0 <= k < 4
            implies (#[trigger] lists(ms, StrategyName::NomNom, direction_order()[k])
                <==> if k == j0 { taken } else { lists(rest, StrategyName::NomNom, direction_order()[k]) }) by {
            lemma_lists_concat(block, rest, StrategyName::NomNom, direction_order()[k]);
            lemma_block_lists(g, dir, food_bar, tail_bar, direction_order()[k]);
            if lists(rest, StrategyName::NomNom, direction_order()[k]) {
                lemma_lists_rank(g, j0 + 1, f2, t2, StrategyName::NomNom, direction_order()[k]);
            }
        }
        if j == j0 {
            assert(lists(ms, StrategyName::NomNom, dir) <==> taken);
        } else {
            lemma_nom_nom_bar(g, j0 + 1, f2, t2, j);
            let f0 = g.own_food(g.target(j0)).unwrap();
            assert(taken ==> f2 == f0 && f0 < food_bar);
            assert(!taken ==> f2 == food_bar);
            if lists(ms, StrategyName::NomNom, direction_order()[j]) {
                assert(lists(rest, StrategyName::NomNom, direction_order()[j]));
                assert forall|k: int| j0 <= k < j && #[trigger] lists(ms, StrategyName::NomNom, direction_order()[k])
                    implies fj < g.own_food(g.target(k)).unwrap() by {
                    if k > j0 {
                        assert(lists(rest, StrategyName::NomNom, direction_order()[k]));
                    }
                }
            }
            if g.nom_nom_fits(j) && fj < food_bar && forall|k: int| j0 <= k < j
                && #[trigger] lists(ms, StrategyName::NomNom, direction_order()[k]) ==> fj < g.own_food(g.target(k)).unwrap() {
                if taken {
                    assert(lists(ms, StrategyName::NomNom, direction_order()[j0]));
                }
                assert forall|k: int| j0 + 1 <= k < j && #[trigger] lists(rest, StrategyName::NomNom, direction_order()[k])
                    implies fj < g.own_food(g.target(k)).unwrap() by {
                    assert(lists(ms, StrategyName::NomNom, direction_order()[k]));
                }
                assert(lists(rest, StrategyName::NomNom, direction_order()[j]));
            }
        }
    } else {
        assert(ms == g.move_strategies(j0 + 1, food_bar, tail_bar));
        if lists(ms, StrategyName::NomNom, dir) {
            lemma_lists_rank(g, j0 + 1, food_bar, tail_bar, StrategyName::NomNom, dir);
        }
        if j > j0 {
            lemma_nom_nom_bar(g, j0 + 1, food_bar, tail_bar, j);
            assert forall|k: int| j0 <= k < j && #[trigger] lists(ms, StrategyName::NomNom, direction_order()[k])
                implies k > j0 by {
                if k == j0 {
                    lemma_lists_rank(g, j0 + 1, food_bar, tail_bar, StrategyName::NomNom, direction_order()[k]);
                }
            }
        }
    }
}

/// From the `j0`-th direction on, with `food_bar` and `tail_bar` to beat: a
/// move's FollowAFriend strategy is listed exactly when its tail is nearer than
/// `tail_bar` and than that of every earlier move whose FollowAFriend strategy is
/// listed.
proof fn lemma_friend_bar(g: GameView, j0: int, food_bar: u32, tail_bar: u32, j: int)
    requires
        0 <= j0 <= j < 4,
    ensures
        lists(g.move_strategies(j0, food_bar, tail_bar), StrategyName::FollowAFriend, direction_order()[j]) <==> {
            &&& g.friend_fits(j)
            &&& g.own_tail(g.target(j)).unwrap() < tail_bar
            &&& forall|k: int| j0 <= k < j
                && #[trigger] lists(g.move_strategies(j0, food_bar, tail_bar), StrategyName::FollowAFriend, direction_order()[k])
                ==> g.own_tail(g.target(j)).unwrap() < g.own_tail(g.target(k)).unwrap()
        },
    decreases 4 - j0,
{
    let dir = direction_order()[j0];
    let ms = g.move_strategies(j0, food_bar, tail_bar);
    let fj = g.own_tail(g.target(j)).unwrap();
    assert(direction_rank(dir) == j0);
    assert(forall|k: int| 0 <= k < 4 ==> direction_rank(#[trigger] direction_order()[k]) == k);
    if g.valid_safe(g.adjacent(g.you.head, dir)) {
        let (block, f2, t2) = g.direction_strategies(dir, food_bar, tail_bar);
        let rest = g.move_strategies(j0 + 1, f2, t2);
        assert(ms == block + rest);
        let taken = g.friend_taken(dir, tail_bar);
        assert forall|k: int| j0 <= k < 4
            implies (#[trigger] lists(ms, StrategyName::FollowAFriend, direction_order()[k])
                <==> if k == j0 { taken } else { lists(rest, StrategyName::FollowAFriend, direction_order()[k]) }) by {
            lemma_lists_concat(block, rest, StrategyName::FollowAFriend, direction_order()[k]);
            lemma_block_lists(g, dir, food_bar, tail_bar, direction_order()[k]);
            if lists(rest, StrategyName::FollowAFriend, direction_order()[k]) {
                lemma_lists_rank(g, j0 + 1, f2, t2, StrategyName::FollowAFriend, direction_order()[k]);
            }
        }
        if j == j0 {
            assert(lists(ms, StrategyName::FollowAFriend, dir) <==> taken);
        } else {
            lemma_friend_bar(g, j0 + 1, f2, t2, j);
            let f0 = g.own_tail(g.target(j0)).unwrap();
            assert(taken ==> t2 == f0 && f0 < tail_bar);
            assert(!taken ==> t2 == tail_bar);
            if lists(ms, StrategyName::FollowAFriend, direction_order()[j]) {
                assert(lists(rest, StrategyName::FollowAFriend, direction_order()[j]));
                assert forall|k: int| j0 <= k < j && #[trigger] lists(ms, StrategyName::FollowAFriend, direction_order()[k])
                    implies fj < g.own_tail(g.target(k)).unwrap() by {
                    if k > j0 {
                        assert(lists(rest, StrategyName::FollowAFriend, direction_order()[k]));
                    }
                }
            }
            if g.friend_fits(j) && fj < tail_bar && forall|k: int| j0 <= k < j
                && #[trigger] lists(ms, StrategyName::FollowAFriend, direction_order()[k]) ==> fj < g.own_tail(g.target(k)).unwrap() {
                if taken {
                    assert(lists(ms, StrategyName::FollowAFriend, direction_order()[j0]));
                }
                assert forall|k: int| j0 + 1 <= k < j && #[trigger] lists(rest, StrategyName::FollowAFriend, direction_order()[k])
                    implies fj < g.own_tail(g.target(k)).unwrap() by {
                    assert(lists(ms, StrategyName::FollowAFriend, direction_order()[k]));
                }
                assert(lists(rest, StrategyName::FollowAFriend, direction_order()[j]));
            }
        }
    } else {
        assert(ms == g.move_strategies(j0 + 1, food_bar, tail_bar));
        if lists(ms, StrategyName::FollowAFriend, dir) {
            lemma_lists_rank(g, j0 + 1, food_bar, tail_bar, StrategyName::FollowAFriend, dir);
        }
        if j > j0 {
            lemma_friend_bar(g, j0 + 1, food_bar, tail_bar, j);
            assert forall|k: int| j0 <= k < j && #[trigger] lists(ms, StrategyName::FollowAFriend, direction_order()[k])
                implies k > j0 by {
                if k == j0 {
                    lemma_lists_rank(g, j0 + 1, food_bar, tail_bar, StrategyName::FollowAFriend, direction_order()[k]);
                }
            }
        }
    }
}

/// A strategy list in two parts holds what either part holds.
proof fn lemma_contains_concat(x: Seq<Strategy>, y: Seq<Strategy>, e: Strategy)
    ensures
        (x + y).contains(e) <==> (x.contains(e) || y.contains(e)),
{
    let s = x + y;
    if s.contains(e) {
        let i = choose|i: int| 0 <= i < s.len() && s[i] == e;
        if i < x.len() {
            assert(x[i] == s[i]);
        } else {
            assert(y[i - x.len()] == s[i]);
        }
    }
    if x.contains(e) {
        let i = choose|i: int| 0 <= i < x.len() && x[i] == e;
        assert(s[i] == x[i]);
    }
    if y.contains(e) {
        let i = choose|i: int| 0 <= i < y.len() && y[i] == e;
        assert(s[i + x.len()] == y[i]);
    }
}

/// What one direction's weighing lists: its strategies move in that
/// direction, and each kind but Random comes from its own part.
proof fn lemma_block_entry(g: GameView, dir: Direction, food_bar: u32, tail_bar: u32, e: Strategy)
    ensures
        g.direction_strategies(dir, food_bar, tail_bar).0.contains(e) ==> {
            &&& e.direction == dir
            &&& e.name != StrategyName::Random
            &&& e.name == StrategyName::FollowMySelf ==> g.follow_self_strategy(dir).contains(e)
            &&& e.name == StrategyName::Starving ==> g.starving_strategy(dir).contains(e)
            &&& e.name == StrategyName::Survival ==> e == g.survival_strategy(dir)[0]
            &&& e.name == StrategyName::NomNom ==> e.cost == (1 + g.own_food(g.adjacent(g.you.head, dir)).unwrap()) as i32
            &&& e.name == StrategyName::FollowAFriend ==> e.cost == (5000 + g.own_tail(g.adjacent(g.you.head, dir)).unwrap()
                + g.cost_modifier(g.adjacent(g.you.head, dir))) as i32
        },
        g.follow_self_strategy(dir).contains(e) ==> g.direction_strategies(dir, food_bar, tail_bar).0.contains(e),
        g.starving_strategy(dir).contains(e) ==> g.direction_strategies(dir, food_bar, tail_bar).0.contains(e),
        e == g.survival_strategy(dir)[0] ==> g.direction_strategies(dir, food_bar, tail_bar).0.contains(e),
{
    let block = g.direction_strategies(dir, food_bar, tail_bar).0;
    let p1 = g.follow_self_strategy(dir);
    let p2 = g.starving_strategy(dir);
    let p3 = g.survival_strategy(dir);
    let a = g.adjacent(g.you.head, dir);
    let nom = if g.nom_nom_taken(dir, food_bar) {
        seq![Strategy { name: StrategyName::NomNom, direction: dir, cost: (1 + g.own_food(a).unwrap()) as i32 }]
    } else {
        seq![]
    };
    let friend = if g.friend_taken(dir, tail_bar) {
        seq![Strategy {
            name: StrategyName::FollowAFriend,
            direction: dir,
            cost: (5000 + g.own_tail(a).unwrap() + g.cost_modifier(a)) as i32,
        }]
    } else {
        seq![]
    };
    assert(block == p1 + p2 + p3 + nom + friend);
    lemma_contains_concat(p1 + p2 + p3 + nom, friend, e);
    lemma_contains_concat(p1 + p2 + p3, nom, e);
    lemma_contains_concat(p1 + p2, p3, e);
    lemma_contains_concat(p1, p2, e);
    if p1.contains(e) {
        let i = choose|i: int| 0 <= i < p1.len() && p1[i] == e;
        assert(p1[i].name == StrategyName::FollowMySelf && p1[i].direction == dir);
    }
    if p2.contains(e) {
        let i = choose|i: int| 0 <= i < p2.len() && p2[i] == e;
        assert(p2[i].name == StrategyName::Starving && p2[i].direction == dir);
    }
    if p3.contains(e) {
        let i = choose|i: int| 0 <= i < p3.len() && p3[i] == e;
        assert(i == 0);
    }
    if e == p3[0] {
        assert(p3[0] == e);
        assert(p3.contains(e));
    }
    if nom.contains(e) {
        let i = choose|i: int| 0 <= i < nom.len() && nom[i] == e;
        assert(i == 0);
    }
    if friend.contains(e) {
        let i = choose|i: int| 0 <= i < friend.len() && friend[i] == e;
        assert(i == 0);
    }
}

/// Every strategy of a direction's weighing moves in that direction.
proof fn lemma_block_directions(g: GameView, dir: Direction, food_bar: u32, tail_bar: u32)
    ensures
        forall|i: int| 0 <= i < g.direction_strategies(dir, food_bar, tail_bar).0.len()
            ==> (#[trigger] g.direction_strategies(dir, food_bar, tail_bar).0[i]).direction == dir,
{
    let block = g.direction_strategies(dir, food_bar, tail_bar).0;
    assert forall|i: int| 0 <= i < block.len() implies (#[trigger] block[i]).direction == dir by {
        lemma_block_entry(g, dir, food_bar, tail_bar, block[i]);
    }
}

/// The strategies that move in the `j`-th direction, among those from the
/// `j0`-th direction on, are those that its own weighing lists under some
/// distances to beat, and none when the move is not valid and safe.
proof fn lemma_direction_entries(g: GameView, j0: int, food_bar: u32, tail_bar: u32, j: int) -> (bars: (u32, u32))
    requires
        0 <= j0 <= j < 4,
    ensures
        forall|e: Strategy| e.direction == direction_order()[j] ==>
            (#[trigger] g.move_strategies(j0, food_bar, tail_bar).contains(e) <==> (g.valid_safe(g.target(j))
                && g.direction_strategies(direction_order()[j], bars.0, bars.1).0.contains(e))),
    decreases 4 - j0,
{
    let dir = direction_order()[j0];
    let ms = g.move_strategies(j0, food_bar, tail_bar);
    assert(forall|k: int| 0 <= k < 4 ==> direction_rank(#[trigger] direction_order()[k]) == k);
    if g.valid_safe(g.adjacent(g.you.head, dir)) {
        let (block, f2, t2) = g.direction_strategies(dir, food_bar, tail_bar);
        let rest = g.move_strategies(j0 + 1, f2, t2);
        assert(ms == block + rest);
        lemma_move_strategies_ranks(g, j0 + 1, f2, t2);
        lemma_block_directions(g, dir, food_bar, tail_bar);
        if j == j0 {
            assert forall|e: Strategy| e.direction == direction_order()[j] implies
                (#[trigger] ms.contains(e) <==> (g.valid_safe(g.target(j)) && block.contains(e))) by {
                lemma_contains_concat(block, rest, e);
                if rest.contains(e) {
                    let i = choose|i: int| 0 <= i < rest.len() && rest[i] == e;
                    assert(direction_rank(rest[i].direction) >= j0 + 1);
                }
            }
            (food_bar, tail_bar)
        } else {
            let bars = lemma_direction_entries(g, j0 + 1, f2, t2, j);
            assert forall|e: Strategy| e.direction == direction_order()[j] implies
                (#[trigger] ms.contains(e) <==> rest.contains(e)) by {
                lemma_contains_concat(block, rest, e);
                if block.contains(e) {
                    let i = choose|i: int| 0 <= i < block.len() && block[i] == e;
                    assert(block[i].direction == dir);
                }
            }
            bars
        }
    } else {
        let rest = g.move_strategies(j0 + 1, food_bar, tail_bar);
        assert(ms == rest);
        if j == j0 {
            lemma_move_strategies_ranks(g, j0 + 1, food_bar, tail_bar);
            assert forall|e: Strategy| e.direction == direction_order()[j] implies !#[trigger] ms.contains(e) by {
                if ms.contains(e) {
                    let i = choose|i: int| 0 <= i < ms.len() && ms[i] == e;
                    assert(direction_rank(ms[i].direction) >= j0 + 1);
                }
            }
            (food_bar, tail_bar)
        } else {
            lemma_direction_entries(g, j0 + 1, food_bar, tail_bar, j)
        }
    }
}

/// What a move costs under Survival: 1000, less the squares we control after
/// it, plus 25 next to the head of an opponent at least as long as us, or
/// less 25 next to the head of a shorter one. Each valid and safe move has
/// exactly this one Survival strategy, and a move that is not valid and safe
/// has no strategy at all.
pub proof fn lemma_survival_cost(g: GameView, j: int)
    requires
        0 <= j < 4,
    ensures
        !g.valid_safe(g.target(j)) ==> forall|e: Strategy| e.direction == direction_order()[j]
            ==> !#[trigger] g.move_strategies(0, u32::MAX, u32::MAX).contains(e),
        g.valid_safe(g.target(j)) ==> g.move_strategies(0, u32::MAX, u32::MAX).contains(Strategy {
            name: StrategyName::Survival,
            direction: direction_order()[j],
            cost: (1000 - g.controlled(g.other_neighbours(g.target(j)), g.you_index()).len()
                + (if g.board.dangerous_adjacent_heads.contains(g.target(j)) { 25int }
                    else if g.board.safe_adjacent_heads.contains(g.target(j)) { -25int } else { 0int })) as i32,
        }),
        forall|e: Strategy| e.direction == direction_order()[j] && e.name == StrategyName::Survival
            && #[trigger] g.move_strategies(0, u32::MAX, u32::MAX).contains(e)
            ==> e.cost == (1000 - g.controlled(g.other_neighbours(g.target(j)), g.you_index()).len()
                + (if g.board.dangerous_adjacent_heads.contains(g.target(j)) { 25int }
                    else if g.board.safe_adjacent_heads.contains(g.target(j)) { -25int } else { 0int })) as i32,
{
    let dir = direction_order()[j];
    let bars = lemma_direction_entries(g, 0, u32::MAX, u32::MAX, j);
    let x = g.survival_strategy(dir)[0];
    lemma_block_entry(g, dir, bars.0, bars.1, x);
    assert forall|e: Strategy| e.direction == direction_order()[j] && e.name == StrategyName::Survival
        && #[trigger] g.move_strategies(0, u32::MAX, u32::MAX).contains(e)
        implies e == x by {
        lemma_block_entry(g, dir, bars.0, bars.1, e);
    }
}

/// When a move follows our own tail: exactly when the move is valid and
/// safe, a path leads from its square to our tail, and that path costs more
/// than 1 or the square holds no food. It then costs 500 plus the path's
/// cost, plus 25 next to the head of an opponent at least as long as us, or
/// less 25 next to the head of a shorter one.
pub proof fn lemma_follow_self_cost(g: GameView, j: int)
    requires
        0 <= j < 4,
    ensures
        lists(g.move_strategies(0, u32::MAX, u32::MAX), StrategyName::FollowMySelf, direction_order()[j]) <==> {
            &&& g.valid_safe(g.target(j))
            &&& g.path_cost(g.target(j), g.you.body@.last()) is Some
            &&& (g.path_cost(g.target(j), g.you.body@.last()).unwrap() > 1 || !g.board.food.contains(g.target(j)))
        },
        forall|e: Strategy| e.direction == direction_order()[j] && e.name == StrategyName::FollowMySelf
            && #[trigger] g.move_strategies(0, u32::MAX, u32::MAX).contains(e)
            ==> e.cost == (500 + g.path_cost(g.target(j), g.you.body@.last()).unwrap()
                + (if g.board.dangerous_adjacent_heads.contains(g.target(j)) { 25int }
                    else if g.board.safe_adjacent_heads.contains(g.target(j)) { -25int } else { 0int })) as i32,
{
    let dir = direction_order()[j];
    let ms = g.move_strategies(0, u32::MAX, u32::MAX);
    let bars = lemma_direction_entries(g, 0, u32::MAX, u32::MAX, j);
    let p1 = g.follow_self_strategy(dir);
    assert forall|e: Strategy| e.direction == direction_order()[j] && e.name == StrategyName::FollowMySelf
        && #[trigger] ms.contains(e) implies p1.contains(e) by {
        lemma_block_entry(g, dir, bars.0, bars.1, e);
    }
    if lists(ms, StrategyName::FollowMySelf, dir) {
        let i = choose|i: int| 0 <= i < ms.len() && (#[trigger] ms[i]).name == StrategyName::FollowMySelf && ms[i].direction == dir;
        assert(ms.contains(ms[i]));
        assert(p1.contains(ms[i]));
    }
    if p1.len() > 0 && g.valid_safe(g.target(j)) {
        assert(p1.contains(p1[0]));
        lemma_block_entry(g, dir, bars.0, bars.1, p1[0]);
        assert(ms.contains(p1[0]));
        let i = choose|i: int| 0 <= i < ms.len() && ms[i] == p1[0];
        assert(lists(ms, StrategyName::FollowMySelf, dir));
    }
}

/// When a move heads for food because we are hungry: exactly when the move
/// is valid and safe, our health is at most 33 and some food can be reached
/// from its square. It then costs 250, less the squares we control after the
/// move, plus the cost of the nearest food, plus 25 next to the head of an
/// opponent at least as long as us, or less 25 next to the head of a shorter
/// one.
pub proof fn lemma_starving_cost(g: GameView, j: int)
    requires
        0 <= j < 4,
    ensures
        lists(g.move_strategies(0, u32::MAX, u32::MAX), StrategyName::Starving, direction_order()[j]) <==> {
            &&& g.valid_safe(g.target(j))
            &&& g.you.health <= 33
            &&& g.nearest_food_cost(g.target(j)) is Some
        },
        forall|e: Strategy| e.direction == direction_order()[j] && e.name == StrategyName::Starving
            && #[trigger] g.move_strategies(0, u32::MAX, u32::MAX).contains(e)
            ==> e.cost == (250 - g.controlled(g.other_neighbours(g.target(j)), g.you_index()).len()
                + g.nearest_food_cost(g.target(j)).unwrap()
                + (if g.board.dangerous_adjacent_heads.contains(g.target(j)) { 25int }
                    else if g.board.safe_adjacent_heads.contains(g.target(j)) { -25int } else { 0int })) as i32,
{
    let dir = direction_order()[j];
    let ms = g.move_strategies(0, u32::MAX, u32::MAX);
    let bars = lemma_direction_entries(g, 0, u32::MAX, u32::MAX, j);
    let p2 = g.starving_strategy(dir);
    assert forall|e: Strategy| e.direction == direction_order()[j] && e.name == StrategyName::Starving
        && #[trigger] ms.contains(e) implies p2.contains(e) by {
        lemma_block_entry(g, dir, bars.0, bars.1, e);
    }
    if lists(ms, StrategyName::Starving, dir) {
        let i = choose|i: int| 0 <= i < ms.len() && (#[trigger] ms[i]).name == StrategyName::Starving && ms[i].direction == dir;
        assert(ms.contains(ms[i]));
        assert(p2.contains(ms[i]));
    }
    if p2.len() > 0 && g.valid_safe(g.target(j)) {
        assert(p2.contains(p2[0]));
        lemma_block_entry(g, dir, bars.0, bars.1, p2[0]);
        assert(ms.contains(p2[0]));
        let i = choose|i: int| 0 <= i < ms.len() && ms[i] == p2[0];
        assert(lists(ms, StrategyName::Starving, dir));
    }
}

/// What eating food in our territory and following another snake's tail
/// cost: 1 plus the distance of the nearest food we control after the move,
/// and 5000 plus the distance of the nearest safe tail we control, plus 25
/// next to the head of an opponent at least as long as us, or less 25 next
/// to the head of a shorter one.
pub proof fn lemma_territory_costs(g: GameView, j: int)
    requires
        0 <= j < 4,
    ensures
        forall|e: Strategy| e.direction == direction_order()[j] && e.name == StrategyName::NomNom
            && #[trigger] g.move_strategies(0, u32::MAX, u32::MAX).contains(e)
            ==> e.cost == (1 + g.nearest_controlled(g.other_neighbours(g.target(j)), g.you_index(), g.board.food).unwrap()) as i32,
        forall|e: Strategy| e.direction == direction_order()[j] && e.name == StrategyName::FollowAFriend
            && #[trigger] g.move_strategies(0, u32::MAX, u32::MAX).contains(e)
            ==> e.cost == (5000 + g.nearest_controlled(g.other_neighbours(g.target(j)), g.you_index(), g.board.safe_tails).unwrap()
                + (if g.board.dangerous_adjacent_heads.contains(g.target(j)) { 25int }
                    else if g.board.safe_adjacent_heads.contains(g.target(j)) { -25int } else { 0int })) as i32,
{
    let dir = direction_order()[j];
    let bars = lemma_direction_entries(g, 0, u32::MAX, u32::MAX, j);
    assert forall|e: Strategy| e.direction == direction_order()[j]
        && #[trigger] g.move_strategies(0, u32::MAX, u32::MAX).contains(e)
        implies g.direction_strategies(dir, bars.0, bars.1).0.contains(e) by {}
    assert forall|e: Strategy| #[trigger] g.direction_strategies(dir, bars.0, bars.1).0.contains(e)
        implies e.direction == dir by {
        lemma_block_entry(g, dir, bars.0, bars.1, e);
    }
    assert forall|e: Strategy| e.direction == direction_order()[j] && e.name == StrategyName::NomNom
        && #[trigger] g.move_strategies(0, u32::MAX, u32::MAX).contains(e)
        implies e.cost == (1 + g.nearest_controlled(g.other_neighbours(g.target(j)), g.you_index(), g.board.food).unwrap()) as i32 by {
        lemma_block_entry(g, dir, bars.0, bars.1, e);
    }
    assert forall|e: Strategy| e.direction == direction_order()[j] && e.name == StrategyName::FollowAFriend
        && #[trigger] g.move_strategies(0, u32::MAX, u32::MAX).contains(e)
        implies e.cost == (5000 + g.nearest_controlled(g.other_neighbours(g.target(j)), g.you_index(), g.board.safe_tails).unwrap()
            + (if g.board.dangerous_adjacent_heads.contains(g.target(j)) { 25int }
                else if g.board.safe_adjacent_heads.contains(g.target(j)) { -25int } else { 0int })) as i32 by {
        lemma_block_entry(g, dir, bars.0, bars.1, e);
    }
}

/// What a move's weighing works from: the directions are tried Up, Down,
/// Left, Right; the `j`-th moves our head onto the square next to it in that
/// direction; the territory after a move onto `a` excludes the other squares
/// next to our head; and our snake is the one on the board with our id.
pub proof fn lemma_weighing_inputs(g: GameView, a: Coord)
    ensures
        direction_order() == seq![Direction::Up, Direction::Down, Direction::Left, Direction::Right],
        forall|j: int| 0 <= j < 4 ==> #[trigger] g.target(j) == g.adjacent(g.you.head, direction_order()[j]),
        forall|c: Coord| #[trigger] g.other_neighbours(a).contains(c)
            <==> (c != a && exists|d: Direction| #[trigger] g.adjacent(g.you.head, d) == c),
        g.you_listed() ==> 0 <= g.you_index() < g.board.snakes.len()
            && g.board.snakes[g.you_index()].id@ == g.you.id@,
        forall|ex: Set<Coord>, s: int, c: Coord| #[trigger] g.controlled(ex, s).contains(c)
            <==> exists|d: int| #[trigger] g.controls(ex, s, c, d),
{
}

/// The food and tail distances to beat are the minima over the earlier
/// moves: a move's NomNom strategy is listed exactly when its food is nearer
/// than that of every earlier move whose NomNom strategy is listed (and than
/// `u32::MAX`, where the bar starts); likewise a move's FollowAFriend
/// strategy and the tails.
pub proof fn lemma_bars_are_earlier_minima(g: GameView, j: int)
    requires
        0 <= j < 4,
    ensures
        lists(g.move_strategies(0, u32::MAX, u32::MAX), StrategyName::NomNom, direction_order()[j]) <==> {
            &&& g.valid_safe(g.target(j))
            &&& g.nearest_controlled(g.other_neighbours(g.target(j)), g.you_index(), g.board.food) is Some
            &&& g.controlled(g.other_neighbours(g.target(j)), g.you_index()).len() > g.you.length + 1
            &&& g.nearest_controlled(g.other_neighbours(g.target(j)), g.you_index(), g.board.food).unwrap() < u32::MAX
            &&& forall|k: int| 0 <= k < j
                && #[trigger] lists(g.move_strategies(0, u32::MAX, u32::MAX), StrategyName::NomNom, direction_order()[k])
                ==> g.nearest_controlled(g.other_neighbours(g.target(j)), g.you_index(), g.board.food).unwrap()
                    < g.nearest_controlled(g.other_neighbours(g.target(k)), g.you_index(), g.board.food).unwrap()
        },
        lists(g.move_strategies(0, u32::MAX, u32::MAX), StrategyName::FollowAFriend, direction_order()[j]) <==> {
            &&& g.valid_safe(g.target(j))
            &&& g.nearest_controlled(g.other_neighbours(g.target(j)), g.you_index(), g.board.safe_tails) is Some
            &&& g.nearest_controlled(g.other_neighbours(g.target(j)), g.you_index(), g.board.safe_tails).unwrap() < u32::MAX
            &&& forall|k: int| 0 <= k < j
                && #[trigger] lists(g.move_strategies(0, u32::MAX, u32::MAX), StrategyName::FollowAFriend, direction_order()[k])
                ==> g.nearest_controlled(g.other_neighbours(g.target(j)), g.you_index(), g.board.safe_tails).unwrap()
                    < g.nearest_controlled(g.other_neighbours(g.target(k)), g.you_index(), g.board.safe_tails).unwrap()
        },
{
    lemma_nom_nom_bar(g, 0, u32::MAX, u32::MAX, j);
    lemma_friend_bar(g, 0, u32::MAX, u32::MAX, j);
}

/// The server's answer about itself.
pub fn info() -> (r: Info)
    ensures
        r.apiversion@ == "1"@,
        r.author@ == "DeanRefined"@,
        r.customizations.color@ == "#6434eb"@,
        r.customizations.head@ == "pixel"@,
        r.customizations.tail@ == "pixel"@,
        r.version@ == "1.8.2"@,
{
    let customizations = Customizations {
        color: "#6434eb".to_owned(),
        head: "pixel".to_owned(),
        tail: "pixel".to_owned(),
    };
    Info {
        apiversion: "1".to_owned(),
        author: "DeanRefined".to_owned(),
        customizations,
        version: "1.8.2".to_owned(),
    }
}

/// A game starts; nothing is kept between requests.
pub fn start(gs: GameState) {
}

/// A game ends; nothing is kept between requests.
pub fn end(gs: GameState) {
}

} // verus!
