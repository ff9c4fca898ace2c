//! What a turn starts with: which squares are taken, which tails move away,
//! which squares next to an opponent's head are dangerous or tempting, and
//! a random move that at least stays on the board.
use vstd::prelude::*;

use rand::seq::SliceRandom;

use crate::grid::{all_directions, direction_order, extend_coords, insert_coord};
use crate::model::{Battlesnake, BoardView, Coord, Direction, GameState, GameView};

verus! {

impl Battlesnake {
    /// The last two squares of the body coincide: the snake grew last turn,
    /// so its tail stays where it is.
    pub open spec fn ate_last_turn(&self) -> bool {
        self.body@.len() >= 2 && self.body@[self.body@.len() - 1] == self.body@[self.body@.len() - 2]
    }

    /// The tail moves away on the next turn.
    pub open spec fn leaves_tail(&self) -> bool {
        self.body@.len() > 0 && !self.ate_last_turn()
    }

    /// Body square `i` stays occupied on the next turn: it is not the tail,
    /// or the tail stays.
    pub open spec fn blocks(&self, i: int) -> bool {
        0 <= i < self.body@.len() && (i < self.body@.len() - 1 || self.ate_last_turn())
    }

    /// Whether the snake grew last turn.
    pub fn just_ate(&self) -> (b: bool)
        ensures
            b == self.ate_last_turn(),
    {
        if self.body.len() < 2 {
            return false;
        }
        self.body[self.body.len() - 1] == self.body[self.body.len() - 2]
    }
}

/// The body squares of `snakes` that stay occupied on the next turn.
pub open spec fn body_obstacles(snakes: Seq<Battlesnake>) -> Set<Coord> {
    Set::new(|c: Coord| exists|s: int, i: int| 0 <= s < snakes.len() && snakes[s].blocks(i) && #[trigger] snakes[s].body@[i] == c)
}

/// The first `upto` body squares of `sn` that stay occupied.
spec fn snake_obstacles(sn: Battlesnake, upto: int) -> Set<Coord> {
    Set::new(|c: Coord| exists|i: int| 0 <= i < upto && sn.blocks(i) && #[trigger] sn.body@[i] == c)
}

/// The tails of `snakes` that move away on the next turn.
pub open spec fn leaving_tails(snakes: Seq<Battlesnake>) -> Set<Coord> {
    Set::new(|c: Coord| exists|s: int| 0 <= s < snakes.len() && (#[trigger] snakes[s]).leaves_tail() && snakes[s].body@.last() == c)
}

impl GameView {
    /// Snake `s` is not our own snake.
    pub open spec fn is_opponent(self, s: int) -> bool {
        self.board.snakes[s].id@ != self.you.id@
    }

    /// The squares next to the heads of opponents among `snakes` that are at
    /// least as long as us (`menacing`), or shorter (`!menacing`).
    pub open spec fn head_neighbours(self, snakes: Seq<Battlesnake>, menacing: bool) -> Set<Coord> {
        Set::new(|c: Coord| exists|s: int, d: Direction|
            0 <= s < snakes.len() && snakes[s].id@ != self.you.id@
            && (self.you.length <= snakes[s].length) == menacing
            && #[trigger] self.adjacent(snakes[s].head, d) == c)
    }

    /// Every opponent's head has computable neighbours.
    pub open spec fn opponent_heads_defined(self) -> bool {
        forall|s: int| 0 <= s < self.board.snakes.len() && self.is_opponent(s)
            ==> self.neighbours_defined(#[trigger] self.board.snakes[s].head)
    }

    /// The state after `GameState::init`: obstacles are the hazards and the
    /// body squares that stay occupied; the tails that move away are safe;
    /// the squares next to opponents' heads are dangerous or safe by length.
    pub open spec fn prepared(self) -> GameView {
        let snakes = self.board.snakes;
        GameView {
            board: BoardView {
                obstacles: self.board.hazards.union(body_obstacles(snakes)),
                safe_tails: self.board.safe_tails.union(leaving_tails(snakes)),
                safe_adjacent_heads: self.board.safe_adjacent_heads.union(self.head_neighbours(snakes, false)),
                dangerous_adjacent_heads: self.board.dangerous_adjacent_heads.union(self.head_neighbours(snakes, true)),
                ..self.board
            },
            ..self
        }
    }
}

/// Adding snake `sn` to the snakes considered adds its staying body squares.
proof fn lemma_body_obstacles_push(snakes: Seq<Battlesnake>, sn: Battlesnake)
    ensures
        body_obstacles(snakes.push(sn)) == body_obstacles(snakes).union(snake_obstacles(sn, sn.body@.len() as int)),
{
    let all = snakes.push(sn);
    assert forall|c: Coord| body_obstacles(all).contains(c) implies
        body_obstacles(snakes).union(snake_obstacles(sn, sn.body@.len() as int)).contains(c) by {
        let (s, i) = choose|s: int, i: int| 0 <= s < all.len() && all[s].blocks(i) && #[trigger] all[s].body@[i] == c;
        if s < snakes.len() {
            assert(all[s] == snakes[s]);
            assert(snakes[s].body@[i] == c);
        } else {
            assert(all[s] == sn);
            assert(sn.body@[i] == c);
        }
    }
    assert forall|c: Coord| body_obstacles(snakes).union(snake_obstacles(sn, sn.body@.len() as int)).contains(c)
        implies body_obstacles(all).contains(c) by {
        if body_obstacles(snakes).contains(c) {
            let (s, i) = choose|s: int, i: int| 0 <= s < snakes.len() && snakes[s].blocks(i) && #[trigger] snakes[s].body@[i] == c;
            assert(all[s] == snakes[s]);
            assert(all[s].body@[i] == c);
        } else {
            let i = choose|i: int| 0 <= i < sn.body@.len() && sn.blocks(i) && #[trigger] sn.body@[i] == c;
            assert(all[snakes.len() as int] == sn);
            assert(all[snakes.len() as int].body@[i] == c);
        }
    }
    assert(body_obstacles(all) =~= body_obstacles(snakes).union(snake_obstacles(sn, sn.body@.len() as int)));
}

/// Adding snake `sn` to the snakes considered adds its tail if it moves away.
proof fn lemma_leaving_tails_push(snakes: Seq<Battlesnake>, sn: Battlesnake)
    ensures
        leaving_tails(snakes.push(sn)) == if sn.leaves_tail() {
            leaving_tails(snakes).insert(sn.body@.last())
        } else {
            leaving_tails(snakes)
        },
{
    let all = snakes.push(sn);
    let expect = if sn.leaves_tail() { leaving_tails(snakes).insert(sn.body@.last()) } else { leaving_tails(snakes) };
    assert forall|c: Coord| leaving_tails(all).contains(c) implies expect.contains(c) by {
        let s = choose|s: int| 0 <= s < all.len() && (#[trigger] all[s]).leaves_tail() && all[s].body@.last() == c;
        if s < snakes.len() {
            assert(all[s] == snakes[s]);
        } else {
            assert(all[s] == sn);
        }
    }
    assert forall|c: Coord| expect.contains(c) implies leaving_tails(all).contains(c) by {
        if leaving_tails(snakes).contains(c) {
            let s = choose|s: int| 0 <= s < snakes.len() && (#[trigger] snakes[s]).leaves_tail() && snakes[s].body@.last() == c;
            assert(all[s] == snakes[s]);
        } else {
            assert(all[snakes.len() as int] == sn);
        }
    }
    assert(leaving_tails(all) =~= expect);
}

/// Adding snake `sn` to the snakes considered adds the squares next to its
/// head to the set of its kind, when it is an opponent.
proof fn lemma_head_neighbours_push(g: GameView, snakes: Seq<Battlesnake>, sn: Battlesnake, menacing: bool)
    ensures
        g.head_neighbours(snakes.push(sn), menacing) == if sn.id@ != g.you.id@ && (g.you.length <= sn.length) == menacing {
            g.head_neighbours(snakes, menacing).union(Set::new(|c: Coord| exists|d: Direction| #[trigger] g.adjacent(sn.head, d) == c))
        } else {
            g.head_neighbours(snakes, menacing)
        },
{
    let all = snakes.push(sn);
    let around = Set::new(|c: Coord| exists|d: Direction| #[trigger] g.adjacent(sn.head, d) == c);
    let counts = sn.id@ != g.you.id@ && (g.you.length <= sn.length) == menacing;
    let expect = if counts { g.head_neighbours(snakes, menacing).union(around) } else { g.head_neighbours(snakes, menacing) };
    assert forall|c: Coord| g.head_neighbours(all, menacing).contains(c) implies expect.contains(c) by {
        let (s, d) = choose|s: int, d: Direction|
            0 <= s < all.len() && all[s].id@ != g.you.id@
            && (g.you.length <= all[s].length) == menacing
            && #[trigger] g.adjacent(all[s].head, d) == c;
        if s < snakes.len() {
            assert(all[s] == snakes[s]);
            assert(g.adjacent(snakes[s].head, d) == c);
        } else {
            assert(all[s] == sn);
            assert(g.adjacent(sn.head, d) == c);
        }
    }
    assert forall|c: Coord| expect.contains(c) implies g.head_neighbours(all, menacing).contains(c) by {
        if g.head_neighbours(snakes, menacing).contains(c) {
            let (s, d) = choose|s: int, d: Direction|
                0 <= s < snakes.len() && snakes[s].id@ != g.you.id@
                && (g.you.length <= snakes[s].length) == menacing
                && #[trigger] g.adjacent(snakes[s].head, d) == c;
            assert(all[s] == snakes[s]);
            assert(g.adjacent(all[s].head, d) == c);
        } else {
            let d = choose|d: Direction| #[trigger] g.adjacent(sn.head, d) == c;
            let s = snakes.len() as int;
            assert(all[s] == sn);
            assert(g.adjacent(all[s].head, d) == c);
        }
    }
    assert(g.head_neighbours(all, menacing) =~= expect);
}

/// Preparing a turn twice is preparing it once: the obstacles are computed
/// afresh and the other sets only gain squares they already hold.
pub proof fn lemma_prepared_idempotent(g: GameView)
    ensures
        g.prepared().prepared() == g.prepared(),
{
    let p = g.prepared();
    let snakes = g.board.snakes;
    assert(p.you == g.you);
    assert forall|x: Coord, d: Direction| #[trigger] p.adjacent(x, d) == g.adjacent(x, d) by {}
    assert forall|c: Coord| p.head_neighbours(snakes, true).contains(c) == g.head_neighbours(snakes, true).contains(c) by {
        if g.head_neighbours(snakes, true).contains(c) {
            let (s, d) = choose|s: int, d: Direction|
                0 <= s < snakes.len() && snakes[s].id@ != g.you.id@
                && (g.you.length <= snakes[s].length) == true
                && #[trigger] g.adjacent(snakes[s].head, d) == c;
            assert(p.adjacent(snakes[s].head, d) == c);
        }
    }
    assert forall|c: Coord| p.head_neighbours(snakes, false).contains(c) == g.head_neighbours(snakes, false).contains(c) by {
        if g.head_neighbours(snakes, false).contains(c) {
            let (s, d) = choose|s: int, d: Direction|
                0 <= s < snakes.len() && snakes[s].id@ != g.you.id@
                && (g.you.length <= snakes[s].length) == false
                && #[trigger] g.adjacent(snakes[s].head, d) == c;
            assert(p.adjacent(snakes[s].head, d) == c);
        }
    }
    assert(p.head_neighbours(snakes, true) =~= g.head_neighbours(snakes, true));
    assert(p.head_neighbours(snakes, false) =~= g.head_neighbours(snakes, false));
    assert(p.prepared().board.safe_tails =~= p.board.safe_tails);
    assert(p.prepared().board.safe_adjacent_heads =~= p.board.safe_adjacent_heads);
    assert(p.prepared().board.dangerous_adjacent_heads =~= p.board.dangerous_adjacent_heads);
    assert(p.prepared().board.obstacles =~= p.board.obstacles);
    assert(p.prepared().board == p.board);
}

/// What preparing a turn does to the board. Every body square of every
/// snake but its tail becomes an obstacle, whatever the snake's length, and
/// so does the tail when the last two body squares coincide (the snake just
/// ate); hazards are obstacles; nothing else is. A tail that moves away is
/// safe. The squares next to an opponent's head are dangerous when the
/// opponent is at least as long as us, and appetizing when it is shorter.
/// Nothing else on the board changes.
pub proof fn lemma_prepared_board(g: GameView)
    ensures
        forall|s: int, i: int| 0 <= s < g.board.snakes.len() && 0 <= i < g.board.snakes[s].body@.len() - 1
            ==> g.prepared().board.obstacles.contains(#[trigger] g.board.snakes[s].body@[i]),
        forall|s: int| 0 <= s < g.board.snakes.len() && (#[trigger] g.board.snakes[s]).body@.len() >= 2
            && g.board.snakes[s].body@[g.board.snakes[s].body@.len() - 1] == g.board.snakes[s].body@[g.board.snakes[s].body@.len() - 2]
            ==> g.prepared().board.obstacles.contains(g.board.snakes[s].body@[g.board.snakes[s].body@.len() - 1]),
        forall|c: Coord| #[trigger] g.board.hazards.contains(c) ==> g.prepared().board.obstacles.contains(c),
        forall|c: Coord| #[trigger] g.prepared().board.obstacles.contains(c) ==> g.board.hazards.contains(c)
            || exists|s: int, i: int| 0 <= s < g.board.snakes.len() && 0 <= i < g.board.snakes[s].body@.len()
                && #[trigger] g.board.snakes[s].body@[i] == c
                && (i < g.board.snakes[s].body@.len() - 1
                    || g.board.snakes[s].body@[g.board.snakes[s].body@.len() - 1] == g.board.snakes[s].body@[g.board.snakes[s].body@.len() - 2]),
        forall|s: int| 0 <= s < g.board.snakes.len() && (#[trigger] g.board.snakes[s]).body@.len() >= 1
            && !(g.board.snakes[s].body@.len() >= 2
                && g.board.snakes[s].body@[g.board.snakes[s].body@.len() - 1] == g.board.snakes[s].body@[g.board.snakes[s].body@.len() - 2])
            ==> g.prepared().board.safe_tails.contains(g.board.snakes[s].body@[g.board.snakes[s].body@.len() - 1]),
        forall|c: Coord| #[trigger] g.prepared().board.safe_tails.contains(c) ==> g.board.safe_tails.contains(c)
            || exists|s: int| 0 <= s < g.board.snakes.len() && (#[trigger] g.board.snakes[s]).body@.len() >= 1
                && g.board.snakes[s].body@[g.board.snakes[s].body@.len() - 1] == c
                && !(g.board.snakes[s].body@.len() >= 2
                    && g.board.snakes[s].body@[g.board.snakes[s].body@.len() - 1] == g.board.snakes[s].body@[g.board.snakes[s].body@.len() - 2]),
        forall|s: int, d: Direction| 0 <= s < g.board.snakes.len() && g.board.snakes[s].id@ != g.you.id@
            && g.you.length <= g.board.snakes[s].length
            ==> g.prepared().board.dangerous_adjacent_heads.contains(#[trigger] g.adjacent(g.board.snakes[s].head, d)),
        forall|s: int, d: Direction| 0 <= s < g.board.snakes.len() && g.board.snakes[s].id@ != g.you.id@
            && g.you.length > g.board.snakes[s].length
            ==> g.prepared().board.safe_adjacent_heads.contains(#[trigger] g.adjacent(g.board.snakes[s].head, d)),
        forall|c: Coord| #[trigger] g.prepared().board.dangerous_adjacent_heads.contains(c) ==> g.board.dangerous_adjacent_heads.contains(c)
            || exists|s: int, d: Direction| 0 <= s < g.board.snakes.len() && g.board.snakes[s].id@ != g.you.id@
                && g.you.length <= g.board.snakes[s].length && #[trigger] g.adjacent(g.board.snakes[s].head, d) == c,
        forall|c: Coord| #[trigger] g.prepared().board.safe_adjacent_heads.contains(c) ==> g.board.safe_adjacent_heads.contains(c)
            || exists|s: int, d: Direction| 0 <= s < g.board.snakes.len() && g.board.snakes[s].id@ != g.you.id@
                && g.you.length > g.board.snakes[s].length && #[trigger] g.adjacent(g.board.snakes[s].head, d) == c,
        g.prepared().you == g.you,
        g.prepared().game == g.game,
        g.prepared().board.snakes == g.board.snakes,
        g.prepared().board.food == g.board.food,
        g.prepared().board.hazards == g.board.hazards,
        g.prepared().board.width == g.board.width,
        g.prepared().board.height == g.board.height,
{
    let snakes = g.board.snakes;
    let p = g.prepared();
    assert forall|s: int, i: int| 0 <= s < snakes.len() && 0 <= i < snakes[s].body@.len() - 1
        implies p.board.obstacles.contains(#[trigger] snakes[s].body@[i]) by {
        assert(snakes[s].blocks(i));
        assert(body_obstacles(snakes).contains(snakes[s].body@[i]));
    }
    assert forall|s: int| 0 <= s < snakes.len() && (#[trigger] snakes[s]).body@.len() >= 2
        && snakes[s].body@[snakes[s].body@.len() - 1] == snakes[s].body@[snakes[s].body@.len() - 2]
        implies p.board.obstacles.contains(snakes[s].body@[snakes[s].body@.len() - 1]) by {
        let i = snakes[s].body@.len() - 1;
        assert(snakes[s].blocks(i));
        assert(body_obstacles(snakes).contains(snakes[s].body@[i]));
    }
    assert forall|c: Coord| #[trigger] p.board.obstacles.contains(c) implies g.board.hazards.contains(c)
        || exists|s: int, i: int| 0 <= s < snakes.len() && 0 <= i < snakes[s].body@.len()
            && #[trigger] snakes[s].body@[i] == c
            && (i < snakes[s].body@.len() - 1
                || snakes[s].body@[snakes[s].body@.len() - 1] == snakes[s].body@[snakes[s].body@.len() - 2]) by {
        if !g.board.hazards.contains(c) {
            assert(body_obstacles(snakes).contains(c));
            let (s, i) = choose|s: int, i: int| 0 <= s < snakes.len() && snakes[s].blocks(i) && #[trigger] snakes[s].body@[i] == c;
            assert(0 <= s < snakes.len() && 0 <= i < snakes[s].body@.len() && snakes[s].body@[i] == c);
        }
    }
    assert forall|s: int| 0 <= s < snakes.len() && (#[trigger] snakes[s]).body@.len() >= 1
        && !(snakes[s].body@.len() >= 2
            && snakes[s].body@[snakes[s].body@.len() - 1] == snakes[s].body@[snakes[s].body@.len() - 2])
        implies p.board.safe_tails.contains(snakes[s].body@[snakes[s].body@.len() - 1]) by {
        assert(snakes[s].leaves_tail());
        assert(leaving_tails(snakes).contains(snakes[s].body@.last()));
    }
    assert forall|c: Coord| #[trigger] p.board.safe_tails.contains(c) implies g.board.safe_tails.contains(c)
        || exists|s: int| 0 <= s < snakes.len() && (#[trigger] snakes[s]).body@.len() >= 1
            && snakes[s].body@[snakes[s].body@.len() - 1] == c
            && !(snakes[s].body@.len() >= 2
                && snakes[s].body@[snakes[s].body@.len() - 1] == snakes[s].body@[snakes[s].body@.len() - 2]) by {
        if !g.board.safe_tails.contains(c) {
            assert(leaving_tails(snakes).contains(c));
            let s = choose|s: int| 0 <= s < snakes.len() && (#[trigger] snakes[s]).leaves_tail() && snakes[s].body@.last() == c;
            assert(snakes[s].body@.len() >= 1);
        }
    }
    assert forall|s: int, d: Direction| 0 <= s < snakes.len() && snakes[s].id@ != g.you.id@
        && g.you.length <= snakes[s].length
        implies p.board.dangerous_adjacent_heads.contains(#[trigger] g.adjacent(snakes[s].head, d)) by {
        assert(g.head_neighbours(snakes, true).contains(g.adjacent(snakes[s].head, d)));
    }
    assert forall|s: int, d: Direction| 0 <= s < snakes.len() && snakes[s].id@ != g.you.id@
        && g.you.length > snakes[s].length
        implies p.board.safe_adjacent_heads.contains(#[trigger] g.adjacent(snakes[s].head, d)) by {
        assert(g.head_neighbours(snakes, false).contains(g.adjacent(snakes[s].head, d)));
    }
}

/// Draws one element of `items` with `rand`'s `SliceRandom::choose` on the
/// thread's random number generator. The contract claims what `choose`
/// does on a slice: `None` when it is empty, else one of its elements.
/// Which element comes back is left open.
#[verifier::external_body]
fn choose_random_direction(items: &Vec<Direction>) -> (chosen: Option<Direction>)
    ensures
        chosen is None <==> items@.len() == 0,
        chosen matches Some(d) ==> items@.contains(d),
{
    items.as_slice().choose(&mut rand::thread_rng()).copied()
}

impl GameState {
    /// Fills the board's sets for this turn (see `GameView::prepared`).
    pub fn init(&mut self)
        requires
            old(self)@.opponent_heads_defined(),
            old(self).board.sets_distinct(),
        ensures
            final(self)@ == old(self)@.prepared(),
            final(self).board.sets_distinct(),
            final(self).board.food@ == old(self).board.food@,
            final(self).board.hazards@ == old(self).board.hazards@,
            final(self).board.snakes@ == old(self).board.snakes@,
    {
        self.compute_obstacles();
    }

    /// Computes the obstacles of this turn, and adds the tails that move
    /// away and the squares next to opponents' heads to their sets.
    pub fn compute_obstacles(&mut self)
        requires
            old(self)@.opponent_heads_defined(),
            old(self).board.sets_distinct(),
        ensures
            final(self)@ == old(self)@.prepared(),
            final(self).board.sets_distinct(),
            final(self).board.food@ == old(self).board.food@,
            final(self).board.hazards@ == old(self).board.hazards@,
            final(self).board.snakes@ == old(self).board.snakes@,
    {
        let ghost g0 = self@;
        let ghost snakes = self.board.snakes@;
        let mut obstacles: Vec<Coord> = Vec::new();
        let n = self.board.snakes.len();
        let mut s: usize = 0;
        while s < n
            invariant
                n == snakes.len(),
                s <= n,
                g0 == old(self)@,
                snakes == g0.board.snakes,
                g0.opponent_heads_defined(),
                self.board.snakes@ == snakes,
                self.board.food@ == old(self).board.food@,
                self.board.hazards@ == old(self).board.hazards@,
                self.board.obstacles@ == old(self).board.obstacles@,
                self.game == old(self).game,
                self.turn == old(self).turn,
                self.you == old(self).you,
                self.board.width == old(self).board.width,
                self.board.height == old(self).board.height,
                self.board.sets_distinct(),
                obstacles@.no_duplicates(),
                obstacles@.to_set() == body_obstacles(snakes.take(s as int)),
                self.board.safe_tails@.to_set() == g0.board.safe_tails.union(leaving_tails(snakes.take(s as int))),
                self.board.safe_adjacent_heads@.to_set() == g0.board.safe_adjacent_heads.union(g0.head_neighbours(snakes.take(s as int), false)),
                self.board.dangerous_adjacent_heads@.to_set() == g0.board.dangerous_adjacent_heads.union(g0.head_neighbours(snakes.take(s as int), true)),
            decreases n - s,
        {
            let ghost sn = snakes[s as int];
            let ate = self.board.snakes[s].just_ate();
            let len = self.board.snakes[s].body.len();
            let ghost obstacles_before = obstacles@.to_set();
            let ghost tails_before = self.board.safe_tails@.to_set();
            let ghost safe_before = self.board.safe_adjacent_heads@;
            let ghost danger_before = self.board.dangerous_adjacent_heads@;
            let mut i: usize = 0;
            while i < len
                invariant
                    n == snakes.len(),
                    s < n,
                    sn == snakes[s as int],
                    self.board.snakes@ == snakes,
                    len == sn.body@.len(),
                    ate == sn.ate_last_turn(),
                    i <= len,
                    self.board.food@ == old(self).board.food@,
                    self.board.hazards@ == old(self).board.hazards@,
                    self.board.obstacles@ == old(self).board.obstacles@,
                    self.game == old(self).game,
                    self.turn == old(self).turn,
                    self.you == old(self).you,
                    self.board.width == old(self).board.width,
                    self.board.height == old(self).board.height,
                    self.board.safe_adjacent_heads@ == safe_before,
                    self.board.dangerous_adjacent_heads@ == danger_before,
                    self.board.sets_distinct(),
                    obstacles@.no_duplicates(),
                    obstacles@.to_set() == obstacles_before.union(snake_obstacles(sn, i as int)),
                    self.board.safe_tails@.to_set() == if i == len && sn.leaves_tail() {
                        tails_before.insert(sn.body@.last())
                    } else {
                        tails_before
                    },
                decreases len - i,
            {
                let c = self.board.snakes[s].body[i];
                let ghost obst_prev = obstacles@.to_set();
                if i == len - 1 && !ate {
                    insert_coord(&mut self.board.safe_tails, c);
                } else {
                    insert_coord(&mut obstacles, c);
                }
                proof {
                    assert(sn.body@[i as int] == c);
                    if i == len - 1 && !ate {
                        assert(!sn.blocks(i as int));
                        assert(snake_obstacles(sn, i + 1) =~= snake_obstacles(sn, i as int)) by {
                            assert forall|x: Coord| snake_obstacles(sn, i + 1).contains(x) implies snake_obstacles(sn, i as int).contains(x) by {
                                let j = choose|j: int| 0 <= j < i + 1 && sn.blocks(j) && #[trigger] sn.body@[j] == x;
                            }
                        }
                    } else {
                        assert(sn.blocks(i as int));
                        assert(snake_obstacles(sn, i + 1) =~= snake_obstacles(sn, i as int).insert(c)) by {
                            assert forall|x: Coord| snake_obstacles(sn, i + 1).contains(x) implies snake_obstacles(sn, i as int).insert(c).contains(x) by {
                                let j = choose|j: int| 0 <= j < i + 1 && sn.blocks(j) && #[trigger] sn.body@[j] == x;
                            }
                        }
                        assert(obstacles@.to_set() =~= obstacles_before.union(snake_obstacles(sn, i + 1)));
                    }
                }
                i = i + 1;
            }
            proof {
                assert(snakes.take(s + 1) =~= snakes.take(s as int).push(sn));
                lemma_body_obstacles_push(snakes.take(s as int), sn);
                lemma_leaving_tails_push(snakes.take(s as int), sn);
                lemma_head_neighbours_push(g0, snakes.take(s as int), sn, true);
                lemma_head_neighbours_push(g0, snakes.take(s as int), sn, false);
                assert(obstacles@.to_set() =~= body_obstacles(snakes.take(s + 1)));
                assert(self.board.safe_tails@.to_set() =~= g0.board.safe_tails.union(leaving_tails(snakes.take(s + 1))));
            }
            if !(self.board.snakes[s].id == self.you.id) {
                let head = self.board.snakes[s].head;
                proof {
                    assert(g0.is_opponent(s as int));
                    assert(g0.neighbours_defined(g0.board.snakes[s as int].head));
                    assert forall|d: Direction| #[trigger] self@.adjacent_defined(head, d) by {
                        assert(g0.adjacent_defined(head, d));
                    }
                }
                let adjacent_head_coords = self.new_adjacent_coords(&head);
                proof {
                    let around = Set::new(|c: Coord| exists|d: Direction| #[trigger] g0.adjacent(sn.head, d) == c);
                    assert(adjacent_head_coords@.to_set() =~= around) by {
                        assert forall|c: Coord| adjacent_head_coords@.to_set().contains(c) implies around.contains(c) by {
                            let j = choose|j: int| 0 <= j < 4 && adjacent_head_coords@[j] == c;
                            assert(c == self@.adjacent(head, direction_order()[j]));
                            assert(g0.adjacent(sn.head, direction_order()[j]) == c);
                        }
                        assert forall|c: Coord| around.contains(c) implies adjacent_head_coords@.to_set().contains(c) by {
                            let d = choose|d: Direction| #[trigger] g0.adjacent(sn.head, d) == c;
                            let j: int = match d {
                                Direction::Up => 0,
                                Direction::Down => 1,
                                Direction::Left => 2,
                                Direction::Right => 3,
                            };
                            assert(direction_order()[j] == d);
                            assert(adjacent_head_coords@[j] == self@.adjacent(head, direction_order()[j]));
                        }
                    }
                }
                if self.you.length <= self.board.snakes[s].length {
                    extend_coords(&mut self.board.dangerous_adjacent_heads, &adjacent_head_coords);
                } else {
                    extend_coords(&mut self.board.safe_adjacent_heads, &adjacent_head_coords);
                }
                proof {
                    assert(self.board.dangerous_adjacent_heads@.to_set() =~= g0.board.dangerous_adjacent_heads.union(g0.head_neighbours(snakes.take(s + 1), true)));
                    assert(self.board.safe_adjacent_heads@.to_set() =~= g0.board.safe_adjacent_heads.union(g0.head_neighbours(snakes.take(s + 1), false)));
                }
            } else {
                proof {
                    assert(self.board.dangerous_adjacent_heads@.to_set() =~= g0.board.dangerous_adjacent_heads.union(g0.head_neighbours(snakes.take(s + 1), true)));
                    assert(self.board.safe_adjacent_heads@.to_set() =~= g0.board.safe_adjacent_heads.union(g0.head_neighbours(snakes.take(s + 1), false)));
                }
            }
            s = s + 1;
        }
        extend_coords(&mut obstacles, &self.board.hazards);
        self.board.obstacles = obstacles;
        proof {
            assert(snakes.take(n as int) =~= snakes);
            assert(self@.board.obstacles =~= g0.board.hazards.union(body_obstacles(snakes)));
            assert(self@.board =~= g0.prepared().board);
        }
    }

    /// A random move onto a valid and safe square next to `coord`; `Down`
    /// when there is none.
    pub fn get_random_valid_direction(&self, coord: &Coord) -> (d: Direction)
        requires
            self@.neighbours_defined(*coord),
        ensures
            (exists|d2: Direction| #[trigger] self@.valid_safe(self@.adjacent(*coord, d2)))
                ==> self@.valid_safe(self@.adjacent(*coord, d)),
            !(exists|d2: Direction| #[trigger] self@.valid_safe(self@.adjacent(*coord, d2))) ==> d == Direction::Down,
    {
        let dirs = all_directions();
        let mut valid_directions: Vec<Direction> = Vec::new();
        let mut i: usize = 0;
        while i < dirs.len()
            invariant
                dirs@ == direction_order(),
                self@.neighbours_defined(*coord),
                i <= 4,
                forall|j: int| 0 <= j < valid_directions@.len() ==> self@.valid_safe(self@.adjacent(*coord, #[trigger] valid_directions@[j])),
                forall|j: int| 0 <= j < i && self@.valid_safe(self@.adjacent(*coord, #[trigger] direction_order()[j]))
                    ==> valid_directions@.contains(direction_order()[j]),
            decreases 4 - i,
        {
            assert(self@.adjacent_defined(*coord, dirs@[i as int]));
            let adjacent_coord = self.new_adjacent_coord(coord, &dirs[i]);
            if self.is_valid_and_safe_at(&adjacent_coord) {
                let ghost prev = valid_directions@;
                valid_directions.push(dirs[i]);
                proof {
                    assert(valid_directions@[prev.len() as int] == dirs@[i as int]);
                    assert forall|j: int| 0 <= j < prev.len() implies valid_directions@[j] == prev[j] by {}
                    assert forall|x: Direction| prev.contains(x) implies valid_directions@.contains(x) by {
                        let j = choose|j: int| 0 <= j < prev.len() && prev[j] == x;
                        assert(valid_directions@[j] == x);
                    }
                }
            }
            i = i + 1;
        }
        let mut random_direction = Direction::Down;
        match choose_random_direction(&valid_directions) {
            Some(d) => {
                random_direction = d;
            },
            None => {
                proof {
                    assert forall|d2: Direction| !#[trigger] self@.valid_safe(self@.adjacent(*coord, d2)) by {
                        let j: int = match d2 {
                            Direction::Up => 0,
                            Direction::Down => 1,
                            Direction::Left => 2,
                            Direction::Right => 3,
                        };
                        assert(direction_order()[j] == d2);
                    }
                }
            },
        }
        random_direction
    }
}

} // verus!
