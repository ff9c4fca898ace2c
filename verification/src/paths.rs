//! Laws of shortest paths and of the nearest food: a path is as long both
//! ways between valid squares, paths chain (triangle inequality), more
//! obstacles never shorten a path, and more food never puts the nearest food
//! farther away.
use vstd::prelude::*;
use vstd::arithmetic::div_mod::{lemma_mod_add_multiples_vanish, lemma_mod_self_0, lemma_small_mod};

use crate::grid::{step_x, step_y};
use crate::model::{Coord, Direction, GameView};
use crate::search::{lemma_path_cost_to_itself, lemma_step_direction, PATH_SEARCH_LIMIT};

verus! {

/// The direction that undoes a move in direction `d`.
pub open spec fn opposite(d: Direction) -> Direction {
    match d {
        Direction::Up => Direction::Down,
        Direction::Down => Direction::Up,
        Direction::Left => Direction::Right,
        Direction::Right => Direction::Left,
    }
}

/// Two views share their squares: same rules, same size, same obstacles.
pub open spec fn same_terrain(g1: GameView, g2: GameView) -> bool {
    &&& g1.wraps() == g2.wraps()
    &&& g1.board.width == g2.board.width
    &&& g1.board.height == g2.board.height
    &&& g1.board.obstacles == g2.board.obstacles
}

/// `g1` has at most the obstacles of `g2` on the same board and rules.
pub open spec fn fewer_obstacles(g1: GameView, g2: GameView) -> bool {
    &&& g1.wraps() == g2.wraps()
    &&& g1.board.width == g2.board.width
    &&& g1.board.height == g2.board.height
    &&& g1.board.obstacles.subset_of(g2.board.obstacles)
}

/// `fewest_moves` is the least number of moves that reaches `b`, and it is
/// there whenever some number of moves reaches `b`.
pub proof fn lemma_fewest_moves_is_least(g: GameView, a: Coord, b: Coord, k: int)
    requires
        0 <= k,
        g.reach(Set::empty(), a, b, k),
    ensures
        g.fewest_moves(a, b) is Some,
        0 <= g.fewest_moves(a, b).unwrap() <= k,
        g.reach(Set::empty(), a, b, g.fewest_moves(a, b).unwrap()),
        forall|j: int| 0 <= j < g.fewest_moves(a, b).unwrap() ==> !g.reach(Set::empty(), a, b, j),
    decreases k,
{
    reveal(GameView::fewest_moves);
    if exists|j: int| 0 <= j < k && #[trigger] g.reach(Set::empty(), a, b, j) {
        let j = choose|j: int| 0 <= j < k && #[trigger] g.reach(Set::empty(), a, b, j);
        lemma_fewest_moves_is_least(g, a, b, j);
    } else {
        let k0 = choose|k0: int| 0 <= k0 && #[trigger] g.reach(Set::empty(), a, b, k0)
            && forall|j: int| 0 <= j < k0 ==> !g.reach(Set::empty(), a, b, j);
        if k0 > k {
            assert(!g.reach(Set::empty(), a, b, k));
        }
    }
}

/// When `fewest_moves` is some `k`, `k` moves reach `b` and fewer do not.
pub proof fn lemma_fewest_moves_some(g: GameView, a: Coord, b: Coord)
    requires
        g.fewest_moves(a, b) is Some,
    ensures
        0 <= g.fewest_moves(a, b).unwrap(),
        g.reach(Set::empty(), a, b, g.fewest_moves(a, b).unwrap()),
        forall|j: int| 0 <= j < g.fewest_moves(a, b).unwrap() ==> !g.reach(Set::empty(), a, b, j),
{
    reveal(GameView::fewest_moves);
    let k0 = choose|k: int| 0 <= k && #[trigger] g.reach(Set::empty(), a, b, k);
    lemma_fewest_moves_is_least(g, a, b, k0);
}

/// No number of moves reaches `b` when `fewest_moves` is `None`.
pub proof fn lemma_fewest_moves_none(g: GameView, a: Coord, b: Coord)
    requires
        g.fewest_moves(a, b) is None,
    ensures
        forall|k: int| 0 <= k ==> !#[trigger] g.reach(Set::empty(), a, b, k),
{
    reveal(GameView::fewest_moves);
}

/// A search that is over within `limit` moves finds its end, when at all,
/// within `limit` moves.
pub proof fn lemma_search_ends_fewest(g: GameView, a: Coord, b: Coord, limit: int)
    requires
        0 <= limit,
        g.search_ends_within(a, b, limit),
    ensures
        g.fewest_moves(a, b) matches Some(k) ==> k <= limit,
{
    if g.fewest_moves(a, b) is Some {
        let k = g.fewest_moves(a, b).unwrap();
        lemma_fewest_moves_some(g, a, b);
        if a == b {
            lemma_path_cost_to_itself(g, a);
        } else if g.reach(Set::empty(), a, b, limit - 1) {
            if limit == 0 {
                let p = choose|p: Seq<Coord>| #[trigger] g.is_path(Set::empty(), a, p) && p.last() == b && p.len() <= limit;
                assert(p.len() >= 1);
            } else {
                lemma_fewest_moves_is_least(g, a, b, limit - 1);
            }
        } else {
            let srcs = seq![a];
            assert(g.reach(Set::empty(), srcs[0], b, k));
            assert(g.reached(Set::empty(), srcs, b, k));
            assert(g.reached(Set::empty(), srcs, b, limit));
            let s = choose|s: int| 0 <= s < srcs.len() && #[trigger] g.reach(Set::empty(), srcs[s], b, limit);
            assert(s == 0);
            lemma_fewest_moves_is_least(g, a, b, limit);
        }
    }
}

/// When a search for `b` from `a` is over within `PATH_SEARCH_LIMIT` moves,
/// a path's cost is five times its fewest moves.
pub proof fn lemma_path_cost_exact(g: GameView, a: Coord, b: Coord)
    requires
        g.search_ends_within(a, b, PATH_SEARCH_LIMIT as int),
    ensures
        g.path_cost(a, b) is Some <==> g.fewest_moves(a, b) is Some,
        g.path_cost(a, b) is Some ==> g.path_cost(a, b).unwrap() == 5 * g.fewest_moves(a, b).unwrap(),
{
    if g.fewest_moves(a, b) is Some {
        lemma_search_ends_fewest(g, a, b, PATH_SEARCH_LIMIT as int);
        lemma_fewest_moves_some(g, a, b);
    }
}

proof fn lemma_wrap_back(x: int, dx: int, w: int)
    requires
        0 <= x < w,
        -1 <= dx <= 1,
    ensures
        0 <= (x + dx) % w < w,
        ((x + dx) % w - dx) % w == x,
{
    lemma_small_mod(x as nat, w as nat);
    if dx == 0 {
    } else if dx == 1 {
        if x + 1 < w {
            lemma_small_mod((x + 1) as nat, w as nat);
        } else {
            lemma_mod_self_0(w);
            lemma_mod_add_multiples_vanish(-1, w);
            lemma_small_mod((w - 1) as nat, w as nat);
        }
    } else {
        if x >= 1 {
            lemma_small_mod((x - 1) as nat, w as nat);
        } else {
            lemma_mod_add_multiples_vanish(-1, w);
            lemma_small_mod((w - 1) as nat, w as nat);
            lemma_mod_self_0(w);
        }
    }
}

/// A move between two squares of the board can be undone.
proof fn lemma_step_back(g: GameView, p: Coord, c: Coord)
    requires
        g.steps_to(p, c),
        g.in_bounds(p),
        g.in_bounds(c),
    ensures
        g.steps_to(c, p),
{
    let d = lemma_step_direction(g, p, c);
    let o = opposite(d);
    assert(step_x(o) == -step_x(d) && step_y(o) == -step_y(d));
    if g.wraps() {
        let w = g.board.width as int;
        let h = g.board.height as int;
        lemma_wrap_back(p.x as int, step_x(d), w);
        lemma_wrap_back(p.y as int, step_y(d), h);
        assert(g.adjacent(c, o) == p);
    } else {
        assert(g.adjacent(c, o) == p);
    }
    assert(c == g.adjacent(p, d));
    assert(p == g.adjacent(c, o));
}

/// A path between two valid and safe squares, walked backwards.
proof fn lemma_reverse_path(g: GameView, a: Coord, p: Seq<Coord>) -> (r: Seq<Coord>)
    requires
        g.is_path(Set::empty(), a, p),
        g.valid_safe(a),
        g.valid_safe(p.last()),
    ensures
        g.is_path(Set::empty(), p.last(), r),
        r.last() == a,
        r.len() == p.len(),
{
    let n = p.len();
    let r = Seq::new(n as nat, |m: int| p[n - 1 - m]);
    assert forall|m: int| 0 <= m < n implies g.valid_safe(#[trigger] p[m]) by {
        if m > 0 {
            assert(g.enterable(Set::empty(), p[m]));
        }
    }
    assert forall|m: int| 1 <= m < r.len() implies
        g.enterable(Set::empty(), #[trigger] r[m]) && g.steps_to(r[m - 1], r[m]) by {
        let i = n - m;
        assert(r[m] == p[i - 1] && r[m - 1] == p[i]);
        assert(g.valid_safe(p[i - 1]) && g.valid_safe(p[i]));
        assert(g.steps_to(p[i - 1], p[i]));
        lemma_step_back(g, p[i - 1], p[i]);
    }
    assert(r[0] == p.last());
    assert(r.last() == p[0]);
    r
}

/// Between two valid and safe squares, reaching one from the other takes
/// the same moves both ways.
proof fn lemma_reach_symmetric(g: GameView, a: Coord, b: Coord, k: int)
    requires
        g.valid_safe(a),
        g.valid_safe(b),
        g.reach(Set::empty(), a, b, k),
    ensures
        g.reach(Set::empty(), b, a, k),
{
    let p = choose|p: Seq<Coord>| #[trigger] g.is_path(Set::empty(), a, p) && p.last() == b && p.len() <= k + 1;
    let r = lemma_reverse_path(g, a, p);
    assert(g.is_path(Set::empty(), b, r));
}

/// The cheapest path between two valid and safe squares costs the same both
/// ways.
pub proof fn lemma_path_cost_symmetric(g: GameView, a: Coord, b: Coord)
    requires
        g.valid_safe(a),
        g.valid_safe(b),
    ensures
        g.fewest_moves(a, b) == g.fewest_moves(b, a),
        g.path_cost(a, b) == g.path_cost(b, a),
{
    if g.fewest_moves(a, b) is Some {
        let k1 = g.fewest_moves(a, b).unwrap();
        lemma_fewest_moves_some(g, a, b);
        lemma_reach_symmetric(g, a, b, k1);
        lemma_fewest_moves_is_least(g, b, a, k1);
        let k2 = g.fewest_moves(b, a).unwrap();
        lemma_reach_symmetric(g, b, a, k2);
        if k2 < k1 {
            assert(!g.reach(Set::empty(), a, b, k2));
        }
    } else if g.fewest_moves(b, a) is Some {
        let k2 = g.fewest_moves(b, a).unwrap();
        lemma_fewest_moves_some(g, b, a);
        lemma_reach_symmetric(g, b, a, k2);
        lemma_fewest_moves_is_least(g, a, b, k2);
    }
}

/// Paths chain: the fewest moves from `a` to `c` are at most those from `a`
/// to `b` plus those from `b` to `c`.
pub proof fn lemma_fewest_moves_triangle(g: GameView, a: Coord, b: Coord, c: Coord)
    requires
        g.fewest_moves(a, b) is Some,
        g.fewest_moves(b, c) is Some,
    ensures
        g.fewest_moves(a, c) is Some,
        g.fewest_moves(a, c).unwrap() <= g.fewest_moves(a, b).unwrap() + g.fewest_moves(b, c).unwrap(),
{
    let k1 = g.fewest_moves(a, b).unwrap();
    let k2 = g.fewest_moves(b, c).unwrap();
    lemma_fewest_moves_some(g, a, b);
    lemma_fewest_moves_some(g, b, c);
    let p1 = choose|p: Seq<Coord>| #[trigger] g.is_path(Set::empty(), a, p) && p.last() == b && p.len() <= k1 + 1;
    let p2 = choose|p: Seq<Coord>| #[trigger] g.is_path(Set::empty(), b, p) && p.last() == c && p.len() <= k2 + 1;
    let q = p1 + p2.skip(1);
    assert forall|m: int| 1 <= m < q.len() implies
        g.enterable(Set::empty(), #[trigger] q[m]) && g.steps_to(q[m - 1], q[m]) by {
        if m < p1.len() {
            assert(q[m] == p1[m] && q[m - 1] == p1[m - 1]);
        } else if m == p1.len() {
            assert(q[m] == p2[1] && q[m - 1] == p1.last());
            assert(p2[0] == b);
        } else {
            let i = m - p1.len() + 1;
            assert(q[m] == p2[i] && q[m - 1] == p2[i - 1]);
        }
    }
    assert(q[0] == a);
    if p2.len() > 1 {
        assert(q.last() == p2.last());
    } else {
        assert(q =~= p1);
    }
    assert(g.is_path(Set::empty(), a, q));
    assert(g.reach(Set::empty(), a, c, k1 + k2));
    lemma_fewest_moves_is_least(g, a, c, k1 + k2);
}

/// Paths chain: a cheapest path from `a` to `c` costs at most one from `a`
/// to `b` and one from `b` to `c` together.
pub proof fn lemma_path_cost_triangle(g: GameView, a: Coord, b: Coord, c: Coord)
    requires
        g.search_ends_within(a, b, PATH_SEARCH_LIMIT as int),
        g.search_ends_within(b, c, PATH_SEARCH_LIMIT as int),
        g.search_ends_within(a, c, PATH_SEARCH_LIMIT as int),
        g.path_cost(a, b) is Some,
        g.path_cost(b, c) is Some,
    ensures
        g.path_cost(a, c) is Some,
        g.path_cost(a, c).unwrap() <= g.path_cost(a, b).unwrap() + g.path_cost(b, c).unwrap(),
{
    lemma_path_cost_exact(g, a, b);
    lemma_path_cost_exact(g, b, c);
    lemma_fewest_moves_triangle(g, a, b, c);
    lemma_path_cost_exact(g, a, c);
}

/// A path with more obstacles around is a path with fewer.
proof fn lemma_reach_fewer_obstacles(g1: GameView, g2: GameView, a: Coord, b: Coord, k: int)
    requires
        fewer_obstacles(g1, g2),
        g2.reach(Set::empty(), a, b, k),
    ensures
        g1.reach(Set::empty(), a, b, k),
{
    let p = choose|p: Seq<Coord>| #[trigger] g2.is_path(Set::empty(), a, p) && p.last() == b && p.len() <= k + 1;
    assert forall|x: Coord, d: Direction| #[trigger] g1.adjacent(x, d) == g2.adjacent(x, d) by {}
    assert forall|m: int| 1 <= m < p.len() implies
        g1.enterable(Set::empty(), #[trigger] p[m]) && g1.steps_to(p[m - 1], p[m]) by {
        assert(g2.enterable(Set::empty(), p[m]) && g2.steps_to(p[m - 1], p[m]));
    }
    assert(g1.is_path(Set::empty(), a, p));
}

/// More obstacles never shorten a path, nor open one.
pub proof fn lemma_fewest_moves_more_obstacles(g1: GameView, g2: GameView, a: Coord, b: Coord)
    requires
        fewer_obstacles(g1, g2),
        g2.fewest_moves(a, b) is Some,
    ensures
        g1.fewest_moves(a, b) is Some,
        g1.fewest_moves(a, b).unwrap() <= g2.fewest_moves(a, b).unwrap(),
{
    let k2 = g2.fewest_moves(a, b).unwrap();
    lemma_fewest_moves_some(g2, a, b);
    lemma_reach_fewer_obstacles(g1, g2, a, b, k2);
    lemma_fewest_moves_is_least(g1, a, b, k2);
}

/// More obstacles never make a path cheaper, nor open one.
pub proof fn lemma_path_cost_more_obstacles(g1: GameView, g2: GameView, a: Coord, b: Coord)
    requires
        fewer_obstacles(g1, g2),
        g1.search_ends_within(a, b, PATH_SEARCH_LIMIT as int),
        g2.search_ends_within(a, b, PATH_SEARCH_LIMIT as int),
        g2.path_cost(a, b) is Some,
    ensures
        g1.path_cost(a, b) is Some,
        g1.path_cost(a, b).unwrap() <= g2.path_cost(a, b).unwrap(),
{
    lemma_path_cost_exact(g2, a, b);
    lemma_fewest_moves_more_obstacles(g1, g2, a, b);
    lemma_path_cost_exact(g1, a, b);
}

/// Paths cost the same on the same terrain.
proof fn lemma_path_cost_same_terrain(g1: GameView, g2: GameView, a: Coord, b: Coord)
    requires
        same_terrain(g1, g2),
    ensures
        g1.path_cost(a, b) == g2.path_cost(a, b),
{
    assert(fewer_obstacles(g1, g2) && fewer_obstacles(g2, g1));
    if g2.fewest_moves(a, b) is Some {
        lemma_fewest_moves_more_obstacles(g1, g2, a, b);
        lemma_fewest_moves_more_obstacles(g2, g1, a, b);
    } else if g1.fewest_moves(a, b) is Some {
        lemma_fewest_moves_more_obstacles(g2, g1, a, b);
    }
}

/// Whenever some food costs `v` to reach, there is a nearest food, and it
/// costs at most `v`.
pub proof fn lemma_nearest_food_exists(g: GameView, c: Coord, v: u32)
    requires
        exists|f: Coord| #[trigger] g.board.food.contains(f) && g.path_cost(c, f) == Some(v),
    ensures
        g.nearest_food_cost(c) is Some,
        g.is_nearest_food_cost(c, g.nearest_food_cost(c).unwrap()),
        g.nearest_food_cost(c).unwrap() <= v,
    decreases v,
{
    let f = choose|f: Coord| #[trigger] g.board.food.contains(f) && g.path_cost(c, f) == Some(v);
    assert(g.board.food.contains(f) && g.path_cost(c, f) is Some);
    if exists|f2: Coord| #[trigger] g.board.food.contains(f2) && g.path_cost(c, f2) is Some && g.path_cost(c, f2).unwrap() < v {
        let f2 = choose|f2: Coord| #[trigger] g.board.food.contains(f2) && g.path_cost(c, f2) is Some && g.path_cost(c, f2).unwrap() < v;
        lemma_nearest_food_exists(g, c, g.path_cost(c, f2).unwrap());
    } else {
        assert(g.is_nearest_food_cost(c, v));
    }
}

/// More food never puts the nearest food farther away.
pub proof fn lemma_nearest_food_more_food(g1: GameView, g2: GameView, c: Coord)
    requires
        same_terrain(g1, g2),
        g1.board.food.subset_of(g2.board.food),
        g1.nearest_food_cost(c) is Some,
    ensures
        g2.nearest_food_cost(c) is Some,
        g2.nearest_food_cost(c).unwrap() <= g1.nearest_food_cost(c).unwrap(),
{
    let f0 = choose|f: Coord| #[trigger] g1.board.food.contains(f) && g1.path_cost(c, f) is Some;
    lemma_nearest_food_exists(g1, c, g1.path_cost(c, f0).unwrap());
    let x = g1.nearest_food_cost(c).unwrap();
    let f = choose|f: Coord| #[trigger] g1.board.food.contains(f) && g1.path_cost(c, f) == Some(x);
    lemma_path_cost_same_terrain(g1, g2, c, f);
    assert(g2.board.food.contains(f));
    lemma_nearest_food_exists(g2, c, x);
}

} // verus!
