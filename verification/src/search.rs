//! Breadth-first searches over the board: how far a square is, and which
//! squares each snake reaches before the others.
use vstd::prelude::*;

use crate::grid::{all_directions, coords_contain, direction_order, insert_coord, lemma_in_bounds_neighbours_defined};
use crate::model::{Battlesnake, ControlledSquares, Coord, Direction, GameState, GameView, Square};

verus! {

/// The squares of a search layer, without their owners.
pub open spec fn coords_of(f: Seq<(usize, Coord)>) -> Seq<Coord> {
    f.map_values(|e: (usize, Coord)| e.1)
}

/// The owners of a layer come in nondecreasing order.
pub open spec fn owners_sorted(f: Seq<(usize, Coord)>) -> bool {
    forall|i: int, j: int| 0 <= i < j < f.len() ==> (#[trigger] f[i]).0 <= (#[trigger] f[j]).0
}

impl GameView {
    /// A square that a search may enter when the squares of `blocked` are
    /// already taken.
    pub open spec fn enterable(self, blocked: Set<Coord>, c: Coord) -> bool {
        self.valid_safe(c) && !blocked.contains(c)
    }

    /// `c` is one move away from `p`.
    pub open spec fn steps_to(self, p: Coord, c: Coord) -> bool {
        ||| c == self.adjacent(p, Direction::Up)
        ||| c == self.adjacent(p, Direction::Down)
        ||| c == self.adjacent(p, Direction::Left)
        ||| c == self.adjacent(p, Direction::Right)
    }

    /// `path` starts at `src`, and each of its later squares is enterable
    /// and one move away from the square before it.
    pub open spec fn is_path(self, blocked: Set<Coord>, src: Coord, path: Seq<Coord>) -> bool {
        &&& path.len() >= 1
        &&& path[0] == src
        &&& forall|i: int| 1 <= i < path.len() ==>
            self.enterable(blocked, #[trigger] path[i]) && self.steps_to(path[i - 1], path[i])
    }

    /// `c` can be reached from `src` in at most `k` moves, each of which
    /// enters an enterable square.
    pub open spec fn reach(self, blocked: Set<Coord>, src: Coord, c: Coord, k: int) -> bool {
        exists|path: Seq<Coord>|
            #[trigger] self.is_path(blocked, src, path) && path.last() == c && path.len() <= k + 1
    }

    /// Some source of `srcs` reaches `c` in at most `k` moves.
    pub open spec fn reached(self, blocked: Set<Coord>, srcs: Seq<Coord>, c: Coord, k: int) -> bool {
        exists|s: int| 0 <= s < srcs.len() && #[trigger] self.reach(blocked, srcs[s], c, k)
    }

    /// `c` is reached from source `s` in `k` moves, and no source reaches it
    /// in fewer.
    pub open spec fn fresh(self, blocked: Set<Coord>, srcs: Seq<Coord>, s: int, c: Coord, k: int) -> bool {
        &&& self.reach(blocked, srcs[s], c, k)
        &&& k > 0 ==> !self.reached(blocked, srcs, c, k - 1)
    }

    /// `f` is layer `k` of a search from `srcs`: each of its entries is a
    /// square first reached in `k` moves, owned by a source that reaches it;
    /// every source that first reaches a square in `k` moves finds it there
    /// under an owner no later than itself; owners are in order.
    pub open spec fn is_layer(self, blocked: Set<Coord>, srcs: Seq<Coord>, k: int, f: Seq<(usize, Coord)>) -> bool {
        &&& forall|i: int| 0 <= i < f.len() ==> (#[trigger] f[i]).0 < srcs.len()
            && self.fresh(blocked, srcs, f[i].0 as int, f[i].1, k)
        &&& forall|s: int, q: Coord|
            0 <= s < srcs.len() && #[trigger] self.fresh(blocked, srcs, s, q, k)
            ==> exists|i: int| 0 <= i < f.len() && (#[trigger] f[i]).1 == q && f[i].0 <= s
        &&& owners_sorted(f)
    }

    /// `v` holds the blocked squares and the squares reached in `k` moves.
    pub open spec fn visited_ok(self, blocked: Set<Coord>, srcs: Seq<Coord>, k: int, v: Seq<Coord>) -> bool {
        forall|c: Coord|
            #![trigger v.contains(c)]
            #![trigger self.reached(blocked, srcs, c, k)]
            v.contains(c) <==> (blocked.contains(c) || self.reached(blocked, srcs, c, k))
    }

    /// Every move from the first `upto` entries of `f` onto a valid and
    /// safe square ends in `v`.
    pub open spec fn covers(self, f: Seq<(usize, Coord)>, upto: int, v: Seq<Coord>) -> bool {
        forall|i: int, d: Direction|
            0 <= i < upto && #[trigger] self.valid_safe(self.adjacent(f[i].1, d))
            ==> v.contains(self.adjacent(f[i].1, d))
    }

    /// Each entry of `nx` is a square not in `v0`, entered from a source that
    /// reaches it in `k + 1` moves, and no earlier source does.
    pub open spec fn claims_ok(self, blocked: Set<Coord>, srcs: Seq<Coord>, k: int, v0: Seq<Coord>, nx: Seq<(usize, Coord)>) -> bool {
        forall|m: int| 0 <= m < nx.len() ==> {
            &&& (#[trigger] nx[m]).0 < srcs.len()
            &&& self.enterable(blocked, nx[m].1)
            &&& !v0.contains(nx[m].1)
            &&& self.reach(blocked, srcs[nx[m].0 as int], nx[m].1, k + 1)
            &&& forall|t: int| 0 <= t < nx[m].0 ==> !self.reach(blocked, srcs[t], nx[m].1, k + 1)
        }
    }
}

/// Reaching in `j` moves is reaching in `k >= j` moves.
pub proof fn lemma_reach_mono(g: GameView, blocked: Set<Coord>, src: Coord, c: Coord, j: int, k: int)
    requires
        j <= k,
        g.reach(blocked, src, c, j),
    ensures
        g.reach(blocked, src, c, k),
{
    let path = choose|path: Seq<Coord>|
        #[trigger] g.is_path(blocked, src, path) && path.last() == c && path.len() <= j + 1;
    assert(g.is_path(blocked, src, path));
}

pub proof fn lemma_reached_mono(g: GameView, blocked: Set<Coord>, srcs: Seq<Coord>, c: Coord, j: int, k: int)
    requires
        j <= k,
        g.reached(blocked, srcs, c, j),
    ensures
        g.reached(blocked, srcs, c, k),
{
    let s = choose|s: int| 0 <= s < srcs.len() && #[trigger] g.reach(blocked, srcs[s], c, j);
    lemma_reach_mono(g, blocked, srcs[s], c, j, k);
}

/// Every source reaches itself in no move.
pub proof fn lemma_reach_source(g: GameView, blocked: Set<Coord>, src: Coord)
    ensures
        g.reach(blocked, src, src, 0),
{
    let path = seq![src];
    assert(g.is_path(blocked, src, path));
}

/// A move onto an enterable square extends a path by one.
pub proof fn lemma_reach_step(g: GameView, blocked: Set<Coord>, src: Coord, p: Coord, d: Direction, k: int)
    requires
        g.reach(blocked, src, p, k),
        g.enterable(blocked, g.adjacent(p, d)),
    ensures
        g.reach(blocked, src, g.adjacent(p, d), k + 1),
{
    let c = g.adjacent(p, d);
    let path = choose|path: Seq<Coord>|
        #[trigger] g.is_path(blocked, src, path) && path.last() == p && path.len() <= k + 1;
    let longer = path.push(c);
    assert forall|i: int| 1 <= i < longer.len() implies
        g.enterable(blocked, #[trigger] longer[i]) && g.steps_to(longer[i - 1], longer[i]) by {
        if i < path.len() {
            assert(longer[i] == path[i] && longer[i - 1] == path[i - 1]);
        }
    }
    assert(g.is_path(blocked, src, longer));
}

/// A square first reached in `k + 1` moves comes from a square that is
/// first reached in `k` moves.
proof fn lemma_predecessor(g: GameView, blocked: Set<Coord>, srcs: Seq<Coord>, t: int, c: Coord, k: int) -> (pd: (Coord, Direction))
    requires
        0 <= k,
        0 <= t < srcs.len(),
        g.reach(blocked, srcs[t], c, k + 1),
        !g.reached(blocked, srcs, c, k),
    ensures
        g.enterable(blocked, c),
        g.adjacent(pd.0, pd.1) == c,
        g.fresh(blocked, srcs, t, pd.0, k),
{
    assert(!g.reach(blocked, srcs[t], c, k));
    let path = choose|path: Seq<Coord>|
        #[trigger] g.is_path(blocked, srcs[t], path) && path.last() == c && path.len() <= k + 2;
    assert(path.len() == k + 2);
    let n = path.len() - 1;
    let p = path[n - 1];
    let prefix = path.drop_last();
    assert forall|i: int| 1 <= i < prefix.len() implies
        g.enterable(blocked, #[trigger] prefix[i]) && g.steps_to(prefix[i - 1], prefix[i]) by {
        assert(prefix[i] == path[i] && prefix[i - 1] == path[i - 1]);
    }
    assert(g.is_path(blocked, srcs[t], prefix));
    assert(g.reach(blocked, srcs[t], p, k));
    assert(g.enterable(blocked, path[n]) && g.steps_to(path[n - 1], path[n]));
    let d = lemma_step_direction(g, p, c);
    if k > 0 && g.reached(blocked, srcs, p, k - 1) {
        let s2 = choose|s2: int| 0 <= s2 < srcs.len() && #[trigger] g.reach(blocked, srcs[s2], p, k - 1);
        lemma_reach_step(g, blocked, srcs[s2], p, d, k - 1);
        assert(g.reach(blocked, srcs[s2], c, k));
    }
    (p, d)
}

/// A square entered from entry `i` of a layer has no owner earlier than that
/// entry's: an earlier source would have entered it from an earlier entry.
proof fn lemma_claim_owner(
    g: GameView,
    blocked: Set<Coord>,
    srcs: Seq<Coord>,
    k: int,
    f: Seq<(usize, Coord)>,
    i: int,
    v0: Seq<Coord>,
    v: Seq<Coord>,
    a: Coord,
)
    requires
        0 <= k,
        g.is_layer(blocked, srcs, k, f),
        g.visited_ok(blocked, srcs, k, v0),
        0 <= i < f.len(),
        g.covers(f, i, v),
        forall|c: Coord| v0.contains(c) ==> v.contains(c),
        !v.contains(a),
    ensures
        forall|t: int| 0 <= t < f[i].0 ==> !g.reach(blocked, srcs[t], a, k + 1),
{
    assert forall|t: int| 0 <= t < f[i].0 implies !g.reach(blocked, srcs[t], a, k + 1) by {
        if g.reach(blocked, srcs[t], a, k + 1) {
            assert(f[i].0 < srcs.len());
            assert(!v0.contains(a));
            assert(!g.reached(blocked, srcs, a, k));
            let (p, d) = lemma_predecessor(g, blocked, srcs, t, a, k);
            let i2 = choose|i2: int| 0 <= i2 < f.len() && (#[trigger] f[i2]).1 == p && f[i2].0 <= t;
            if i2 >= i {
                if i2 > i {
                    assert(f[i].0 <= f[i2].0);
                }
                assert(false);
            }
            assert(g.valid_safe(g.adjacent(f[i2].1, d)));
            assert(v.contains(g.adjacent(f[i2].1, d)));
        }
    }
}

/// Once every entry of layer `k` has been expanded, the claimed squares form
/// layer `k + 1` and the visited squares are those reached in `k + 1` moves.
proof fn lemma_next_layer(
    g: GameView,
    blocked: Set<Coord>,
    srcs: Seq<Coord>,
    k: int,
    f: Seq<(usize, Coord)>,
    v0: Seq<Coord>,
    v: Seq<Coord>,
    nx: Seq<(usize, Coord)>,
)
    requires
        0 <= k,
        g.is_layer(blocked, srcs, k, f),
        g.visited_ok(blocked, srcs, k, v0),
        g.covers(f, f.len() as int, v),
        v == v0 + coords_of(nx),
        g.claims_ok(blocked, srcs, k, v0, nx),
        owners_sorted(nx),
    ensures
        g.is_layer(blocked, srcs, k + 1, nx),
        g.visited_ok(blocked, srcs, k + 1, v),
{
    // Every square first reached in `k + 1` moves was claimed.
    assert forall|s: int, q: Coord|
        0 <= s < srcs.len() && #[trigger] g.fresh(blocked, srcs, s, q, k + 1)
        implies exists|m: int| 0 <= m < nx.len() && (#[trigger] nx[m]).1 == q && nx[m].0 <= s by {
        let (p, d) = lemma_predecessor(g, blocked, srcs, s, q, k);
        let i2 = choose|i2: int| 0 <= i2 < f.len() && (#[trigger] f[i2]).1 == p && f[i2].0 <= s;
        assert(g.valid_safe(g.adjacent(f[i2].1, d)));
        assert(v.contains(q));
        assert(!v0.contains(q));
        let j = choose|j: int| 0 <= j < v.len() && v[j] == q;
        let m = j - v0.len();
        assert(coords_of(nx)[m] == q);
        assert(nx[m].1 == q);
        if s < nx[m].0 {
            assert(!g.reach(blocked, srcs[s], q, k + 1));
        }
    }
    assert forall|m: int| 0 <= m < nx.len() implies (#[trigger] nx[m]).0 < srcs.len()
        && g.fresh(blocked, srcs, nx[m].0 as int, nx[m].1, k + 1) by {
        assert(!v0.contains(nx[m].1));
    }
    assert forall|c: Coord|
        #![trigger v.contains(c)]
        #![trigger g.reached(blocked, srcs, c, k + 1)]
        v.contains(c) <==> (blocked.contains(c) || g.reached(blocked, srcs, c, k + 1)) by {
        if v.contains(c) {
            let j = choose|j: int| 0 <= j < v.len() && v[j] == c;
            if j < v0.len() {
                assert(v0.contains(c));
                if !blocked.contains(c) {
                    lemma_reached_mono(g, blocked, srcs, c, k, k + 1);
                }
            } else {
                let m = j - v0.len();
                assert(coords_of(nx)[m] == c);
                assert(g.reach(blocked, srcs[nx[m].0 as int], c, k + 1));
            }
        }
        if blocked.contains(c) {
            assert(v0.contains(c));
            assert(v[v0.index_of(c)] == c);
        }
        if g.reached(blocked, srcs, c, k + 1) {
            if g.reached(blocked, srcs, c, k) {
                assert(v0.contains(c));
                assert(v[v0.index_of(c)] == c);
            } else {
                let s = choose|s: int| 0 <= s < srcs.len() && #[trigger] g.reach(blocked, srcs[s], c, k + 1);
                assert(g.fresh(blocked, srcs, s, c, k + 1));
                let m = choose|m: int| 0 <= m < nx.len() && (#[trigger] nx[m]).1 == c && nx[m].0 <= s;
                assert(v[v0.len() + m] == c);
            }
        }
    }
}

/// The direction of a move from `p` to a square one move away.
pub proof fn lemma_step_direction(g: GameView, p: Coord, c: Coord) -> (d: Direction)
    requires
        g.steps_to(p, c),
    ensures
        g.adjacent(p, d) == c,
{
    if c == g.adjacent(p, Direction::Up) {
        Direction::Up
    } else if c == g.adjacent(p, Direction::Down) {
        Direction::Down
    } else if c == g.adjacent(p, Direction::Left) {
        Direction::Left
    } else {
        Direction::Right
    }
}

/// When no square is first reached in `k + 1` moves, every square at the
/// end of any path from a source is reached in `k` moves.
pub proof fn lemma_stable(g: GameView, blocked: Set<Coord>, srcs: Seq<Coord>, k: int, s: int, path: Seq<Coord>)
    requires
        0 <= k,
        0 <= s < srcs.len(),
        forall|c: Coord| #[trigger] g.reached(blocked, srcs, c, k + 1) ==> g.reached(blocked, srcs, c, k),
        g.is_path(blocked, srcs[s], path),
    ensures
        g.reached(blocked, srcs, path.last(), k),
    decreases path.len(),
{
    if path.len() <= k + 1 {
        assert(g.reach(blocked, srcs[s], path.last(), k));
    } else {
        let prefix = path.drop_last();
        assert forall|i: int| 1 <= i < prefix.len() implies
            g.enterable(blocked, #[trigger] prefix[i]) && g.steps_to(prefix[i - 1], prefix[i]) by {
            assert(prefix[i] == path[i] && prefix[i - 1] == path[i - 1]);
        }
        lemma_stable(g, blocked, srcs, k, s, prefix);
        let p = prefix.last();
        let n = path.len() - 1;
        assert(g.enterable(blocked, path[n]) && g.steps_to(path[n - 1], path[n]));
        let d = lemma_step_direction(g, p, path.last());
        let s2 = choose|s2: int| 0 <= s2 < srcs.len() && #[trigger] g.reach(blocked, srcs[s2], p, k);
        lemma_reach_step(g, blocked, srcs[s2], p, d, k);
        assert(g.reached(blocked, srcs, path.last(), k + 1));
    }
}

/// When layer `k + 1` is empty, nothing is reached later than in `k` moves.
pub proof fn lemma_empty_layer(g: GameView, blocked: Set<Coord>, srcs: Seq<Coord>, k: int)
    requires
        0 <= k,
        g.is_layer(blocked, srcs, k + 1, Seq::empty()),
    ensures
        forall|c: Coord, j: int| #[trigger] g.reached(blocked, srcs, c, j) ==> g.reached(blocked, srcs, c, k),
{
    assert forall|c: Coord| #[trigger] g.reached(blocked, srcs, c, k + 1) implies g.reached(blocked, srcs, c, k) by {
        if !g.reached(blocked, srcs, c, k) {
            let s = choose|s: int| 0 <= s < srcs.len() && #[trigger] g.reach(blocked, srcs[s], c, k + 1);
            assert(g.fresh(blocked, srcs, s, c, k + 1));
        }
    }
    assert forall|c: Coord, j: int| #[trigger] g.reached(blocked, srcs, c, j) implies g.reached(blocked, srcs, c, k) by {
        let s = choose|s: int| 0 <= s < srcs.len() && #[trigger] g.reach(blocked, srcs[s], c, j);
        let path = choose|path: Seq<Coord>|
            #[trigger] g.is_path(blocked, srcs[s], path) && path.last() == c && path.len() <= j + 1;
        lemma_stable(g, blocked, srcs, k, s, path);
    }
}

/// The most moves a path search may count: five for each still fits a `u32`
/// (`u32::MAX / 5`).
pub const PATH_SEARCH_LIMIT: u32 = 858_993_459;

impl GameView {
    /// Every square that a search from `srcs` reaches at all, it reaches
    /// within `limit` moves.
    pub open spec fn settles(self, blocked: Set<Coord>, srcs: Seq<Coord>, limit: int) -> bool {
        forall|c: Coord, j: int| #[trigger] self.reached(blocked, srcs, c, j) ==> self.reached(blocked, srcs, c, limit)
    }

    /// A search from `start` for `end` is over within `limit` moves: `end`
    /// is `start`, or is reached in fewer than `limit` moves, or every square
    /// that the search reaches is reached within `limit` moves.
    pub open spec fn search_ends_within(self, start: Coord, end: Coord, limit: int) -> bool {
        ||| start == end
        ||| self.reach(Set::empty(), start, end, limit - 1)
        ||| self.settles(Set::empty(), seq![start], limit)
    }
}

/// A search that settles within `j` moves settles within `k >= j`.
pub proof fn lemma_settles_mono(g: GameView, blocked: Set<Coord>, srcs: Seq<Coord>, j: int, k: int)
    requires
        j <= k,
        g.settles(blocked, srcs, j),
    ensures
        g.settles(blocked, srcs, k),
{
    assert forall|c: Coord, i: int| #[trigger] g.reached(blocked, srcs, c, i) implies g.reached(blocked, srcs, c, k) by {
        lemma_reached_mono(g, blocked, srcs, c, j, k);
    }
}

/// A square first reached `k` moves out by a search that settles within
/// `limit` moves lies within the limit.
pub proof fn lemma_settles_fresh(g: GameView, blocked: Set<Coord>, srcs: Seq<Coord>, limit: int, s: int, c: Coord, k: int)
    requires
        0 <= limit,
        0 <= s < srcs.len(),
        g.settles(blocked, srcs, limit),
        g.fresh(blocked, srcs, s, c, k),
    ensures
        k <= limit,
{
    assert(g.reached(blocked, srcs, c, k));
    if k > limit {
        assert(g.reached(blocked, srcs, c, limit));
        lemma_reached_mono(g, blocked, srcs, c, limit, k - 1);
    }
}

/// A square that a snake controls lies within the limit of a territory
/// search that settles.
pub proof fn lemma_controls_within(g: GameView, ex: Set<Coord>, s: int, c: Coord, d: int, limit: int)
    requires
        0 <= limit,
        g.settles(g.territory_blocked(ex), g.heads(), limit),
        g.controls(ex, s, c, d),
    ensures
        0 <= d <= limit,
{
    if d > 0 {
        lemma_settles_fresh(g, g.territory_blocked(ex), g.heads(), limit, s, c, d);
    }
}

/// A search whose layer `k + 1` is empty settles within every limit from
/// `k` on.
pub proof fn lemma_settled(g: GameView, blocked: Set<Coord>, srcs: Seq<Coord>, k: int, limit: int)
    requires
        0 <= k <= limit,
        g.is_layer(blocked, srcs, k + 1, Seq::empty()),
    ensures
        g.settles(blocked, srcs, limit),
{
    lemma_empty_layer(g, blocked, srcs, k);
    lemma_settles_mono(g, blocked, srcs, k, limit);
}

/// A search whose layer `limit + 1` has an entry does not settle within
/// `limit` moves.
pub proof fn lemma_unsettled(g: GameView, blocked: Set<Coord>, srcs: Seq<Coord>, limit: int, next: Seq<(usize, Coord)>)
    requires
        0 <= limit,
        g.is_layer(blocked, srcs, limit + 1, next),
        next.len() > 0,
    ensures
        !g.settles(blocked, srcs, limit),
{
    let o = next[0].0;
    let c = next[0].1;
    assert(g.fresh(blocked, srcs, o as int, c, limit + 1));
    assert(g.reached(blocked, srcs, c, limit + 1));
}

/// A search over within `j` moves is over within `k >= j`.
pub proof fn lemma_search_ends_mono(g: GameView, start: Coord, end: Coord, j: int, k: int)
    requires
        j <= k,
        g.search_ends_within(start, end, j),
    ensures
        g.search_ends_within(start, end, k),
{
    if start != end {
        if g.reach(Set::empty(), start, end, j - 1) {
            lemma_reach_mono(g, Set::empty(), start, end, j - 1, k - 1);
        } else {
            lemma_settles_mono(g, Set::empty(), seq![start], j, k);
        }
    }
}

/// Whether some entry of `f` is the square `c`.
fn layer_contains(f: &Vec<(usize, Coord)>, c: &Coord) -> (b: bool)
    ensures
        b == exists|i: int| 0 <= i < f@.len() && (#[trigger] f@[i]).1 == *c,
{
    let mut i: usize = 0;
    while i < f.len()
        invariant
            i <= f@.len(),
            forall|j: int| 0 <= j < i ==> (#[trigger] f@[j]).1 != *c,
        decreases f@.len() - i,
    {
        if f[i].1 == *c {
            return true;
        }
        i = i + 1;
    }
    false
}

impl GameView {
    /// The fewest moves from `start` to `end` over valid and safe squares.
    #[verifier::opaque]
    pub open spec fn fewest_moves(self, start: Coord, end: Coord) -> Option<int> {
        if exists|k: int| 0 <= k && #[trigger] self.reach(Set::empty(), start, end, k) {
            Some(choose|k: int| 0 <= k && #[trigger] self.reach(Set::empty(), start, end, k)
                && forall|j: int| 0 <= j < k ==> !self.reach(Set::empty(), start, end, j))
        } else {
            None
        }
    }

    /// `v` is what the cheapest path from `c` to some food costs.
    pub open spec fn is_nearest_food_cost(self, c: Coord, v: u32) -> bool {
        &&& exists|f: Coord| #[trigger] self.board.food.contains(f) && self.path_cost(c, f) == Some(v)
        &&& forall|f: Coord| #[trigger] self.board.food.contains(f) && self.path_cost(c, f) is Some
            ==> v <= self.path_cost(c, f).unwrap()
    }

    /// The cost of the cheapest path from `c` to some food.
    pub open spec fn nearest_food_cost(self, c: Coord) -> Option<u32> {
        if exists|f: Coord| #[trigger] self.board.food.contains(f) && self.path_cost(c, f) is Some {
            Some(choose|v: u32| #[trigger] self.is_nearest_food_cost(c, v))
        } else {
            None
        }
    }

    /// What a path from `start` to `end` costs: five for each move.
    pub open spec fn path_cost(self, start: Coord, end: Coord) -> Option<u32> {
        match self.fewest_moves(start, end) {
            Some(k) => Some((5 * k) as u32),
            None => None,
        }
    }
}


/// The entries of a search layer, each given the distance `d`.
pub open spec fn layer_claims(f: Seq<(usize, Coord)>, d: u32) -> Seq<(usize, Coord, u32)> {
    f.map_values(|e: (usize, Coord)| (e.0, e.1, d))
}

/// No snake holds the same square twice in `claims`.
pub open spec fn claims_distinct(claims: Seq<(usize, Coord, u32)>) -> bool {
    forall|i: int, j: int|
        0 <= i < claims.len() && 0 <= j < claims.len() && i != j && (#[trigger] claims[i]).0 == (#[trigger] claims[j]).0
        ==> claims[i].1 != claims[j].1
}

impl GameView {
    /// The heads of the snakes, in the order of the snakes.
    pub open spec fn heads(self) -> Seq<Coord> {
        self.board.snakes.map_values(|s: Battlesnake| s.head)
    }

    /// The squares that no snake may claim: the excluded ones and the heads.
    pub open spec fn territory_blocked(self, exclusions: Set<Coord>) -> Set<Coord> {
        exclusions.union(self.heads().to_set())
    }

    /// Snake `s` controls square `c`, `d` moves from its head: `c` is its
    /// head and `d` is 0, or no snake reaches `c` in fewer than `d` moves
    /// and no snake before `s` reaches it in `d`, while `s` does. Searches
    /// enter valid and safe squares other than heads and `exclusions`.
    pub open spec fn controls(self, exclusions: Set<Coord>, s: int, c: Coord, d: int) -> bool {
        let blocked = self.territory_blocked(exclusions);
        let srcs = self.heads();
        &&& 0 <= s < srcs.len()
        &&& if d == 0 {
            c == srcs[s]
        } else {
            &&& d > 0
            &&& self.fresh(blocked, srcs, s, c, d)
            &&& forall|t: int| 0 <= t < s ==> !self.reach(blocked, srcs[t], c, d)
        }
    }

    /// The squares that snake `s` controls.
    pub open spec fn controlled(self, exclusions: Set<Coord>, s: int) -> Set<Coord> {
        Set::new(|c: Coord| exists|d: int| #[trigger] self.controls(exclusions, s, c, d))
    }

    /// `d` is the distance of the nearest square of `targets` that snake `s`
    /// controls, its head not counted.
    pub open spec fn is_nearest_controlled(self, exclusions: Set<Coord>, s: int, targets: Set<Coord>, d: u32) -> bool {
        &&& d > 0
        &&& exists|c: Coord| #[trigger] targets.contains(c) && self.controls(exclusions, s, c, d as int)
        &&& forall|c: Coord, d2: int|
            #![trigger self.controls(exclusions, s, c, d2)]
            targets.contains(c) && self.controls(exclusions, s, c, d2) && d2 > 0 ==> d <= d2
    }

    /// The distance of the nearest square of `targets` that snake `s`
    /// controls, its head not counted.
    pub open spec fn nearest_controlled(self, exclusions: Set<Coord>, s: int, targets: Set<Coord>) -> Option<u32> {
        if exists|c: Coord, d: int| #[trigger] self.controls(exclusions, s, c, d) && d > 0 && targets.contains(c) {
            Some(choose|d: u32| #[trigger] self.is_nearest_controlled(exclusions, s, targets, d))
        } else {
            None
        }
    }

    /// No two snakes share an id.
    pub open spec fn snake_ids_distinct(self) -> bool {
        forall|i: int, j: int|
            0 <= i < self.board.snakes.len() && 0 <= j < self.board.snakes.len() && i != j
            ==> (#[trigger] self.board.snakes[i]).id@ != (#[trigger] self.board.snakes[j]).id@
    }

    /// Every snake's head has computable neighbours.
    pub open spec fn heads_defined(self) -> bool {
        forall|s: int| 0 <= s < self.board.snakes.len() ==> self.neighbours_defined(#[trigger] self.board.snakes[s].head)
    }
}

/// Entry `m` of layer `k + 1` of the territory search is controlled by its owner.
proof fn lemma_layer_controls(g: GameView, exclusions: Set<Coord>, k: int, next: Seq<(usize, Coord)>, m: int)
    requires
        0 <= k,
        g.is_layer(g.territory_blocked(exclusions), g.heads(), k + 1, next),
        coords_of(next).no_duplicates(),
        0 <= m < next.len(),
    ensures
        g.controls(exclusions, next[m].0 as int, next[m].1, k + 1),
{
    let blocked = g.territory_blocked(exclusions);
    let srcs = g.heads();
    let o = next[m].0 as int;
    let c = next[m].1;
    assert(g.fresh(blocked, srcs, o, c, k + 1));
    assert forall|t: int| 0 <= t < o implies !g.reach(blocked, srcs[t], c, k + 1) by {
        if g.reach(blocked, srcs[t], c, k + 1) {
            assert(g.fresh(blocked, srcs, t, c, k + 1));
            let m2 = choose|m2: int| 0 <= m2 < next.len() && (#[trigger] next[m2]).1 == c && next[m2].0 <= t;
            assert(coords_of(next)[m2] == coords_of(next)[m]);
        }
    }
}


/// Appending layer `k + 1` to the claims keeps them sound, complete up to
/// `k + 1`, held in the visited squares, and free of repeats.
#[verifier::spinoff_prover]
#[verifier::rlimit(50)]
proof fn lemma_extend_claims(
    g: GameView,
    ex: Set<Coord>,
    k: int,
    before: Seq<Coord>,
    visited: Seq<Coord>,
    next: Seq<(usize, Coord)>,
    cb: Seq<(usize, Coord, u32)>,
    claims: Seq<(usize, Coord, u32)>,
)
    requires
        0 <= k < u32::MAX,
        g.is_layer(g.territory_blocked(ex), g.heads(), k + 1, next),
        visited == before + coords_of(next),
        visited.no_duplicates(),
        claims == cb + layer_claims(next, (k + 1) as u32),
        forall|i: int| 0 <= i < cb.len() ==> (#[trigger] cb[i]).0 < g.heads().len()
            && g.controls(ex, cb[i].0 as int, cb[i].1, cb[i].2 as int)
            && cb[i].2 <= k,
        forall|t: int, c: Coord, d: int| 0 <= d <= k && #[trigger] g.controls(ex, t, c, d)
            ==> exists|i: int| 0 <= i < cb.len() && cb[i] == (t as usize, c, d as u32),
        claims_distinct(cb),
        forall|i: int| 0 <= i < cb.len() ==> before.contains((#[trigger] cb[i]).1),
    ensures
        forall|i: int| 0 <= i < claims.len() ==> (#[trigger] claims[i]).0 < g.heads().len()
            && g.controls(ex, claims[i].0 as int, claims[i].1, claims[i].2 as int)
            && claims[i].2 <= k + 1,
        forall|t: int, c: Coord, d: int| 0 <= d <= k + 1 && #[trigger] g.controls(ex, t, c, d)
            ==> exists|i: int| 0 <= i < claims.len() && claims[i] == (t as usize, c, d as u32),
        claims_distinct(claims),
        forall|i: int| 0 <= i < claims.len() ==> visited.contains((#[trigger] claims[i]).1),
{
    let blocked = g.territory_blocked(ex);
    let srcs = g.heads();
    let d = (k + 1) as u32;
    let lc = layer_claims(next, d);
    let nc = coords_of(next);
    assert(nc.no_duplicates()) by {
        assert forall|a: int, b: int| 0 <= a < b < nc.len() implies nc[a] != nc[b] by {
            assert(visited[before.len() + a] == nc[a]);
            assert(visited[before.len() + b] == nc[b]);
        }
    }
    assert forall|m: int| 0 <= m < next.len() implies !before.contains(#[trigger] nc[m]) by {
        assert(visited[before.len() + m] == nc[m]);
        if before.contains(nc[m]) {
            let j = before.index_of(nc[m]);
            assert(visited[j] == nc[m]);
        }
    }
    assert forall|i: int| 0 <= i < claims.len() implies (#[trigger] claims[i]).0 < srcs.len()
        && g.controls(ex, claims[i].0 as int, claims[i].1, claims[i].2 as int)
        && claims[i].2 <= k + 1 by {
        if i >= cb.len() {
            let m2 = i - cb.len();
            assert(claims[i] == lc[m2]);
            lemma_layer_controls(g, ex, k, next, m2);
        } else {
            assert(claims[i] == cb[i]);
        }
    }
    assert forall|t: int, c: Coord, dd: int| 0 <= dd <= k + 1 && #[trigger] g.controls(ex, t, c, dd)
        implies exists|i: int| 0 <= i < claims.len() && claims[i] == (t as usize, c, dd as u32) by {
        if dd == k + 1 {
            assert(g.fresh(blocked, srcs, t, c, k + 1));
            let m2 = choose|m2: int| 0 <= m2 < next.len() && (#[trigger] next[m2]).1 == c && next[m2].0 <= t;
            assert(g.fresh(blocked, srcs, next[m2].0 as int, c, k + 1));
            assert(next[m2].0 == t);
            assert(claims[cb.len() + m2] == lc[m2]);
        } else {
            let i = choose|i: int| 0 <= i < cb.len() && cb[i] == (t as usize, c, dd as u32);
            assert(claims[i] == cb[i]);
        }
    }
    assert forall|i: int| 0 <= i < claims.len() implies visited.contains((#[trigger] claims[i]).1) by {
        if i >= cb.len() {
            let m2 = i - cb.len();
            assert(claims[i] == lc[m2]);
            assert(visited[before.len() + m2] == nc[m2]);
        } else {
            assert(claims[i] == cb[i]);
            assert(before.contains(cb[i].1));
            assert(visited[before.index_of(cb[i].1)] == cb[i].1);
        }
    }
    assert forall|i: int, j: int|
        0 <= i < claims.len() && 0 <= j < claims.len() && i != j && (#[trigger] claims[i]).0 == (#[trigger] claims[j]).0
        implies claims[i].1 != claims[j].1 by {
        if i >= cb.len() && j >= cb.len() {
            assert(claims[i] == lc[i - cb.len()] && claims[j] == lc[j - cb.len()]);
            assert(nc[i - cb.len()] != nc[j - cb.len()]);
        } else if i >= cb.len() {
            assert(claims[i] == lc[i - cb.len()] && claims[j] == cb[j]);
            assert(before.contains(cb[j].1));
            assert(!before.contains(nc[i - cb.len()]));
        } else if j >= cb.len() {
            assert(claims[j] == lc[j - cb.len()] && claims[i] == cb[i]);
            assert(before.contains(cb[i].1));
            assert(!before.contains(nc[j - cb.len()]));
        } else {
            assert(claims[i] == cb[i] && claims[j] == cb[j]);
        }
    }
}


/// The squares of a list of controlled squares.
pub open spec fn square_coords(own: Seq<Square>) -> Seq<Coord> {
    own.map_values(|q: Square| q.coord)
}

/// Claim `i` is snake `s`'s, at a distance above 0, on a square of `targets`.
pub open spec fn claim_hits(claims: Seq<(usize, Coord, u32)>, i: int, s: int, targets: Set<Coord>) -> bool {
    claims[i].0 == s && claims[i].2 > 0 && targets.contains(claims[i].1)
}

impl GameView {
    /// `own` lists exactly the squares that snake `s` controls, each once,
    /// with its distance and the snake's id.
    pub open spec fn squares_match(self, exclusions: Set<Coord>, s: int, own: Seq<Square>) -> bool {
        &&& forall|j: int| 0 <= j < own.len() ==> (#[trigger] own[j]).owner@ == self.board.snakes[s].id@
            && self.controls(exclusions, s, own[j].coord, own[j].distance as int)
        &&& forall|c: Coord, d: int| #[trigger] self.controls(exclusions, s, c, d)
            ==> exists|j: int| 0 <= j < own.len() && own[j].coord == c && own[j].distance == d
        &&& square_coords(own).no_duplicates()
    }
}

/// A list that matches snake `s`'s controlled squares is as long as the set
/// of those squares.
pub proof fn lemma_squares_count(g: GameView, exclusions: Set<Coord>, s: int, own: Seq<Square>)
    requires
        g.squares_match(exclusions, s, own),
    ensures
        own.len() == g.controlled(exclusions, s).len(),
        g.controlled(exclusions, s).finite(),
{
    let sc = square_coords(own);
    sc.unique_seq_to_set();
    assert(sc.to_set() =~= g.controlled(exclusions, s)) by {
        assert forall|c: Coord| sc.to_set().contains(c) implies g.controlled(exclusions, s).contains(c) by {
            let j = choose|j: int| 0 <= j < sc.len() && sc[j] == c;
            assert(own[j].coord == c);
            assert(g.controls(exclusions, s, own[j].coord, own[j].distance as int));
        }
        assert forall|c: Coord| g.controlled(exclusions, s).contains(c) implies sc.to_set().contains(c) by {
            let d = choose|d: int| #[trigger] g.controls(exclusions, s, c, d);
            let j = choose|j: int| 0 <= j < own.len() && own[j].coord == c && own[j].distance == d;
            assert(sc[j] == c);
        }
    }
}

/// When the territory search runs out of squares after layer `k`, it settles,
/// and the claims of the first `k` layers hold every square that a snake
/// controls.
proof fn lemma_claims_complete(g: GameView, ex: Set<Coord>, k: int, limit: int, claims: Seq<(usize, Coord, u32)>)
    requires
        0 <= k <= limit,
        g.is_layer(g.territory_blocked(ex), g.heads(), k + 1, Seq::empty()),
        forall|t: int, c: Coord, d: int| 0 <= d <= k && #[trigger] g.controls(ex, t, c, d)
            ==> exists|i: int| 0 <= i < claims.len() && claims[i] == (t as usize, c, d as u32),
    ensures
        g.settles(g.territory_blocked(ex), g.heads(), limit),
        forall|t: int, c: Coord, d: int| #[trigger] g.controls(ex, t, c, d)
            ==> 0 <= d <= limit && exists|i: int| 0 <= i < claims.len() && claims[i] == (t as usize, c, d as u32),
{
    let blocked = g.territory_blocked(ex);
    let srcs = g.heads();
    lemma_settled(g, blocked, srcs, k, limit);
    lemma_empty_layer(g, blocked, srcs, k);
    assert forall|t: int, c: Coord, d: int| #[trigger] g.controls(ex, t, c, d)
        implies 0 <= d <= limit && exists|i: int| 0 <= i < claims.len() && claims[i] == (t as usize, c, d as u32) by {
        if d > k {
            assert(g.reach(blocked, srcs[t], c, d));
            assert(g.reached(blocked, srcs, c, d));
            assert(g.reached(blocked, srcs, c, k));
            lemma_reached_mono(g, blocked, srcs, c, k, d - 1);
        }
    }
}

/// The least distance among the claims of snake `s` on squares of `targets`.
fn nearest_claim(claims: &Vec<(usize, Coord, u32)>, s: usize, targets: &Vec<Coord>) -> (r: Option<u32>)
    ensures
        r is None <==> forall|i: int| 0 <= i < claims@.len() ==> !#[trigger] claim_hits(claims@, i, s as int, targets@.to_set()),
        r matches Some(v) ==> exists|i: int| 0 <= i < claims@.len() && #[trigger] claim_hits(claims@, i, s as int, targets@.to_set()) && claims@[i].2 == v,
        r matches Some(v) ==> forall|i: int| 0 <= i < claims@.len() && #[trigger] claim_hits(claims@, i, s as int, targets@.to_set()) ==> v <= claims@[i].2,
{
    let mut best: Option<u32> = None;
    let mut i: usize = 0;
    while i < claims.len()
        invariant
            i <= claims@.len(),
            best is None <==> forall|j: int| 0 <= j < i ==> !#[trigger] claim_hits(claims@, j, s as int, targets@.to_set()),
            best matches Some(v) ==> exists|j: int| 0 <= j < i && #[trigger] claim_hits(claims@, j, s as int, targets@.to_set()) && claims@[j].2 == v,
            best matches Some(v) ==> forall|j: int| 0 <= j < i && #[trigger] claim_hits(claims@, j, s as int, targets@.to_set()) ==> v <= claims@[j].2,
        decreases claims@.len() - i,
    {
        let (o, c, d) = claims[i];
        if o == s && d > 0 && coords_contain(targets, &c) {
            if best.is_none() || d < best.unwrap() {
                best = Some(d);
            }
        }
        proof {
            assert(claim_hits(claims@, i as int, s as int, targets@.to_set()) == (o == s && d > 0 && targets@.to_set().contains(c)));
        }
        i = i + 1;
    }
    best
}


/// The least claim of snake `s` on `targets` is the distance of the nearest
/// square of `targets` that `s` controls.
proof fn lemma_nearest_claim(
    g: GameView,
    ex: Set<Coord>,
    claims: Seq<(usize, Coord, u32)>,
    s: int,
    targets: Set<Coord>,
    r: Option<u32>,
)
    requires
        forall|i: int| 0 <= i < claims.len() ==> (#[trigger] claims[i]).0 < g.heads().len()
            && g.controls(ex, claims[i].0 as int, claims[i].1, claims[i].2 as int),
        forall|t: int, c: Coord, d: int| #[trigger] g.controls(ex, t, c, d)
            ==> 0 <= d <= u32::MAX && exists|i: int| 0 <= i < claims.len() && claims[i] == (t as usize, c, d as u32),
        r is None <==> forall|i: int| 0 <= i < claims.len() ==> !#[trigger] claim_hits(claims, i, s, targets),
        r matches Some(v) ==> exists|i: int| 0 <= i < claims.len() && #[trigger] claim_hits(claims, i, s, targets) && claims[i].2 == v,
        r matches Some(v) ==> forall|i: int| 0 <= i < claims.len() && #[trigger] claim_hits(claims, i, s, targets) ==> v <= claims[i].2,
        0 <= s,
    ensures
        r == g.nearest_controlled(ex, s, targets),
        r matches Some(v) ==> exists|c: Coord| #[trigger] targets.contains(c) && g.controls(ex, s, c, v as int),
{
    match r {
        Some(v) => {
            let i = choose|i: int| 0 <= i < claims.len() && #[trigger] claim_hits(claims, i, s, targets) && claims[i].2 == v;
            assert(g.controls(ex, s, claims[i].1, v as int));
            assert(targets.contains(claims[i].1));
            assert(g.is_nearest_controlled(ex, s, targets, v)) by {
                assert forall|c: Coord, d2: int|
                    #![trigger g.controls(ex, s, c, d2)]
                    targets.contains(c) && g.controls(ex, s, c, d2) && d2 > 0 implies v <= d2 by {
                    assert(0 <= d2 <= u32::MAX);
                    let i2 = choose|i2: int| 0 <= i2 < claims.len() && claims[i2] == (s as usize, c, d2 as u32);
                    assert(claims[i2].2 == d2);
                    assert(claim_hits(claims, i2, s, targets));
                }
            }
            let w = choose|w: u32| #[trigger] g.is_nearest_controlled(ex, s, targets, w);
            let cw = choose|c: Coord| #[trigger] targets.contains(c) && g.controls(ex, s, c, w as int);
            let i3 = choose|i3: int| 0 <= i3 < claims.len() && claims[i3] == (s as usize, cw, w as u32);
            assert(claim_hits(claims, i3, s, targets));
            assert(v <= w);
        },
        None => {
            assert forall|c: Coord, d: int| #[trigger] g.controls(ex, s, c, d) && d > 0 implies !targets.contains(c) by {
                assert(0 <= d <= u32::MAX);
                let i = choose|i: int| 0 <= i < claims.len() && claims[i] == (s as usize, c, d as u32);
                assert(!claim_hits(claims, i, s, targets));
            }
        },
    }
}


/// No two snakes control the same square, but for a head that both share.
pub proof fn lemma_territories_disjoint(g: GameView, ex: Set<Coord>, s: int, t: int, c: Coord, d1: int, d2: int)
    requires
        g.controls(ex, s, c, d1),
        g.controls(ex, t, c, d2),
        s != t,
    ensures
        d1 == 0 && d2 == 0,
        c == g.heads()[s] && c == g.heads()[t],
{
    let blocked = g.territory_blocked(ex);
    let srcs = g.heads();
    if d1 > 0 || d2 > 0 {
        // A square is first reached at one distance only.
        assert forall|a: int, x: int, b: int, y: int|
            #![trigger g.controls(ex, x, c, a), g.controls(ex, y, c, b)]
            g.controls(ex, x, c, a) && g.controls(ex, y, c, b) && a > 0 && a < b ==> false by {
            if g.controls(ex, x, c, a) && g.controls(ex, y, c, b) && a > 0 && a < b {
                assert(g.reached(blocked, srcs, c, a));
                lemma_reached_mono(g, blocked, srcs, c, a, b - 1);
            }
        }
        assert forall|x: int, y: int, b: int|
            #![trigger g.controls(ex, x, c, 0), g.controls(ex, y, c, b)]
            g.controls(ex, x, c, 0) && g.controls(ex, y, c, b) && b > 0 ==> false by {
            if g.controls(ex, x, c, 0) && g.controls(ex, y, c, b) && b > 0 {
                lemma_reach_source(g, blocked, srcs[x]);
                assert(g.reached(blocked, srcs, c, 0));
                lemma_reached_mono(g, blocked, srcs, c, 0, b - 1);
            }
        }
        if d1 > 0 && d2 > 0 && d1 == d2 {
            if s < t {
                assert(g.reach(blocked, srcs[s], c, d1));
            } else {
                assert(g.reach(blocked, srcs[t], c, d2));
            }
        }
        if d1 == 0 {
            assert(false);
        } else if d2 == 0 {
            assert(false);
        } else if d1 < d2 {
            assert(false);
        } else if d2 < d1 {
            assert(false);
        }
    }
}

/// Which snake controls a square, and how far from its head. A snake
/// controls its own head at distance 0. Any other square it controls at
/// distance `d > 0` exactly when its head reaches the square in `d` moves,
/// no head reaches it in fewer, and no snake before it on the board reaches
/// it in `d`; the moves enter only valid and safe squares that are neither
/// excluded nor a head.
pub proof fn lemma_controls_nearest_head(g: GameView, ex: Set<Coord>, blocked: Set<Coord>, s: int, c: Coord, d: int)
    requires
        0 <= s < g.board.snakes.len(),
        forall|x: Coord| #[trigger] blocked.contains(x)
            <==> (ex.contains(x) || exists|t: int| 0 <= t < g.board.snakes.len() && g.board.snakes[t].head == x),
    ensures
        g.controls(ex, s, c, 0) <==> c == g.board.snakes[s].head,
        d > 0 ==> (g.controls(ex, s, c, d) <==> {
            &&& g.reach(blocked, g.board.snakes[s].head, c, d)
            &&& forall|t: int| 0 <= t < g.board.snakes.len() ==> !#[trigger] g.reach(blocked, g.board.snakes[t].head, c, d - 1)
            &&& forall|t: int| 0 <= t < s ==> !#[trigger] g.reach(blocked, g.board.snakes[t].head, c, d)
        }),
{
    let snakes = g.board.snakes;
    let srcs = g.heads();
    let heads_set = Set::new(|x: Coord| exists|t: int| 0 <= t < snakes.len() && snakes[t].head == x);
    assert(srcs.len() == snakes.len());
    assert forall|t: int| 0 <= t < snakes.len() implies #[trigger] srcs[t] == snakes[t].head by {}
    assert(srcs.to_set() =~= heads_set) by {
        assert forall|x: Coord| srcs.to_set().contains(x) implies heads_set.contains(x) by {
            let t = choose|t: int| 0 <= t < srcs.len() && srcs[t] == x;
            assert(snakes[t].head == x);
        }
        assert forall|x: Coord| heads_set.contains(x) implies srcs.to_set().contains(x) by {
            let t = choose|t: int| 0 <= t < snakes.len() && snakes[t].head == x;
            assert(srcs[t] == x);
        }
    }
    assert(blocked =~= g.territory_blocked(ex));
    assert(blocked == g.territory_blocked(ex));
    if d > 0 {
        let rhs = g.reach(blocked, snakes[s].head, c, d)
            && (forall|t: int| 0 <= t < snakes.len() ==> !#[trigger] g.reach(blocked, snakes[t].head, c, d - 1))
            && (forall|t: int| 0 <= t < s ==> !#[trigger] g.reach(blocked, snakes[t].head, c, d));
        if g.controls(ex, s, c, d) {
            assert(g.fresh(blocked, srcs, s, c, d));
            assert(g.reach(blocked, srcs[s], c, d));
            assert forall|t: int| 0 <= t < snakes.len() implies !#[trigger] g.reach(blocked, snakes[t].head, c, d - 1) by {
                if g.reach(blocked, snakes[t].head, c, d - 1) {
                    assert(g.reach(blocked, srcs[t], c, d - 1));
                    assert(g.reached(blocked, srcs, c, d - 1));
                }
            }
            assert forall|t: int| 0 <= t < s implies !#[trigger] g.reach(blocked, snakes[t].head, c, d) by {
                assert(!g.reach(blocked, srcs[t], c, d));
            }
            assert(rhs);
        }
        if rhs {
            assert(g.reach(blocked, srcs[s], c, d));
            if g.reached(blocked, srcs, c, d - 1) {
                let t = choose|t: int| 0 <= t < srcs.len() && #[trigger] g.reach(blocked, srcs[t], c, d - 1);
                assert(g.reach(blocked, snakes[t].head, c, d - 1));
            }
            assert(g.fresh(blocked, srcs, s, c, d));
            assert forall|t: int| 0 <= t < s implies !g.reach(blocked, srcs[t], c, d) by {
                assert(!g.reach(blocked, snakes[t].head, c, d));
            }
            assert(g.controls(ex, s, c, d));
        }
    }
}

/// A least distance exists among the squares of `targets` that snake `s`
/// controls away from its head, when one is controlled at `d0`.
proof fn lemma_nearest_controlled_exists(g: GameView, ex: Set<Coord>, s: int, targets: Set<Coord>, c0: Coord, d0: int)
    requires
        0 < d0 <= u32::MAX,
        targets.contains(c0),
        g.controls(ex, s, c0, d0),
    ensures
        exists|v: u32| #[trigger] g.is_nearest_controlled(ex, s, targets, v),
    decreases d0,
{
    if exists|c: Coord, d: int| #![trigger g.controls(ex, s, c, d)] targets.contains(c) && g.controls(ex, s, c, d) && 0 < d < d0 {
        let (c, d) = choose|c: Coord, d: int| #![trigger g.controls(ex, s, c, d)] targets.contains(c) && g.controls(ex, s, c, d) && 0 < d < d0;
        lemma_nearest_controlled_exists(g, ex, s, targets, c, d);
    } else {
        assert(g.is_nearest_controlled(ex, s, targets, d0 as u32));
    }
}

/// What the nearest controlled square of `targets` is: when snake `s`
/// controls some square of `targets` away from its head (and the territory
/// search settles within `u32::MAX` moves), it is the least distance of
/// such a square; otherwise there is none.
pub proof fn lemma_nearest_controlled_least(g: GameView, ex: Set<Coord>, s: int, targets: Set<Coord>)
    requires
        g.settles(g.territory_blocked(ex), g.heads(), u32::MAX as int),
    ensures
        g.nearest_controlled(ex, s, targets) is None <==> forall|c: Coord, d: int|
            #![trigger g.controls(ex, s, c, d)] targets.contains(c) && g.controls(ex, s, c, d) ==> d == 0,
        g.nearest_controlled(ex, s, targets) matches Some(v) ==> {
            &&& v > 0
            &&& exists|c: Coord| #[trigger] targets.contains(c) && g.controls(ex, s, c, v as int)
            &&& forall|c: Coord, d: int| #![trigger g.controls(ex, s, c, d)]
                targets.contains(c) && g.controls(ex, s, c, d) && d > 0 ==> v <= d
        },
{
    if exists|c: Coord, d: int| #[trigger] g.controls(ex, s, c, d) && d > 0 && targets.contains(c) {
        let (c, d) = choose|c: Coord, d: int| #[trigger] g.controls(ex, s, c, d) && d > 0 && targets.contains(c);
        lemma_controls_within(g, ex, s, c, d, u32::MAX as int);
        lemma_nearest_controlled_exists(g, ex, s, targets, c, d);
    }
}

/// The cheapest way from a square to itself costs nothing.
pub proof fn lemma_path_cost_to_itself(g: GameView, c: Coord)
    ensures
        g.fewest_moves(c, c) == Some(0int),
        g.path_cost(c, c) == Some(0u32),
{
    reveal(GameView::fewest_moves);
    lemma_reach_source(g, Set::empty(), c);
    let k = choose|k: int| 0 <= k && #[trigger] g.reach(Set::empty(), c, c, k)
        && forall|j: int| 0 <= j < k ==> !g.reach(Set::empty(), c, c, j);
    assert(k == 0);
}

impl GameState {
    /// Expands layer `k` of a search: enters, in order, every valid and safe
    /// square next to an entry of `frontier` that is not yet visited, and
    /// gives it the owner of that entry.
    fn expand_layer(
        &self,
        Ghost(blocked): Ghost<Set<Coord>>,
        Ghost(srcs): Ghost<Seq<Coord>>,
        Ghost(k): Ghost<int>,
        frontier: &Vec<(usize, Coord)>,
        visited: &mut Vec<Coord>,
    ) -> (next: Vec<(usize, Coord)>)
        requires
            0 <= k,
            self@.is_layer(blocked, srcs, k, frontier@),
            self@.visited_ok(blocked, srcs, k, old(visited)@),
            old(visited)@.no_duplicates(),
            forall|i: int| 0 <= i < frontier@.len() ==> self@.neighbours_defined(#[trigger] frontier@[i].1),
        ensures
            self@.is_layer(blocked, srcs, k + 1, next@),
            self@.visited_ok(blocked, srcs, k + 1, final(visited)@),
            final(visited)@.no_duplicates(),
            final(visited)@ == old(visited)@ + coords_of(next@),
            forall|m: int| 0 <= m < next@.len() ==> self@.valid_safe(#[trigger] next@[m].1),
    {
        let ghost g = self@;
        let ghost v0 = visited@;
        let dirs = all_directions();
        let mut next: Vec<(usize, Coord)> = Vec::new();
        let mut i: usize = 0;
        assert(visited@ =~= v0 + coords_of(next@));
        while i < frontier.len()
            invariant
                g == self@,
                0 <= k,
                i <= frontier@.len(),
                dirs@ == direction_order(),
                g.is_layer(blocked, srcs, k, frontier@),
                g.visited_ok(blocked, srcs, k, v0),
                v0.no_duplicates(),
                forall|i2: int| 0 <= i2 < frontier@.len() ==> g.neighbours_defined(#[trigger] frontier@[i2].1),
                visited@ == v0 + coords_of(next@),
                visited@.no_duplicates(),
                g.claims_ok(blocked, srcs, k, v0, next@),
                owners_sorted(next@),
                i < frontier@.len() ==> forall|m: int| 0 <= m < next@.len() ==> (#[trigger] next@[m]).0 <= frontier@[i as int].0,
                g.covers(frontier@, i as int, visited@),
            decreases frontier@.len() - i,
        {
            let (owner, from) = frontier[i];
            let mut j: usize = 0;
            while j < dirs.len()
                invariant
                    g == self@,
                    0 <= k,
                    i < frontier@.len(),
                    j <= 4,
                    owner == frontier@[i as int].0,
                    from == frontier@[i as int].1,
                    dirs@ == direction_order(),
                    g.is_layer(blocked, srcs, k, frontier@),
                    g.visited_ok(blocked, srcs, k, v0),
                    v0.no_duplicates(),
                    g.neighbours_defined(from),
                    visited@ == v0 + coords_of(next@),
                    visited@.no_duplicates(),
                    g.claims_ok(blocked, srcs, k, v0, next@),
                    owners_sorted(next@),
                    forall|m: int| 0 <= m < next@.len() ==> (#[trigger] next@[m]).0 <= owner,
                    g.covers(frontier@, i as int, visited@),
                    forall|j2: int| 0 <= j2 < j && #[trigger] g.valid_safe(g.adjacent(from, direction_order()[j2]))
                        ==> visited@.contains(g.adjacent(from, direction_order()[j2])),
                decreases 4 - j,
            {
                assert(g.adjacent_defined(from, dirs@[j as int]));
                let a = self.new_adjacent_coord(&from, &dirs[j]);
                if !coords_contain(visited, &a) && self.is_valid_and_safe_at(&a) {
                    proof {
                        assert forall|c: Coord| v0.contains(c) implies visited@.contains(c) by {
                            assert(visited@[v0.index_of(c)] == c);
                        }
                        lemma_claim_owner(g, blocked, srcs, k, frontier@, i as int, v0, visited@, a);
                        assert(!v0.contains(a));
                        assert(!blocked.contains(a));
                        lemma_reach_step(g, blocked, srcs[owner as int], from, dirs@[j as int], k);
                    }
                    let ghost prev = visited@;
                    let ghost prev_next = next@;
                    visited.push(a);
                    next.push((owner, a));
                    proof {
                        assert(visited@[visited@.len() - 1] == a);
                        assert(coords_of(next@) =~= coords_of(prev_next).push(a));
                        assert(visited@ =~= v0 + coords_of(next@));
                        assert forall|c: Coord| prev.contains(c) implies visited@.contains(c) by {
                            assert(visited@[prev.index_of(c)] == c);
                        }
                        assert(g.claims_ok(blocked, srcs, k, v0, next@)) by {
                            assert forall|m: int| 0 <= m < next@.len() implies {
                                &&& (#[trigger] next@[m]).0 < srcs.len()
                                &&& g.enterable(blocked, next@[m].1)
                                &&& !v0.contains(next@[m].1)
                                &&& g.reach(blocked, srcs[next@[m].0 as int], next@[m].1, k + 1)
                                &&& forall|t: int| 0 <= t < next@[m].0 ==> !g.reach(blocked, srcs[t], next@[m].1, k + 1)
                            } by {
                                if m < prev_next.len() {
                                    assert(next@[m] == prev_next[m]);
                                }
                            }
                        }
                        assert(owners_sorted(next@)) by {
                            assert forall|x: int, y: int| 0 <= x < y < next@.len() implies (#[trigger] next@[x]).0 <= (#[trigger] next@[y]).0 by {
                                if y < prev_next.len() {
                                    assert(next@[x] == prev_next[x] && next@[y] == prev_next[y]);
                                } else if x < prev_next.len() {
                                    assert(next@[x] == prev_next[x]);
                                }
                            }
                        }
                        assert forall|m: int| 0 <= m < next@.len() implies (#[trigger] next@[m]).0 <= owner by {
                            if m < prev_next.len() {
                                assert(next@[m] == prev_next[m]);
                            }
                        }
                    }
                }
                assert(a == g.adjacent(from, direction_order()[j as int]));
                assert(g.valid_safe(g.adjacent(from, direction_order()[j as int]))
                    ==> visited@.contains(g.adjacent(from, direction_order()[j as int])));
                j = j + 1;
            }
            proof {
                assert forall|i2: int, d: Direction|
                    0 <= i2 < i + 1 && #[trigger] g.valid_safe(g.adjacent(frontier@[i2].1, d))
                    implies visited@.contains(g.adjacent(frontier@[i2].1, d)) by {
                    if i2 == i {
                        let j2: int = match d {
                            Direction::Up => 0,
                            Direction::Down => 1,
                            Direction::Left => 2,
                            Direction::Right => 3,
                        };
                        assert(direction_order()[j2] == d);
                    }
                }
                if i + 1 < frontier@.len() {
                    assert forall|m: int| 0 <= m < next@.len() implies (#[trigger] next@[m]).0 <= frontier@[i + 1].0 by {
                        assert(frontier@[i as int].0 <= frontier@[i + 1].0);
                    }
                }
            }
            i = i + 1;
        }
        proof {
            lemma_next_layer(g, blocked, srcs, k, frontier@, v0, visited@, next@);
        }
        next
    }

    /// Searches from `start` for `end`, layer by layer, for at most `limit`
    /// moves: `Some(Some(k))` when `end` is first reached in `k` moves,
    /// `Some(None)` when the search runs out of squares without reaching it,
    /// `None` when the search is not over within `limit` moves.
    fn bounded_search(&self, start: &Coord, end: &Coord, limit: u32) -> (r: Option<Option<u32>>)
        requires
            *start != *end,
            self@.neighbours_defined(*start),
        ensures
            r is None <==> !self@.search_ends_within(*start, *end, limit as int),
            r matches Some(Some(k)) ==> self@.fewest_moves(*start, *end) == Some(k as int) && k <= limit,
            r matches Some(None) ==> self@.fewest_moves(*start, *end) is None,
    {
        let ghost g = self@;
        let ghost blocked = Set::<Coord>::empty();
        let ghost srcs = seq![*start];
        let mut visited: Vec<Coord> = Vec::new();
        visited.push(*start);
        let mut frontier: Vec<(usize, Coord)> = Vec::new();
        frontier.push((0, *start));
        let mut k: u32 = 0;
        proof {
            lemma_reach_source(g, blocked, *start);
            assert(srcs[0] == *start);
            assert forall|s: int, q: Coord|
                0 <= s < srcs.len() && #[trigger] g.fresh(blocked, srcs, s, q, 0)
                implies exists|i: int| 0 <= i < frontier@.len() && (#[trigger] frontier@[i]).1 == q && frontier@[i].0 <= s by {
                let path = choose|path: Seq<Coord>|
                    #[trigger] g.is_path(blocked, srcs[s], path) && path.last() == q && path.len() <= 1;
                assert(frontier@[0].1 == q);
            }
            assert forall|c: Coord| visited@.contains(c) <==> (blocked.contains(c) || g.reached(blocked, srcs, c, 0)) by {
                if g.reached(blocked, srcs, c, 0) {
                    let path = choose|path: Seq<Coord>|
                        #[trigger] g.is_path(blocked, srcs[0], path) && path.last() == c && path.len() <= 1;
                    assert(visited@[0] == c);
                }
                if visited@.contains(c) {
                    assert(g.reach(blocked, srcs[0], c, 0));
                }
            }
        }
        loop
            invariant
                g == self@,
                srcs == seq![*start],
                blocked == Set::<Coord>::empty(),
                *start != *end,
                k <= limit,
                g.is_layer(blocked, srcs, k as int, frontier@),
                g.visited_ok(blocked, srcs, k as int, visited@),
                visited@.no_duplicates(),
                forall|i: int| 0 <= i < frontier@.len() ==> g.neighbours_defined(#[trigger] frontier@[i].1),
                forall|j: int| 0 <= j < k ==> !g.reach(blocked, *start, *end, j),
            decreases limit - k,
        {
            let found = layer_contains(&frontier, end);
            proof {
                if found {
                    let i = choose|i: int| 0 <= i < frontier@.len() && (#[trigger] frontier@[i]).1 == *end;
                    assert(g.fresh(blocked, srcs, frontier@[i].0 as int, *end, k as int));
                    assert(g.reach(blocked, *start, *end, k as int));
                    reveal(GameView::fewest_moves);
                    let k2 = choose|k2: int| 0 <= k2 && #[trigger] g.reach(Set::empty(), *start, *end, k2)
                        && forall|j: int| 0 <= j < k2 ==> !g.reach(Set::empty(), *start, *end, j);
                    assert(k2 == k);
                    assert(g.fewest_moves(*start, *end) == Some(k as int));
                } else if g.reach(blocked, *start, *end, k as int) {
                    assert(g.fresh(blocked, srcs, 0, *end, k as int)) by {
                        if k > 0 && g.reached(blocked, srcs, *end, k - 1) {
                            assert(g.reach(blocked, srcs[0], *end, k - 1));
                        }
                    }
                }
                assert(!found ==> !g.reach(blocked, *start, *end, k as int));
            }
            if found && k < limit {
                proof {
                    lemma_reach_mono(g, blocked, *start, *end, k as int, limit - 1);
                }
                return Some(Some(k));
            }
            let next = self.expand_layer(Ghost(blocked), Ghost(srcs), Ghost(k as int), &frontier, &mut visited);
            if next.len() == 0 {
                proof {
                    assert(next@ =~= Seq::<(usize, Coord)>::empty());
                    lemma_settled(g, blocked, srcs, k as int, limit as int);
                    lemma_empty_layer(g, blocked, srcs, k as int);
                    if !found {
                        assert forall|j: int| 0 <= j implies !#[trigger] g.reach(Set::empty(), *start, *end, j) by {
                            if g.reach(blocked, *start, *end, j) {
                                assert(g.reach(blocked, srcs[0], *end, j));
                                assert(g.reached(blocked, srcs, *end, j));
                                assert(g.reached(blocked, srcs, *end, k as int));
                                let s = choose|s: int| 0 <= s < srcs.len() && #[trigger] g.reach(blocked, srcs[s], *end, k as int);
                                assert(s == 0);
                            }
                        }
                        reveal(GameView::fewest_moves);
                    }
                }
                if found {
                    return Some(Some(k));
                } else {
                    return Some(None);
                }
            }
            if k == limit {
                proof {
                    lemma_unsettled(g, blocked, srcs, limit as int, next@);
                    if g.reach(blocked, *start, *end, limit - 1) {
                        let path = choose|path: Seq<Coord>|
                            #[trigger] g.is_path(blocked, *start, path) && path.last() == *end && path.len() <= limit;
                        assert(limit >= 1);
                    }
                }
                return None;
            }
            proof {
                assert forall|i: int| 0 <= i < next@.len() implies g.neighbours_defined(#[trigger] next@[i].1) by {
                    lemma_in_bounds_neighbours_defined(g, next@[i].1);
                }
            }
            k = k + 1;
            frontier = next;
        }
    }

    /// Whether a search from `start` for `end` is over within `limit` moves
    /// (what `shortest_distance` needs within `PATH_SEARCH_LIMIT`).
    pub fn search_ends_within(&self, start: &Coord, end: &Coord, limit: u32) -> (b: bool)
        requires
            *start != *end ==> self@.neighbours_defined(*start),
        ensures
            b == self@.search_ends_within(*start, *end, limit as int),
    {
        if *start == *end {
            return true;
        }
        self.bounded_search(start, end, limit).is_some()
    }

    /// The cost of the cheapest way from `start` to `end` over valid and
    /// safe squares, five for each move; `None` when there is none.
    pub fn shortest_distance(&self, start: &Coord, end: &Coord) -> (r: Option<u32>)
        requires
            *start != *end ==> self@.neighbours_defined(*start),
            self@.search_ends_within(*start, *end, PATH_SEARCH_LIMIT as int),
        ensures
            r == self@.path_cost(*start, *end),
            r matches Some(v) ==> self@.fewest_moves(*start, *end) == Some(v as int / 5) && v % 5 == 0,
    {
        if *start == *end {
            proof {
                lemma_path_cost_to_itself(self@, *start);
            }
            return Some(0);
        }
        match self.bounded_search(start, end, PATH_SEARCH_LIMIT) {
            Some(Some(k)) => Some(5 * k),
            _ => None,
        }
    }

    /// The cost of the cheapest path from `coord` to a food; `None` when no
    /// food can be reached.
    pub fn closest_food_distance(&self, coord: &Coord) -> (r: Option<u32>)
        requires
            (exists|f: Coord| #[trigger] self@.board.food.contains(f) && f != *coord) ==> self@.neighbours_defined(*coord),
            forall|f: Coord| #[trigger] self@.board.food.contains(f)
                ==> self@.search_ends_within(*coord, f, PATH_SEARCH_LIMIT as int),
        ensures
            r == self@.nearest_food_cost(*coord),
            r matches Some(v) ==> exists|f: Coord| #[trigger] self@.board.food.contains(f) && self@.path_cost(*coord, f) == Some(v),
    {
        let ghost g = self@;
        let food = &self.board.food;
        let mut closest_distance: Option<u32> = None;
        let mut i: usize = 0;
        while i < food.len()
            invariant
                g == self@,
                food@ == self.board.food@,
                (exists|f: Coord| #[trigger] g.board.food.contains(f) && f != *coord) ==> g.neighbours_defined(*coord),
                forall|f: Coord| #[trigger] g.board.food.contains(f)
                    ==> g.search_ends_within(*coord, f, PATH_SEARCH_LIMIT as int),
                i <= food@.len(),
                closest_distance is None <==> forall|j: int| 0 <= j < i ==> (#[trigger] g.path_cost(*coord, food@[j])) is None,
                closest_distance matches Some(v) ==> {
                    &&& exists|j: int| 0 <= j < i && #[trigger] g.path_cost(*coord, food@[j]) == Some(v)
                    &&& forall|j: int| 0 <= j < i && (#[trigger] g.path_cost(*coord, food@[j])) is Some
                        ==> v <= g.path_cost(*coord, food@[j]).unwrap()
                },
            decreases food@.len() - i,
        {
            let f = food[i];
            proof {
                assert(g.board.food.contains(f));
            }
            let d = self.shortest_distance(coord, &f);
            match d {
                Some(food_distance) => {
                    if closest_distance.is_none() || food_distance < closest_distance.unwrap() {
                        closest_distance = Some(food_distance);
                    }
                },
                None => {},
            }
            proof {
                assert(g.path_cost(*coord, food@[i as int]) == d);
            }
            i = i + 1;
        }
        proof {
            let fs = g.board.food;
            assert(fs == food@.to_set());
            match closest_distance {
                Some(v) => {
                    let j = choose|j: int| 0 <= j < food@.len() && #[trigger] g.path_cost(*coord, food@[j]) == Some(v);
                    assert(fs.contains(food@[j]));
                    assert forall|f: Coord| #[trigger] fs.contains(f) && g.path_cost(*coord, f) is Some
                        implies v <= g.path_cost(*coord, f).unwrap() by {
                        let j2 = choose|j2: int| 0 <= j2 < food@.len() && food@[j2] == f;
                        assert(g.path_cost(*coord, food@[j2]) is Some);
                    }
                    assert(g.is_nearest_food_cost(*coord, v));
                    let w = choose|w: u32| #[trigger] g.is_nearest_food_cost(*coord, w);
                    let fw = choose|f: Coord| #[trigger] fs.contains(f) && g.path_cost(*coord, f) == Some(w);
                    assert(w <= v);
                    assert(v <= w);
                    assert(fs.contains(food@[j]) && g.path_cost(*coord, food@[j]) == Some(v));
                },
                None => {
                    assert forall|f: Coord| #[trigger] fs.contains(f) implies !(g.path_cost(*coord, f) is Some) by {
                        let j2 = choose|j2: int| 0 <= j2 < food@.len() && food@[j2] == f;
                        assert(g.path_cost(*coord, food@[j2]) is None);
                    }
                },
            }
        }
        closest_distance
    }

    /// The squares that each snake reaches before every other snake, found
    /// by one search from all heads at once that does not enter
    /// `exclusions`: each claim is a snake's index, a square and its
    /// distance.
    #[verifier::spinoff_prover]
    #[verifier::rlimit(100)]
    fn claim_territory(&self, exclusions: &Vec<Coord>, limit: u32) -> (r: Option<Vec<(usize, Coord, u32)>>)
        requires
            self@.heads_defined(),
        ensures
            r is Some <==> self@.settles(self@.territory_blocked(exclusions@.to_set()), self@.heads(), limit as int),
            r matches Some(claims) ==> forall|i: int| 0 <= i < claims@.len() ==> (#[trigger] claims@[i]).0 < self@.board.snakes.len()
                && self@.controls(exclusions@.to_set(), claims@[i].0 as int, claims@[i].1, claims@[i].2 as int),
            r matches Some(claims) ==> forall|s: int, c: Coord, d: int| #[trigger] self@.controls(exclusions@.to_set(), s, c, d)
                ==> 0 <= d <= limit && exists|i: int| 0 <= i < claims@.len() && claims@[i] == (s as usize, c, d as u32),
            r matches Some(claims) ==> claims_distinct(claims@),
    {
        let ghost g = self@;
        let ghost ex = exclusions@.to_set();
        let ghost blocked = g.territory_blocked(ex);
        let ghost srcs = g.heads();
        let n = self.board.snakes.len();
        let mut visited: Vec<Coord> = Vec::new();
        let mut e: usize = 0;
        while e < exclusions.len()
            invariant
                e <= exclusions@.len(),
                visited@.no_duplicates(),
                visited@.to_set() == exclusions@.subrange(0, e as int).to_set(),
            decreases exclusions@.len() - e,
        {
            insert_coord(&mut visited, exclusions[e]);
            proof {
                assert(exclusions@.subrange(0, e + 1) =~= exclusions@.subrange(0, e as int).push(exclusions@[e as int]));
                exclusions@.subrange(0, e as int).lemma_push_to_set_commute(exclusions@[e as int]);
            }
            e = e + 1;
        }
        assert(exclusions@.subrange(0, exclusions@.len() as int) =~= exclusions@);
        let mut frontier: Vec<(usize, Coord)> = Vec::new();
        let mut claims: Vec<(usize, Coord, u32)> = Vec::new();
        let mut s: usize = 0;
        while s < n
            invariant
                g == self@,
                n == g.board.snakes.len(),
                srcs == g.heads(),
                s <= n,
                visited@.no_duplicates(),
                visited@.to_set() == ex.union(srcs.subrange(0, s as int).to_set()),
                frontier@.len() == s,
                claims@.len() == s,
                forall|i: int| 0 <= i < s ==> (#[trigger] frontier@[i]) == (i as usize, srcs[i]),
                forall|i: int| 0 <= i < s ==> (#[trigger] claims@[i]) == (i as usize, srcs[i], 0u32),
            decreases n - s,
        {
            let head = self.board.snakes[s].head;
            insert_coord(&mut visited, head);
            frontier.push((s, head));
            claims.push((s, head, 0));
            proof {
                assert(srcs[s as int] == head);
                assert(srcs.subrange(0, s + 1) =~= srcs.subrange(0, s as int).push(head));
                srcs.subrange(0, s as int).lemma_push_to_set_commute(head);
                assert(visited@.to_set() =~= ex.union(srcs.subrange(0, s + 1).to_set()));
            }
            s = s + 1;
        }
        proof {
            assert(srcs.subrange(0, n as int) =~= srcs);
            assert(srcs.len() == n);
            assert forall|i: int| 0 <= i < frontier@.len() implies (#[trigger] frontier@[i]).0 < srcs.len()
                && g.fresh(blocked, srcs, frontier@[i].0 as int, frontier@[i].1, 0) by {
                lemma_reach_source(g, blocked, srcs[i]);
            }
            assert forall|t: int, q: Coord|
                0 <= t < srcs.len() && #[trigger] g.fresh(blocked, srcs, t, q, 0)
                implies exists|i: int| 0 <= i < frontier@.len() && (#[trigger] frontier@[i]).1 == q && frontier@[i].0 <= t by {
                let path = choose|path: Seq<Coord>|
                    #[trigger] g.is_path(blocked, srcs[t], path) && path.last() == q && path.len() <= 1;
                assert(frontier@[t].1 == q);
            }
            assert forall|c: Coord| visited@.contains(c) <==> (blocked.contains(c) || g.reached(blocked, srcs, c, 0)) by {
                assert(visited@.contains(c) <==> visited@.to_set().contains(c));
                if g.reached(blocked, srcs, c, 0) {
                    let t = choose|t: int| 0 <= t < srcs.len() && #[trigger] g.reach(blocked, srcs[t], c, 0);
                    let path = choose|path: Seq<Coord>|
                        #[trigger] g.is_path(blocked, srcs[t], path) && path.last() == c && path.len() <= 1;
                    assert(srcs.to_set().contains(srcs[t]));
                }
            }
            assert forall|i: int| 0 <= i < frontier@.len() implies g.neighbours_defined(#[trigger] frontier@[i].1) by {
                assert(srcs[i] == g.board.snakes[i].head);
            }
            assert forall|i: int| 0 <= i < claims@.len() implies visited@.contains((#[trigger] claims@[i]).1) by {
                assert(srcs.to_set().contains(srcs[i]));
                assert(visited@.to_set().contains(srcs[i]));
            }
            assert forall|t: int, c: Coord, d: int| 0 <= d <= 0 && #[trigger] g.controls(ex, t, c, d)
                implies exists|i: int| 0 <= i < claims@.len() && claims@[i] == (t as usize, c, d as u32) by {
                assert(claims@[t] == (t as usize, srcs[t], 0u32));
            }
        }
        let mut k: u32 = 0;
        loop
            invariant
                g == self@,
                ex == exclusions@.to_set(),
                blocked == g.territory_blocked(ex),
                srcs == g.heads(),
                n == g.board.snakes.len(),
                srcs.len() == n,
                k <= limit,
                g.is_layer(blocked, srcs, k as int, frontier@),
                g.visited_ok(blocked, srcs, k as int, visited@),
                visited@.no_duplicates(),
                forall|i: int| 0 <= i < frontier@.len() ==> g.neighbours_defined(#[trigger] frontier@[i].1),
                forall|i: int| 0 <= i < claims@.len() ==> (#[trigger] claims@[i]).0 < n
                    && g.controls(ex, claims@[i].0 as int, claims@[i].1, claims@[i].2 as int)
                    && claims@[i].2 <= k,
                forall|t: int, c: Coord, d: int| 0 <= d <= k && #[trigger] g.controls(ex, t, c, d)
                    ==> exists|i: int| 0 <= i < claims@.len() && claims@[i] == (t as usize, c, d as u32),
                claims_distinct(claims@),
                forall|i: int| 0 <= i < claims@.len() ==> visited@.contains((#[trigger] claims@[i]).1),
            decreases limit - k,
        {
            let ghost before = visited@;
            let ghost claims_before = claims@;
            let next = self.expand_layer(Ghost(blocked), Ghost(srcs), Ghost(k as int), &frontier, &mut visited);
            if next.len() == 0 {
                proof {
                    assert(next@ =~= Seq::<(usize, Coord)>::empty());
                    lemma_claims_complete(g, ex, k as int, limit as int, claims@);
                    assert(forall|t: int, c: Coord, d: int| #[trigger] self@.controls(exclusions@.to_set(), t, c, d)
                        ==> 0 <= d <= limit && exists|i: int| 0 <= i < claims@.len() && claims@[i] == (t as usize, c, d as u32));
                }
                let r = Some(claims);
                assert(r matches Some(found) && found@ == claims@);
                return r;
            }
            if k == limit {
                proof {
                    lemma_unsettled(g, blocked, srcs, limit as int, next@);
                }
                return None;
            }
            proof {
                assert(coords_of(next@).no_duplicates()) by {
                    assert forall|a: int, b: int| 0 <= a < b < coords_of(next@).len() implies coords_of(next@)[a] != coords_of(next@)[b] by {
                        assert(visited@[before.len() + a] == coords_of(next@)[a]);
                        assert(visited@[before.len() + b] == coords_of(next@)[b]);
                    }
                }
            }
            let d: u32 = k + 1;
            let mut m: usize = 0;
            while m < next.len()
                invariant
                    m <= next@.len(),
                    claims@ == claims_before + layer_claims(next@.take(m as int), d),
                decreases next@.len() - m,
            {
                let (o, c) = next[m];
                claims.push((o, c, d));
                proof {
                    assert(next@.take(m + 1) =~= next@.take(m as int).push(next@[m as int]));
                    assert(layer_claims(next@.take(m + 1), d) =~= layer_claims(next@.take(m as int), d).push((o, c, d)));
                    assert(claims@ =~= claims_before + layer_claims(next@.take(m + 1), d));
                }
                m = m + 1;
            }
            proof {
                assert(next@.take(next@.len() as int) =~= next@);
                lemma_extend_claims(g, ex, k as int, before, visited@, next@, claims_before, claims@);
                assert forall|i: int| 0 <= i < next@.len() implies g.neighbours_defined(#[trigger] next@[i].1) by {
                    lemma_in_bounds_neighbours_defined(g, next@[i].1);
                }
            }
            k = d;
            frontier = next;
        }
    }

    /// Whether the search from all heads at once that does not enter
    /// `exclusions` settles within `limit` moves (what
    /// `compute_controlled_squares` needs within `u32::MAX`).
    pub fn territory_settles(&self, exclusions: &Vec<Coord>, limit: u32) -> (b: bool)
        requires
            self@.heads_defined(),
        ensures
            b == self@.settles(self@.territory_blocked(exclusions@.to_set()), self@.heads(), limit as int),
    {
        self.claim_territory(exclusions, limit).is_some()
    }

    /// Snake `s`'s claims as squares that carry its id.
    fn squares_of(&self, claims: &Vec<(usize, Coord, u32)>, s: usize) -> (own: Vec<Square>)
        requires
            s < self@.board.snakes.len(),
            claims_distinct(claims@),
        ensures
            forall|j: int| 0 <= j < own@.len() ==> (#[trigger] own@[j]).owner@ == self@.board.snakes[s as int].id@
                && exists|i: int| 0 <= i < claims@.len() && claims@[i] == (s, own@[j].coord, own@[j].distance),
            forall|i: int| 0 <= i < claims@.len() && (#[trigger] claims@[i]).0 == s
                ==> exists|j: int| 0 <= j < own@.len() && own@[j].coord == claims@[i].1 && own@[j].distance == claims@[i].2,
            square_coords(own@).no_duplicates(),
    {
        let mut own: Vec<Square> = Vec::new();
        let ghost mut picked: Seq<int> = Seq::empty();
        let mut i: usize = 0;
        while i < claims.len()
            invariant
                s < self@.board.snakes.len(),
                claims_distinct(claims@),
                i <= claims@.len(),
                picked.len() == own@.len(),
                forall|a: int, b: int| 0 <= a < b < picked.len() ==> picked[a] < picked[b],
                forall|j: int| 0 <= j < picked.len() ==> 0 <= #[trigger] picked[j] < i && claims@[picked[j]] == (s, own@[j].coord, own@[j].distance),
                forall|j: int| 0 <= j < own@.len() ==> (#[trigger] own@[j]).owner@ == self@.board.snakes[s as int].id@,
                forall|i2: int| 0 <= i2 < i && (#[trigger] claims@[i2]).0 == s
                    ==> exists|j: int| 0 <= j < own@.len() && picked[j] == i2,
            decreases claims@.len() - i,
        {
            let (o, c, d) = claims[i];
            if o == s {
                let owner = self.board.snakes[s].id.clone();
                let ghost prev = own@;
                let ghost prev_picked = picked;
                own.push(Square { owner, coord: c, distance: d });
                proof {
                    picked = picked.push(i as int);
                    assert forall|j: int| 0 <= j < own@.len() implies (#[trigger] own@[j]).owner@ == self@.board.snakes[s as int].id@ by {
                        if j < prev.len() {
                            assert(own@[j] == prev[j]);
                        }
                    }
                    assert forall|j: int| 0 <= j < picked.len() implies 0 <= #[trigger] picked[j] < i + 1
                        && claims@[picked[j]] == (s, own@[j].coord, own@[j].distance) by {
                        if j < prev.len() {
                            assert(own@[j] == prev[j]);
                        }
                    }
                    assert forall|i2: int| 0 <= i2 < i + 1 && (#[trigger] claims@[i2]).0 == s
                        implies exists|j: int| 0 <= j < own@.len() && picked[j] == i2 by {
                        if i2 == i {
                            assert(picked[picked.len() - 1] == i2);
                        } else {
                            let j = choose|j: int| 0 <= j < prev.len() && prev_picked[j] == i2;
                            assert(picked[j] == i2);
                        }
                    }
                }
            }
            i = i + 1;
        }
        proof {
            assert forall|j: int| 0 <= j < own@.len() implies (#[trigger] own@[j]).owner@ == self@.board.snakes[s as int].id@
                && exists|i2: int| 0 <= i2 < claims@.len() && claims@[i2] == (s, own@[j].coord, own@[j].distance) by {
                assert(claims@[picked[j]] == (s, own@[j].coord, own@[j].distance));
            }
            assert forall|i2: int| 0 <= i2 < claims@.len() && (#[trigger] claims@[i2]).0 == s
                implies exists|j: int| 0 <= j < own@.len() && own@[j].coord == claims@[i2].1 && own@[j].distance == claims@[i2].2 by {
                let j = choose|j: int| 0 <= j < own@.len() && picked[j] == i2;
                assert(claims@[picked[j]] == (s, own@[j].coord, own@[j].distance));
            }
            let sc = square_coords(own@);
            assert forall|a: int, b: int| 0 <= a < b < sc.len() implies sc[a] != sc[b] by {
                assert(claims@[picked[a]] == (s, own@[a].coord, own@[a].distance));
                assert(claims@[picked[b]] == (s, own@[b].coord, own@[b].distance));
                assert(picked[a] < picked[b]);
                assert(claims@[picked[a]].0 == claims@[picked[b]].0);
            }
        }
        own
    }

    /// The squares that each snake controls when the search from all heads
    /// at once may not enter `exclusions`, with the distance of the nearest
    /// food and of the nearest safe tail that each snake controls.
    pub fn compute_controlled_squares(&self, exclusions: &Vec<Coord>) -> (cs: ControlledSquares)
        requires
            self@.heads_defined(),
            self@.settles(self@.territory_blocked(exclusions@.to_set()), self@.heads(), u32::MAX as int),
            self@.snake_ids_distinct(),
        ensures
            cs.squares@.len() == self@.board.snakes.len(),
            cs.closest_food_distance@.len() == self@.board.snakes.len(),
            cs.closest_tail_distance@.len() == self@.board.snakes.len(),
            forall|s: int| 0 <= s < self@.board.snakes.len() ==> {
                &&& self@.squares_match(exclusions@.to_set(), s, (#[trigger] cs.squares@[s])@)
                &&& cs.squares@[s]@.len() == self@.controlled(exclusions@.to_set(), s).len()
                &&& cs.closest_food_distance@[s] == self@.nearest_controlled(exclusions@.to_set(), s, self@.board.food)
                &&& cs.closest_tail_distance@[s] == self@.nearest_controlled(exclusions@.to_set(), s, self@.board.safe_tails)
                &&& cs.closest_food_distance@[s] matches Some(v)
                    ==> exists|c: Coord| #[trigger] self@.board.food.contains(c) && self@.controls(exclusions@.to_set(), s, c, v as int)
                &&& cs.closest_tail_distance@[s] matches Some(v)
                    ==> exists|c: Coord| #[trigger] self@.board.safe_tails.contains(c) && self@.controls(exclusions@.to_set(), s, c, v as int)
            },
    {
        let ghost g = self@;
        let ghost ex = exclusions@.to_set();
        let claims = self.claim_territory(exclusions, u32::MAX).unwrap();
        let n = self.board.snakes.len();
        let mut squares: Vec<Vec<Square>> = Vec::new();
        let mut closest_food_distance: Vec<Option<u32>> = Vec::new();
        let mut closest_tail_distance: Vec<Option<u32>> = Vec::new();
        let mut s: usize = 0;
        while s < n
            invariant
                g == self@,
                ex == exclusions@.to_set(),
                n == g.board.snakes.len(),
                s <= n,
                squares@.len() == s,
                closest_food_distance@.len() == s,
                closest_tail_distance@.len() == s,
                claims_distinct(claims@),
                forall|i: int| 0 <= i < claims@.len() ==> (#[trigger] claims@[i]).0 < n
                    && g.controls(ex, claims@[i].0 as int, claims@[i].1, claims@[i].2 as int),
                forall|t: int, c: Coord, d: int| #[trigger] g.controls(ex, t, c, d)
                    ==> 0 <= d <= u32::MAX && exists|i: int| 0 <= i < claims@.len() && claims@[i] == (t as usize, c, d as u32),
                forall|t: int| 0 <= t < s ==> {
                    &&& g.squares_match(ex, t, (#[trigger] squares@[t])@)
                    &&& squares@[t]@.len() == g.controlled(ex, t).len()
                    &&& closest_food_distance@[t] == g.nearest_controlled(ex, t, g.board.food)
                    &&& closest_tail_distance@[t] == g.nearest_controlled(ex, t, g.board.safe_tails)
                    &&& closest_food_distance@[t] matches Some(v)
                        ==> exists|c: Coord| #[trigger] g.board.food.contains(c) && g.controls(ex, t, c, v as int)
                    &&& closest_tail_distance@[t] matches Some(v)
                        ==> exists|c: Coord| #[trigger] g.board.safe_tails.contains(c) && g.controls(ex, t, c, v as int)
                },
            decreases n - s,
        {
            let own = self.squares_of(&claims, s);
            let food = nearest_claim(&claims, s, &self.board.food);
            let tail = nearest_claim(&claims, s, &self.board.safe_tails);
            proof {
                assert forall|c: Coord, d: int| #[trigger] g.controls(ex, s as int, c, d)
                    implies exists|j: int| 0 <= j < own@.len() && own@[j].coord == c && own@[j].distance == d by {
                    let i = choose|i: int| 0 <= i < claims@.len() && claims@[i] == (s, c, d as u32);
                    assert(claims@[i].0 == s);
                }
                assert forall|j: int| 0 <= j < own@.len() implies (#[trigger] own@[j]).owner@ == g.board.snakes[s as int].id@
                    && g.controls(ex, s as int, own@[j].coord, own@[j].distance as int) by {
                    let i = choose|i: int| 0 <= i < claims@.len() && claims@[i] == (s, own@[j].coord, own@[j].distance);
                }
                assert(g.squares_match(ex, s as int, own@));
                lemma_squares_count(g, ex, s as int, own@);
                lemma_nearest_claim(g, ex, claims@, s as int, g.board.food, food);
                lemma_nearest_claim(g, ex, claims@, s as int, g.board.safe_tails, tail);
            }
            let ghost prev_sq = squares@;
            let ghost prev_food = closest_food_distance@;
            let ghost prev_tail = closest_tail_distance@;
            squares.push(own);
            closest_food_distance.push(food);
            closest_tail_distance.push(tail);
            proof {
                assert forall|t: int| 0 <= t < s + 1 implies {
                    &&& g.squares_match(ex, t, (#[trigger] squares@[t])@)
                    &&& squares@[t]@.len() == g.controlled(ex, t).len()
                    &&& closest_food_distance@[t] == g.nearest_controlled(ex, t, g.board.food)
                    &&& closest_tail_distance@[t] == g.nearest_controlled(ex, t, g.board.safe_tails)
                    &&& closest_food_distance@[t] matches Some(v)
                        ==> exists|c: Coord| #[trigger] g.board.food.contains(c) && g.controls(ex, t, c, v as int)
                    &&& closest_tail_distance@[t] matches Some(v)
                        ==> exists|c: Coord| #[trigger] g.board.safe_tails.contains(c) && g.controls(ex, t, c, v as int)
                } by {
                    if t < s {
                        assert(squares@[t] == prev_sq[t]);
                        assert(closest_food_distance@[t] == prev_food[t]);
                        assert(closest_tail_distance@[t] == prev_tail[t]);
                    }
                }
            }
            s = s + 1;
        }
        ControlledSquares { squares, closest_food_distance, closest_tail_distance }
    }
}

} // verus!
