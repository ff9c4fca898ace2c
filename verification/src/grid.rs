//! Squares, their neighbours, and which of them a snake may enter.
use vstd::prelude::*;

use crate::model::{Coord, Direction, GameMode, GameState, GameView};

verus! {

/// The change of `x` that a move in direction `d` makes.
pub open spec fn step_x(d: Direction) -> int {
    match d {
        Direction::Left => -1,
        Direction::Right => 1,
        _ => 0,
    }
}

/// The change of `y` that a move in direction `d` makes.
pub open spec fn step_y(d: Direction) -> int {
    match d {
        Direction::Up => 1,
        Direction::Down => -1,
        _ => 0,
    }
}

/// The four directions, in the order in which every search tries them.
pub open spec fn direction_order() -> Seq<Direction> {
    seq![Direction::Up, Direction::Down, Direction::Left, Direction::Right]
}

/// The four directions, in the order of `direction_order`.
pub fn all_directions() -> (dirs: Vec<Direction>)
    ensures
        dirs@ == direction_order(),
{
    let dirs = vec![Direction::Up, Direction::Down, Direction::Left, Direction::Right];
    assert(dirs@ =~= direction_order());
    dirs
}

impl GameView {
    /// Whether moves wrap around the edges of the board.
    pub open spec fn wraps(self) -> bool {
        self.game.ruleset.name == GameMode::Wrapped
    }

    /// The square next to `c` in direction `d`.
    pub open spec fn adjacent(self, c: Coord, d: Direction) -> Coord {
        let x = c.x + step_x(d);
        let y = c.y + step_y(d);
        if self.wraps() {
            Coord { x: (x % (self.board.width as int)) as i32, y: (y % (self.board.height as int)) as i32 }
        } else {
            Coord { x: x as i32, y: y as i32 }
        }
    }

    /// Computing the square next to `c` in direction `d` neither overflows
    /// nor takes a remainder by zero.
    pub open spec fn adjacent_defined(self, c: Coord, d: Direction) -> bool {
        let x = c.x + step_x(d);
        let y = c.y + step_y(d);
        &&& i32::MIN <= x <= i32::MAX
        &&& i32::MIN <= y <= i32::MAX
        &&& self.wraps() ==> {
            &&& self.board.width != 0
            &&& self.board.height != 0
            &&& !(x == i32::MIN && self.board.width == -1)
            &&& !(y == i32::MIN && self.board.height == -1)
        }
    }

    /// The squares next to `c` can be computed in all four directions.
    pub open spec fn neighbours_defined(self, c: Coord) -> bool {
        forall|d: Direction| #[trigger] self.adjacent_defined(c, d)
    }

    pub open spec fn in_bounds(self, c: Coord) -> bool {
        c.x >= 0 && c.y >= 0 && c.x < self.board.width && c.y < self.board.height
    }

    /// A square that a snake may move to: on the board and no obstacle.
    pub open spec fn valid_safe(self, c: Coord) -> bool {
        self.in_bounds(c) && !self.board.obstacles.contains(c)
    }

}

/// In a wrapped game every move lands on the board.
pub proof fn lemma_wrapped_move_on_board(g: GameView, c: Coord, d: Direction)
    requires
        g.wraps(),
        g.board.width > 0,
        g.board.height > 0,
    ensures
        g.in_bounds(g.adjacent(c, d)),
{
    let x = c.x + step_x(d);
    let y = c.y + step_y(d);
    assert(0 <= x % (g.board.width as int) < g.board.width);
    assert(0 <= y % (g.board.height as int) < g.board.height);
}

/// Every square on the board has computable neighbours.
pub proof fn lemma_in_bounds_neighbours_defined(g: GameView, c: Coord)
    requires
        g.in_bounds(c),
    ensures
        g.neighbours_defined(c),
{
}

/// `rem_euclid` for an `i32`, through the specified `checked_rem_euclid`.
fn rem_euclid(x: i32, m: i32) -> (r: i32)
    requires
        m != 0,
        !(x == i32::MIN && m == -1),
    ensures
        r == (x as int) % (m as int),
{
    assert(0 <= (x as int) % (m as int) < if m > 0 { m as int } else { -(m as int) });
    match x.checked_rem_euclid(m) {
        Some(r) => r,
        None => 0,
    }
}

impl GameState {
    /// The square next to `coord` in direction `dir`; in wrapped games it
    /// wraps around the edges of the board.
    pub fn new_adjacent_coord(&self, coord: &Coord, dir: &Direction) -> (r: Coord)
        requires
            self@.adjacent_defined(*coord, *dir),
        ensures
            r == self@.adjacent(*coord, *dir),
    {
        let mut x: i32 = coord.x;
        let mut y: i32 = coord.y;
        match dir {
            Direction::Up => y = y + 1,
            Direction::Down => y = y - 1,
            Direction::Left => x = x - 1,
            Direction::Right => x = x + 1,
        }
        match self.game.ruleset.name {
            GameMode::Wrapped => {
                x = rem_euclid(x, self.board.width);
                y = rem_euclid(y, self.board.height);
            },
            _ => {},
        }
        Coord { x, y }
    }

    /// The squares next to `coord`, in the order of `direction_order`.
    pub fn new_adjacent_coords(&self, coord: &Coord) -> (r: Vec<Coord>)
        requires
            self@.neighbours_defined(*coord),
        ensures
            r@.len() == 4,
            forall|i: int| 0 <= i < 4 ==> r@[i] == self@.adjacent(*coord, #[trigger] direction_order()[i]),
    {
        let dirs = all_directions();
        let mut adjacent_coords: Vec<Coord> = Vec::new();
        let mut i: usize = 0;
        while i < dirs.len()
            invariant
                dirs@ == direction_order(),
                self@.neighbours_defined(*coord),
                i <= 4,
                adjacent_coords@.len() == i,
                forall|j: int| 0 <= j < i ==> adjacent_coords@[j] == self@.adjacent(*coord, #[trigger] direction_order()[j]),
            decreases 4 - i,
        {
            assert(self@.adjacent_defined(*coord, dirs@[i as int]));
            let a = self.new_adjacent_coord(coord, &dirs[i]);
            adjacent_coords.push(a);
            i = i + 1;
        }
        adjacent_coords
    }

    pub fn in_bounds(&self, coord: &Coord) -> (b: bool)
        ensures
            b == self@.in_bounds(*coord),
    {
        coord.x >= 0 && coord.y >= 0 && coord.x < self.board.width && coord.y < self.board.height
    }

    pub fn is_valid_at(&self, coord: &Coord) -> (b: bool)
        ensures
            b == self@.in_bounds(*coord),
    {
        self.in_bounds(coord)
    }

    pub fn is_safe_at(&self, coord: &Coord) -> (b: bool)
        ensures
            b == !self@.board.obstacles.contains(*coord),
    {
        !coords_contain(&self.board.obstacles, coord)
    }

    pub fn is_valid_and_safe_at(&self, coord: &Coord) -> (b: bool)
        ensures
            b == self@.valid_safe(*coord),
    {
        self.is_valid_at(coord) && self.is_safe_at(coord)
    }
}

/// Whether `c` occurs in `v`.
pub fn coords_contain(v: &Vec<Coord>, c: &Coord) -> (b: bool)
    ensures
        b == v@.contains(*c),
        b == v@.to_set().contains(*c),
{
    let mut i: usize = 0;
    while i < v.len()
        invariant
            i <= v@.len(),
            forall|j: int| 0 <= j < i ==> v@[j] != *c,
        decreases v@.len() - i,
    {
        if v[i] == *c {
            return true;
        }
        i = i + 1;
    }
    false
}

/// Adds `c` to the set that `v` stands for.
pub fn insert_coord(v: &mut Vec<Coord>, c: Coord)
    ensures
        final(v)@.to_set() == old(v)@.to_set().insert(c),
        old(v)@.no_duplicates() ==> final(v)@.no_duplicates(),
        final(v)@ == if old(v)@.contains(c) { old(v)@ } else { old(v)@.push(c) },
{
    if !coords_contain(v, &c) {
        v.push(c);
        assert(v@.to_set() =~= old(v)@.to_set().insert(c)) by {
            assert(v@.last() == c);
            assert forall|a: Coord| v@.contains(a) implies old(v)@.contains(a) || a == c by {
                let j = choose|j: int| 0 <= j < v@.len() && v@[j] == a;
                if j < old(v)@.len() {
                    assert(old(v)@[j] == a);
                }
            }
            assert forall|a: Coord| old(v)@.contains(a) implies v@.contains(a) by {
                let j = choose|j: int| 0 <= j < old(v)@.len() && old(v)@[j] == a;
                assert(v@[j] == a);
            }
        }
    } else {
        assert(v@.to_set() =~= old(v)@.to_set().insert(c));
    }
}

/// Adds every square of `more` to the set that `v` stands for.
pub fn extend_coords(v: &mut Vec<Coord>, more: &Vec<Coord>)
    ensures
        final(v)@.to_set() == old(v)@.to_set().union(more@.to_set()),
        old(v)@.no_duplicates() ==> final(v)@.no_duplicates(),
{
    let mut i: usize = 0;
    while i < more.len()
        invariant
            i <= more@.len(),
            v@.to_set() == old(v)@.to_set().union(more@.subrange(0, i as int).to_set()),
            old(v)@.no_duplicates() ==> v@.no_duplicates(),
        decreases more@.len() - i,
    {
        insert_coord(v, more[i]);
        proof {
            assert(more@.subrange(0, i + 1) =~= more@.subrange(0, i as int).push(more@[i as int]));
            more@.subrange(0, i as int).lemma_push_to_set_commute(more@[i as int]);
            assert(v@.to_set() =~= old(v)@.to_set().union(more@.subrange(0, i + 1).to_set()));
        }
        i = i + 1;
    }
    assert(more@.subrange(0, more@.len() as int) =~= more@);
}

} // verus!
