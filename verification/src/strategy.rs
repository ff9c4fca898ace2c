//! The candidate moves of a turn and the order that picks among them: the
//! cheaper a strategy, the higher it ranks.
use vstd::prelude::*;

use std::cmp::Ordering;
use vstd::std_specs::cmp::PartialOrdSpecImpl;

use crate::model::{Coord, Direction};

verus! {

/// Why a move was chosen.
#[derive(Clone, Copy, Debug, PartialEq, Eq, Structural)]
pub enum StrategyName {
    Random,
    Starving,
    Survival,
    FollowMySelf,
    FollowAFriend,
    NomNom,
}

/// A candidate move and what it costs.
#[derive(Clone, Copy, Debug, PartialEq, Eq, Structural)]
pub struct Strategy {
    pub name: StrategyName,
    pub direction: Direction,
    pub cost: i32,
}

/// A square and the cost of reaching it.
#[derive(Clone, Copy, Debug, PartialEq, Eq, Structural)]
pub struct CoordItem {
    pub coord: Coord,
    pub cost: u32,
}

/// The order of two costs with the cheaper one ranked higher.
pub open spec fn cheaper_first_i32(mine: i32, theirs: i32) -> Option<Ordering> {
    if theirs < mine {
        Some(Ordering::Less)
    } else if theirs > mine {
        Some(Ordering::Greater)
    } else {
        Some(Ordering::Equal)
    }
}

/// The order of two costs with the cheaper one ranked higher.
pub open spec fn cheaper_first_u32(mine: u32, theirs: u32) -> Option<Ordering> {
    if theirs < mine {
        Some(Ordering::Less)
    } else if theirs > mine {
        Some(Ordering::Greater)
    } else {
        Some(Ordering::Equal)
    }
}

impl PartialOrd for Strategy {
    /// Strategies rank by cost alone, the cheaper one higher.
    fn partial_cmp(&self, other: &Self) -> (r: Option<Ordering>) {
        if other.cost < self.cost {
            Some(Ordering::Less)
        } else if other.cost > self.cost {
            Some(Ordering::Greater)
        } else {
            Some(Ordering::Equal)
        }
    }
}

impl PartialOrdSpecImpl for Strategy {
    open spec fn obeys_partial_cmp_spec() -> bool {
        true
    }

    open spec fn partial_cmp_spec(&self, other: &Self) -> Option<Ordering> {
        cheaper_first_i32(self.cost, other.cost)
    }
}

impl PartialOrd for CoordItem {
    /// Items rank by cost alone, the cheaper one higher.
    fn partial_cmp(&self, other: &Self) -> (r: Option<Ordering>) {
        if other.cost < self.cost {
            Some(Ordering::Less)
        } else if other.cost > self.cost {
            Some(Ordering::Greater)
        } else {
            Some(Ordering::Equal)
        }
    }
}

impl PartialOrdSpecImpl for CoordItem {
    open spec fn obeys_partial_cmp_spec() -> bool {
        true
    }

    open spec fn partial_cmp_spec(&self, other: &Self) -> Option<Ordering> {
        cheaper_first_u32(self.cost, other.cost)
    }
}

/// The first of the cheapest strategies of a nonempty list.
pub open spec fn cheapest(list: Seq<Strategy>) -> Strategy
    decreases list.len(),
{
    if list.len() <= 1 {
        list[0]
    } else {
        let best = cheapest(list.drop_last());
        if list.last().cost < best.cost {
            list.last()
        } else {
            best
        }
    }
}

/// `cheapest` is one of the list's strategies, and none costs less.
pub proof fn lemma_cheapest(list: Seq<Strategy>)
    requires
        list.len() >= 1,
    ensures
        list.contains(cheapest(list)),
        forall|i: int| 0 <= i < list.len() ==> cheapest(list).cost <= (#[trigger] list[i]).cost,
    decreases list.len(),
{
    if list.len() > 1 {
        let rest = list.drop_last();
        lemma_cheapest(rest);
        let j = choose|j: int| 0 <= j < rest.len() && rest[j] == cheapest(rest);
        assert(list[j] == rest[j]);
        assert forall|i: int| 0 <= i < list.len() implies cheapest(list).cost <= (#[trigger] list[i]).cost by {
            if i < rest.len() {
                assert(list[i] == rest[i]);
            }
        }
    }
}

/// A strategy put in front of a list wins when it costs no more than the
/// list's cheapest; otherwise the list's cheapest wins.
pub proof fn lemma_cheapest_prepend(x: Strategy, rest: Seq<Strategy>)
    requires
        rest.len() >= 1,
    ensures
        cheapest(seq![x] + rest) == if x.cost <= cheapest(rest).cost { x } else { cheapest(rest) },
    decreases rest.len(),
{
    let all = seq![x] + rest;
    if rest.len() == 1 {
        assert(all.drop_last() =~= seq![x]);
    } else {
        assert(all.drop_last() =~= seq![x] + rest.drop_last());
        lemma_cheapest_prepend(x, rest.drop_last());
        assert(all.last() == rest.last());
    }
}

/// The strategy that the turn goes with: the first of the cheapest.
pub fn pick_cheapest(strategies: &Vec<Strategy>) -> (best: Strategy)
    requires
        strategies@.len() >= 1,
    ensures
        best == cheapest(strategies@),
{
    let mut best = strategies[0];
    let mut i: usize = 1;
    assert(strategies@.take(1).len() == 1);
    while i < strategies.len()
        invariant
            1 <= i <= strategies@.len(),
            best == cheapest(strategies@.take(i as int)),
        decreases strategies@.len() - i,
    {
        assert(strategies@.take(i + 1).drop_last() =~= strategies@.take(i as int));
        if strategies[i].cost < best.cost {
            best = strategies[i];
        }
        i = i + 1;
    }
    assert(strategies@.take(strategies@.len() as int) =~= strategies@);
    best
}

} // verus!
