//! The shout that goes with a move: the strategy, its cost and the move,
//! written as `STRATEGY: NomNom | COST: 6 | MOVE: Up`.
use vstd::prelude::*;

use crate::model::Direction;
use crate::strategy::{Strategy, StrategyName};

verus! {

/// The text of one decimal digit.
pub open spec fn digit_text(d: int) -> Seq<char> {
    if d == 0 {
        "0"@
    } else if d == 1 {
        "1"@
    } else if d == 2 {
        "2"@
    } else if d == 3 {
        "3"@
    } else if d == 4 {
        "4"@
    } else if d == 5 {
        "5"@
    } else if d == 6 {
        "6"@
    } else if d == 7 {
        "7"@
    } else if d == 8 {
        "8"@
    } else {
        "9"@
    }
}

/// The decimal digits of `n`, most significant first.
pub open spec fn decimal_text(n: nat) -> Seq<char>
    decreases n,
{
    if n < 10 {
        digit_text(n as int)
    } else {
        decimal_text(n / 10) + digit_text((n % 10) as int)
    }
}

/// An integer in decimal, with a minus sign when negative.
pub open spec fn int_text(v: int) -> Seq<char> {
    if v < 0 {
        "-"@ + decimal_text((-v) as nat)
    } else {
        decimal_text(v as nat)
    }
}

pub open spec fn strategy_name_text(n: StrategyName) -> Seq<char> {
    match n {
        StrategyName::Random => "Random"@,
        StrategyName::Starving => "Starving"@,
        StrategyName::Survival => "Survival"@,
        StrategyName::FollowMySelf => "FollowMySelf"@,
        StrategyName::FollowAFriend => "FollowAFriend"@,
        StrategyName::NomNom => "NomNom"@,
    }
}

pub open spec fn direction_text(d: Direction) -> Seq<char> {
    match d {
        Direction::Up => "Up"@,
        Direction::Down => "Down"@,
        Direction::Left => "Left"@,
        Direction::Right => "Right"@,
    }
}

/// The shout of a move made for `s`.
pub open spec fn shout_text(s: Strategy) -> Seq<char> {
    "STRATEGY: "@ + strategy_name_text(s.name) + " | COST: "@ + int_text(s.cost as int) + " | MOVE: "@
        + direction_text(s.direction)
}

fn digit_str(d: u32) -> (t: &'static str)
    requires
        d < 10,
    ensures
        t@ == digit_text(d as int),
{
    match d {
        0 => "0",
        1 => "1",
        2 => "2",
        3 => "3",
        4 => "4",
        5 => "5",
        6 => "6",
        7 => "7",
        8 => "8",
        _ => "9",
    }
}

/// Appends `n` in decimal to `out`.
fn append_decimal(out: &mut String, n: u32)
    ensures
        final(out)@ == old(out)@ + decimal_text(n as nat),
    decreases n,
{
    if n >= 10 {
        append_decimal(out, n / 10);
    }
    out.append(digit_str(n % 10));
    proof {
        if n >= 10 {
            assert(decimal_text(n as nat) == decimal_text((n / 10) as nat) + digit_text((n % 10) as int));
        } else {
            assert(n % 10 == n);
        }
    }
}

fn strategy_name_str(n: StrategyName) -> (t: &'static str)
    ensures
        t@ == strategy_name_text(n),
{
    match n {
        StrategyName::Random => "Random",
        StrategyName::Starving => "Starving",
        StrategyName::Survival => "Survival",
        StrategyName::FollowMySelf => "FollowMySelf",
        StrategyName::FollowAFriend => "FollowAFriend",
        StrategyName::NomNom => "NomNom",
    }
}

fn direction_str(d: Direction) -> (t: &'static str)
    ensures
        t@ == direction_text(d),
{
    match d {
        Direction::Up => "Up",
        Direction::Down => "Down",
        Direction::Left => "Left",
        Direction::Right => "Right",
    }
}

/// The shout of a move made for `s`.
pub fn shout(s: &Strategy) -> (t: String)
    ensures
        t@ == shout_text(*s),
{
    let mut out = String::new();
    out.append("STRATEGY: ");
    out.append(strategy_name_str(s.name));
    out.append(" | COST: ");
    if s.cost < 0 {
        out.append("-");
        let magnitude: u32 = if s.cost == i32::MIN {
            2147483648u32
        } else {
            (-s.cost) as u32
        };
        append_decimal(&mut out, magnitude);
    } else {
        append_decimal(&mut out, s.cost as u32);
    }
    out.append(" | MOVE: ");
    out.append(direction_str(s.direction));
    proof {
        assert(out@ =~= shout_text(*s));
    }
    out
}

} // verus!
