//! Shots from a catapult: a projectile rises for as long as the strength
//! of the shot, flies level for as long again, and then falls, moving one
//! unit sideways with every unit of time.

use vstd::prelude::*;

verus! {

/// The largest height, strength and time that the functions here take.
pub const RANGE: i32 = 0x1000_0000;

/// The height, after `time`, of a projectile shot from the height `cy`
/// with the given `strength`.
pub open spec fn height(cy: int, strength: int, time: int) -> int {
    if time <= strength {
        cy + time
    } else if time <= 2 * strength {
        cy + strength
    } else {
        cy + 3 * strength - time
    }
}

/// A stronger shot is higher after the same time, as long as the strength
/// does not exceed the time.
pub proof fn lemma_height_increases(cy: int, weaker: int, stronger: int, time: int)
    requires
        0 <= weaker < stronger <= time,
    ensures
        height(cy, weaker, time) < height(cy, stronger, time),
{
}

/// The height, after `time`, of a projectile shot from the height `cy`
/// with the given `strength`.
pub fn extrapolate(cy: i32, strength: i32, time: i32) -> (r: i32)
    requires
        -RANGE <= cy <= RANGE,
        0 <= strength <= RANGE,
        0 <= time <= RANGE,
    ensures
        r == height(cy as int, strength as int, time as int),
{
    let mut cy: i32 = cy;
    let mut remaining_time: i32 = time;
    let d1: i32 = if strength < remaining_time {
        strength
    } else {
        remaining_time
    };
    cy += d1;
    remaining_time -= d1;
    if remaining_time == 0 {
        return cy;
    }
    let d2: i32 = if strength < remaining_time {
        strength
    } else {
        remaining_time
    };
    remaining_time -= d2;
    if remaining_time == 0 {
        return cy;
    }
    cy - remaining_time
}

/// The strength with which the catapult at `(cx, cy)` hits the target at
/// `(tx, ty)`, or `None` when no strength from 1 up to the distance does.
pub fn can_hit(cx: i32, cy: i32, tx: i32, ty: i32) -> (r: Option<i32>)
    requires
        -RANGE <= cy <= RANGE,
        0 <= cx <= tx <= RANGE,
    ensures
        match r {
            Some(s) => (s == tx - cx || 1 <= s < tx - cx) && height(
                cy as int,
                s as int,
                (tx - cx) as int,
            ) == ty,
            None => height(cy as int, (tx - cx) as int, (tx - cx) as int) != ty && forall|s: int|
                1 <= s <= tx - cx ==> #[trigger] height(cy as int, s, (tx - cx) as int) != ty,
        },
{
    let time: i32 = tx - cx;
    let max_height: i32 = cy + time;
    if max_height == ty {
        return Some(time);
    }
    if max_height < ty {
        proof {
            assert forall|s: int| 1 <= s <= time implies #[trigger] height(
                cy as int,
                s,
                time as int,
            ) != ty by {
                if s < time {
                    lemma_height_increases(cy as int, s, time as int, time as int);
                }
            }
        }
        return None;
    }
    let mut min: i32 = 1;
    let mut max: i32 = time;
    while min < max
        invariant
            1 <= min,
            max <= time,
            time == tx - cx,
            0 <= time <= RANGE,
            -RANGE <= cy <= RANGE,
            forall|s: int| 1 <= s < min ==> #[trigger] height(cy as int, s, time as int) < ty,
            forall|s: int| max <= s <= time ==> #[trigger] height(cy as int, s, time as int) > ty,
        decreases max - min,
    {
        let strength: i32 = (min + max) / 2;
        let hy: i32 = extrapolate(cy, strength, time);
        if hy == ty {
            return Some(strength);
        }
        if hy > ty {
            proof {
                assert forall|s: int| strength <= s <= time implies #[trigger] height(
                    cy as int,
                    s,
                    time as int,
                ) > ty by {
                    if strength < s {
                        lemma_height_increases(cy as int, strength as int, s, time as int);
                    }
                }
            }
            max = strength;
        } else {
            proof {
                assert forall|s: int| 1 <= s < strength + 1 implies #[trigger] height(
                    cy as int,
                    s,
                    time as int,
                ) < ty by {
                    if s < strength {
                        lemma_height_increases(cy as int, s, strength as int, time as int);
                    }
                }
            }
            min = strength + 1;
        }
    }
    None
}

} // verus!
