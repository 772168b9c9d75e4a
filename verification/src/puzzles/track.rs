//! A race track drawn on a plan: from the cell right of the start the
//! track leads from piece to piece, always to the first neighbour that
//! has not been passed, until it comes back to the start.

use crate::grid::Grid;
use crate::puzzles::chariots::Action;
use vstd::prelude::*;

verus! {

/// What a piece of track asks for, or `None` for a byte that is no
/// piece of track. The start leaves the choice to the plan.
pub open spec fn action_of(c: u8) -> Option<Action> {
    if c == 43 {
        Some(Action::Inc)
    } else if c == 45 {
        Some(Action::Dec)
    } else if c == 61 || c == 83 {
        Some(Action::Maintain)
    } else {
        None
    }
}

/// The neighbour of the cell `s` in the direction `d`, if it is not
/// blank.
pub open spec fn way_on(cells: Seq<u8>, plan: Grid, s: usize, d: int) -> Option<usize> {
    match plan.neighbor_of(s, d) {
        Some(t) => if cells[t as int] != 32 {
            Some(t)
        } else {
            None
        },
        None => None,
    }
}

/// The first neighbour of the cell `s` that is not blank, in the
/// directions from `d` on: right, down, left, up.
pub open spec fn next_cell(cells: Seq<u8>, plan: Grid, s: usize, d: int) -> Option<usize>
    decreases 4 - d,
{
    if d >= 4 {
        None
    } else {
        match way_on(cells, plan, s, d) {
            Some(t) => Some(t),
            None => next_cell(cells, plan, s, d + 1),
        }
    }
}

/// The track from the cell `s` on, over at most `fuel` pieces: the
/// action of every piece up to the start, where the track ends. Every
/// piece passed becomes blank. `None` where the track meets a byte that
/// is no piece of track, or ends before the start.
pub open spec fn track(cells: Seq<u8>, plan: Grid, s: usize, fuel: nat) -> Option<Seq<Action>>
    decreases fuel,
{
    if fuel == 0 {
        None
    } else {
        match action_of(cells[s as int]) {
            None => None,
            Some(a) => if cells[s as int] == 83 {
                Some(seq![a])
            } else {
                let passed = cells.update(s as int, 32);
                match next_cell(passed, plan, s, 0) {
                    None => None,
                    Some(t) => match track(passed, plan, t, (fuel - 1) as nat) {
                        None => None,
                        Some(rest) => Some(seq![a] + rest),
                    },
                }
            },
        }
    }
}

/// The action of a piece of track.
pub fn action(c: u8) -> (r: Option<Action>)
    ensures
        r == action_of(c),
{
    if c == 43 {
        Some(Action::Inc)
    } else if c == 45 {
        Some(Action::Dec)
    } else if c == 61 || c == 83 {
        Some(Action::Maintain)
    } else {
        None
    }
}

/// The first neighbour of the cell `s` that is not blank.
pub fn next_piece(cells: &Vec<u8>, plan: &Grid, s: usize) -> (r: Option<usize>)
    requires
        plan.wf(),
        cells@.len() == plan.area(),
        s < plan.area(),
    ensures
        r == next_cell(cells@, *plan, s, 0),
        r matches Some(t) ==> t < plan.area(),
{
    let mut d: usize = 0;
    while d < 4
        invariant
            d <= 4,
            plan.wf(),
            cells@.len() == plan.area(),
            s < plan.area(),
            next_cell(cells@, *plan, s, 0) == next_cell(cells@, *plan, s, d as int),
        decreases 4 - d,
    {
        match plan.neighbor(s, d) {
            Some(t) => {
                if cells[t] != 32 {
                    return Some(t);
                }
            },
            None => {},
        }
        d += 1;
    }
    None
}

/// Reads the track off the plan: the action of every piece from the
/// cell right of the first cell on, up to the start, which is marked
/// `S`. Returns `None` where the track meets a byte that is no piece of
/// track, or ends before it reaches the start.
pub fn parse_track(plan: &Grid) -> (r: Option<Vec<Action>>)
    requires
        plan.wf(),
        plan.area() >= 2,
        plan.area() < usize::MAX,
    ensures
        r.is_some() == track(plan.cells@, *plan, 1, (plan.area() + 1) as nat).is_some(),
        r matches Some(actions) ==> actions@ == track(
            plan.cells@,
            *plan,
            1,
            (plan.area() + 1) as nat,
        ).unwrap(),
{
    let mut cells: Vec<u8> = Vec::new();
    let mut i: usize = 0;
    while i < plan.cells.len()
        invariant
            i <= plan.cells@.len(),
            cells@ == plan.cells@.take(i as int),
        decreases plan.cells@.len() - i,
    {
        cells.push(plan.cells[i]);
        assert(cells@ =~= plan.cells@.take(i + 1));
        i += 1;
    }
    assert(cells@ =~= plan.cells@);
    let ghost whole = track(plan.cells@, *plan, 1, (plan.area() + 1) as nat);
    let mut result: Vec<Action> = Vec::new();
    let mut pos: usize = 1;
    let mut fuel: usize = plan.cells.len() + 1;
    while fuel > 0
        invariant
            plan.wf(),
            cells@.len() == plan.area(),
            pos < plan.area(),
            whole == track(plan.cells@, *plan, 1, (plan.area() + 1) as nat),
            whole == match track(cells@, *plan, pos, fuel as nat) {
                Some(rest) => Some(result@ + rest),
                None => None,
            },
        decreases fuel,
    {
        let c: u8 = cells[pos];
        let a: Action = match action(c) {
            Some(a) => a,
            None => {
                return None;
            },
        };
        let ghost before = result@;
        result.push(a);
        if c == 83 {
            assert(result@ =~= before + seq![a]);
            return Some(result);
        }
        cells.set(pos, 32);
        match next_piece(&cells, plan, pos) {
            None => {
                return None;
            },
            Some(t) => {
                proof {
                    match track(cells@, *plan, t, (fuel - 1) as nat) {
                        Some(rest) => {
                            assert(before + (seq![a] + rest) =~= result@ + rest);
                        },
                        None => {},
                    }
                }
                pos = t;
            },
        }
        fuel -= 1;
    }
    None
}

} // verus!
