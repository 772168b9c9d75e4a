//! The fewest wing flaps that carry a bird through a course of walls.
//!
//! With every unit it moves right, the bird either flaps and rises by one
//! or glides and sinks by one. Each wall stands at one `x` and has openings;
//! the bird has to be inside an opening whenever it is at the `x` of a
//! wall. States are the positions `(x, y)` at which the bird passes a wall.

use vstd::prelude::*;
use crate::graph::{edges_of, is_shortest_cost};
use crate::search::{computes_successors, decides_goal};
use crate::state_key::KeyLayout;

verus! {

/// An opening in the wall at `x`: the cells `y..y + height` are free.
#[derive(Clone, Copy, Debug)]
pub struct Opening {
    pub x: usize,
    pub y: usize,
    pub height: usize,
}

/// A course: its openings in the order of their walls, in a field of
/// `cols` by `rows` positions.
pub struct Course {
    pub openings: Vec<Opening>,
    pub cols: usize,
    pub rows: usize,
}

impl Course {
    /// The layout that numbers the positions of the field.
    pub open spec fn layout(&self) -> KeyLayout {
        KeyLayout { width: self.cols, height: self.rows, aux_range: 1 }
    }

    /// A course is in order when its openings come by ascending `x`, lie
    /// inside the field, and the positions of the field can be numbered.
    pub open spec fn wf(&self) -> bool {
        &&& self.layout().wf()
        &&& forall|i: int, j: int|
            0 <= i <= j < self.openings@.len() ==> self.openings@[i].x <= self.openings@[j].x
        &&& forall|i: int|
            0 <= i < self.openings@.len() ==> (#[trigger] self.openings@[i]).x < self.cols
                && self.openings@[i].y + self.openings@[i].height <= self.rows
    }

    /// The place of the first opening to the right of `x`, or the number of
    /// openings when there is none.
    pub open spec fn first_after(&self, x: usize) -> int {
        self.first_after_from(x, 0)
    }

    /// The place of the first opening to the right of `x` from the place
    /// `from` on.
    pub open spec fn first_after_from(&self, x: usize, from: int) -> int
        decreases self.openings@.len() - from,
    {
        if from < 0 || from >= self.openings@.len() {
            self.openings@.len() as int
        } else if self.openings@[from].x > x {
            from
        } else {
            self.first_after_from(x, from + 1)
        }
    }

    /// What `first_after_from` finds is the first opening right of `x`.
    pub proof fn lemma_first_after(&self, x: usize, from: int)
        requires
            0 <= from <= self.openings@.len(),
        ensures
            from <= self.first_after_from(x, from) <= self.openings@.len(),
            forall|i: int|
                from <= i < self.first_after_from(x, from) ==> (#[trigger] self.openings@[i]).x
                    <= x,
            self.first_after_from(x, from) < self.openings@.len() ==> self.openings@[self.first_after_from(
                x,
                from,
            )].x > x,
        decreases self.openings@.len() - from,
    {
        if from < self.openings@.len() && self.openings@[from].x <= x {
            self.lemma_first_after(x, from + 1);
        }
    }
}

/// The flaps it takes to get from `(x, y)` to `(nx, ny)`, or `None` when
/// the bird cannot get there: it rises or sinks by one with every unit it
/// moves, so the heights must differ by no more than the distance and by
/// an amount of the same parity.
pub open spec fn flaps_between(x: usize, y: usize, nx: usize, ny: usize) -> Option<u64> {
    let dx = nx - x;
    let dy = ny - y;
    if nx > x && -dx <= dy <= dx && (dx + dy) % 2 == 0 {
        Some(((dx + dy) / 2) as u64)
    } else {
        None
    }
}

/// The steps from `(x, y)` into the first `k` cells of the opening `o`.
pub open spec fn steps_into(layout: KeyLayout, x: usize, y: usize, o: Opening, k: nat) -> Seq<
    (usize, u64),
>
    decreases k,
{
    if k == 0 || k > o.height {
        Seq::empty()
    } else {
        let before = steps_into(layout, x, y, o, (k - 1) as nat);
        let ny = (o.y + k - 1) as usize;
        match flaps_between(x, y, o.x, ny) {
            Some(f) => before.push((layout.key_of(o.x as nat, ny as nat, 0) as usize, f)),
            None => before,
        }
    }
}

/// The steps from `(x, y)` into the openings at the places `left..upto`.
pub open spec fn steps_through(
    course: Course,
    x: usize,
    y: usize,
    left: int,
    upto: int,
) -> Seq<(usize, u64)>
    decreases upto - left,
{
    if upto <= left || upto > course.openings@.len() || left < 0 {
        Seq::empty()
    } else {
        let o = course.openings@[upto - 1];
        let before = steps_through(course, x, y, left, upto - 1);
        if o.x == course.openings@[left].x {
            before + steps_into(course.layout(), x, y, o, o.height as nat)
        } else {
            before
        }
    }
}

/// The course as a graph: from a position, the steps into the openings of
/// the next wall to the right.
pub open spec fn course_graph(course: Course) -> spec_fn(usize) -> Seq<(usize, u64)> {
    |s: usize|
        {
            let x = course.layout().x_of(s as nat) as usize;
            let y = course.layout().y_of(s as nat) as usize;
            let left = course.first_after(x);
            steps_through(course, x, y, left, course.openings@.len() as int)
        }
}

/// The positions at which the course is done: those at `max_x`.
pub open spec fn course_goals(course: Course, max_x: usize) -> spec_fn(usize) -> bool {
    |s: usize| course.layout().x_of(s as nat) == max_x
}

/// The place of the first opening to the right of `x`.
pub fn next_openings(x: usize, course: &Course) -> (left: usize)
    requires
        course.wf(),
    ensures
        left == course.first_after(x),
        left <= course.openings@.len(),
{
    proof {
        course.lemma_first_after(x, 0);
    }
    let mut lo: usize = 0;
    let mut hi: usize = course.openings.len();
    while lo < hi
        invariant
            lo <= hi <= course.openings@.len(),
            course.wf(),
            forall|i: int| 0 <= i < lo ==> (#[trigger] course.openings@[i]).x <= x,
            forall|i: int| hi <= i < course.openings@.len() ==> (#[trigger] course.openings@[i]).x > x,
        decreases hi - lo,
    {
        let mid: usize = lo + (hi - lo) / 2;
        if course.openings[mid].x <= x {
            lo = mid + 1;
        } else {
            hi = mid;
        }
    }
    proof {
        let f = course.first_after(x);
        if f < lo {
            assert(course.openings@[f].x <= x);
        }
        if lo < f {
            assert(course.openings@[lo as int].x <= x);
            assert(course.openings@[lo as int].x > x);
        }
    }
    lo
}

/// The flaps it takes to get from `(x, y)` to `(nx, ny)`.
pub fn flaps(x: usize, y: usize, nx: usize, ny: usize) -> (r: Option<u64>)
    ensures
        r == flaps_between(x, y, nx, ny),
{
    if nx <= x {
        return None;
    }
    let dx: usize = nx - x;
    if ny >= y {
        let up: usize = ny - y;
        if up <= dx && (dx - up) % 2 == 0 {
            assert((dx + up) % 2 == 0 && (dx + up) / 2 == up + (dx - up) / 2) by {
                assert(dx + up == (dx - up) + 2 * up);
            }
            Some((up + (dx - up) / 2) as u64)
        } else {
            assert((dx + up) % 2 == 0 ==> (dx - up) % 2 == 0) by {
                assert(dx + up == (dx - up) + 2 * up);
            }
            None
        }
    } else {
        let down: usize = y - ny;
        if down <= dx && (dx - down) % 2 == 0 {
            Some(((dx - down) / 2) as u64)
        } else {
            None
        }
    }
}

/// The steps from the position with key `s` into the openings of the next
/// wall to the right.
pub fn steps_from(course: &Course, s: usize) -> (r: Vec<(usize, u64)>)
    requires
        course.wf(),
        s < course.layout().capacity(),
    ensures
        r@ == course_graph(*course)(s),
        forall|i: int| 0 <= i < r@.len() ==> (#[trigger] r@[i]).0 < course.layout().capacity(),
{
    let layout = KeyLayout { width: course.cols, height: course.rows, aux_range: 1 };
    let (x, y, _) = layout.decode(s);
    let left: usize = next_openings(x, course);
    let mut out: Vec<(usize, u64)> = Vec::new();
    let mut i: usize = left;
    while i < course.openings.len()
        invariant
            left <= i <= course.openings@.len(),
            course.wf(),
            layout == course.layout(),
            out@ == steps_through(*course, x, y, left as int, i as int),
            forall|j: int| 0 <= j < out@.len() ==> (#[trigger] out@[j]).0 < layout.capacity(),
        decreases course.openings@.len() - i,
    {
        let o: Opening = course.openings[i];
        if o.x == course.openings[left].x {
            let ghost before = out@;
            let mut k: usize = 0;
            while k < o.height
                invariant
                    k <= o.height,
                    course.wf(),
                    layout == course.layout(),
                    o == course.openings@[i as int],
                    i < course.openings@.len(),
                    out@ == before + steps_into(layout, x, y, o, k as nat),
                    forall|j: int|
                        0 <= j < out@.len() ==> (#[trigger] out@[j]).0 < layout.capacity(),
                decreases o.height - k,
            {
                let ny: usize = o.y + k;
                match flaps(x, y, o.x, ny) {
                    Some(f) => {
                        let key: usize = layout.encode(o.x, ny, 0);
                        out.push((key, f));
                        assert(out@ =~= before + steps_into(layout, x, y, o, (k + 1) as nat));
                    },
                    None => {},
                }
                k += 1;
            }
        }
        i += 1;
    }
    out
}

/// The fewest flaps with which the bird gets from `(0, 0)` to a position at
/// `max_x`, or `None` when it cannot get there.
pub fn shortest_path(course: &Course, max_x: usize) -> (r: Option<u64>)
    requires
        course.wf(),
        course.cols > 0,
        course.rows > 0,
    ensures
        is_shortest_cost(
            edges_of(course_graph(*course)),
            course_goals(*course, max_x),
            0,
            u64::MAX as nat,
            r,
        ),
{
    let layout = KeyLayout { width: course.cols, height: course.rows, aux_range: 1 };
    let n: usize = layout.capacity_of();
    proof {
        layout.lemma_key_in_range(0, 0, 0);
    }
    let transition = |s: usize| -> (list: Vec<(usize, u64)>)
        requires
            course.wf(),
            s < course.layout().capacity(),
        ensures
            list@ == course_graph(*course)(s),
            forall|i: int|
                0 <= i < list@.len() ==> (#[trigger] list@[i]).0 < course.layout().capacity(),
        { steps_from(course, s) };
    let goal = |s: usize| -> (b: bool)
        requires
            course.wf(),
            s < course.layout().capacity(),
        ensures
            b == course_goals(*course, max_x)(s),
        {
            let layout = KeyLayout { width: course.cols, height: course.rows, aux_range: 1 };
            layout.decode(s).0 == max_x
        };
    let r = crate::search::dijkstra_sparse(0, n, transition, goal);
    proof {
        assert(computes_successors(&transition, n, course_graph(*course)));
        assert(decides_goal(&goal, n, course_goals(*course, max_x)));
    }
    r
}

} // verus!
