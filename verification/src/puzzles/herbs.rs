//! Gathering one herb of every kind on a map and coming back.
//!
//! The map is a grid: `#` and `~` cannot be walked on, a letter is a herb
//! of the kind the letter names, `@` is the place where the walk begins and
//! ends. The map is first condensed into a network of links between
//! places of interest, then searched over states that pair a place with the
//! set of kinds still missing.

use vstd::prelude::*;
use crate::graph::{edges_of, is_shortest_cost};
use crate::grid::Grid;
use crate::search::{all_costs, computes_successors, decides_goal, distances};
use crate::search_model::only;
use crate::state_key::KeyLayout;

verus! {

/// A link of the network: `steps` steps lead to the cell `to`, which holds
/// a herb of kind `kind`. Kind 0 is the starting place.
#[derive(Clone, Copy, Debug, PartialEq, Eq)]
pub struct Link {
    pub to: usize,
    pub kind: usize,
    pub steps: u64,
}

/// Whether a cell that holds `byte` is a place of interest: a herb or the
/// starting place.
pub open spec fn is_place(byte: u8) -> bool {
    (0x41 <= byte <= 0x5a) || (0x61 <= byte <= 0x7a) || byte == 0x40
}

/// Whether a cell that holds `byte` can be walked on.
pub open spec fn is_open(byte: u8) -> bool {
    byte != 0x23 && byte != 0x7e
}

/// Whether a walk that set out from a place holding `origin` ends in the
/// cell `s`: it does at every place of another kind.
pub open spec fn ends_walk(grid: Grid, origin: u8, s: usize) -> bool {
    is_place(grid.cells@[s as int]) && grid.cells@[s as int] != origin
}

/// The step from cell `s` in direction `d`, if the walk goes on from `s`
/// and the cell in that direction can be walked on.
pub open spec fn walk_step(grid: Grid, origin: u8, s: usize, d: int) -> Option<(usize, u64)> {
    match grid.neighbor_of(s, d) {
        Some(t) => if !ends_walk(grid, origin, s) && is_open(grid.cells@[t as int]) {
            Some((t, 1u64))
        } else {
            None
        },
        None => None,
    }
}

/// The steps from cell `s` in the first `upto` directions.
pub open spec fn walk_steps(grid: Grid, origin: u8, s: usize, upto: nat) -> Seq<(usize, u64)>
    decreases upto,
{
    if upto == 0 {
        Seq::empty()
    } else {
        let before = walk_steps(grid, origin, s, (upto - 1) as nat);
        match walk_step(grid, origin, s, upto - 1) {
            Some(step) => before.push(step),
            None => before,
        }
    }
}

/// The map as a graph for walks that set out from a place holding
/// `origin`.
pub open spec fn walk_graph(grid: Grid, origin: u8) -> spec_fn(usize) -> Seq<(usize, u64)> {
    |s: usize| walk_steps(grid, origin, s, 4)
}

/// Whether `link` is a link out of cell `s`: it leads to a place of
/// another kind than that of `s`, names its kind, and counts the steps of a
/// shortest walk there.
pub open spec fn is_link(grid: Grid, kinds: Seq<usize>, s: usize, link: Link) -> bool {
    &&& link.to < grid.area()
    &&& ends_walk(grid, grid.cells@[s as int], link.to)
    &&& link.kind == kinds[grid.cells@[link.to as int] as int]
    &&& is_shortest_cost(
        edges_of(walk_graph(grid, grid.cells@[s as int])),
        only(link.to),
        s,
        u64::MAX as nat,
        Some(link.steps),
    )
}

/// Whether a cell that holds `byte` is a place of interest.
pub fn place(byte: u8) -> (r: bool)
    ensures
        r == is_place(byte),
{
    (byte >= 0x41 && byte <= 0x5a) || (byte >= 0x61 && byte <= 0x7a) || byte == 0x40
}

/// The steps of a walk that set out from a place holding `origin`, out of
/// cell `s`.
pub fn walk_from(grid: &Grid, origin: u8, s: usize) -> (r: Vec<(usize, u64)>)
    requires
        grid.wf(),
        s < grid.area(),
    ensures
        r@ == walk_graph(*grid, origin)(s),
        forall|i: int| 0 <= i < r@.len() ==> (#[trigger] r@[i]).0 < grid.area(),
{
    let mut out: Vec<(usize, u64)> = Vec::new();
    let here: u8 = grid.cells[s];
    let stop: bool = place(here) && here != origin;
    let mut d: usize = 0;
    while d < 4
        invariant
            d <= 4,
            grid.wf(),
            s < grid.area(),
            stop == ends_walk(*grid, origin, s),
            out@ == walk_steps(*grid, origin, s, d as nat),
            forall|i: int| 0 <= i < out@.len() ==> (#[trigger] out@[i]).0 < grid.area(),
        decreases 4 - d,
    {
        match grid.neighbor(s, d) {
            Some(t) => {
                let byte: u8 = grid.cells[t];
                if !stop && byte != 0x23 && byte != 0x7e {
                    out.push((t, 1));
                }
            },
            None => {},
        }
        d += 1;
    }
    out
}

/// The links out of the place in cell `s`: one to every place of another
/// kind that a walk from `s` reaches without passing through such a place,
/// in the order of the cells. `kinds` gives the kind of herb for every
/// byte.
pub fn bfs(s: usize, grid: &Grid, kinds: &Vec<usize>) -> (links: Vec<Link>)
    requires
        grid.wf(),
        s < grid.area(),
        kinds@.len() == 256,
    ensures
        forall|i: int| 0 <= i < links@.len() ==> is_link(*grid, kinds@, s, #[trigger] links@[i]),
        forall|i: int, j: int|
            0 <= i < j < links@.len() ==> (#[trigger] links@[i]).to < (#[trigger] links@[j]).to,
        forall|link: Link|
            is_link(*grid, kinds@, s, link) ==> exists|i: int|
                0 <= i < links@.len() && links@[i] == link,
{
    let n: usize = grid.len();
    let origin: u8 = grid.cells[s];
    let transition = |c: usize| -> (list: Vec<(usize, u64)>)
        requires
            grid.wf(),
            c < grid.area(),
        ensures
            list@ == walk_graph(*grid, origin)(c),
            forall|i: int| 0 <= i < list@.len() ==> (#[trigger] list@[i]).0 < grid.area(),
        { walk_from(grid, origin, c) };
    let costs = distances(s, n, transition);
    let ghost edge = edges_of(walk_graph(*grid, origin));
    proof {
        assert(computes_successors(&transition, n, walk_graph(*grid, origin)));
        assert forall|t: usize| t < n implies is_shortest_cost(
            edge,
            only(t),
            s,
            u64::MAX as nat,
            #[trigger] costs@[t as int],
        ) by {}
    }
    let mut links: Vec<Link> = Vec::new();
    let mut t: usize = 0;
    while t < n
        invariant
            t <= n,
            n == grid.area(),
            n == costs@.len(),
            grid.wf(),
            s < n,
            kinds@.len() == 256,
            origin == grid.cells@[s as int],
            edge == edges_of(walk_graph(*grid, origin)),
            forall|k: usize|
                k < n ==> is_shortest_cost(
                    edge,
                    only(k),
                    s,
                    u64::MAX as nat,
                    #[trigger] costs@[k as int],
                ),
            forall|i: int| 0 <= i < links@.len() ==> is_link(*grid, kinds@, s, #[trigger] links@[i]),
            forall|i: int| 0 <= i < links@.len() ==> (#[trigger] links@[i]).to < t,
            forall|i: int, j: int|
                0 <= i < j < links@.len() ==> (#[trigger] links@[i]).to < (#[trigger] links@[j]).to,
            forall|link: Link|
                is_link(*grid, kinds@, s, link) && link.to < t ==> exists|i: int|
                    0 <= i < links@.len() && links@[i] == link,
        decreases n - t,
    {
        let byte: u8 = grid.cells[t];
        let ghost before = links@;
        let mut added: bool = false;
        if place(byte) && byte != origin {
            match costs[t] {
                Some(steps) => {
                    links.push(Link { to: t, kind: kinds[byte as usize], steps });
                    added = true;
                },
                None => {},
            }
        }
        proof {
            assert forall|link: Link|
                is_link(*grid, kinds@, s, link) && link.to < t + 1 implies exists|i: int|
                0 <= i < links@.len() && links@[i] == link by {
                if link.to < t {
                    let i = choose|i: int| 0 <= i < before.len() && before[i] == link;
                    assert(links@[i] == link);
                } else {
                    crate::graph::lemma_shortest_cost_unique(
                        edge,
                        only(t),
                        s,
                        u64::MAX as nat,
                        costs@[t as int],
                        Some(link.steps),
                    );
                    assert(added);
                    assert(links@[links@.len() - 1] == link);
                }
            }
        }
        t += 1;
    }
    links
}

/// The network that a map condenses into: for every cell the links out of
/// it and the kind of what it holds. Kinds are numbered from 0, the
/// starting place, to `kinds - 1`.
pub struct Network {
    pub links: Vec<Vec<Link>>,
    pub kind_at: Vec<usize>,
    pub kinds: u32,
}

impl Network {
    /// The number of sets of kinds: two to the number of kinds.
    pub open spec fn masks(&self) -> nat {
        vstd::arithmetic::power2::pow2(self.kinds as nat)
    }

    /// The layout that numbers the pairs of a cell and a set of kinds.
    pub open spec fn layout(&self) -> KeyLayout {
        KeyLayout { width: self.links@.len() as usize, height: 1, aux_range: self.masks() as usize }
    }

    /// A network is in order when every cell has its kind, every link its
    /// target and kind, and the pairs of cell and set can be numbered.
    pub open spec fn wf(&self) -> bool {
        &&& self.kinds <= 31
        &&& self.kind_at@.len() == self.links@.len()
        &&& self.links@.len() * self.masks() <= usize::MAX
        &&& forall|c: int| 0 <= c < self.kind_at@.len() ==> (#[trigger] self.kind_at@[c]) < self.kinds
        &&& forall|c: int, i: int|
            0 <= c < self.links@.len() && 0 <= i < self.links@[c]@.len() ==> (
            #[trigger] self.links@[c]@[i]).to < self.links@.len()
    }
}

/// The set `mask` of missing kinds without the kind `kind`.
pub open spec fn without(mask: u32, kind: usize) -> u32 {
    mask & !(1u32 << (kind as u32))
}

/// The step along `link` for a walker who is still missing `left`, if the
/// link may be taken: the way back to the starting place only once nothing
/// is missing.
pub open spec fn gather_step(net: Network, left: u32, link: Link) -> Option<(usize, u64)> {
    if link.kind != 0 || left == 0 {
        Some((net.layout().key_of(link.to as nat, 0, left as nat) as usize, link.steps))
    } else {
        None
    }
}

/// The steps along the first `upto` of `links` for a walker who is still
/// missing `left`.
pub open spec fn gather_steps(net: Network, left: u32, links: Seq<Link>, upto: nat) -> Seq<
    (usize, u64),
>
    decreases upto,
{
    if upto == 0 || upto > links.len() {
        Seq::empty()
    } else {
        let before = gather_steps(net, left, links, (upto - 1) as nat);
        match gather_step(net, left, links[upto - 1]) {
            Some(step) => before.push(step),
            None => before,
        }
    }
}

/// The network as a graph over pairs of a cell and a set of missing kinds:
/// the walker picks up what the cell holds and follows a link.
pub open spec fn gather_graph(net: Network) -> spec_fn(usize) -> Seq<(usize, u64)> {
    |s: usize|
        {
            let cell = net.layout().x_of(s as nat) as int;
            let mask = net.layout().aux_of(s as nat) as u32;
            let left = without(mask, net.kind_at@[cell]);
            gather_steps(net, left, net.links@[cell]@, net.links@[cell]@.len())
        }
}

/// The pairs at which the walk is done: at the starting place with nothing
/// missing.
pub open spec fn gather_goals(net: Network) -> spec_fn(usize) -> bool {
    |s: usize|
        net.kind_at@[net.layout().x_of(s as nat) as int] == 0 && net.layout().aux_of(s as nat)
            == 0
}

/// Two to the `kinds`, for at most 31 kinds.
pub fn mask_count(kinds: u32) -> (r: u32)
    requires
        kinds <= 31,
    ensures
        r == vstd::arithmetic::power2::pow2(kinds as nat),
        r >= 1,
{
    proof {
        vstd::arithmetic::power2::lemma_pow2_strictly_increases(kinds as nat, 32);
        vstd::arithmetic::power2::lemma2_to64();
        vstd::arithmetic::power2::lemma_pow2_pos(kinds as nat);
        vstd::bits::lemma_u32_shl_is_mul(1, kinds);
    }
    1u32 << kinds
}

/// Taking a kind out of a set leaves a set that is no larger.
pub proof fn lemma_without_shrinks(mask: u32, kind: u32)
    requires
        kind < 32,
    ensures
        mask & !(1u32 << kind) <= mask,
{
    assert(mask & !(1u32 << kind) <= mask) by (bit_vector)
        requires
            kind < 32,
    ;
}

/// The steps out of the pair with key `s`.
pub fn gather_from(net: &Network, s: usize) -> (r: Vec<(usize, u64)>)
    requires
        net.wf(),
        s < net.layout().capacity(),
    ensures
        r@ == gather_graph(*net)(s),
        forall|i: int| 0 <= i < r@.len() ==> (#[trigger] r@[i]).0 < net.layout().capacity(),
{
    let masks: u32 = mask_count(net.kinds);
    let layout = KeyLayout { width: net.links.len(), height: 1, aux_range: masks as usize };
    assert(layout == net.layout());
    assert(layout.capacity() == net.links@.len() * net.masks()) by (nonlinear_arith)
        requires
            layout.capacity() == (net.links@.len() as nat) * 1 * net.masks(),
    ;
    let (cell, _, mask) = layout.decode(s);
    let kind: usize = net.kind_at[cell];
    proof {
        lemma_without_shrinks(mask as u32, kind as u32);
    }
    let left: u32 = (mask as u32) & !(1u32 << (kind as u32));
    let links: &Vec<Link> = &net.links[cell];
    let mut out: Vec<(usize, u64)> = Vec::new();
    let mut i: usize = 0;
    while i < links.len()
        invariant
            i <= links@.len(),
            net.wf(),
            layout == net.layout(),
            layout.wf(),
            layout.width == net.links@.len(),
            layout.height == 1,
            layout.aux_range == masks,
            cell < net.links@.len(),
            links@ == net.links@[cell as int]@,
            left < masks,
            masks == net.masks(),
            out@ == gather_steps(*net, left, links@, i as nat),
            forall|j: int| 0 <= j < out@.len() ==> (#[trigger] out@[j]).0 < layout.capacity(),
        decreases links@.len() - i,
    {
        let link: Link = links[i];
        assert(net.links@[cell as int]@[i as int].to < net.links@.len());
        if link.kind != 0 || left == 0 {
            let key: usize = layout.encode(link.to, 0, left as usize);
            out.push((key, link.steps));
        }
        i += 1;
    }
    out
}

/// The fewest steps of a walk that sets out from the cell `start`, picks
/// up a herb of every kind and comes back, or `None` when there is no such
/// walk.
pub fn gather(net: &Network, start: usize) -> (r: Option<u64>)
    requires
        net.wf(),
        start < net.links@.len(),
        net.kinds >= 1,
    ensures
        is_shortest_cost(
            edges_of(gather_graph(*net)),
            gather_goals(*net),
            net.layout().key_of(start as nat, 0, (net.masks() - 2) as nat) as usize,
            u64::MAX as nat,
            r,
        ),
{
    let masks: u32 = mask_count(net.kinds);
    let layout = KeyLayout { width: net.links.len(), height: 1, aux_range: masks as usize };
    assert(layout == net.layout());
    assert(layout.capacity() == net.links@.len() * net.masks()) by (nonlinear_arith)
        requires
            layout.capacity() == (net.links@.len() as nat) * 1 * net.masks(),
    ;
    proof {
        vstd::arithmetic::power2::lemma_pow2_strictly_increases(0, net.kinds as nat);
        vstd::arithmetic::power2::lemma2_to64();
    }
    let n: usize = layout.capacity_of();
    let all: usize = (masks - 2) as usize;
    let first: usize = layout.encode(start, 0, all);
    let transition = |s: usize| -> (list: Vec<(usize, u64)>)
        requires
            net.wf(),
            s < net.layout().capacity(),
        ensures
            list@ == gather_graph(*net)(s),
            forall|i: int|
                0 <= i < list@.len() ==> (#[trigger] list@[i]).0 < net.layout().capacity(),
        { gather_from(net, s) };
    let goal = |s: usize| -> (b: bool)
        requires
            net.wf(),
            s < net.layout().capacity(),
            layout == net.layout(),
        ensures
            b == gather_goals(*net)(s),
        {
            let (cell, _, mask) = layout.decode(s);
            net.kind_at[cell] == 0 && mask == 0
        };
    let r = crate::search::dijkstra_sparse(first, n, transition, goal);
    proof {
        assert(computes_successors(&transition, n, gather_graph(*net)));
        assert(decides_goal(&goal, n, gather_goals(*net)));
    }
    r
}

} // verus!
