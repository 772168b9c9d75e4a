//! Plants that feed on each other: a plant takes in the energy of the
//! plants on its branches, each times the thickness of the branch, and
//! gives off what it takes in, or nothing when that is less than its own
//! thickness. A free branch brings in its thickness as it is.

use vstd::prelude::*;

verus! {

/// A branch of a plant: its thickness, and the plant at its end if there
/// is one.
#[derive(Clone, Copy, Debug)]
pub struct Incoming {
    pub thickness: i64,
    pub source: Option<usize>,
}

/// A plant.
pub struct Plant {
    pub id: i64,
    pub free: bool,
    pub thickness: i64,
    pub incoming: Vec<Incoming>,
}

/// Whether every branch ends in a plant that comes earlier in the list.
pub open spec fn grows_upward(plants: Seq<Plant>) -> bool {
    forall|p: int, b: int|
        0 <= p < plants.len() && 0 <= b < plants[p].incoming@.len() ==> match (
        #[trigger] plants[p].incoming@[b]).source {
            Some(src) => src < p,
            None => true,
        }
}

/// What the plant `id` gives off.
pub open spec fn energy(plants: Seq<Plant>, id: int) -> int
    decreases id, 1nat, 0nat,
{
    if id < 0 || id >= plants.len() {
        0
    } else {
        let taken = intake(plants, id, plants[id].incoming@.len());
        if plants[id].thickness > taken {
            0
        } else {
            taken
        }
    }
}

/// What the plant `id` takes in over its first `k` branches, together
/// with its own thickness if it is free.
pub open spec fn intake(plants: Seq<Plant>, id: int, k: nat) -> int
    decreases id, 0nat, k,
{
    if id < 0 || id >= plants.len() {
        0
    } else if k == 0 || k > plants[id].incoming@.len() {
        if plants[id].free {
            plants[id].thickness as int
        } else {
            0
        }
    } else {
        let branch = plants[id].incoming@[k - 1];
        intake(plants, id, (k - 1) as nat) + match branch.source {
            Some(src) => if src < id {
                energy(plants, src as int) * branch.thickness
            } else {
                0
            },
            None => 0,
        }
    }
}

/// Whether `v` is a value of `i64`.
pub open spec fn fits(v: int) -> bool {
    i64::MIN <= v <= i64::MAX
}

/// Whether what the plant `id` gives off can be worked out in `i64`: the
/// same holds of the plants on its branches, and every product and every
/// sum on the way fits.
pub open spec fn energy_fits(plants: Seq<Plant>, id: int) -> bool
    decreases id, 1nat, 0nat,
{
    0 <= id < plants.len() ==> intake_fits(plants, id, plants[id].incoming@.len())
}

/// Whether what the plant `id` takes in over its first `k` branches can be
/// worked out in `i64`.
pub open spec fn intake_fits(plants: Seq<Plant>, id: int, k: nat) -> bool
    decreases id, 0nat, k,
{
    if id < 0 || id >= plants.len() || k == 0 || k > plants[id].incoming@.len() {
        true
    } else {
        let branch = plants[id].incoming@[k - 1];
        intake_fits(plants, id, (k - 1) as nat) && match branch.source {
            Some(src) => src < id ==> energy_fits(plants, src as int) && fits(
                energy(plants, src as int) * branch.thickness,
            ) && fits(intake(plants, id, k)),
            None => true,
        }
    }
}

/// What cannot be worked out over some branches cannot be over more.
pub proof fn lemma_intake_fits_before(plants: Seq<Plant>, id: int, i: nat, k: nat)
    requires
        i <= k,
        intake_fits(plants, id, k),
        0 <= id < plants.len(),
        k <= plants[id].incoming@.len(),
    ensures
        intake_fits(plants, id, i),
    decreases k,
{
    if i < k {
        lemma_intake_fits_before(plants, id, i, (k - 1) as nat);
    }
}

/// What the plant `id` gives off, or `None` when a sum or product on the
/// way does not fit in an `i64`.
pub fn dfs(id: usize, plants: &Vec<Plant>) -> (r: Option<i64>)
    requires
        id < plants@.len(),
        grows_upward(plants@),
    ensures
        r.is_some() <==> energy_fits(plants@, id as int),
        r matches Some(e) ==> e == energy(plants@, id as int),
    decreases id,
{
    let plant: &Plant = &plants[id];
    let mut result: i64 = if plant.free {
        plant.thickness
    } else {
        0
    };
    let mut b: usize = 0;
    while b < plant.incoming.len()
        invariant
            b <= plant.incoming@.len(),
            id < plants@.len(),
            grows_upward(plants@),
            *plant == plants@[id as int],
            result == intake(plants@, id as int, b as nat),
            intake_fits(plants@, id as int, b as nat),
        decreases plant.incoming@.len() - b,
    {
        let branch: Incoming = plant.incoming[b];
        match branch.source {
            Some(src) => {
                assert(plants@[id as int].incoming@[b as int].source == Some(src));
                let fed: Option<i64> = match dfs(src, plants) {
                    Some(e) => e.checked_mul(branch.thickness),
                    None => None,
                };
                let sum: Option<i64> = match fed {
                    Some(f) => result.checked_add(f),
                    None => None,
                };
                match sum {
                    Some(s) => {
                        result = s;
                    },
                    None => {
                        proof {
                            assert(!intake_fits(plants@, id as int, (b + 1) as nat));
                            if intake_fits(plants@, id as int, plant.incoming@.len()) {
                                lemma_intake_fits_before(
                                    plants@,
                                    id as int,
                                    (b + 1) as nat,
                                    plant.incoming@.len(),
                                );
                            }
                        }
                        return None;
                    },
                }
            },
            None => {},
        }
        b += 1;
    }
    if plant.thickness > result {
        Some(0)
    } else {
        Some(result)
    }
}

/// Whether two lists of plants are alike in all that counts: whether a
/// plant is free, its thickness, and its branches.
pub open spec fn same_garden(p: Seq<Plant>, q: Seq<Plant>) -> bool {
    &&& p.len() == q.len()
    &&& forall|i: int|
        0 <= i < p.len() ==> (#[trigger] p[i]).free == q[i].free && p[i].thickness == q[i].thickness
            && p[i].incoming@ == q[i].incoming@
}

/// Plants that are alike give off the same.
pub proof fn lemma_same_energy(p: Seq<Plant>, q: Seq<Plant>, id: int)
    requires
        same_garden(p, q),
    ensures
        energy(p, id) == energy(q, id),
        energy_fits(p, id) == energy_fits(q, id),
    decreases id, 1nat, 0nat,
{
    if 0 <= id < p.len() {
        assert(p[id].incoming@ == q[id].incoming@);
        lemma_same_intake(p, q, id, p[id].incoming@.len());
    }
}

/// Plants that are alike take in the same.
pub proof fn lemma_same_intake(p: Seq<Plant>, q: Seq<Plant>, id: int, k: nat)
    requires
        same_garden(p, q),
    ensures
        intake(p, id, k) == intake(q, id, k),
        intake_fits(p, id, k) == intake_fits(q, id, k),
    decreases id, 0nat, k,
{
    if 0 <= id < p.len() {
        assert(p[id].incoming@ == q[id].incoming@);
        if k > 0 && k <= p[id].incoming@.len() {
            lemma_same_intake(p, q, id, (k - 1) as nat);
            match p[id].incoming@[k - 1].source {
                Some(src) => {
                    if src < id {
                        lemma_same_energy(p, q, src as int);
                    }
                },
                None => {},
            }
        }
    }
}

/// The plants with the first of them set as `mask` says: thickness one
/// for a plant that is switched on, none for one that is off.
pub open spec fn set_up(plants: Seq<Plant>, mask: Seq<bool>) -> Seq<Plant> {
    Seq::new(
        plants.len(),
        |i: int|
            if i < mask.len() {
                Plant {
                    id: plants[i].id,
                    free: plants[i].free,
                    thickness: if mask[i] {
                        1i64
                    } else {
                        0i64
                    },
                    incoming: plants[i].incoming,
                }
            } else {
                plants[i]
            },
    )
}

/// The greatest energy that the last plant gives off under the settings
/// that begin as `mask` does and set the first `n` plants, and zero at
/// least.
pub open spec fn brightest(plants: Seq<Plant>, mask: Seq<bool>, n: nat) -> int
    decreases n - mask.len(),
{
    if mask.len() >= n {
        let e = energy(set_up(plants, mask), plants.len() - 1);
        if e > 0 {
            e
        } else {
            0
        }
    } else {
        let off = brightest(plants, mask.push(false), n);
        let on = brightest(plants, mask.push(true), n);
        if on > off {
            on
        } else {
            off
        }
    }
}

/// Whether the energy of the last plant can be worked out under every
/// setting that begins as `mask` does and sets the first `n` plants.
pub open spec fn all_fit(plants: Seq<Plant>, mask: Seq<bool>, n: nat) -> bool
    decreases n - mask.len(),
{
    if mask.len() >= n {
        energy_fits(set_up(plants, mask), plants.len() - 1)
    } else {
        all_fit(plants, mask.push(false), n) && all_fit(plants, mask.push(true), n)
    }
}

/// No setting gives more than the brightest, and none fails to fit
/// where all fit.
pub proof fn lemma_brightest_bounds(plants: Seq<Plant>, mask: Seq<bool>, n: nat, full: Seq<bool>)
    requires
        mask.len() <= n,
        full.len() == n,
        full.take(mask.len() as int) == mask,
    ensures
        energy(set_up(plants, full), plants.len() - 1) <= brightest(plants, mask, n),
        all_fit(plants, mask, n) ==> energy_fits(set_up(plants, full), plants.len() - 1),
    decreases n - mask.len(),
{
    if mask.len() >= n {
        assert(full =~= mask);
    } else {
        let next = mask.push(full[mask.len() as int]);
        assert(full.take(mask.len() as int + 1) =~= next);
        lemma_brightest_bounds(plants, next, n, full);
        if full[mask.len() as int] {
            assert(next == mask.push(true));
        } else {
            assert(next == mask.push(false));
        }
    }
}

/// Some setting gives the brightest, unless that is zero.
pub proof fn lemma_brightest_is_reached(plants: Seq<Plant>, mask: Seq<bool>, n: nat)
    requires
        mask.len() <= n,
    ensures
        brightest(plants, mask, n) == 0 || exists|full: Seq<bool>|
            full.len() == n && full.take(mask.len() as int) == mask && #[trigger] energy(
                set_up(plants, full),
                plants.len() - 1,
            ) == brightest(plants, mask, n),
    decreases n - mask.len(),
{
    if mask.len() >= n {
        assert(mask.take(mask.len() as int) =~= mask);
    } else {
        let off = mask.push(false);
        let on = mask.push(true);
        lemma_brightest_is_reached(plants, off, n);
        lemma_brightest_is_reached(plants, on, n);
        let best = brightest(plants, mask, n);
        if best != 0 {
            let from = if brightest(plants, on, n) > brightest(plants, off, n) {
                on
            } else {
                off
            };
            let full = choose|full: Seq<bool>|
                full.len() == n && full.take(from.len() as int) == from && #[trigger] energy(
                    set_up(plants, full),
                    plants.len() - 1,
                ) == brightest(plants, from, n);
            assert(full.take(mask.len() as int) =~= from.take(mask.len() as int));
            assert(from.take(mask.len() as int) =~= mask);
        }
    }
}

/// The plants with the first of them set as `mask` says.
pub fn settle(plants: &Vec<Plant>, mask: &Vec<bool>) -> (r: Vec<Plant>)
    ensures
        same_garden(r@, set_up(plants@, mask@)),
{
    let mut out: Vec<Plant> = Vec::new();
    let mut i: usize = 0;
    while i < plants.len()
        invariant
            i <= plants@.len(),
            out@.len() == i,
            forall|j: int|
                0 <= j < i ==> (#[trigger] out@[j]).free == set_up(plants@, mask@)[j].free
                    && out@[j].thickness == set_up(plants@, mask@)[j].thickness
                    && out@[j].incoming@ == set_up(plants@, mask@)[j].incoming@,
        decreases plants@.len() - i,
    {
        let plant: &Plant = &plants[i];
        let mut branches: Vec<Incoming> = Vec::new();
        let mut b: usize = 0;
        while b < plant.incoming.len()
            invariant
                b <= plant.incoming@.len(),
                branches@ == plant.incoming@.take(b as int),
            decreases plant.incoming@.len() - b,
        {
            let branch: Incoming = plant.incoming[b];
            branches.push(branch);
            assert(branches@ =~= plant.incoming@.take(b + 1));
            b += 1;
        }
        assert(branches@ =~= plant.incoming@);
        let thickness: i64 = if i < mask.len() {
            if mask[i] {
                1
            } else {
                0
            }
        } else {
            plant.thickness
        };
        out.push(Plant { id: plant.id, free: plant.free, thickness, incoming: branches });
        i += 1;
    }
    out
}

/// Every setting leaves the branches as they are.
pub proof fn lemma_set_up_grows_upward(plants: Seq<Plant>, mask: Seq<bool>, q: Seq<Plant>)
    requires
        grows_upward(plants),
        same_garden(q, set_up(plants, mask)),
    ensures
        grows_upward(q),
{
    assert forall|p: int, b: int| 0 <= p < q.len() && 0 <= b < q[p].incoming@.len() implies match (
    #[trigger] q[p].incoming@[b]).source {
        Some(src) => src < p,
        None => true,
    } by {
        assert(q[p].incoming@ == set_up(plants, mask)[p].incoming@);
        assert(set_up(plants, mask)[p].incoming@ == plants[p].incoming@);
        assert(plants[p].incoming@[b] == q[p].incoming@[b]);
    }
}

/// The greatest energy that the last plant gives off under the settings
/// of the first `n` plants that begin as `mask` does, and zero at least;
/// `None` where the energy cannot be worked out under one of them. With
/// a mask of `n` marks this is the energy under one given setting.
pub fn try_settings(plants: &Vec<Plant>, mask: &mut Vec<bool>, n: usize) -> (r: Option<i64>)
    requires
        plants@.len() >= 1,
        grows_upward(plants@),
        old(mask)@.len() <= n,
    ensures
        final(mask)@ == old(mask)@,
        r.is_some() <==> all_fit(plants@, old(mask)@, n as nat),
        r matches Some(e) ==> e == brightest(plants@, old(mask)@, n as nat),
    decreases n - old(mask)@.len(),
{
    if mask.len() >= n {
        let garden: Vec<Plant> = settle(plants, mask);
        proof {
            lemma_set_up_grows_upward(plants@, mask@, garden@);
            lemma_same_energy(garden@, set_up(plants@, mask@), plants@.len() - 1);
        }
        match dfs(garden.len() - 1, &garden) {
            Some(e) => if e > 0 {
                Some(e)
            } else {
                Some(0)
            },
            None => None,
        }
    } else {
        let ghost begun = mask@;
        mask.push(false);
        let off: Option<i64> = try_settings(plants, mask, n);
        mask.pop();
        assert(mask@ =~= begun);
        mask.push(true);
        let on: Option<i64> = try_settings(plants, mask, n);
        mask.pop();
        assert(mask@ =~= begun);
        match (off, on) {
            (Some(a), Some(b)) => if b > a {
                Some(b)
            } else {
                Some(a)
            },
            _ => None,
        }
    }
}

/// The greatest energy that the last plant gives off under all settings
/// of the first `n` plants, each switched on or off, and zero at least;
/// `None` where the energy cannot be worked out in `i64` under one of
/// them.
pub fn dfs2(plants: &Vec<Plant>, n: usize) -> (r: Option<i64>)
    requires
        plants@.len() >= 1,
        grows_upward(plants@),
    ensures
        r.is_some() <==> all_fit(plants@, Seq::empty(), n as nat),
        r matches Some(e) ==> e == brightest(plants@, Seq::empty(), n as nat),
{
    let mut mask: Vec<bool> = Vec::new();
    try_settings(plants, &mut mask, n)
}

} // verus!
