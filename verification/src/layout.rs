//! Force-directed 3-D layout with a projection-seeded start.
//!
//! All coordinates are fixed-point milli-units.  The simulation is a pure
//! function of the seed, the similarity matrix and the parameters: the
//! contract pins every step, so identical inputs give identical layouts.

use vstd::prelude::*;

use crate::numeric::isqrt;
use crate::numeric::sqrt_nat;

verus! {

/// A point or velocity in 3-space, in milli-units.
#[derive(Clone, Copy, PartialEq, Eq, Structural, Debug)]
pub struct Vec3 {
    pub x: i64,
    pub y: i64,
    pub z: i64,
}

/// Bound on seed coordinates handed to the simulation.
pub const SEED_LIMIT: i64 = 100_000;

/// Bound on the force parameters, in milli-units.
pub const PARAM_LIMIT: i64 = 100_000;

/// Most steps a simulation may take.
pub const MAX_ITERATIONS: usize = 10_000;

/// The tuning knobs of the layout, all in milli-units.
#[derive(Clone, Copy, Debug)]
pub struct LayoutParams {
    /// Weight on similarity pulling (default 2.0).
    pub attraction: i64,
    /// Weight on pair pushing (default 10.0).
    pub repulsion: i64,
    /// Pull toward the origin each step (default 0.1).
    pub center_gravity: i64,
    /// Velocity retention factor (default 0.9).
    pub damping: i64,
    /// Legacy floor on distances; repulsion is universal.
    pub min_distance: i64,
    /// Per-step velocity clamp (default 2.0).
    pub max_velocity: i64,
    /// Hard cap on simulation steps (default 150).
    pub iterations: usize,
    /// Union threshold used by the merger (default 0.7).
    pub similarity_threshold: i64,
}

/// Parameter ranges under which the fixed-point arithmetic cannot
/// overflow.
pub open spec fn params_wf(p: LayoutParams) -> bool {
    &&& 0 <= p.attraction <= PARAM_LIMIT
    &&& 0 <= p.repulsion <= PARAM_LIMIT
    &&& 0 <= p.center_gravity <= PARAM_LIMIT
    &&& 0 <= p.damping <= 1000
    &&& 0 <= p.max_velocity <= PARAM_LIMIT
    &&& p.iterations <= MAX_ITERATIONS
}

impl Default for LayoutParams {
    /// The defaults the pipeline runs with.
    fn default() -> (r: LayoutParams)
        ensures
            params_wf(r),
            r.attraction == 2000,
            r.repulsion == 10_000,
            r.center_gravity == 100,
            r.damping == 900,
            r.min_distance == 3000,
            r.max_velocity == 2000,
            r.iterations == 150,
            r.similarity_threshold == 700,
    {
        LayoutParams {
            attraction: 2000,
            repulsion: 10_000,
            center_gravity: 100,
            damping: 900,
            min_distance: 3000,
            max_velocity: 2000,
            iterations: 150,
            similarity_threshold: 700,
        }
    }
}

/// Integer division rounding toward zero.
pub open spec fn dtz(s: int, c: int) -> int {
    if s < 0 {
        -((-s) / c)
    } else {
        s / c
    }
}

/// Exec division rounding toward zero, matching [`dtz`].
fn div_tz(x: i128, d: i128) -> (r: i128)
    requires
        d > 0,
        -0x4000_0000_0000_0000_0000_0000_0000_0000 < x,
    ensures
        r as int == dtz(x as int, d as int),
        x >= 0 ==> 0 <= r <= x,
        x < 0 ==> x <= r <= 0,
{
    if x < 0 {
        -((-x) / d)
    } else {
        x / d
    }
}

/// The squared norm of a vector, in milli-squared units.
pub open spec fn norm2(v: Vec3) -> int {
    (v.x as int) * (v.x as int) + (v.y as int) * (v.y as int) + (v.z as int) * (v.z as int)
}

/// The unit direction of `v` scaled to 1000, or the origin for a vanishing
/// vector.
pub open spec fn unit_milli(v: Vec3) -> (int, int, int) {
    let n = sqrt_nat(norm2(v));
    if n == 0 {
        (0, 0, 0)
    } else {
        (dtz(v.x * 1000, n), dtz(v.y * 1000, n), dtz(v.z * 1000, n))
    }
}


/// Most nodes a layout may hold; the simulation is quadratic in them.
pub const MAX_NODES: usize = 100_000;

/// What the velocity of node `i` picks up from node `j`: attraction along
/// the direction toward `j` scaled by a positive similarity, and repulsion
/// away from `j` scaled inversely with the squared distance.
pub open spec fn pair_term(
    st: Seq<(int, int, int)>,
    sims: Seq<Seq<i64>>,
    p: LayoutParams,
    i: int,
    j: int,
) -> (int, int, int) {
    if j == i {
        (0, 0, 0)
    } else {
        let dx = st[j].0 - st[i].0;
        let dy = st[j].1 - st[i].1;
        let dz = st[j].2 - st[i].2;
        let n2 = dx * dx + dy * dy + dz * dz;
        let n = sqrt_nat(n2);
        let s = sims[i][j] as int;
        let (ax, ay, az) = if s > 0 && n != 0 {
            (
                dtz(dtz(dx * 1000, n) * s * p.attraction, 1_000_000),
                dtz(dtz(dy * 1000, n) * s * p.attraction, 1_000_000),
                dtz(dtz(dz * 1000, n) * s * p.attraction, 1_000_000),
            )
        } else {
            (0, 0, 0)
        };
        let rep = dtz(p.repulsion * 1_000_000, n2 + 10_000);
        let (rx, ry, rz) = if n != 0 {
            (
                dtz(-dtz(dx * 1000, n) * rep, 1000),
                dtz(-dtz(dy * 1000, n) * rep, 1000),
                dtz(-dtz(dz * 1000, n) * rep, 1000),
            )
        } else {
            (0, 0, 0)
        };
        (ax + rx, ay + ry, az + rz)
    }
}

/// The pair terms summed over the first `j` other nodes.
pub open spec fn vel_sum(
    st: Seq<(int, int, int)>,
    sims: Seq<Seq<i64>>,
    p: LayoutParams,
    i: int,
    j: int,
) -> (int, int, int)
    decreases j,
{
    if j <= 0 {
        (0, 0, 0)
    } else {
        let acc = vel_sum(st, sims, p, i, j - 1);
        let t = pair_term(st, sims, p, i, j - 1);
        (acc.0 + t.0, acc.1 + t.1, acc.2 + t.2)
    }
}

/// The velocity of node `i` for one step: the pair terms, the pull toward
/// the origin, damping, and the norm clamp.
pub open spec fn step_velocity(
    st: Seq<(int, int, int)>,
    sims: Seq<Seq<i64>>,
    p: LayoutParams,
    i: int,
) -> (int, int, int) {
    let s = vel_sum(st, sims, p, i, st.len() as int);
    let gx = s.0 - dtz(st[i].0 * p.center_gravity, 1000);
    let gy = s.1 - dtz(st[i].1 * p.center_gravity, 1000);
    let gz = s.2 - dtz(st[i].2 * p.center_gravity, 1000);
    let vx = dtz(gx * p.damping, 1000);
    let vy = dtz(gy * p.damping, 1000);
    let vz = dtz(gz * p.damping, 1000);
    let n2 = vx * vx + vy * vy + vz * vz;
    let n = sqrt_nat(n2);
    if n > p.max_velocity {
        (dtz(vx * p.max_velocity, n), dtz(vy * p.max_velocity, n), dtz(vz * p.max_velocity, n))
    } else {
        (vx, vy, vz)
    }
}

/// One step moves every node by its velocity, all computed from the same
/// snapshot.
pub open spec fn step_state(
    st: Seq<(int, int, int)>,
    sims: Seq<Seq<i64>>,
    p: LayoutParams,
) -> Seq<(int, int, int)> {
    Seq::new(
        st.len(),
        |i: int|
            {
                let v = step_velocity(st, sims, p, i);
                (st[i].0 + v.0, st[i].1 + v.1, st[i].2 + v.2)
            },
    )
}

/// The kinetic energy of one step: the squared velocity norms, summed over
/// the first `i` nodes.
pub open spec fn step_energy_to(
    st: Seq<(int, int, int)>,
    sims: Seq<Seq<i64>>,
    p: LayoutParams,
    i: int,
) -> int
    decreases i,
{
    if i <= 0 {
        0
    } else {
        let v = step_velocity(st, sims, p, i - 1);
        step_energy_to(st, sims, p, i - 1) + v.0 * v.0 + v.1 * v.1 + v.2 * v.2
    }
}

/// The state after `t` full steps from the seed.
pub open spec fn state_after(
    seed: Seq<(int, int, int)>,
    sims: Seq<Seq<i64>>,
    p: LayoutParams,
    t: int,
) -> Seq<(int, int, int)>
    decreases t,
{
    if t <= 0 {
        seed
    } else {
        step_state(state_after(seed, sims, p, t - 1), sims, p)
    }
}

/// The integer view of a position vector.
pub open spec fn state_of(v: Seq<Vec3>) -> Seq<(int, int, int)> {
    Seq::new(v.len(), |i: int| (v[i].x as int, v[i].y as int, v[i].z as int))
}

/// A square similarity matrix with milli-entries.
pub open spec fn sims_wf(sims: Seq<Seq<i64>>, n: int) -> bool {
    &&& sims.len() == n
    &&& (forall|i: int| 0 <= i < n ==> (#[trigger] sims[i]).len() == n)
    &&& (forall|i: int, j: int|
        0 <= i < n && 0 <= j < n ==> -1000 <= (#[trigger] sims[i][j]) <= 1000)
}


/// A division by a larger denominator of a bounded numerator stays within
/// the scaled bound.
pub proof fn lemma_dtz_bound(x: int, d: int, m: int, dmin: int)
    requires
        0 < dmin <= d,
        -m <= x <= m,
        0 <= m,
    ensures
        -(m / dmin) <= dtz(x, d) <= m / dmin,
{
    if x >= 0 {
        assert(x / d <= m / dmin) by (nonlinear_arith)
            requires
                0 < dmin <= d,
                0 <= x <= m,
        ;
        assert(x / d >= 0) by (nonlinear_arith)
            requires
                0 <= x,
                0 < d,
        ;
        assert(m / dmin >= 0) by (nonlinear_arith)
            requires
                0 <= m,
                0 < dmin,
        ;
    } else {
        assert((-x) / d <= m / dmin) by (nonlinear_arith)
            requires
                0 < dmin <= d,
                0 <= -x <= m,
        ;
        assert((-x) / d >= 0) by (nonlinear_arith)
            requires
                0 <= -x,
                0 < d,
        ;
        assert(m / dmin >= 0) by (nonlinear_arith)
            requires
                0 <= m,
                0 < dmin,
        ;
    }
}

/// The largest coordinate magnitude a state may reach after `t` steps.
pub open spec fn coord_bound(p: LayoutParams, t: int) -> int {
    SEED_LIMIT + t * p.max_velocity
}

/// All coordinates of the state are within `b`.
pub open spec fn state_bounded(st: Seq<(int, int, int)>, b: int) -> bool {
    forall|i: int|
        0 <= i < st.len() ==> {
            let t = #[trigger] st[i];
            -b <= t.0 <= b && -b <= t.1 <= b && -b <= t.2 <= b
        }
}

/// The force one pair contributes, mirroring [`pair_term`].
fn pair_force(
    positions: &Vec<Vec3>,
    sims: &Vec<Vec<i64>>,
    params: &LayoutParams,
    i: usize,
    j: usize,
) -> (t: (i128, i128, i128))
    requires
        positions@.len() == sims@.len() <= MAX_NODES,
        i < positions@.len(),
        j < positions@.len(),
        i != j,
        sims_wf(sims.deep_view(), positions@.len() as int),
        params_wf(*params),
        state_bounded(state_of(positions@), 1_100_000_000),
    ensures
        ({
            let pt = pair_term(state_of(positions@), sims.deep_view(), *params, i as int, j as int);
            &&& t.0 as int == pt.0
            &&& t.1 as int == pt.1
            &&& t.2 as int == pt.2
            &&& -20_000_000 <= t.0 <= 20_000_000
            &&& -20_000_000 <= t.1 <= 20_000_000
            &&& -20_000_000 <= t.2 <= 20_000_000
        }),
{
    let ghost st = state_of(positions@);
    let ghost simsv = sims.deep_view();
    let ghost p = *params;
    proof {
        assert(st[j as int] == (
            positions@[j as int].x as int,
            positions@[j as int].y as int,
            positions@[j as int].z as int,
        ));
        assert(st[i as int] == (
            positions@[i as int].x as int,
            positions@[i as int].y as int,
            positions@[i as int].z as int,
        ));
    }
    let dx = (positions[j].x as i128) - (positions[i].x as i128);
    let dy = (positions[j].y as i128) - (positions[i].y as i128);
    let dz = (positions[j].z as i128) - (positions[i].z as i128);
    proof {
        assert(-2_200_000_000 <= dx <= 2_200_000_000);
        assert(dx * dx + dy * dy + dz * dz <= 3 * 2_200_000_000i128 * 2_200_000_000i128 && dx * dx
            >= 0 && dy * dy >= 0 && dz * dz >= 0) by (nonlinear_arith)
            requires
                -2_200_000_000 <= dx <= 2_200_000_000,
                -2_200_000_000 <= dy <= 2_200_000_000,
                -2_200_000_000 <= dz <= 2_200_000_000,
        ;
    }
    let n2: i128 = dx * dx + dy * dy + dz * dz;
    let nnu: u128 = isqrt(n2 as u128);
    proof {
        assert((n2 as u128) as int == n2 as int);
        assert((nnu as int) * (nnu as int) <= n2 as int);
        assert((n2 as int) < ((nnu as int) + 1) * ((nnu as int) + 1));
        assert((nnu as int) <= 4_000_000_000) by (nonlinear_arith)
            requires
                (nnu as int) * (nnu as int) <= n2 as int,
                n2 <= 3 * 2_200_000_000i128 * 2_200_000_000i128,
                (nnu as int) >= 0,
        ;
    }
    let nn: i128 = nnu as i128;
    proof {
        assert(nn as int == nnu as int);
        assert((nn as int) * (nn as int) <= n2 as int);
        assert((n2 as int) < ((nn as int) + 1) * ((nn as int) + 1));
        assert(dx <= nn && -nn <= dx && dy <= nn && -nn <= dy && dz <= nn && -nn <= dz)
            by (nonlinear_arith)
            requires
                dx * dx + dy * dy + dz * dz == n2,
                dx * dx >= 0 && dy * dy >= 0 && dz * dz >= 0,
                (n2 as int) < ((nn as int) + 1) * ((nn as int) + 1),
                nn >= 0,
        ;
    }
    proof {
        crate::merge::lemma_nested_index(sims, i as int);
    }
    let s = sims[i][j];
    proof {
        assert(simsv[i as int][j as int] == s);
    }
    let (ux, uy, uz): (i128, i128, i128) = if nn != 0 {
        proof {
            assert(-(nn * 1000) <= dx * 1000 <= nn * 1000 && nn * 1000 >= 0 && -(nn * 1000) <= dy
                * 1000 <= nn * 1000 && -(nn * 1000) <= dz * 1000 <= nn * 1000) by (nonlinear_arith)
                requires
                    -nn <= dx <= nn,
                    -nn <= dy <= nn,
                    -nn <= dz <= nn,
                    nn > 0,
            ;
            lemma_dtz_bound((dx * 1000) as int, nn as int, (nn * 1000) as int, nn as int);
            lemma_dtz_bound((dy * 1000) as int, nn as int, (nn * 1000) as int, nn as int);
            lemma_dtz_bound((dz * 1000) as int, nn as int, (nn * 1000) as int, nn as int);
            assert((nn * 1000) as int / (nn as int) == 1000) by (nonlinear_arith)
                requires
                    nn > 0,
            ;
        }
        (div_tz(dx * 1000, nn), div_tz(dy * 1000, nn), div_tz(dz * 1000, nn))
    } else {
        (0, 0, 0)
    };
    proof {
        assert(-1000 <= ux <= 1000 && -1000 <= uy <= 1000 && -1000 <= uz <= 1000);
    }
    let (tax, tay, taz): (i128, i128, i128) = if s > 0 && nn != 0 {
        proof {
            assert(-1_000_000 <= ux * (s as i128) <= 1_000_000 && -1_000_000 <= uy * (s as i128)
                <= 1_000_000 && -1_000_000 <= uz * (s as i128) <= 1_000_000) by (nonlinear_arith)
                requires
                    -1000 <= ux <= 1000,
                    -1000 <= uy <= 1000,
                    -1000 <= uz <= 1000,
                    0 < s <= 1000,
            ;
            assert(-100_000_000_000 <= ux * (s as i128) * (p.attraction as i128)
                <= 100_000_000_000 && -100_000_000_000 <= uy * (s as i128) * (
            p.attraction as i128) <= 100_000_000_000 && -100_000_000_000 <= uz * (s as i128) * (
            p.attraction as i128) <= 100_000_000_000) by (nonlinear_arith)
                requires
                    -1_000_000 <= ux * (s as i128) <= 1_000_000,
                    -1_000_000 <= uy * (s as i128) <= 1_000_000,
                    -1_000_000 <= uz * (s as i128) <= 1_000_000,
                    0 <= p.attraction <= PARAM_LIMIT,
            ;
            lemma_dtz_bound(
                (ux * (s as i128) * (p.attraction as i128)) as int,
                1_000_000,
                100_000_000_000,
                1_000_000,
            );
            lemma_dtz_bound(
                (uy * (s as i128) * (p.attraction as i128)) as int,
                1_000_000,
                100_000_000_000,
                1_000_000,
            );
            lemma_dtz_bound(
                (uz * (s as i128) * (p.attraction as i128)) as int,
                1_000_000,
                100_000_000_000,
                1_000_000,
            );
        }
        (
            div_tz(ux * (s as i128) * (params.attraction as i128), 1_000_000),
            div_tz(uy * (s as i128) * (params.attraction as i128), 1_000_000),
            div_tz(uz * (s as i128) * (params.attraction as i128), 1_000_000),
        )
    } else {
        (0, 0, 0)
    };
    proof {
        lemma_dtz_bound(
            ((params.repulsion as i128) * 1_000_000) as int,
            (n2 + 10_000) as int,
            100_000_000_000,
            10_000,
        );
    }
    let rep: i128 = div_tz((params.repulsion as i128) * 1_000_000, n2 + 10_000);
    let (trx, try_, trz): (i128, i128, i128) = if nn != 0 {
        proof {
            assert(-10_000_000_000 <= -ux * rep <= 10_000_000_000 && -10_000_000_000 <= -uy * rep
                <= 10_000_000_000 && -10_000_000_000 <= -uz * rep <= 10_000_000_000)
                by (nonlinear_arith)
                requires
                    -1000 <= ux <= 1000,
                    -1000 <= uy <= 1000,
                    -1000 <= uz <= 1000,
                    -10_000_000 <= rep <= 10_000_000,
            ;
            lemma_dtz_bound((-ux * rep) as int, 1000, 10_000_000_000, 1000);
            lemma_dtz_bound((-uy * rep) as int, 1000, 10_000_000_000, 1000);
            lemma_dtz_bound((-uz * rep) as int, 1000, 10_000_000_000, 1000);
        }
        (div_tz(-ux * rep, 1000), div_tz(-uy * rep, 1000), div_tz(-uz * rep, 1000))
    } else {
        (0, 0, 0)
    };
    proof {
        assert(pair_term(st, simsv, p, i as int, j as int) == (
            (tax + trx) as int,
            (tay + try_) as int,
            (taz + trz) as int,
        ));
    }
    (tax + trx, tay + try_, taz + trz)
}

/// The velocity of one node for one step, mirroring [`step_velocity`].
fn node_velocity(
    positions: &Vec<Vec3>,
    sims: &Vec<Vec<i64>>,
    params: &LayoutParams,
    i: usize,
) -> (v: (i64, i64, i64))
    requires
        positions@.len() == sims@.len() <= MAX_NODES,
        i < positions@.len(),
        sims_wf(sims.deep_view(), positions@.len() as int),
        params_wf(*params),
        state_bounded(state_of(positions@), 1_100_000_000),
    ensures
        ({
            let sv = step_velocity(state_of(positions@), sims.deep_view(), *params, i as int);
            &&& v.0 as int == sv.0
            &&& v.1 as int == sv.1
            &&& v.2 as int == sv.2
            &&& -params.max_velocity <= v.0 <= params.max_velocity
            &&& -params.max_velocity <= v.1 <= params.max_velocity
            &&& -params.max_velocity <= v.2 <= params.max_velocity
        }),
{
    let ghost st = state_of(positions@);
    let ghost simsv = sims.deep_view();
    let ghost p = *params;
    let n = positions.len();
    proof {
        assert(st[i as int] == (
            positions@[i as int].x as int,
            positions@[i as int].y as int,
            positions@[i as int].z as int,
        ));
    }
    let px = positions[i].x as i128;
    let py = positions[i].y as i128;
    let pz = positions[i].z as i128;
    let mut ax: i128 = 0;
    let mut ay: i128 = 0;
    let mut az: i128 = 0;
    let mut j: usize = 0;
    while j < n
        invariant
            j <= n == positions@.len(),
            i < n,
            n == sims@.len() <= MAX_NODES,
            st == state_of(positions@),
            simsv == sims.deep_view(),
            p == *params,
            sims_wf(simsv, n as int),
            params_wf(p),
            state_bounded(st, 1_100_000_000),
            px == st[i as int].0 && py == st[i as int].1 && pz == st[i as int].2,
            (ax as int, ay as int, az as int) == vel_sum(st, simsv, p, i as int, j as int),
            -(j * 20_000_000) <= ax <= j * 20_000_000,
            -(j * 20_000_000) <= ay <= j * 20_000_000,
            -(j * 20_000_000) <= az <= j * 20_000_000,
        decreases n - j,
    {
        proof {
            assert((j + 1) * 20_000_000 == j * 20_000_000 + 20_000_000) by (nonlinear_arith);
        }
        if j != i {
            let t = pair_force(positions, sims, params, i, j);
            ax = ax + t.0;
            ay = ay + t.1;
            az = az + t.2;
        } else {
            proof {
                assert(pair_term(st, simsv, p, i as int, j as int) == (0int, 0int, 0int));
            }
        }
        j = j + 1;
    }
    // Gravity toward the origin, then damping, then the norm clamp.
    proof {
        assert(-((MAX_NODES as i128) * 20_000_000) <= ax <= (MAX_NODES as i128) * 20_000_000 && -((
        MAX_NODES as i128) * 20_000_000) <= ay <= (MAX_NODES as i128) * 20_000_000 && -((
        MAX_NODES as i128) * 20_000_000) <= az <= (MAX_NODES as i128) * 20_000_000)
            by (nonlinear_arith)
            requires
                -((j as i128) * 20_000_000) <= ax <= (j as i128) * 20_000_000,
                -((j as i128) * 20_000_000) <= ay <= (j as i128) * 20_000_000,
                -((j as i128) * 20_000_000) <= az <= (j as i128) * 20_000_000,
                j <= MAX_NODES,
        ;
        assert(-110_000_000_000_000 <= px * (p.center_gravity as i128) <= 110_000_000_000_000 && -110_000_000_000_000
            <= py * (p.center_gravity as i128) <= 110_000_000_000_000 && -110_000_000_000_000 <= pz
            * (p.center_gravity as i128) <= 110_000_000_000_000) by (nonlinear_arith)
            requires
                -1_100_000_000 <= px <= 1_100_000_000,
                -1_100_000_000 <= py <= 1_100_000_000,
                -1_100_000_000 <= pz <= 1_100_000_000,
                0 <= p.center_gravity <= PARAM_LIMIT,
        ;
        lemma_dtz_bound((px * (p.center_gravity as i128)) as int, 1000, 110_000_000_000_000, 1000);
        lemma_dtz_bound((py * (p.center_gravity as i128)) as int, 1000, 110_000_000_000_000, 1000);
        lemma_dtz_bound((pz * (p.center_gravity as i128)) as int, 1000, 110_000_000_000_000, 1000);
    }
    let gx = ax - div_tz(px * (params.center_gravity as i128), 1000);
    let gy = ay - div_tz(py * (params.center_gravity as i128), 1000);
    let gz = az - div_tz(pz * (params.center_gravity as i128), 1000);
    proof {
        assert(-(113_000_000_000_000i128 * 1000) <= gx * (p.damping as i128)
            <= 113_000_000_000_000i128 * 1000 && -(113_000_000_000_000i128 * 1000) <= gy * (
        p.damping as i128) <= 113_000_000_000_000i128 * 1000 && -(113_000_000_000_000i128 * 1000)
            <= gz * (p.damping as i128) <= 113_000_000_000_000i128 * 1000) by (nonlinear_arith)
            requires
                -113_000_000_000_000 <= gx <= 113_000_000_000_000,
                -113_000_000_000_000 <= gy <= 113_000_000_000_000,
                -113_000_000_000_000 <= gz <= 113_000_000_000_000,
                0 <= p.damping <= 1000,
        ;
        lemma_dtz_bound((gx * (p.damping as i128)) as int, 1000, 113_000_000_000_000_000, 1000);
        lemma_dtz_bound((gy * (p.damping as i128)) as int, 1000, 113_000_000_000_000_000, 1000);
        lemma_dtz_bound((gz * (p.damping as i128)) as int, 1000, 113_000_000_000_000_000, 1000);
    }
    let vx = div_tz(gx * (params.damping as i128), 1000);
    let vy = div_tz(gy * (params.damping as i128), 1000);
    let vz = div_tz(gz * (params.damping as i128), 1000);
    proof {
        assert(vx * vx + vy * vy + vz * vz <= 3 * 113_000_000_000_000i128 * 113_000_000_000_000i128
            && vx * vx >= 0 && vy * vy >= 0 && vz * vz >= 0) by (nonlinear_arith)
            requires
                -113_000_000_000_000 <= vx <= 113_000_000_000_000,
                -113_000_000_000_000 <= vy <= 113_000_000_000_000,
                -113_000_000_000_000 <= vz <= 113_000_000_000_000,
        ;
    }
    let vn2: i128 = vx * vx + vy * vy + vz * vz;
    let vnu: u128 = isqrt(vn2 as u128);
    proof {
        assert((vn2 as u128) as int == vn2 as int);
        assert((vnu as int) * (vnu as int) <= vn2 as int);
        assert((vn2 as int) < ((vnu as int) + 1) * ((vnu as int) + 1));
        assert((vnu as int) <= 200_000_000_000_000) by (nonlinear_arith)
            requires
                (vnu as int) * (vnu as int) <= vn2 as int,
                vn2 <= 3 * 113_000_000_000_000i128 * 113_000_000_000_000i128,
                (vnu as int) >= 0,
        ;
    }
    let vn: i128 = vnu as i128;
    proof {
        assert(vn as int == vnu as int);
        assert((vn as int) * (vn as int) <= vn2 as int);
        assert((vn2 as int) < ((vn as int) + 1) * ((vn as int) + 1));
        assert(vx <= vn && -vn <= vx && vy <= vn && -vn <= vy && vz <= vn && -vn <= vz)
            by (nonlinear_arith)
            requires
                vx * vx + vy * vy + vz * vz == vn2,
                vx * vx >= 0 && vy * vy >= 0 && vz * vz >= 0,
                (vn2 as int) < ((vn as int) + 1) * ((vn as int) + 1),
                vn >= 0,
        ;
    }
    if vn > params.max_velocity as i128 {
        proof {
            assert(-(vn * (p.max_velocity as i128)) <= vx * (p.max_velocity as i128) <= vn * (
            p.max_velocity as i128) && vn * (p.max_velocity as i128) >= 0 && -(vn * (
            p.max_velocity as i128)) <= vy * (p.max_velocity as i128) <= vn * (
            p.max_velocity as i128) && -(vn * (p.max_velocity as i128)) <= vz * (
            p.max_velocity as i128) <= vn * (p.max_velocity as i128) && vn * (
            p.max_velocity as i128) <= 200_000_000_000_000i128 * 100_000) by (nonlinear_arith)
                requires
                    -vn <= vx <= vn,
                    -vn <= vy <= vn,
                    -vn <= vz <= vn,
                    0 <= p.max_velocity <= PARAM_LIMIT,
                    0 < vn <= 200_000_000_000_000,
            ;
            lemma_dtz_bound(
                (vx * (p.max_velocity as i128)) as int,
                vn as int,
                (vn * (p.max_velocity as i128)) as int,
                vn as int,
            );
            lemma_dtz_bound(
                (vy * (p.max_velocity as i128)) as int,
                vn as int,
                (vn * (p.max_velocity as i128)) as int,
                vn as int,
            );
            lemma_dtz_bound(
                (vz * (p.max_velocity as i128)) as int,
                vn as int,
                (vn * (p.max_velocity as i128)) as int,
                vn as int,
            );
            assert((vn * (p.max_velocity as i128)) as int / (vn as int) == p.max_velocity as int)
                by (nonlinear_arith)
                requires
                    vn > 0,
                    p.max_velocity >= 0,
            ;
        }
        let cx = div_tz(vx * (params.max_velocity as i128), vn);
        let cy = div_tz(vy * (params.max_velocity as i128), vn);
        let cz = div_tz(vz * (params.max_velocity as i128), vn);
        (cx as i64, cy as i64, cz as i64)
    } else {
        (vx as i64, vy as i64, vz as i64)
    }
}


/// One full simulation step from a snapshot: new positions and the kinetic
/// energy of the step.
#[verifier::rlimit(50)]
fn do_step(
    cur: &Vec<Vec3>,
    sims: &Vec<Vec<i64>>,
    params: &LayoutParams,
    Ghost(b): Ghost<int>,
) -> (out: (Vec<Vec3>, u64))
    requires
        cur@.len() == sims@.len() <= MAX_NODES,
        sims_wf(sims.deep_view(), cur@.len() as int),
        params_wf(*params),
        0 <= b,
        b + params.max_velocity <= 1_100_000_000,
        state_bounded(state_of(cur@), b),
    ensures
        out.0@.len() == cur@.len(),
        state_of(out.0@) == step_state(state_of(cur@), sims.deep_view(), *params),
        state_bounded(state_of(out.0@), b + params.max_velocity),
        out.1 as int == step_energy_to(
            state_of(cur@),
            sims.deep_view(),
            *params,
            cur@.len() as int,
        ),
{
    let ghost st = state_of(cur@);
    let ghost simsv = sims.deep_view();
    let ghost p = *params;
    let n = cur.len();
    let mut next: Vec<Vec3> = Vec::new();
    let mut energy: u64 = 0;
    let mut i: usize = 0;
    while i < n
        invariant
            i <= n == cur@.len(),
            n == sims@.len() <= MAX_NODES,
            st == state_of(cur@),
            simsv == sims.deep_view(),
            p == *params,
            sims_wf(simsv, n as int),
            params_wf(p),
            0 <= b,
            b + p.max_velocity <= 1_100_000_000,
            state_bounded(st, b),
            next@.len() == i,
            forall|k: int|
                0 <= k < i ==> state_of(next@)[k] == step_state(st, simsv, p)[k],
            state_bounded(state_of(next@), b + p.max_velocity),
            energy as int == step_energy_to(st, simsv, p, i as int),
            energy <= i * 30_000_000_000,
        decreases n - i,
    {
        proof {
            assert(state_bounded(st, 1_100_000_000)) by {
                assert forall|k: int| 0 <= k < st.len() implies {
                    let t = #[trigger] st[k];
                    -1_100_000_000 <= t.0 <= 1_100_000_000 && -1_100_000_000 <= t.1
                        <= 1_100_000_000 && -1_100_000_000 <= t.2 <= 1_100_000_000
                } by {
                    assert(-b <= st[k].0 <= b);
                }
            }
            assert(st[i as int] == (
                cur@[i as int].x as int,
                cur@[i as int].y as int,
                cur@[i as int].z as int,
            ));
            assert((i + 1) * 30_000_000_000 == i * 30_000_000_000 + 30_000_000_000)
                by (nonlinear_arith);
        }
        let v = node_velocity(cur, sims, params, i);
        let nx = cur[i].x + v.0;
        let ny = cur[i].y + v.1;
        let nz = cur[i].z + v.2;
        let ghost old_next = next@;
        next.push(Vec3 { x: nx, y: ny, z: nz });
        proof {
            assert(0 <= v.0 * v.0 <= 10_000_000_000 && 0 <= v.1 * v.1 <= 10_000_000_000 && 0
                <= v.2 * v.2 <= 10_000_000_000) by (nonlinear_arith)
                requires
                    -p.max_velocity <= v.0 <= p.max_velocity,
                    -p.max_velocity <= v.1 <= p.max_velocity,
                    -p.max_velocity <= v.2 <= p.max_velocity,
                    0 <= p.max_velocity <= PARAM_LIMIT,
            ;
        }
        let e: i64 = v.0 * v.0 + v.1 * v.1 + v.2 * v.2;
        proof {
            assert forall|k: int| 0 <= k < i + 1 implies state_of(next@)[k] == step_state(
                st,
                simsv,
                p,
            )[k] by {
                if k < i {
                    assert(state_of(old_next)[k] == step_state(st, simsv, p)[k]);
                    assert(next@[k] == old_next[k]);
                }
            }
            assert forall|k: int| 0 <= k < i + 1 implies {
                let t = #[trigger] state_of(next@)[k];
                &&& -(b + p.max_velocity) <= t.0 <= b + p.max_velocity
                &&& -(b + p.max_velocity) <= t.1 <= b + p.max_velocity
                &&& -(b + p.max_velocity) <= t.2 <= b + p.max_velocity
            } by {
                if k < i {
                    assert(next@[k] == old_next[k]);
                    assert(state_of(next@)[k] == state_of(old_next)[k]);
                    let t0 = state_of(old_next)[k];
                    assert(-(b + p.max_velocity) <= t0.0 <= b + p.max_velocity);
                } else {
                    assert(next@[k].x == nx && next@[k].y == ny && next@[k].z == nz);
                    assert(-b <= st[i as int].0 <= b && -b <= st[i as int].1 <= b && -b <= st[
                        i as int
                    ].2 <= b);
                }
            }
        }
        energy = energy + (e as u64);
        i = i + 1;
    }
    proof {
        assert(state_of(next@) =~= step_state(st, simsv, p));
    }
    (next, energy)
}

/// Runs the force simulation from a seed: up to `iterations` steps, stopping
/// early once the kinetic energy of a step falls below one thousandth of a
/// unit.  Returns the final positions and the energy of every step taken.
///
/// The layout is a pure function of the seed, the matrix and the
/// parameters: the contract pins every position to the step recurrence, so
/// identical inputs give identical layouts.
pub fn run_layout(seed: Vec<Vec3>, sims: &Vec<Vec<i64>>, params: &LayoutParams) -> (out: (
    Vec<Vec3>,
    Vec<u64>,
))
    requires
        seed@.len() == sims@.len() <= MAX_NODES,
        sims_wf(sims.deep_view(), seed@.len() as int),
        params_wf(*params),
        state_bounded(state_of(seed@), SEED_LIMIT as int),
    ensures
        ({
            let (pos, energies) = out;
            let t = energies@.len() as int;
            let st0 = state_of(seed@);
            let simsv = sims.deep_view();
            &&& pos@.len() == seed@.len()
            &&& state_of(pos@) == state_after(st0, simsv, *params, t)
            &&& t <= params.iterations
            &&& (forall|u: int|
                0 <= u < t ==> #[trigger] energies@[u] as int == step_energy_to(
                    state_after(st0, simsv, *params, u),
                    simsv,
                    *params,
                    st0.len() as int,
                ))
            &&& (forall|u: int| 0 <= u < t - 1 ==> #[trigger] energies@[u] >= 1000)
            &&& (t == params.iterations || (t >= 1 && energies@[t - 1] < 1000))
        }),
{
    let ghost st0 = state_of(seed@);
    let ghost simsv = sims.deep_view();
    let ghost p = *params;
    let n = seed.len();
    let mut cur = seed;
    let mut energies: Vec<u64> = Vec::new();
    let mut t: usize = 0;
    let mut done = false;
    while t < params.iterations && !done
        invariant
            t <= params.iterations,
            cur@.len() == n == sims@.len() <= MAX_NODES,
            simsv == sims.deep_view(),
            p == *params,
            sims_wf(simsv, n as int),
            params_wf(p),
            st0.len() == n,
            energies@.len() == t,
            state_of(cur@) == state_after(st0, simsv, p, t as int),
            state_bounded(state_of(cur@), SEED_LIMIT + t * p.max_velocity),
            0 <= SEED_LIMIT + t * p.max_velocity,
            SEED_LIMIT + (t as int) * p.max_velocity + p.max_velocity <= 1_100_000_000,
            forall|u: int|
                0 <= u < t ==> #[trigger] energies@[u] as int == step_energy_to(
                    state_after(st0, simsv, p, u),
                    simsv,
                    p,
                    n as int,
                ),
            !done ==> forall|u: int| 0 <= u < t ==> #[trigger] energies@[u] >= 1000,
            done ==> t >= 1 && energies@[t - 1] < 1000 && (forall|u: int|
                0 <= u < t - 1 ==> #[trigger] energies@[u] >= 1000),
        decreases params.iterations - t,
    {
        let (next, e) = do_step(&cur, sims, params, Ghost(SEED_LIMIT + t as int * p.max_velocity));
        cur = next;
        energies.push(e);
        if e < 1000 {
            done = true;
        }
        proof {
            assert((t + 1) as int * p.max_velocity == t as int * p.max_velocity
                + p.max_velocity) by (nonlinear_arith);
            assert(SEED_LIMIT + (t + 1) as int * p.max_velocity + p.max_velocity
                <= 1_100_000_000) by (nonlinear_arith)
                requires
                    t + 1 <= MAX_ITERATIONS,
                    0 <= p.max_velocity <= PARAM_LIMIT,
            ;
        }
        t = t + 1;
    }
    (cur, energies)
}

/// One coordinate axis of a point.
pub open spec fn axis_of(t: (int, int, int), a: int) -> int {
    if a == 0 {
        t.0
    } else if a == 1 {
        t.1
    } else {
        t.2
    }
}

/// The smallest value of an axis over the first `m` points.
pub open spec fn axis_min(st: Seq<(int, int, int)>, a: int, m: int) -> int
    decreases m,
{
    if m <= 1 {
        axis_of(st[0], a)
    } else {
        let prev = axis_min(st, a, m - 1);
        let v = axis_of(st[m - 1], a);
        if v < prev {
            v
        } else {
            prev
        }
    }
}

/// The largest value of an axis over the first `m` points.
pub open spec fn axis_max(st: Seq<(int, int, int)>, a: int, m: int) -> int
    decreases m,
{
    if m <= 1 {
        axis_of(st[0], a)
    } else {
        let prev = axis_max(st, a, m - 1);
        let v = axis_of(st[m - 1], a);
        if v > prev {
            v
        } else {
            prev
        }
    }
}

/// The axis value of point `i` rescaled into `[-5000, 5000]`; a degenerate
/// axis collapses to 0.
pub open spec fn rescaled(st: Seq<(int, int, int)>, i: int, a: int) -> int {
    let lo = axis_min(st, a, st.len() as int);
    let hi = axis_max(st, a, st.len() as int);
    if hi == lo {
        0
    } else {
        -5000 + (axis_of(st[i], a) - lo) * 10_000 / (hi - lo)
    }
}

/// The seeded start of the layout: one or two points go on the x axis;
/// more are the projection rescaled per axis into `[-5000, 5000]`.
pub open spec fn spec_seed(st: Seq<(int, int, int)>) -> Seq<(int, int, int)> {
    if st.len() <= 2 {
        Seq::new(st.len(), |i: int| (3000 * i - 1500, 0, 0))
    } else {
        Seq::new(st.len(), |i: int| (rescaled(st, i, 0), rescaled(st, i, 1), rescaled(st, i, 2)))
    }
}

proof fn lemma_axis_min_max(st: Seq<(int, int, int)>, a: int, m: int, b: int)
    requires
        1 <= m <= st.len(),
        state_bounded(st, b),
    ensures
        -b <= axis_min(st, a, m) <= axis_max(st, a, m) <= b,
        forall|i: int|
            0 <= i < m ==> axis_min(st, a, m) <= #[trigger] axis_of(st[i], a) <= axis_max(
                st,
                a,
                m,
            ),
    decreases m,
{
    if m <= 1 {
        assert(-b <= st[0].0 <= b && -b <= st[0].1 <= b && -b <= st[0].2 <= b);
    } else {
        lemma_axis_min_max(st, a, m - 1, b);
        assert(-b <= st[m - 1].0 <= b && -b <= st[m - 1].1 <= b && -b <= st[m - 1].2 <= b);
    }
}

/// The largest projection coordinate the seeding accepts.
pub const PROJ_LIMIT: i64 = 1_000_000_000_000;

/// One axis of one point of the projection.
fn get_axis(v: &Vec3, a: usize) -> (r: i64)
    ensures
        r as int == axis_of((v.x as int, v.y as int, v.z as int), a as int),
{
    if a == 0 {
        v.x
    } else if a == 1 {
        v.y
    } else {
        v.z
    }
}

/// The smallest and largest value of one axis over the projection.
fn axis_bounds(proj: &Vec<Vec3>, a: usize) -> (r: (i64, i64))
    requires
        proj@.len() >= 1,
        state_bounded(state_of(proj@), PROJ_LIMIT as int),
    ensures
        r.0 as int == axis_min(state_of(proj@), a as int, proj@.len() as int),
        r.1 as int == axis_max(state_of(proj@), a as int, proj@.len() as int),
        -PROJ_LIMIT <= r.0 <= r.1 <= PROJ_LIMIT,
        forall|i: int|
            0 <= i < proj@.len() ==> r.0 as int <= #[trigger] axis_of(
                state_of(proj@)[i],
                a as int,
            ) <= r.1 as int,
{
    let ghost st = state_of(proj@);
    proof {
        assert(st[0] == (proj@[0].x as int, proj@[0].y as int, proj@[0].z as int));
    }
    let n = proj.len();
    let mut lo = get_axis(&proj[0], a);
    let mut hi = lo;
    let mut i: usize = 1;
    while i < n
        invariant
            1 <= i <= n == proj@.len(),
            st == state_of(proj@),
            lo as int == axis_min(st, a as int, i as int),
            hi as int == axis_max(st, a as int, i as int),
        decreases n - i,
    {
        proof {
            assert(st[i as int] == (
                proj@[i as int].x as int,
                proj@[i as int].y as int,
                proj@[i as int].z as int,
            ));
        }
        let v = get_axis(&proj[i], a);
        if v < lo {
            lo = v;
        }
        if v > hi {
            hi = v;
        }
        i = i + 1;
    }
    proof {
        lemma_axis_min_max(st, a as int, n as int, PROJ_LIMIT as int);
    }
    (lo, hi)
}

/// Seeds the layout: one or two groups go on the x axis; otherwise the
/// projection is min–max rescaled per axis into `[-5000, 5000]`, with
/// degenerate axes collapsed to 0.
pub fn seed_positions(proj: &Vec<Vec3>) -> (r: Vec<Vec3>)
    requires
        state_bounded(state_of(proj@), PROJ_LIMIT as int),
    ensures
        r@.len() == proj@.len(),
        state_of(r@) == spec_seed(state_of(proj@)),
        state_bounded(state_of(r@), 5000),
{
    let ghost st = state_of(proj@);
    let n = proj.len();
    let mut out: Vec<Vec3> = Vec::new();
    if n <= 2 {
        let mut i: usize = 0;
        while i < n
            invariant
                i <= n <= 2,
                out@.len() == i,
                forall|k: int|
                    0 <= k < i ==> state_of(out@)[k] == (3000 * k - 1500, 0int, 0int),
                forall|k: int|
                    0 <= k < i ==> {
                        let v = #[trigger] state_of(out@)[k];
                        -5000 <= v.0 <= 5000 && v.1 == 0 && v.2 == 0
                    },
            decreases n - i,
        {
            let x: i64 = 3000 * (i as i64) - 1500;
            let ghost old_out = out@;
            out.push(Vec3 { x, y: 0, z: 0 });
            proof {
                assert forall|k: int| 0 <= k < i + 1 implies state_of(out@)[k] == (
                    3000 * k - 1500,
                    0int,
                    0int,
                ) && -5000 <= state_of(out@)[k].0 <= 5000 by {
                    if k < i {
                        assert(out@[k] == old_out[k]);
                        assert(state_of(out@)[k] == state_of(old_out)[k]);
                    } else {
                        assert(out@[k].x == x);
                    }
                }
            }
            i = i + 1;
        }
        proof {
            assert(state_of(out@) =~= spec_seed(st));
        }
        return out;
    }
    let (lo0, hi0) = axis_bounds(proj, 0);
    let (lo1, hi1) = axis_bounds(proj, 1);
    let (lo2, hi2) = axis_bounds(proj, 2);
    let mut i: usize = 0;
    while i < n
        invariant
            i <= n == proj@.len(),
            n > 2,
            st == state_of(proj@),
            state_bounded(st, PROJ_LIMIT as int),
            out@.len() == i,
            lo0 as int == axis_min(st, 0, n as int),
            hi0 as int == axis_max(st, 0, n as int),
            lo1 as int == axis_min(st, 1, n as int),
            hi1 as int == axis_max(st, 1, n as int),
            lo2 as int == axis_min(st, 2, n as int),
            hi2 as int == axis_max(st, 2, n as int),
            -PROJ_LIMIT <= lo0 <= hi0 <= PROJ_LIMIT,
            -PROJ_LIMIT <= lo1 <= hi1 <= PROJ_LIMIT,
            -PROJ_LIMIT <= lo2 <= hi2 <= PROJ_LIMIT,
            forall|k: int|
                0 <= k < n ==> lo0 as int <= #[trigger] axis_of(st[k], 0) <= hi0 as int,
            forall|k: int|
                0 <= k < n ==> lo1 as int <= #[trigger] axis_of(st[k], 1) <= hi1 as int,
            forall|k: int|
                0 <= k < n ==> lo2 as int <= #[trigger] axis_of(st[k], 2) <= hi2 as int,
            forall|k: int|
                0 <= k < i ==> state_of(out@)[k] == (
                    rescaled(st, k, 0),
                    rescaled(st, k, 1),
                    rescaled(st, k, 2),
                ),
            forall|k: int|
                0 <= k < i ==> {
                    let v = #[trigger] state_of(out@)[k];
                    -5000 <= v.0 <= 5000 && -5000 <= v.1 <= 5000 && -5000 <= v.2 <= 5000
                },
        decreases n - i,
    {
        proof {
            assert(st[i as int] == (
                proj@[i as int].x as int,
                proj@[i as int].y as int,
                proj@[i as int].z as int,
            ));
        }
        let x = rescale_one(get_axis(&proj[i], 0), lo0, hi0);
        let y = rescale_one(get_axis(&proj[i], 1), lo1, hi1);
        let z = rescale_one(get_axis(&proj[i], 2), lo2, hi2);
        proof {
            assert(x as int == rescaled(st, i as int, 0));
            assert(y as int == rescaled(st, i as int, 1));
            assert(z as int == rescaled(st, i as int, 2));
        }
        let ghost old_out = out@;
        out.push(Vec3 { x, y, z });
        proof {
            assert forall|k: int| 0 <= k < i + 1 implies state_of(out@)[k] == (
                rescaled(st, k, 0),
                rescaled(st, k, 1),
                rescaled(st, k, 2),
            ) && -5000 <= state_of(out@)[k].0 <= 5000 && -5000 <= state_of(out@)[k].1 <= 5000
                && -5000 <= state_of(out@)[k].2 <= 5000 by {
                if k < i {
                    assert(out@[k] == old_out[k]);
                    assert(state_of(out@)[k] == state_of(old_out)[k]);
                } else {
                    assert(out@[k].x == x && out@[k].y == y && out@[k].z == z);
                }
            }
        }
        i = i + 1;
    }
    proof {
        assert(state_of(out@) =~= spec_seed(st));
    }
    out
}

/// Rescales one coordinate from `[lo, hi]` into `[-5000, 5000]`.
fn rescale_one(v: i64, lo: i64, hi: i64) -> (r: i64)
    requires
        -PROJ_LIMIT <= lo <= hi <= PROJ_LIMIT,
        lo <= v <= hi,
    ensures
        hi == lo ==> r == 0,
        hi != lo ==> r as int == -5000 + (v - lo) * 10_000 / (hi - lo),
        -5000 <= r <= 5000,
{
    if hi == lo {
        return 0;
    }
    let num: i128 = ((v as i128) - (lo as i128)) * 10_000;
    let den: i128 = (hi as i128) - (lo as i128);
    proof {
        assert(0 <= num <= den * 10_000 && den * 10_000 >= 0) by (nonlinear_arith)
            requires
                0 <= (v as i128) - (lo as i128) <= den,
                den > 0,
                num == ((v as i128) - (lo as i128)) * 10_000,
        ;
        assert(num / den <= 10_000 && num / den >= 0) by (nonlinear_arith)
            requires
                0 <= num <= den * 10_000,
                den > 0,
        ;
    }
    let q = num / den;
    -5000 + (q as i64)
}


/// The layout is deterministic: the seeded start and every later state are
/// functions of the projection, the similarity matrix and the parameters
/// alone, so identical inputs give identical positions.
pub proof fn lemma_layout_deterministic(
    proj1: Seq<Vec3>,
    proj2: Seq<Vec3>,
    sims1: Seq<Seq<i64>>,
    sims2: Seq<Seq<i64>>,
    p1: LayoutParams,
    p2: LayoutParams,
    t: int,
)
    requires
        proj1 == proj2,
        sims1 == sims2,
        p1 == p2,
    ensures
        spec_seed(state_of(proj1)) == spec_seed(state_of(proj2)),
        state_after(spec_seed(state_of(proj1)), sims1, p1, t) == state_after(
            spec_seed(state_of(proj2)),
            sims2,
            p2,
            t,
        ),
{
}

} // verus!



