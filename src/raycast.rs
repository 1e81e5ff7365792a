//! Ray traversal for picking: walks the grid voxel by voxel along a ray and
//! reports the first opaque voxel and the one entered just before it.
//!
//! Positions and distances are fixed-point numbers: an integer `v` stands for
//! `v / FIXED_ONE` blocks. All comparisons are exact: which axis boundary the
//! ray crosses next is decided by cross-multiplication, and the distance bound
//! by comparing squares, so no square root or division is taken.

use crate::block::BlockName;
use crate::world::World;
use vstd::prelude::*;

verus! {

/// One block in fixed-point units.
pub const FIXED_ONE: i64 = 65536;

/// Largest magnitude of a direction component.
pub const MAX_DIRECTION: i64 = 1_048_576;

/// Largest ray length, in fixed-point units.
pub const MAX_DISTANCE: i64 = 1_099_511_627_776;

pub type Hit = (Option<[isize; 4]>, Option<[isize; 4]>);

pub open spec fn abs(x: int) -> int {
    if x < 0 {
        -x
    } else {
        x
    }
}

pub open spec fn sign(x: int) -> int {
    if x > 0 {
        1
    } else if x < 0 {
        -1
    } else {
        0
    }
}

/// The voxel that holds the fixed-point position `origin`.
pub open spec fn start_voxel(origin: [i64; 4]) -> [isize; 4] {
    [
        (origin[0] as int / FIXED_ONE as int) as isize,
        (origin[1] as int / FIXED_ONE as int) as isize,
        (origin[2] as int / FIXED_ONE as int) as isize,
        (origin[3] as int / FIXED_ONE as int) as isize,
    ]
}

/// Distance, in fixed-point units along one axis, from coordinate `o` to the
/// first voxel boundary in the direction of sign `d`.
pub open spec fn first_pending(o: int, d: int) -> int {
    if d > 0 {
        FIXED_ONE as int - o % (FIXED_ONE as int)
    } else if d < 0 {
        o % (FIXED_ONE as int)
    } else {
        0
    }
}

/// For every axis, the axis distance still to travel to its next boundary.
/// Axis `k` reaches it at ray parameter `pending[k] / (FIXED_ONE * |dir[k]|)`.
pub open spec fn initial_pending(origin: [i64; 4], dir: [i64; 4]) -> Seq<int> {
    seq![
        first_pending(origin[0] as int, dir[0] as int),
        first_pending(origin[1] as int, dir[1] as int),
        first_pending(origin[2] as int, dir[2] as int),
        first_pending(origin[3] as int, dir[3] as int),
    ]
}

pub open spec fn norm2(dir: [i64; 4]) -> int {
    dir[0] * dir[0] + dir[1] * dir[1] + dir[2] * dir[2] + dir[3] * dir[3]
}

/// Axis `k` reaches its next boundary strictly before axis `j` does.
pub open spec fn earlier(dir: [i64; 4], pending: Seq<int>, k: int, j: int) -> bool {
    pending[k] * abs(dir[j] as int) < pending[j] * abs(dir[k] as int)
}

/// Among the first `k` axes with a non-zero direction component, the one
/// that reaches its next boundary first; the lowest such axis on a tie.
pub open spec fn best_upto(dir: [i64; 4], pending: Seq<int>, k: nat) -> Option<int>
    decreases k,
{
    if k == 0 {
        None
    } else {
        let prev = best_upto(dir, pending, (k - 1) as nat);
        let cand = k - 1;
        if dir[cand] == 0 {
            prev
        } else {
            match prev {
                None => Some(cand),
                Some(j) => if earlier(dir, pending, cand, j) {
                    Some(cand)
                } else {
                    Some(j)
                },
            }
        }
    }
}

/// The axis the traversal steps along next.
pub open spec fn next_axis(dir: [i64; 4], pending: Seq<int>) -> Option<int> {
    best_upto(dir, pending, 4)
}

/// Crossing the next boundary of axis `i` happens before the ray has
/// travelled `max_distance`: `pending[i] * |dir| < max_distance * |dir[i]|`,
/// compared on squares.
pub open spec fn within(dir: [i64; 4], max_distance: int, pending: Seq<int>, i: int) -> bool {
    pending[i] * pending[i] * norm2(dir) < max_distance * max_distance * (dir[i] * dir[i])
}

/// Voxel `v` moved by `s` along axis `i`.
pub open spec fn step_voxel(v: [isize; 4], i: int, s: int) -> [isize; 4] {
    [
        (v[0] + if i == 0 { s } else { 0 }) as isize,
        (v[1] + if i == 1 { s } else { 0 }) as isize,
        (v[2] + if i == 2 { s } else { 0 }) as isize,
        (v[3] + if i == 3 { s } else { 0 }) as isize,
    ]
}

pub open spec fn clip(x: int) -> int {
    if x < 0 {
        0
    } else {
        x
    }
}

/// A bound on the steps the traversal can still take.
pub open spec fn steps_left(max_distance: int, pending: Seq<int>) -> int {
    clip(max_distance + FIXED_ONE as int - pending[0]) + clip(max_distance + FIXED_ONE as int - pending[1])
        + clip(max_distance + FIXED_ONE as int - pending[2]) + clip(max_distance + FIXED_ONE as int - pending[3])
}

/// The traversal from voxel `v` with pending boundary distances `pending`:
/// step along the axis that reaches its boundary first while that happens
/// within the distance bound, and stop at the first opaque voxel entered.
pub open spec fn trace(
    w: Map<[isize; 4], BlockName>,
    dir: [i64; 4],
    max_distance: int,
    v: [isize; 4],
    pending: Seq<int>,
) -> Hit
    decreases steps_left(max_distance, pending),
    via trace_decreases
{
    if max_distance < 0 || pending.len() != 4 {
        (None, None)
    } else {
        match next_axis(dir, pending) {
            None => (None, None),
            Some(i) => if within(dir, max_distance, pending, i) {
                let next = step_voxel(v, i, sign(dir[i] as int));
                if !w[next].spec_is_transparent() {
                    (Some(v), Some(next))
                } else {
                    trace(w, dir, max_distance, next, pending.update(i, pending[i] + FIXED_ONE as int))
                }
            } else {
                (None, None)
            },
        }
    }
}

proof fn lemma_best_in_range(dir: [i64; 4], pending: Seq<int>, k: nat)
    ensures
        match best_upto(dir, pending, k) {
            Some(i) => 0 <= i < k && dir[i] != 0,
            None => true,
        },
    decreases k,
{
    if k > 0 {
        lemma_best_in_range(dir, pending, (k - 1) as nat);
    }
}

proof fn lemma_norm_bounds_component(dir: [i64; 4], i: int)
    requires
        0 <= i < 4,
    ensures
        dir[i] * dir[i] <= norm2(dir),
{
    assert(dir[0] * dir[0] >= 0) by (nonlinear_arith);
    assert(dir[1] * dir[1] >= 0) by (nonlinear_arith);
    assert(dir[2] * dir[2] >= 0) by (nonlinear_arith);
    assert(dir[3] * dir[3] >= 0) by (nonlinear_arith);
}

/// A boundary crossed within the distance bound lies closer than the bound.
proof fn lemma_within_below(dir: [i64; 4], max_distance: int, pending: Seq<int>, i: int)
    requires
        0 <= i < 4,
        max_distance >= 0,
        within(dir, max_distance, pending, i),
    ensures
        pending[i] < max_distance,
{
    lemma_norm_bounds_component(dir, i);
    assert(dir[i] * dir[i] >= 0) by (nonlinear_arith);
    let p = pending[i];
    let n = norm2(dir);
    let d2 = dir[i] * dir[i];
    if p >= max_distance {
        assert(p * p >= max_distance * max_distance) by (nonlinear_arith)
            requires
                p >= max_distance >= 0,
        ;
        assert(p * p * n >= max_distance * max_distance * d2) by (nonlinear_arith)
            requires
                p * p >= max_distance * max_distance >= 0,
                n >= d2 >= 0,
        ;
    }
}

#[via_fn]
proof fn trace_decreases(
    w: Map<[isize; 4], BlockName>,
    dir: [i64; 4],
    max_distance: int,
    v: [isize; 4],
    pending: Seq<int>,
) {
    if max_distance >= 0 && pending.len() == 4 {
        lemma_best_in_range(dir, pending, 4);
        match next_axis(dir, pending) {
            None => {},
            Some(i) => if within(dir, max_distance, pending, i) {
                lemma_within_below(dir, max_distance, pending, i);
                let np = pending.update(i, pending[i] + FIXED_ONE as int);
                assert(np[i] == pending[i] + FIXED_ONE as int);
                assert(forall|k: int| 0 <= k < 4 && k != i ==> np[k] == pending[k]);
                assert(steps_left(max_distance, np) < steps_left(max_distance, pending));
            },
        }
    }
}

/// The rays the traversal accepts: bounded direction components and length,
/// and an origin far enough from the ends of `isize` that every voxel within
/// reach has coordinates that fit.
pub open spec fn ray_ok(origin: [i64; 4], dir: [i64; 4], max_distance: i64) -> bool {
    let reach = max_distance as int / FIXED_ONE as int + 1;
    &&& -MAX_DIRECTION <= dir[0] <= MAX_DIRECTION
    &&& -MAX_DIRECTION <= dir[1] <= MAX_DIRECTION
    &&& -MAX_DIRECTION <= dir[2] <= MAX_DIRECTION
    &&& -MAX_DIRECTION <= dir[3] <= MAX_DIRECTION
    &&& max_distance <= MAX_DISTANCE
    &&& isize::MIN + reach <= origin[0] as int / FIXED_ONE as int <= isize::MAX - reach
    &&& isize::MIN + reach <= origin[1] as int / FIXED_ONE as int <= isize::MAX - reach
    &&& isize::MIN + reach <= origin[2] as int / FIXED_ONE as int <= isize::MAX - reach
    &&& isize::MIN + reach <= origin[3] as int / FIXED_ONE as int <= isize::MAX - reach
}

/// What a ray from `origin` along `dir`, `max_distance` long, finds in a
/// world whose contents are `w`: the last transparent voxel and the first
/// opaque one, or `(None, None)` if no opaque voxel is entered within the
/// bound. An opaque start voxel is found with no voxel before it.
pub open spec fn raycast_of(w: Map<[isize; 4], BlockName>, origin: [i64; 4], dir: [i64; 4], max_distance: i64) -> Hit {
    let start = start_voxel(origin);
    if max_distance <= 0 {
        (None, None)
    } else if !w[start].spec_is_transparent() {
        (None, Some(start))
    } else {
        trace(w, dir, max_distance as int, start, initial_pending(origin, dir))
    }
}

/// The pending distances held in `p`.
pub open spec fn pending_view(p: [i128; 4]) -> Seq<int> {
    seq![p[0] as int, p[1] as int, p[2] as int, p[3] as int]
}

pub open spec fn opt_index(o: Option<usize>) -> Option<int> {
    match o {
        Some(i) => Some(i as int),
        None => None,
    }
}

fn abs_i128(x: i64) -> (r: i128)
    ensures
        r == abs(x as int),
{
    if x < 0 {
        -(x as i128)
    } else {
        x as i128
    }
}

/// The voxel that holds `origin`, and the distances from `origin` to the
/// first boundary on every axis.
fn start_of(origin: [i64; 4], dir: [i64; 4], max_distance: i64) -> (r: ([isize; 4], [i128; 4]))
    requires
        ray_ok(origin, dir, max_distance),
        max_distance > 0,
    ensures
        r.0 == start_voxel(origin),
        pending_view(r.1) == initial_pending(origin, dir),
        forall|k: int| 0 <= k < 4 ==> 0 <= #[trigger] r.1[k] <= FIXED_ONE,
{
    let mut v: [isize; 4] = [0, 0, 0, 0];
    let mut p: [i128; 4] = [0, 0, 0, 0];
    let mut k: usize = 0;
    while k < 4
        invariant
            ray_ok(origin, dir, max_distance),
            max_distance > 0,
            k <= 4,
            forall|j: int| 0 <= j < k ==> #[trigger] v[j] == start_voxel(origin)[j],
            forall|j: int|
                0 <= j < k ==> #[trigger] p[j] == first_pending(origin[j] as int, dir[j] as int),
            forall|j: int| 0 <= j < k ==> 0 <= #[trigger] p[j] <= FIXED_ONE,
        decreases 4 - k,
    {
        let o = origin[k];
        proof {
            vstd::arithmetic::div_mod::lemma_mod_bound(o as int, FIXED_ONE as int);
            assert(max_distance as int / FIXED_ONE as int >= 0);
        }
        match o.checked_div_euclid(FIXED_ONE) {
            Some(q) => v[k] = q as isize,
            None => {},
        }
        let rem: i64 = match o.checked_rem_euclid(FIXED_ONE) {
            Some(r) => r,
            None => 0,
        };
        if dir[k] > 0 {
            p[k] = (FIXED_ONE - rem) as i128;
        } else if dir[k] < 0 {
            p[k] = rem as i128;
        } else {
            p[k] = 0;
        }
        k = k + 1;
    }
    assert(v =~= start_voxel(origin));
    assert(pending_view(p) =~= initial_pending(origin, dir));
    (v, p)
}

/// The axis whose next boundary the ray reaches first, among those with a
/// non-zero direction component; the lowest such axis on a tie.
fn select_axis(dir: [i64; 4], pending: [i128; 4], limit: i128) -> (r: Option<usize>)
    requires
        forall|k: int| 0 <= k < 4 ==> -MAX_DIRECTION <= #[trigger] dir[k] <= MAX_DIRECTION,
        forall|k: int| 0 <= k < 4 ==> 0 <= #[trigger] pending[k] <= limit,
        limit <= 2 * MAX_DISTANCE,
    ensures
        opt_index(r) == next_axis(dir, pending_view(pending)),
{
    let ghost pv = pending_view(pending);
    let mut best: Option<usize> = None;
    let mut k: usize = 0;
    while k < 4
        invariant
            forall|j: int| 0 <= j < 4 ==> -MAX_DIRECTION <= #[trigger] dir[j] <= MAX_DIRECTION,
            forall|j: int| 0 <= j < 4 ==> 0 <= #[trigger] pending[j] <= limit,
            limit <= 2 * MAX_DISTANCE,
            pv == pending_view(pending),
            k <= 4,
            opt_index(best) == best_upto(dir, pv, k as nat),
            match best {
                Some(j) => j < k,
                None => true,
            },
        decreases 4 - k,
    {
        if dir[k] != 0 {
            match best {
                None => {
                    best = Some(k);
                },
                Some(j) => {
                    let pk = pending[k];
                    let pj = pending[j];
                    let ak = abs_i128(dir[k]);
                    let aj = abs_i128(dir[j]);
                    assert(pk * aj <= limit * MAX_DIRECTION) by (nonlinear_arith)
                        requires
                            0 <= pk <= limit,
                            0 <= aj <= MAX_DIRECTION,
                    ;
                    assert(pj * ak <= limit * MAX_DIRECTION) by (nonlinear_arith)
                        requires
                            0 <= pj <= limit,
                            0 <= ak <= MAX_DIRECTION,
                    ;
                    if pk * aj < pj * ak {
                        best = Some(k);
                    }
                },
            }
        }
        k = k + 1;
    }
    best
}

/// Whether axis `i` reaches its next boundary within the distance bound.
fn within_bound(dir: [i64; 4], max_distance: i64, pending: [i128; 4], i: usize) -> (r: bool)
    requires
        i < 4,
        forall|k: int| 0 <= k < 4 ==> -MAX_DIRECTION <= #[trigger] dir[k] <= MAX_DIRECTION,
        forall|k: int| 0 <= k < 4 ==> 0 <= #[trigger] pending[k] <= 2 * MAX_DISTANCE,
        0 < max_distance <= MAX_DISTANCE,
    ensures
        r == within(dir, max_distance as int, pending_view(pending), i as int),
{
    let d0 = dir[0] as i128;
    let d1 = dir[1] as i128;
    let d2 = dir[2] as i128;
    let d3 = dir[3] as i128;
    let di = dir[i] as i128;
    let p = pending[i];
    let m = max_distance as i128;
    assert(d0 * d0 <= MAX_DIRECTION * MAX_DIRECTION && d0 * d0 >= 0) by (nonlinear_arith)
        requires -MAX_DIRECTION <= d0 <= MAX_DIRECTION;
    assert(d1 * d1 <= MAX_DIRECTION * MAX_DIRECTION && d1 * d1 >= 0) by (nonlinear_arith)
        requires -MAX_DIRECTION <= d1 <= MAX_DIRECTION;
    assert(d2 * d2 <= MAX_DIRECTION * MAX_DIRECTION && d2 * d2 >= 0) by (nonlinear_arith)
        requires -MAX_DIRECTION <= d2 <= MAX_DIRECTION;
    assert(d3 * d3 <= MAX_DIRECTION * MAX_DIRECTION && d3 * d3 >= 0) by (nonlinear_arith)
        requires -MAX_DIRECTION <= d3 <= MAX_DIRECTION;
    assert(di * di <= MAX_DIRECTION * MAX_DIRECTION && di * di >= 0) by (nonlinear_arith)
        requires -MAX_DIRECTION <= di <= MAX_DIRECTION;
    let n2 = d0 * d0 + d1 * d1 + d2 * d2 + d3 * d3;
    assert(p * p <= 4 * MAX_DISTANCE * MAX_DISTANCE && p * p >= 0) by (nonlinear_arith)
        requires 0 <= p <= 2 * MAX_DISTANCE;
    let pp = p * p;
    assert(4 * MAX_DISTANCE * MAX_DISTANCE == 0x4_0000_0000_0000_0000_0000);
    assert(4 * MAX_DIRECTION * MAX_DIRECTION == 0x400_0000_0000);
    assert(0 <= pp * n2 <= 0x1000_0000_0000_0000_0000_0000_0000_0000) by (nonlinear_arith)
        requires
            0 <= pp <= 0x4_0000_0000_0000_0000_0000,
            0 <= n2 <= 0x400_0000_0000,
    ;
    assert(m * m <= MAX_DISTANCE * MAX_DISTANCE && m * m >= 0) by (nonlinear_arith)
        requires 0 < m <= MAX_DISTANCE;
    let mm = m * m;
    let dd = di * di;
    assert(MAX_DISTANCE * MAX_DISTANCE == 0x1_0000_0000_0000_0000_0000);
    assert(MAX_DIRECTION * MAX_DIRECTION == 0x100_0000_0000);
    assert(0 <= mm * dd <= 0x100_0000_0000_0000_0000_0000_0000_0000) by (nonlinear_arith)
        requires
            0 <= mm <= 0x1_0000_0000_0000_0000_0000,
            0 <= dd <= 0x100_0000_0000,
    ;
    pp * n2 < mm * dd
}

/// A step count whose length in fixed-point units stays below
/// `max_distance + FIXED_ONE` is at most `max_distance / FIXED_ONE + 1`.
proof fn lemma_reach(x: int, max_distance: int)
    requires
        0 <= x,
        x * FIXED_ONE < max_distance + FIXED_ONE,
    ensures
        x <= max_distance / FIXED_ONE as int + 1,
{
    let u = FIXED_ONE as int;
    vstd::arithmetic::div_mod::lemma_fundamental_div_mod(max_distance, u);
    vstd::arithmetic::div_mod::lemma_mod_bound(max_distance, u);
    let q = max_distance / u;
    assert(x < q + 2) by (nonlinear_arith)
        requires
            x * u < max_distance + u,
            max_distance == u * q + max_distance % u,
            0 <= max_distance % u < u,
            u > 0,
    ;
}

/// Walks the ray from fixed-point position `origin` along `direction` for at
/// most `max_distance` (fixed-point units, measured along the ray) and
/// returns the last transparent voxel entered and the first opaque one, or
/// `(None, None)` if no opaque voxel is entered within that distance. Axes
/// whose direction component is zero are never stepped along. The direction
/// need not be normalized. When two axes reach a boundary at the same point
/// the lower axis is stepped first; callers should not depend on that order.
pub fn raycast(world: &World, origin: [i64; 4], direction: [i64; 4], max_distance: i64) -> (r: Hit)
    requires
        world.wf(),
        ray_ok(origin, direction, max_distance),
    ensures
        r == raycast_of(world@, origin, direction, max_distance),
{
    if max_distance <= 0 {
        return (None, None);
    }
    let (start, init) = start_of(origin, direction, max_distance);
    if !world.get(start).is_transparent() {
        return (None, Some(start));
    }
    let ghost w = world@;
    let ghost m = max_distance as int;
    let ghost reach = m / FIXED_ONE as int + 1;
    let mut voxel = start;
    let mut pending = init;
    assert(forall|k: int| 0 <= k < 4 ==> #[trigger] abs(voxel[k] - start[k]) == 0);
    while true
        invariant
            world.wf(),
            w == world@,
            m == max_distance,
            ray_ok(origin, direction, max_distance),
            max_distance > 0,
            reach == m / FIXED_ONE as int + 1,
            start == start_voxel(origin),
            trace(w, direction, m, voxel, pending_view(pending)) == raycast_of(
                w,
                origin,
                direction,
                max_distance,
            ),
            forall|k: int| 0 <= k < 4 ==> 0 <= #[trigger] pending[k] < m + FIXED_ONE,
            forall|k: int| 0 <= k < 4 ==> #[trigger] abs(voxel[k] - start[k]) * FIXED_ONE <= pending[k],
        decreases steps_left(m, pending_view(pending)),
    {
        let ghost pv = pending_view(pending);
        proof {
            lemma_best_in_range(direction, pv, 4);
        }
        match select_axis(direction, pending, 2 * MAX_DISTANCE as i128) {
            None => {
                return (None, None);
            },
            Some(i) => {
                if !within_bound(direction, max_distance, pending, i) {
                    return (None, None);
                }
                proof {
                    lemma_within_below(direction, m, pv, i as int);
                    assert(abs(voxel[i as int] - start[i as int]) * FIXED_ONE <= pending[i as int]);
                    assert(abs(voxel[i as int] - start[i as int] + sign(direction[i as int] as int)) * FIXED_ONE
                        <= pending[i as int] + FIXED_ONE);
                    lemma_reach(abs(voxel[i as int] - start[i as int] + sign(direction[i as int] as int)), m);
                }
                let s: isize = if direction[i] > 0 {
                    1
                } else {
                    -1
                };
                let prev = voxel;
                voxel[i] = voxel[i] + s;
                pending[i] = pending[i] + FIXED_ONE as i128;
                assert(voxel =~= step_voxel(prev, i as int, sign(direction[i as int] as int)));
                assert(pending_view(pending) =~= pv.update(i as int, pv[i as int] + FIXED_ONE as int));
                if !world.get(voxel).is_transparent() {
                    return (Some(prev), Some(voxel));
                }
            },
        }
    }
    (None, None)
}

/// The traversal never steps along an axis whose direction component is
/// zero.
pub proof fn lemma_zero_axis_never_selected(dir: [i64; 4], pending: Seq<int>, k: int)
    requires
        0 <= k < 4,
        dir[k] == 0,
    ensures
        next_axis(dir, pending) != Some(k),
{
    lemma_best_in_range(dir, pending, 4);
}

proof fn lemma_trace_keeps_axis(
    w: Map<[isize; 4], BlockName>,
    dir: [i64; 4],
    m: int,
    v: [isize; 4],
    pending: Seq<int>,
    k: int,
)
    requires
        0 <= k < 4,
        dir[k] == 0,
    ensures
        match trace(w, dir, m, v, pending).0 {
            Some(a) => a[k] == v[k],
            None => true,
        },
        match trace(w, dir, m, v, pending).1 {
            Some(b) => b[k] == v[k],
            None => true,
        },
    decreases steps_left(m, pending),
{
    if m >= 0 && pending.len() == 4 {
        lemma_best_in_range(dir, pending, 4);
        match next_axis(dir, pending) {
            None => {},
            Some(i) => if within(dir, m, pending, i) {
                lemma_within_below(dir, m, pending, i);
                let next = step_voxel(v, i, sign(dir[i] as int));
                let np = pending.update(i, pending[i] + FIXED_ONE as int);
                assert(np[i] == pending[i] + FIXED_ONE as int);
                assert(forall|j: int| 0 <= j < 4 && j != i ==> np[j] == pending[j]);
                assert(steps_left(m, np) < steps_left(m, pending));
                if w[next].spec_is_transparent() {
                    lemma_trace_keeps_axis(w, dir, m, next, np, k);
                }
            },
        }
    }
}

/// A ray never moves along an axis whose direction component is zero: both
/// voxels it reports have the start voxel's coordinate on that axis.
pub proof fn lemma_zero_axis_fixed(
    w: Map<[isize; 4], BlockName>,
    origin: [i64; 4],
    dir: [i64; 4],
    max_distance: i64,
    k: int,
)
    requires
        0 <= k < 4,
        dir[k] == 0,
    ensures
        match raycast_of(w, origin, dir, max_distance).0 {
            Some(a) => a[k] == start_voxel(origin)[k],
            None => true,
        },
        match raycast_of(w, origin, dir, max_distance).1 {
            Some(b) => b[k] == start_voxel(origin)[k],
            None => true,
        },
{
    if max_distance > 0 && w[start_voxel(origin)].spec_is_transparent() {
        lemma_trace_keeps_axis(
            w,
            dir,
            max_distance as int,
            start_voxel(origin),
            initial_pending(origin, dir),
            k,
        );
    }
}

/// `b` is `a` moved one voxel along an axis whose direction component is
/// non-zero, in that component's direction.
pub open spec fn one_step(dir: [i64; 4], a: [isize; 4], b: [isize; 4]) -> bool {
    exists|i: int| 0 <= i < 4 && dir[i] != 0 && b == #[trigger] step_voxel(a, i, sign(dir[i] as int))
}

/// What the traversal from a transparent voxel finds: nothing, or a
/// transparent voxel and the opaque voxel one step further.
pub open spec fn hit_shape(w: Map<[isize; 4], BlockName>, dir: [i64; 4], r: Hit) -> bool {
    match r {
        (None, None) => true,
        (Some(a), Some(b)) => w[a].spec_is_transparent() && !w[b].spec_is_transparent() && one_step(
            dir,
            a,
            b,
        ),
        _ => false,
    }
}

proof fn lemma_trace_meaning(
    w: Map<[isize; 4], BlockName>,
    dir: [i64; 4],
    m: int,
    v: [isize; 4],
    pending: Seq<int>,
)
    requires
        w[v].spec_is_transparent(),
    ensures
        hit_shape(w, dir, trace(w, dir, m, v, pending)),
    decreases steps_left(m, pending),
{
    if m >= 0 && pending.len() == 4 {
        lemma_best_in_range(dir, pending, 4);
        match next_axis(dir, pending) {
            None => {},
            Some(i) => if within(dir, m, pending, i) {
                lemma_within_below(dir, m, pending, i);
                let next = step_voxel(v, i, sign(dir[i] as int));
                let np = pending.update(i, pending[i] + FIXED_ONE as int);
                assert(np[i] == pending[i] + FIXED_ONE as int);
                assert(forall|j: int| 0 <= j < 4 && j != i ==> np[j] == pending[j]);
                assert(steps_left(m, np) < steps_left(m, pending));
                if w[next].spec_is_transparent() {
                    lemma_trace_meaning(w, dir, m, next, np);
                } else {
                    assert(one_step(dir, v, next));
                }
            },
        }
    }
}

/// What a ray's result means. An opaque voxel is reported whenever anything
/// is; the voxel reported before it is transparent and lies one step back
/// along an axis the ray moves on; and an opaque voxel reported alone is the
/// start voxel, found by a ray of positive length.
pub proof fn lemma_raycast_meaning(
    w: Map<[isize; 4], BlockName>,
    origin: [i64; 4],
    dir: [i64; 4],
    max_distance: i64,
)
    ensures
        ({
            let r = raycast_of(w, origin, dir, max_distance);
            match r {
                (None, None) => true,
                (Some(a), Some(b)) => w[a].spec_is_transparent() && !w[b].spec_is_transparent()
                    && one_step(dir, a, b),
                (None, Some(b)) => b == start_voxel(origin) && max_distance > 0
                    && !w[b].spec_is_transparent(),
                (Some(a), None) => false,
            }
        }),
{
    let start = start_voxel(origin);
    if max_distance > 0 && w[start].spec_is_transparent() {
        lemma_trace_meaning(w, dir, max_distance as int, start, initial_pending(origin, dir));
    }
}

proof fn lemma_trace_longer(
    w: Map<[isize; 4], BlockName>,
    dir: [i64; 4],
    m1: int,
    m2: int,
    v: [isize; 4],
    pending: Seq<int>,
)
    requires
        0 <= m1 <= m2,
        trace(w, dir, m1, v, pending).1 is Some,
    ensures
        trace(w, dir, m2, v, pending) == trace(w, dir, m1, v, pending),
    decreases steps_left(m1, pending),
{
    if pending.len() == 4 {
        lemma_best_in_range(dir, pending, 4);
        match next_axis(dir, pending) {
            None => {},
            Some(i) => if within(dir, m1, pending, i) {
                lemma_within_below(dir, m1, pending, i);
                assert(dir[i] * dir[i] >= 0) by (nonlinear_arith);
                let d2 = dir[i] * dir[i];
                assert(m1 * m1 * d2 <= m2 * m2 * d2) by (nonlinear_arith)
                    requires
                        0 <= m1 <= m2,
                        d2 >= 0,
                ;
                assert(within(dir, m2, pending, i));
                let next = step_voxel(v, i, sign(dir[i] as int));
                let np = pending.update(i, pending[i] + FIXED_ONE as int);
                assert(np[i] == pending[i] + FIXED_ONE as int);
                assert(forall|j: int| 0 <= j < 4 && j != i ==> np[j] == pending[j]);
                assert(steps_left(m1, np) < steps_left(m1, pending));
                if w[next].spec_is_transparent() {
                    lemma_trace_longer(w, dir, m1, m2, next, np);
                }
            },
        }
    }
}

/// A longer ray keeps a hit: whatever a ray of length `shorter` finds, a ray
/// of any length `longer >= shorter` from the same origin along the same
/// direction finds too.
pub proof fn lemma_longer_keeps_hit(
    w: Map<[isize; 4], BlockName>,
    origin: [i64; 4],
    dir: [i64; 4],
    shorter: i64,
    longer: i64,
)
    requires
        shorter <= longer,
        raycast_of(w, origin, dir, shorter).1 is Some,
    ensures
        raycast_of(w, origin, dir, longer) == raycast_of(w, origin, dir, shorter),
{
    let start = start_voxel(origin);
    if w[start].spec_is_transparent() {
        lemma_trace_longer(
            w,
            dir,
            shorter as int,
            longer as int,
            start,
            initial_pending(origin, dir),
        );
    }
}

} // verus!
