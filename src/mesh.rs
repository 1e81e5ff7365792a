//! Surface extraction: the unit quads that separate transparent from opaque
//! voxels inside a bounded region, for every one of the six planes spanned by
//! two of the four axes.

use crate::block::BlockName;
use crate::world::World;
use vstd::prelude::*;

verus! {

/// The plane of a quad: the two axes it spans. The other two axes are the
/// ones along which an opacity change is detected.
#[derive(Debug, Clone, Copy, PartialEq, Eq, Structural)]
pub enum Plane {
    XY,
    XZ,
    YZ,
    XW,
    YW,
    ZW,
}

impl Plane {
    /// `(a, b, c, d)`: the quad spans axes `a` and `b`; `c` and `d` are the
    /// boundary-detecting axes.
    pub open spec fn spec_axes(self) -> (usize, usize, usize, usize) {
        match self {
            Plane::XY => (0, 1, 2, 3),
            Plane::XZ => (0, 2, 1, 3),
            Plane::YZ => (1, 2, 0, 3),
            Plane::XW => (0, 3, 1, 2),
            Plane::YW => (1, 3, 0, 2),
            Plane::ZW => (2, 3, 0, 1),
        }
    }

    pub fn axes(self) -> (r: (usize, usize, usize, usize))
        ensures
            r == self.spec_axes(),
    {
        match self {
            Plane::XY => (0, 1, 2, 3),
            Plane::XZ => (0, 2, 1, 3),
            Plane::YZ => (1, 2, 0, 3),
            Plane::XW => (0, 3, 1, 2),
            Plane::YW => (1, 3, 0, 2),
            Plane::ZW => (2, 3, 0, 1),
        }
    }
}

impl Plane {
    /// The `n`-th plane in the order in which the mesher emits them.
    pub fn at(n: usize) -> (r: Plane)
        requires
            n < 6,
        ensures
            r == plane_at(n as int),
    {
        if n == 0 {
            Plane::XY
        } else if n == 1 {
            Plane::XZ
        } else if n == 2 {
            Plane::YZ
        } else if n == 3 {
            Plane::XW
        } else if n == 4 {
            Plane::YW
        } else {
            Plane::ZW
        }
    }
}

/// The planes in the order in which the mesher emits them.
pub open spec fn plane_at(n: int) -> Plane {
    if n == 0 {
        Plane::XY
    } else if n == 1 {
        Plane::XZ
    } else if n == 2 {
        Plane::YZ
    } else if n == 3 {
        Plane::XW
    } else if n == 4 {
        Plane::YW
    } else {
        Plane::ZW
    }
}

/// A unit square spanning `[corner[a], corner[a] + 1] x [corner[b], corner[b] + 1]`
/// on the plane's axes `a` and `b`, with the other two coordinates fixed at
/// the corner's.
#[derive(Debug, Clone, Copy, PartialEq, Eq)]
pub struct Quad {
    pub corner: [isize; 4],
    pub plane: Plane,
}

/// The value of axis `x` in a point whose axes `axes` hold `vi`, `vj`, `vk`
/// and `vl`.
pub open spec fn pick(axes: (usize, usize, usize, usize), x: usize, vi: int, vj: int, vk: int, vl: int) -> int {
    if x == axes.0 {
        vi
    } else if x == axes.1 {
        vj
    } else if x == axes.2 {
        vk
    } else {
        vl
    }
}

/// The point whose coordinates on axes `axes.0` to `axes.3` are `vi` to `vl`.
pub open spec fn place(axes: (usize, usize, usize, usize), vi: int, vj: int, vk: int, vl: int) -> [isize; 4] {
    [
        pick(axes, 0, vi, vj, vk, vl) as isize,
        pick(axes, 1, vi, vj, vk, vl) as isize,
        pick(axes, 2, vi, vj, vk, vl) as isize,
        pick(axes, 3, vi, vj, vk, vl) as isize,
    ]
}

/// `q` moved one step back along axis `axis`.
pub open spec fn step_back(q: [isize; 4], axis: usize) -> [isize; 4] {
    [
        (q[0] - if axis == 0 { 1int } else { 0int }) as isize,
        (q[1] - if axis == 1 { 1int } else { 0int }) as isize,
        (q[2] - if axis == 2 { 1int } else { 0int }) as isize,
        (q[3] - if axis == 3 { 1int } else { 0int }) as isize,
    ]
}

/// Whether the four voxels that meet at boundary point `q` on axes `c` and
/// `d` are not all of one opacity class.
pub open spec fn mixed_at(w: Map<[isize; 4], BlockName>, q: [isize; 4], c: usize, d: usize) -> bool {
    let t0 = w[q].spec_is_transparent();
    let t1 = w[step_back(q, d)].spec_is_transparent();
    let t2 = w[step_back(q, c)].spec_is_transparent();
    let t3 = w[step_back(step_back(q, c), d)].spec_is_transparent();
    !((t0 && t1 && t2 && t3) || (!t0 && !t1 && !t2 && !t3))
}

/// The region `[lo, hi)` is one the mesher can scan: every bound, and a step
/// past it on either side, fits in an `isize`, and every plane's scan can be
/// counted in a `usize`.
pub open spec fn region_ok(lo: [isize; 4], hi: [isize; 4]) -> bool {
    &&& isize::MIN < lo[0] <= hi[0] < isize::MAX
    &&& isize::MIN < lo[1] <= hi[1] < isize::MAX
    &&& isize::MIN < lo[2] <= hi[2] < isize::MAX
    &&& isize::MIN < lo[3] <= hi[3] < isize::MAX
    &&& forall|n: int| 0 <= n < 6 ==> scan_len(lo, hi, #[trigger] plane_at(n)) <= usize::MAX
}

/// Axis `x` of region `[lo, hi)` can be scanned with a step past either bound.
pub open spec fn axis_ok(lo: [isize; 4], hi: [isize; 4], x: int) -> bool {
    isize::MIN < lo[x] <= hi[x] < isize::MAX
}

proof fn lemma_plane_axes(lo: [isize; 4], hi: [isize; 4], p: Plane)
    requires
        region_ok(lo, hi),
    ensures
        ({
            let (a, b, c, d) = p.spec_axes();
            &&& a < 4 && b < 4 && c < 4 && d < 4
            &&& a != b && a != c && a != d && b != c && b != d && c != d
            &&& axis_ok(lo, hi, a as int) && axis_ok(lo, hi, b as int)
            &&& axis_ok(lo, hi, c as int) && axis_ok(lo, hi, d as int)
        }),
{
}

/// The extents scanned for plane `p`: the region's extent on `a` and `b`, and
/// one more on the boundary axes `c` and `d`, whose far bounds are included.
pub open spec fn scan_dims(lo: [isize; 4], hi: [isize; 4], p: Plane) -> (int, int, int, int) {
    let (a, b, c, d) = p.spec_axes();
    (hi[a as int] - lo[a as int], hi[b as int] - lo[b as int], hi[c as int] - lo[c as int] + 1, hi[d as int] - lo[d as int] + 1)
}

/// Number of points scanned for plane `p`.
pub open spec fn scan_len(lo: [isize; 4], hi: [isize; 4], p: Plane) -> int {
    let (da, db, dc, dd) = scan_dims(lo, hi, p);
    dd * dc * db * da
}

/// The `t`-th point scanned for plane `p`: axis `a` varies slowest, then `b`,
/// `c` and `d`.
pub open spec fn scan_point(lo: [isize; 4], hi: [isize; 4], p: Plane, t: int) -> [isize; 4] {
    let (a, b, c, d) = p.spec_axes();
    let (da, db, dc, dd) = scan_dims(lo, hi, p);
    place(
        p.spec_axes(),
        lo[a as int] + t / (dd * dc * db),
        lo[b as int] + (t / (dd * dc)) % db,
        lo[c as int] + (t / dd) % dc,
        lo[d as int] + t % dd,
    )
}

/// The quads of plane `p` among its first `n` scanned points, in scan order.
pub open spec fn plane_quads(w: Map<[isize; 4], BlockName>, lo: [isize; 4], hi: [isize; 4], p: Plane, n: nat) -> Seq<Quad>
    decreases n,
{
    if n == 0 {
        Seq::empty()
    } else {
        let prev = plane_quads(w, lo, hi, p, (n - 1) as nat);
        let q = scan_point(lo, hi, p, n - 1);
        let (a, b, c, d) = p.spec_axes();
        if mixed_at(w, q, c, d) {
            prev.push(Quad { corner: q, plane: p })
        } else {
            prev
        }
    }
}

/// The quads of the first `m` planes, plane by plane.
pub open spec fn mesh_upto(w: Map<[isize; 4], BlockName>, lo: [isize; 4], hi: [isize; 4], m: nat) -> Seq<Quad>
    decreases m,
{
    if m == 0 {
        Seq::empty()
    } else {
        let p = plane_at(m - 1);
        mesh_upto(w, lo, hi, (m - 1) as nat) + plane_quads(w, lo, hi, p, scan_len(lo, hi, p) as nat)
    }
}

/// The mesh of region `[lo, hi)` of a world whose contents are `w`.
pub open spec fn mesh_of(w: Map<[isize; 4], BlockName>, lo: [isize; 4], hi: [isize; 4]) -> Seq<Quad> {
    mesh_upto(w, lo, hi, 6)
}

/// The point with coordinates `vi` to `vl` on axes `axes.0` to `axes.3`.
fn place_point(axes: (usize, usize, usize, usize), vi: isize, vj: isize, vk: isize, vl: isize) -> (r: [isize; 4])
    requires
        axes.0 < 4 && axes.1 < 4 && axes.2 < 4 && axes.3 < 4,
        axes.0 != axes.1 && axes.0 != axes.2 && axes.0 != axes.3,
        axes.1 != axes.2 && axes.1 != axes.3 && axes.2 != axes.3,
    ensures
        r == place(axes, vi as int, vj as int, vk as int, vl as int),
{
    let mut r: [isize; 4] = [0, 0, 0, 0];
    r[axes.3] = vl;
    r[axes.2] = vk;
    r[axes.1] = vj;
    r[axes.0] = vi;
    assert(r =~= place(axes, vi as int, vj as int, vk as int, vl as int));
    r
}

/// `q` moved one step back along `axis`.
fn back(q: [isize; 4], axis: usize) -> (r: [isize; 4])
    requires
        axis < 4,
        q[axis as int] > isize::MIN,
    ensures
        r == step_back(q, axis),
{
    let mut r = q;
    r[axis] = q[axis] - 1;
    assert(r =~= step_back(q, axis));
    r
}

/// Whether the four voxels meeting at `q` on axes `c` and `d` differ in
/// opacity class.
fn mixed(world: &World, q: [isize; 4], c: usize, d: usize) -> (r: bool)
    requires
        world.wf(),
        c < 4 && d < 4 && c != d,
        q[c as int] > isize::MIN,
        q[d as int] > isize::MIN,
    ensures
        r == mixed_at(world@, q, c, d),
{
    let qd = back(q, d);
    let qc = back(q, c);
    let qcd = back(qc, d);
    let t0 = world.get(q).is_transparent();
    let t1 = world.get(qd).is_transparent();
    let t2 = world.get(qc).is_transparent();
    let t3 = world.get(qcd).is_transparent();
    !((t0 && t1 && t2 && t3) || (!t0 && !t1 && !t2 && !t3))
}

/// The `t`-th point scanned for `plane`, given the plane's axes, its scan
/// extents and their partial products.
fn point_at(
    lo: [isize; 4],
    hi: [isize; 4],
    plane: Plane,
    axes: (usize, usize, usize, usize),
    dims: (usize, usize, usize, usize),
    m2: usize,
    m3: usize,
    t: usize,
) -> (r: [isize; 4])
    requires
        axes == plane.spec_axes(),
        axes.0 < 4 && axes.1 < 4 && axes.2 < 4 && axes.3 < 4,
        axes.0 != axes.1 && axes.0 != axes.2 && axes.0 != axes.3,
        axes.1 != axes.2 && axes.1 != axes.3 && axes.2 != axes.3,
        axis_ok(lo, hi, axes.0 as int) && axis_ok(lo, hi, axes.1 as int),
        axis_ok(lo, hi, axes.2 as int) && axis_ok(lo, hi, axes.3 as int),
        (dims.0 as int, dims.1 as int, dims.2 as int, dims.3 as int) == scan_dims(lo, hi, plane),
        dims.0 >= 1 && dims.1 >= 1 && dims.2 >= 1 && dims.3 >= 1,
        m2 == dims.3 * dims.2,
        m3 == m2 * dims.1,
        t < m3 * dims.0,
    ensures
        r == scan_point(lo, hi, plane, t as int),
        r[axes.2 as int] > isize::MIN,
        r[axes.3 as int] > isize::MIN,
{
    let (a, b, c, d) = axes;
    let (da, db, dc, dd) = dims;
    let ti = t / m3;
    let tj = (t / m2) % db;
    let tk = (t / dd) % dc;
    let tl = t % dd;
    proof {
        vstd::arithmetic::div_mod::lemma_multiply_divide_lt(t as int, m3 as int, da as int);
        vstd::arithmetic::div_mod::lemma_mod_bound(t as int / m2 as int, db as int);
        vstd::arithmetic::div_mod::lemma_mod_bound(t as int / dd as int, dc as int);
        vstd::arithmetic::div_mod::lemma_mod_bound(t as int, dd as int);
    }
    place_point(
        axes,
        (lo[a] as i128 + ti as i128) as isize,
        (lo[b] as i128 + tj as i128) as isize,
        (lo[c] as i128 + tk as i128) as isize,
        (lo[d] as i128 + tl as i128) as isize,
    )
}

/// Appends the quads of plane `plane` over region `[lo, hi)` to `out`.
#[verifier::rlimit(30)]
fn scan_plane(world: &World, lo: [isize; 4], hi: [isize; 4], plane: Plane, out: &mut Vec<Quad>)
    requires
        world.wf(),
        region_ok(lo, hi),
        scan_len(lo, hi, plane) <= usize::MAX,
    ensures
        final(out)@ == old(out)@ + plane_quads(world@, lo, hi, plane, scan_len(lo, hi, plane) as nat),
{
    let ghost start = out@;
    proof {
        lemma_plane_axes(lo, hi, plane);
    }
    let (a, b, c, d) = plane.axes();
    let da = (hi[a] as i128 - lo[a] as i128) as usize;
    let db = (hi[b] as i128 - lo[b] as i128) as usize;
    let dc = (hi[c] as i128 - lo[c] as i128 + 1) as usize;
    let dd = (hi[d] as i128 - lo[d] as i128 + 1) as usize;
    if da == 0 || db == 0 {
        proof {
            assert(scan_len(lo, hi, plane) == 0) by (nonlinear_arith)
                requires
                    scan_len(lo, hi, plane) == dd * dc * db * da,
                    da == 0 || db == 0,
            ;
            assert(out@ =~= start + plane_quads(world@, lo, hi, plane, 0));
        }
        return;
    }
    assert(dd * dc <= dd * dc * db * da && dd * dc * db <= dd * dc * db * da) by (nonlinear_arith)
        requires
            da >= 1 && db >= 1 && dc >= 1 && dd >= 1,
    ;
    let m2 = dd * dc;
    let m3 = m2 * db;
    let n = m3 * da;
    let mut t: usize = 0;
    while t < n
        invariant
            world.wf(),
            region_ok(lo, hi),
            (a, b, c, d) == plane.spec_axes(),
            a < 4 && b < 4 && c < 4 && d < 4,
            a != b && a != c && a != d && b != c && b != d && c != d,
            axis_ok(lo, hi, a as int) && axis_ok(lo, hi, b as int),
            axis_ok(lo, hi, c as int) && axis_ok(lo, hi, d as int),
            (da as int, db as int, dc as int, dd as int) == scan_dims(lo, hi, plane),
            da >= 1 && db >= 1 && dc >= 1 && dd >= 1,
            m2 == dd * dc,
            m3 == m2 * db,
            n == m3 * da,
            n == scan_len(lo, hi, plane),
            t <= n,
            out@ == start + plane_quads(world@, lo, hi, plane, t as nat),
        decreases n - t,
    {
        let q = point_at(lo, hi, plane, (a, b, c, d), (da, db, dc, dd), m2, m3, t);
        assert(q == scan_point(lo, hi, plane, t as int));
        if mixed(world, q, c, d) {
            out.push(Quad { corner: q, plane });
        }
        t = t + 1;
    }
}

/// The quads of region `[lo, hi)` of `world`, plane by plane in the order
/// XY, XZ, YZ, XW, YW, ZW, and within a plane in scan order.
pub fn mesh_region(world: &World, lo: [isize; 4], hi: [isize; 4]) -> (r: Vec<Quad>)
    requires
        world.wf(),
        region_ok(lo, hi),
    ensures
        r@ == mesh_of(world@, lo, hi),
        quads_fit(r@),
{
    proof {
        lemma_mesh_upto_fit(world@, lo, hi, 6);
    }
    let mut out: Vec<Quad> = Vec::new();
    let mut n: usize = 0;
    while n < 6
        invariant
            world.wf(),
            region_ok(lo, hi),
            n <= 6,
            out@ == mesh_upto(world@, lo, hi, n as nat),
        decreases 6 - n,
    {
        let plane = Plane::at(n);
        assert(scan_len(lo, hi, plane_at(n as int)) <= usize::MAX);
        scan_plane(world, lo, hi, plane, &mut out);
        n = n + 1;
    }
    out
}

/// A corner of quad `q`: its corner moved by `da` along the quad's first
/// axis and by `db` along its second.
pub open spec fn quad_vertex(q: Quad, da: int, db: int) -> Seq<isize> {
    let (a, b, c, d) = q.plane.spec_axes();
    Seq::new(
        4,
        |x: int| (q.corner[x] + (if x == a { da } else { 0 }) + (if x == b { db } else { 0 })) as isize,
    )
}

/// The coordinates of the six vertices of the two triangles that make up
/// quad `q`, four per vertex.
pub open spec fn quad_coords(q: Quad) -> Seq<isize> {
    quad_vertex(q, 0, 0) + quad_vertex(q, 1, 0) + quad_vertex(q, 1, 1) + quad_vertex(q, 1, 1)
        + quad_vertex(q, 0, 1) + quad_vertex(q, 0, 0)
}

/// The vertex coordinates of all quads of `qs`, quad by quad.
pub open spec fn vertex_coords(qs: Seq<Quad>) -> Seq<isize>
    decreases qs.len(),
{
    if qs.len() == 0 {
        Seq::empty()
    } else {
        vertex_coords(qs.drop_last()) + quad_coords(qs.last())
    }
}

/// Every quad's corner can be moved one step up on every axis without
/// leaving `isize`.
pub open spec fn quads_fit(qs: Seq<Quad>) -> bool {
    forall|i: int, x: int| 0 <= i < qs.len() && 0 <= x < 4 ==> #[trigger] qs[i].corner[x] < isize::MAX
}

fn push_vertex(out: &mut Vec<isize>, q: &Quad, da: isize, db: isize)
    requires
        0 <= da <= 1 && 0 <= db <= 1,
        forall|x: int| 0 <= x < 4 ==> #[trigger] q.corner[x] < isize::MAX,
    ensures
        final(out)@ == old(out)@ + quad_vertex(*q, da as int, db as int),
{
    let ghost start = out@;
    let (a, b, c, d) = q.plane.axes();
    let mut x: usize = 0;
    while x < 4
        invariant
            0 <= da <= 1 && 0 <= db <= 1,
            forall|y: int| 0 <= y < 4 ==> #[trigger] q.corner[y] < isize::MAX,
            (a, b, c, d) == q.plane.spec_axes(),
            a != b,
            x <= 4,
            out@ == start + quad_vertex(*q, da as int, db as int).take(x as int),
        decreases 4 - x,
    {
        let mut v = q.corner[x];
        if x == a {
            v = v + da;
        }
        if x == b {
            v = v + db;
        }
        out.push(v);
        x = x + 1;
        assert(out@ =~= start + quad_vertex(*q, da as int, db as int).take(x as int));
    }
    assert(quad_vertex(*q, da as int, db as int).take(4) =~= quad_vertex(*q, da as int, db as int));
}

/// The vertex data of `quads`: for each quad, the six vertices of its two
/// triangles, four coordinates each.
pub fn quad_vertices(quads: &Vec<Quad>) -> (r: Vec<isize>)
    requires
        quads_fit(quads@),
    ensures
        r@ == vertex_coords(quads@),
{
    let mut out: Vec<isize> = Vec::new();
    let mut i: usize = 0;
    while i < quads.len()
        invariant
            quads_fit(quads@),
            i <= quads@.len(),
            out@ == vertex_coords(quads@.take(i as int)),
        decreases quads@.len() - i,
    {
        let q = &quads[i];
        assert(forall|x: int| 0 <= x < 4 ==> #[trigger] q.corner[x] < isize::MAX) by {
            assert forall|x: int| 0 <= x < 4 implies #[trigger] q.corner[x] < isize::MAX by {
                assert(quads@[i as int].corner[x] < isize::MAX);
            }
        }
        let ghost before = out@;
        push_vertex(&mut out, q, 0, 0);
        push_vertex(&mut out, q, 1, 0);
        push_vertex(&mut out, q, 1, 1);
        push_vertex(&mut out, q, 1, 1);
        push_vertex(&mut out, q, 0, 1);
        push_vertex(&mut out, q, 0, 0);
        assert(quads@.take(i + 1).drop_last() =~= quads@.take(i as int));
        assert(out@ =~= before + quad_coords(*q));
        i = i + 1;
    }
    assert(quads@.take(i as int) =~= quads@);
    out
}

/// `v` is one of the four voxels that meet at the boundary point of quad `q`.
pub open spec fn quad_borders(q: Quad, v: [isize; 4]) -> bool {
    let (a, b, c, d) = q.plane.spec_axes();
    v == q.corner || v == step_back(q.corner, d) || v == step_back(q.corner, c) || v == step_back(
        step_back(q.corner, c),
        d,
    )
}

/// `v` is the one opaque voxel of a world whose contents are `w`.
pub open spec fn only_opaque(w: Map<[isize; 4], BlockName>, v: [isize; 4]) -> bool {
    &&& !w[v].spec_is_transparent()
    &&& forall|p: [isize; 4]| p != v ==> (#[trigger] w[p]).spec_is_transparent()
}

proof fn lemma_plane_quads_border(
    w: Map<[isize; 4], BlockName>,
    lo: [isize; 4],
    hi: [isize; 4],
    p: Plane,
    n: nat,
    v: [isize; 4],
)
    requires
        only_opaque(w, v),
    ensures
        forall|i: int|
            0 <= i < plane_quads(w, lo, hi, p, n).len() ==> quad_borders(
                #[trigger] plane_quads(w, lo, hi, p, n)[i],
                v,
            ),
    decreases n,
{
    if n > 0 {
        lemma_plane_quads_border(w, lo, hi, p, (n - 1) as nat, v);
        let prev = plane_quads(w, lo, hi, p, (n - 1) as nat);
        let r = plane_quads(w, lo, hi, p, n);
        let q = scan_point(lo, hi, p, n - 1);
        let (a, b, c, d) = p.spec_axes();
        let quad = Quad { corner: q, plane: p };
        if mixed_at(w, q, c, d) {
            assert(quad_borders(quad, v)) by {
                if !quad_borders(quad, v) {
                    assert(w[q].spec_is_transparent());
                    assert(w[step_back(q, d)].spec_is_transparent());
                    assert(w[step_back(q, c)].spec_is_transparent());
                    assert(w[step_back(step_back(q, c), d)].spec_is_transparent());
                }
            }
            assert(r == prev.push(quad));
            assert forall|i: int| 0 <= i < r.len() implies quad_borders(#[trigger] r[i], v) by {
                if i < prev.len() {
                    assert(r[i] == prev[i]);
                }
            }
        } else {
            assert(r == prev);
        }
    }
}

proof fn lemma_mesh_upto_border(
    w: Map<[isize; 4], BlockName>,
    lo: [isize; 4],
    hi: [isize; 4],
    m: nat,
    v: [isize; 4],
)
    requires
        only_opaque(w, v),
    ensures
        forall|i: int|
            0 <= i < mesh_upto(w, lo, hi, m).len() ==> quad_borders(
                #[trigger] mesh_upto(w, lo, hi, m)[i],
                v,
            ),
    decreases m,
{
    if m > 0 {
        let p = plane_at(m - 1);
        let prev = mesh_upto(w, lo, hi, (m - 1) as nat);
        let last = plane_quads(w, lo, hi, p, scan_len(lo, hi, p) as nat);
        lemma_mesh_upto_border(w, lo, hi, (m - 1) as nat, v);
        lemma_plane_quads_border(w, lo, hi, p, scan_len(lo, hi, p) as nat, v);
        assert forall|i: int| 0 <= i < (prev + last).len() implies quad_borders(
            #[trigger] (prev + last)[i],
            v,
        ) by {
            if i >= prev.len() {
                assert((prev + last)[i] == last[i - prev.len()]);
            }
        }
    }
}

/// Soundness of the mesher: when `v` is the only opaque voxel of the world,
/// every quad of the mesh of any region borders `v`, that is, `v` is one of
/// the four voxels meeting at the quad's boundary point.
pub proof fn lemma_single_voxel_mesh_borders(
    w: Map<[isize; 4], BlockName>,
    lo: [isize; 4],
    hi: [isize; 4],
    v: [isize; 4],
)
    requires
        only_opaque(w, v),
    ensures
        forall|i: int|
            0 <= i < mesh_of(w, lo, hi).len() ==> quad_borders(#[trigger] mesh_of(w, lo, hi)[i], v),
{
    lemma_mesh_upto_border(w, lo, hi, 6, v);
}

/// Every point scanned for plane `p` lies in `[lo, hi]`.
proof fn lemma_scan_point_bounds(lo: [isize; 4], hi: [isize; 4], p: Plane, t: int)
    requires
        region_ok(lo, hi),
        0 <= t < scan_len(lo, hi, p),
    ensures
        forall|x: int| 0 <= x < 4 ==> lo[x] <= #[trigger] scan_point(lo, hi, p, t)[x] <= hi[x],
        ({
            let (a, b, c, d) = p.spec_axes();
            let (da, db, dc, dd) = scan_dims(lo, hi, p);
            let (i, j, k, l) = scan_offsets(t, db, dc, dd);
            let q = scan_point(lo, hi, p, t);
            &&& da >= 1 && db >= 1 && dc >= 1 && dd >= 1
            &&& 0 <= i < da && 0 <= j < db && 0 <= k < dc && 0 <= l < dd
            &&& q[a as int] == lo[a as int] + i && q[b as int] == lo[b as int] + j
            &&& q[c as int] == lo[c as int] + k && q[d as int] == lo[d as int] + l
        }),
{
    lemma_plane_axes(lo, hi, p);
    let (a, b, c, d) = p.spec_axes();
    let (da, db, dc, dd) = scan_dims(lo, hi, p);
    let m2 = dd * dc;
    let m3 = m2 * db;
    assert(da >= 1 && db >= 1 && m2 >= 1 && m3 >= 1) by (nonlinear_arith)
        requires
            t < m3 * da,
            0 <= t,
            da >= 0 && db >= 0 && dc >= 1 && dd >= 1,
            m2 == dd * dc,
            m3 == m2 * db,
    ;
    vstd::arithmetic::div_mod::lemma_multiply_divide_lt(t, m3, da);
    vstd::arithmetic::div_mod::lemma_div_pos_is_pos(t, m3);
    vstd::arithmetic::div_mod::lemma_mod_bound(t / m2, db);
    vstd::arithmetic::div_mod::lemma_mod_bound(t / dd, dc);
    vstd::arithmetic::div_mod::lemma_mod_bound(t, dd);
    let q = scan_point(lo, hi, p, t);
    assert forall|x: int| 0 <= x < 4 implies lo[x] <= #[trigger] q[x] <= hi[x] by {
        if x != a && x != b && x != c {
            assert(x == d);
        }
    }
    assert(dd * dc * db == m3);
}

proof fn lemma_plane_quads_fit(
    w: Map<[isize; 4], BlockName>,
    lo: [isize; 4],
    hi: [isize; 4],
    p: Plane,
    n: nat,
)
    requires
        region_ok(lo, hi),
        n <= scan_len(lo, hi, p),
    ensures
        quads_fit(plane_quads(w, lo, hi, p, n)),
    decreases n,
{
    if n > 0 {
        lemma_plane_quads_fit(w, lo, hi, p, (n - 1) as nat);
        lemma_scan_point_bounds(lo, hi, p, n - 1);
        let prev = plane_quads(w, lo, hi, p, (n - 1) as nat);
        let r = plane_quads(w, lo, hi, p, n);
        let q = scan_point(lo, hi, p, n - 1);
        let (a, b, c, d) = p.spec_axes();
        if mixed_at(w, q, c, d) {
            let quad = Quad { corner: q, plane: p };
            assert(r == prev.push(quad));
            assert forall|i: int, x: int| 0 <= i < r.len() && 0 <= x < 4 implies #[trigger] r[i].corner[x]
                < isize::MAX by {
                if i < prev.len() {
                    assert(r[i] == prev[i]);
                } else {
                    assert(r[i] == quad);
                    assert(q[x] <= hi[x]);
                }
            }
        } else {
            assert(r == prev);
        }
    }
}

proof fn lemma_mesh_upto_fit(w: Map<[isize; 4], BlockName>, lo: [isize; 4], hi: [isize; 4], m: nat)
    requires
        region_ok(lo, hi),
        m <= 6,
    ensures
        quads_fit(mesh_upto(w, lo, hi, m)),
    decreases m,
{
    if m > 0 {
        let p = plane_at(m - 1);
        let prev = mesh_upto(w, lo, hi, (m - 1) as nat);
        assert(scan_len(lo, hi, p) <= usize::MAX);
        let last = plane_quads(w, lo, hi, p, scan_len(lo, hi, p) as nat);
        lemma_mesh_upto_fit(w, lo, hi, (m - 1) as nat);
        lemma_plane_quads_fit(w, lo, hi, p, scan_len(lo, hi, p) as nat);
        assert forall|i: int, x: int| 0 <= i < (prev + last).len() && 0 <= x < 4 implies #[trigger] (prev
            + last)[i].corner[x] < isize::MAX by {
            if i < prev.len() {
                assert((prev + last)[i] == prev[i]);
            } else {
                assert((prev + last)[i] == last[i - prev.len()]);
            }
        }
    }
}

/// The scan offsets `(i, j, k, l)` of the `t`-th point of a scan with extents
/// `(da, db, dc, dd)`.
pub open spec fn scan_offsets(t: int, db: int, dc: int, dd: int) -> (int, int, int, int) {
    (t / (dd * dc * db), (t / (dd * dc)) % db, (t / dd) % dc, t % dd)
}

/// The scan index of offsets `(i, j, k, l)`.
pub open spec fn scan_index(i: int, j: int, k: int, l: int, db: int, dc: int, dd: int) -> int {
    ((i * db + j) * dc + k) * dd + l
}

proof fn lemma_offsets_of_index(i: int, j: int, k: int, l: int, da: int, db: int, dc: int, dd: int)
    requires
        0 <= i < da,
        0 <= j < db,
        0 <= k < dc,
        0 <= l < dd,
    ensures
        scan_offsets(scan_index(i, j, k, l, db, dc, dd), db, dc, dd) == (i, j, k, l),
        0 <= scan_index(i, j, k, l, db, dc, dd) < dd * dc * db * da,
{
    let x2 = i * db + j;
    let x1 = x2 * dc + k;
    let t = x1 * dd + l;
    assert(0 <= x2 < da * db) by (nonlinear_arith)
        requires
            x2 == i * db + j,
            0 <= i < da,
            0 <= j < db,
    ;
    assert(0 <= x1 < da * db * dc) by (nonlinear_arith)
        requires
            x1 == x2 * dc + k,
            0 <= x2 < da * db,
            0 <= k < dc,
    ;
    assert(0 <= t < da * db * dc * dd) by (nonlinear_arith)
        requires
            t == x1 * dd + l,
            0 <= x1 < da * db * dc,
            0 <= l < dd,
    ;
    assert(da * db * dc * dd == dd * dc * db * da) by (nonlinear_arith);
    vstd::arithmetic::div_mod::lemma_fundamental_div_mod_converse(t, dd, x1, l);
    vstd::arithmetic::div_mod::lemma_fundamental_div_mod_converse(x1, dc, x2, k);
    vstd::arithmetic::div_mod::lemma_fundamental_div_mod_converse(x2, db, i, j);
    vstd::arithmetic::div_mod::lemma_div_denominator(t, dd, dc);
    vstd::arithmetic::div_mod::lemma_div_denominator(t, dd * dc, db);
}

proof fn lemma_index_of_offsets(t: int, db: int, dc: int, dd: int)
    requires
        0 <= t,
        db >= 1 && dc >= 1 && dd >= 1,
    ensures
        ({
            let (i, j, k, l) = scan_offsets(t, db, dc, dd);
            scan_index(i, j, k, l, db, dc, dd) == t
        }),
{
    assert(dd * dc > 0) by (nonlinear_arith)
        requires
            dc >= 1 && dd >= 1,
    ;
    let x1 = t / dd;
    let x2 = x1 / dc;
    let x3 = x2 / db;
    vstd::arithmetic::div_mod::lemma_fundamental_div_mod(t, dd);
    vstd::arithmetic::div_mod::lemma_fundamental_div_mod(x1, dc);
    vstd::arithmetic::div_mod::lemma_fundamental_div_mod(x2, db);
    vstd::arithmetic::div_mod::lemma_div_denominator(t, dd, dc);
    vstd::arithmetic::div_mod::lemma_div_denominator(t, dd * dc, db);
    assert(t / (dd * dc) == x2);
    assert(t / (dd * dc * db) == x3);
    let r1 = t % dd;
    let r2 = x1 % dc;
    let r3 = x2 % db;
    assert(((x3 * db + r3) * dc + r2) * dd + r1 == t) by (nonlinear_arith)
        requires
            t == dd * x1 + r1,
            x1 == dc * x2 + r2,
            x2 == db * x3 + r3,
    ;
}

/// Voxel `v` lies inside region `[lo, hi)`.
pub open spec fn inside(lo: [isize; 4], hi: [isize; 4], v: [isize; 4]) -> bool {
    forall|x: int| 0 <= x < 4 ==> lo[x] <= #[trigger] v[x] < hi[x]
}

/// The four scan indices of plane `p` whose points border the voxel `v`.
pub open spec fn border_indices(lo: [isize; 4], hi: [isize; 4], p: Plane, v: [isize; 4]) -> Seq<int> {
    let (a, b, c, d) = p.spec_axes();
    let (da, db, dc, dd) = scan_dims(lo, hi, p);
    let i = v[a as int] - lo[a as int];
    let j = v[b as int] - lo[b as int];
    let k = v[c as int] - lo[c as int];
    let l = v[d as int] - lo[d as int];
    seq![
        scan_index(i, j, k, l, db, dc, dd),
        scan_index(i, j, k, l + 1, db, dc, dd),
        scan_index(i, j, k + 1, l, db, dc, dd),
        scan_index(i, j, k + 1, l + 1, db, dc, dd),
    ]
}

/// Voxel `v` is one of the four voxels meeting at boundary point `q` on the
/// boundary axes `c` and `d` exactly when `q` sits at a corner of `v` on
/// those axes and agrees with `v` on the other two.
proof fn lemma_samples_near(q: [isize; 4], v: [isize; 4], a: usize, b: usize, c: usize, d: usize)
    requires
        a < 4 && b < 4 && c < 4 && d < 4,
        a != b && a != c && a != d && b != c && b != d && c != d,
        q[c as int] > isize::MIN,
        q[d as int] > isize::MIN,
    ensures
        (v == q || v == step_back(q, d) || v == step_back(q, c) || v == step_back(step_back(q, c), d))
            <==> (q[a as int] == v[a as int] && q[b as int] == v[b as int] && (q[c as int] == v[c as int]
            || q[c as int] == v[c as int] + 1) && (q[d as int] == v[d as int] || q[d as int] == v[d as int]
            + 1)),
{
    let near = q[a as int] == v[a as int] && q[b as int] == v[b as int] && (q[c as int] == v[c as int]
        || q[c as int] == v[c as int] + 1) && (q[d as int] == v[d as int] || q[d as int] == v[d as int] + 1);
    let sq = step_back(q, d);
    let sc = step_back(q, c);
    let scd = step_back(sc, d);
    // the four voxels meeting at q, coordinate by coordinate
    assert(forall|x: int| 0 <= x < 4 ==> #[trigger] sq[x] == q[x] - (if x == d { 1int } else { 0int }));
    assert(forall|x: int| 0 <= x < 4 ==> #[trigger] sc[x] == q[x] - (if x == c { 1int } else { 0int }));
    assert(forall|x: int| 0 <= x < 4 ==> #[trigger] scd[x] == q[x] - (if x == c { 1int } else { 0int })
        - (if x == d { 1int } else { 0int }));
    let samples_hit = v == q || v == sq || v == sc || v == scd;
    assert(samples_hit <==> near) by {
        if near {
            if q[c as int] == v[c as int] && q[d as int] == v[d as int] {
                assert forall|x: int| 0 <= x < 4 implies #[trigger] v[x] == q[x] by {
                    if x != a && x != b && x != c {
                        assert(x == d);
                    }
                }
                assert(v =~= q);
            } else if q[c as int] == v[c as int] {
                assert forall|x: int| 0 <= x < 4 implies #[trigger] v[x] == sq[x] by {
                    if x != a && x != b && x != c {
                        assert(x == d);
                    }
                }
                assert(v =~= sq);
            } else if q[d as int] == v[d as int] {
                assert forall|x: int| 0 <= x < 4 implies #[trigger] v[x] == sc[x] by {
                    if x != a && x != b && x != c {
                        assert(x == d);
                    }
                }
                assert(v =~= sc);
            } else {
                assert forall|x: int| 0 <= x < 4 implies #[trigger] v[x] == scd[x] by {
                    if x != a && x != b && x != c {
                        assert(x == d);
                    }
                }
                assert(v =~= scd);
            }
        }
    }
}

proof fn lemma_mixed_iff_border(
    w: Map<[isize; 4], BlockName>,
    lo: [isize; 4],
    hi: [isize; 4],
    p: Plane,
    v: [isize; 4],
    t: int,
)
    requires
        only_opaque(w, v),
        region_ok(lo, hi),
        inside(lo, hi, v),
        0 <= t < scan_len(lo, hi, p),
    ensures
        ({
            let (a, b, c, d) = p.spec_axes();
            mixed_at(w, scan_point(lo, hi, p, t), c, d) <==> border_indices(lo, hi, p, v).contains(t)
        }),
{
    lemma_plane_axes(lo, hi, p);
    lemma_scan_point_bounds(lo, hi, p, t);
    let (a, b, c, d) = p.spec_axes();
    let (da, db, dc, dd) = scan_dims(lo, hi, p);
    let q = scan_point(lo, hi, p, t);
    let (oi, oj, ok, ol) = scan_offsets(t, db, dc, dd);
    assert(v[a as int] < hi[a as int] && v[b as int] < hi[b as int]);
    assert(v[c as int] < hi[c as int] && v[d as int] < hi[d as int]);
    assert(lo[a as int] <= v[a as int] && lo[b as int] <= v[b as int]);
    assert(lo[c as int] <= v[c as int] && lo[d as int] <= v[d as int]);
    let vi = v[a as int] - lo[a as int];
    let vj = v[b as int] - lo[b as int];
    let vk = v[c as int] - lo[c as int];
    let vl = v[d as int] - lo[d as int];
    let near = q[a as int] == v[a as int] && q[b as int] == v[b as int] && (q[c as int] == v[c as int]
        || q[c as int] == v[c as int] + 1) && (q[d as int] == v[d as int] || q[d as int] == v[d as int] + 1);
    lemma_samples_near(q, v, a, b, c, d);
    let samples_hit = v == q || v == step_back(q, d) || v == step_back(q, c) || v == step_back(
        step_back(q, c),
        d,
    );
    assert(samples_hit <==> near);
    assert(q != step_back(q, d)) by {
        assert(step_back(q, d)[d as int] != q[d as int]);
    }
    assert(mixed_at(w, q, c, d) <==> samples_hit);
    let bs = border_indices(lo, hi, p, v);
    lemma_index_of_offsets(t, db, dc, dd);
    if near {
        assert(oi == vi && oj == vj);
        assert(ok == vk || ok == vk + 1);
        assert(ol == vl || ol == vl + 1);
        if ok == vk && ol == vl {
            assert(bs[0] == t);
        } else if ok == vk {
            assert(bs[1] == t);
        } else if ol == vl {
            assert(bs[2] == t);
        } else {
            assert(bs[3] == t);
        }
    } else if bs.contains(t) {
        let m = choose|m: int| 0 <= m < bs.len() && bs[m] == t;
        let dk: int = if m >= 2 { 1 } else { 0 };
        let dl: int = if m % 2 == 1 { 1 } else { 0 };
        assert(bs[m] == scan_index(vi, vj, vk + dk, vl + dl, db, dc, dd));
        lemma_offsets_of_index(vi, vj, vk + dk, vl + dl, da, db, dc, dd);
        assert(false);
    }
}

pub open spec fn count_below(bs: Seq<int>, n: int) -> int {
    (if bs[0] < n { 1int } else { 0 }) + (if bs[1] < n { 1int } else { 0 }) + (if bs[2] < n {
        1int
    } else {
        0
    }) + (if bs[3] < n { 1int } else { 0 })
}

proof fn lemma_border_indices(lo: [isize; 4], hi: [isize; 4], p: Plane, v: [isize; 4])
    requires
        region_ok(lo, hi),
        inside(lo, hi, v),
    ensures
        ({
            let bs = border_indices(lo, hi, p, v);
            &&& bs.len() == 4
            &&& forall|m: int| 0 <= m < 4 ==> 0 <= #[trigger] bs[m] < scan_len(lo, hi, p)
            &&& forall|m: int, m2: int| 0 <= m < 4 && 0 <= m2 < 4 && m != m2 ==> #[trigger] bs[m] != #[trigger] bs[m2]
        }),
{
    lemma_plane_axes(lo, hi, p);
    let (a, b, c, d) = p.spec_axes();
    let (da, db, dc, dd) = scan_dims(lo, hi, p);
    assert(v[a as int] < hi[a as int] && v[b as int] < hi[b as int]);
    assert(v[c as int] < hi[c as int] && v[d as int] < hi[d as int]);
    assert(lo[a as int] <= v[a as int] && lo[b as int] <= v[b as int]);
    assert(lo[c as int] <= v[c as int] && lo[d as int] <= v[d as int]);
    let vi = v[a as int] - lo[a as int];
    let vj = v[b as int] - lo[b as int];
    let vk = v[c as int] - lo[c as int];
    let vl = v[d as int] - lo[d as int];
    lemma_offsets_of_index(vi, vj, vk, vl, da, db, dc, dd);
    lemma_offsets_of_index(vi, vj, vk, vl + 1, da, db, dc, dd);
    lemma_offsets_of_index(vi, vj, vk + 1, vl, da, db, dc, dd);
    lemma_offsets_of_index(vi, vj, vk + 1, vl + 1, da, db, dc, dd);
}

proof fn lemma_plane_count(
    w: Map<[isize; 4], BlockName>,
    lo: [isize; 4],
    hi: [isize; 4],
    p: Plane,
    v: [isize; 4],
    n: nat,
)
    requires
        only_opaque(w, v),
        region_ok(lo, hi),
        inside(lo, hi, v),
        n <= scan_len(lo, hi, p),
    ensures
        plane_quads(w, lo, hi, p, n).len() == count_below(border_indices(lo, hi, p, v), n as int),
    decreases n,
{
    let bs = border_indices(lo, hi, p, v);
    lemma_border_indices(lo, hi, p, v);
    if n > 0 {
        lemma_plane_count(w, lo, hi, p, v, (n - 1) as nat);
        lemma_mixed_iff_border(w, lo, hi, p, v, n - 1);
        let (a, b, c, d) = p.spec_axes();
        let q = scan_point(lo, hi, p, n - 1);
        let prev = plane_quads(w, lo, hi, p, (n - 1) as nat);
        if mixed_at(w, q, c, d) {
            assert(plane_quads(w, lo, hi, p, n).len() == prev.len() + 1);
            let m = choose|m: int| 0 <= m < bs.len() && bs[m] == n - 1;
            assert(forall|m2: int| 0 <= m2 < 4 && m2 != m ==> bs[m2] != n - 1);
        } else {
            assert(plane_quads(w, lo, hi, p, n) == prev);
            assert(forall|m2: int| 0 <= m2 < 4 ==> bs[m2] != n - 1) by {
                assert forall|m2: int| 0 <= m2 < 4 implies bs[m2] != n - 1 by {
                    if bs[m2] == n - 1 {
                        assert(bs.contains(n - 1));
                    }
                }
            }
        }
    } else {
        assert(forall|m2: int| 0 <= m2 < 4 ==> 0 <= #[trigger] bs[m2]);
    }
}

proof fn lemma_mesh_upto_count(
    w: Map<[isize; 4], BlockName>,
    lo: [isize; 4],
    hi: [isize; 4],
    v: [isize; 4],
    m: nat,
)
    requires
        only_opaque(w, v),
        region_ok(lo, hi),
        inside(lo, hi, v),
        m <= 6,
    ensures
        mesh_upto(w, lo, hi, m).len() == 4 * m,
    decreases m,
{
    if m > 0 {
        let p = plane_at(m - 1);
        assert(scan_len(lo, hi, p) <= usize::MAX);
        lemma_mesh_upto_count(w, lo, hi, v, (m - 1) as nat);
        lemma_border_indices(lo, hi, p, v);
        let n = scan_len(lo, hi, p);
        lemma_plane_count(w, lo, hi, p, v, n as nat);
        let bs = border_indices(lo, hi, p, v);
        assert(count_below(bs, n) == 4) by {
            assert(bs[0] < n && bs[1] < n && bs[2] < n && bs[3] < n);
        }
    }
}

/// Completeness of the mesher for one opaque voxel: when `v` is the only
/// opaque voxel of the world and lies inside the region, the mesh has exactly
/// four quads in each of the six planes, 24 in all, the square faces of a
/// tesseract.
pub proof fn lemma_single_voxel_mesh_count(
    w: Map<[isize; 4], BlockName>,
    lo: [isize; 4],
    hi: [isize; 4],
    v: [isize; 4],
)
    requires
        only_opaque(w, v),
        region_ok(lo, hi),
        inside(lo, hi, v),
    ensures
        mesh_of(w, lo, hi).len() == 24,
        forall|n: int|
            0 <= n < 6 ==> plane_quads(
                w,
                lo,
                hi,
                #[trigger] plane_at(n),
                scan_len(lo, hi, plane_at(n)) as nat,
            ).len() == 4,
{
    lemma_mesh_upto_count(w, lo, hi, v, 6);
    assert forall|n: int| 0 <= n < 6 implies plane_quads(
        w,
        lo,
        hi,
        #[trigger] plane_at(n),
        scan_len(lo, hi, plane_at(n)) as nat,
    ).len() == 4 by {
        let p = plane_at(n);
        lemma_border_indices(lo, hi, p, v);
        let len = scan_len(lo, hi, p);
        lemma_plane_count(w, lo, hi, p, v, len as nat);
        let bs = border_indices(lo, hi, p, v);
        assert(bs[0] < len && bs[1] < len && bs[2] < len && bs[3] < len);
    }
}

} // verus!
