//! The window of chunks kept resident for rendering, and the decisions that
//! go with it: which chunks to upload when the window moves, which texel to
//! update when a block changes, and when the mesh has to be rebuilt. The
//! uploads themselves are left to the caller.

use crate::chunk::{chunk_of, chunk_position, local_of, CHUNK_SIZE};
use crate::mesh::{mesh_of, mesh_region, plane_at, quads_fit, region_ok, scan_len, Quad};
use crate::world::World;
use vstd::prelude::*;

verus! {

/// Chunks per axis in the resident window. The renderer's shader relies on
/// this exact value.
pub const RENDER_CHUNKS: usize = 4;

/// Distance in blocks from the viewer to the window's low face on every axis,
/// give or take the viewer's offset inside a chunk: half the span of all but
/// one of the window's chunks, which centres the window on the viewer. The
/// renderer's shader relies on this value too.
pub const RENDER_DISTANCE: usize = (RENDER_CHUNKS - 1) * CHUNK_SIZE / 2;

/// Chunk `c` lies in the window whose first chunk is `corner`.
pub open spec fn in_window(corner: Option<[isize; 4]>, c: [isize; 4]) -> bool {
    match corner {
        Some(k) => {
            &&& 0 <= c[0] - k[0] < RENDER_CHUNKS
            &&& 0 <= c[1] - k[1] < RENDER_CHUNKS
            &&& 0 <= c[2] - k[2] < RENDER_CHUNKS
            &&& 0 <= c[3] - k[3] < RENDER_CHUNKS
        },
        None => false,
    }
}

/// A window corner whose whole block range, and a step past it, fits in an
/// `isize`.
pub open spec fn corner_ok(k: [isize; 4]) -> bool {
    &&& (isize::MIN as int) / (CHUNK_SIZE as int) < k[0]
    &&& k[0] + RENDER_CHUNKS + 1 < (isize::MAX as int) / (CHUNK_SIZE as int)
    &&& (isize::MIN as int) / (CHUNK_SIZE as int) < k[1]
    &&& k[1] + RENDER_CHUNKS + 1 < (isize::MAX as int) / (CHUNK_SIZE as int)
    &&& (isize::MIN as int) / (CHUNK_SIZE as int) < k[2]
    &&& k[2] + RENDER_CHUNKS + 1 < (isize::MAX as int) / (CHUNK_SIZE as int)
    &&& (isize::MIN as int) / (CHUNK_SIZE as int) < k[3]
    &&& k[3] + RENDER_CHUNKS + 1 < (isize::MAX as int) / (CHUNK_SIZE as int)
}

/// The chunks of the window at `k`, the first axis varying slowest.
pub open spec fn window_chunks(k: [isize; 4]) -> Seq<[isize; 4]> {
    let r = RENDER_CHUNKS as int;
    Seq::new(
        (r * r * r * r) as nat,
        |t: int|
            [
                (k[0] + t / (r * r * r)) as isize,
                (k[1] + (t / (r * r)) % r) as isize,
                (k[2] + (t / r) % r) as isize,
                (k[3] + t % r) as isize,
            ],
    )
}

/// The lowest corner of the block range covered by the window at `k`.
pub open spec fn window_lo(k: [isize; 4]) -> [isize; 4] {
    [
        (k[0] * CHUNK_SIZE) as isize,
        (k[1] * CHUNK_SIZE) as isize,
        (k[2] * CHUNK_SIZE) as isize,
        (k[3] * CHUNK_SIZE) as isize,
    ]
}

/// One past the highest corner of the block range covered by the window at `k`.
pub open spec fn window_hi(k: [isize; 4]) -> [isize; 4] {
    [
        ((k[0] + RENDER_CHUNKS) * CHUNK_SIZE) as isize,
        ((k[1] + RENDER_CHUNKS) * CHUNK_SIZE) as isize,
        ((k[2] + RENDER_CHUNKS) * CHUNK_SIZE) as isize,
        ((k[3] + RENDER_CHUNKS) * CHUNK_SIZE) as isize,
    ]
}

/// `x` wrapped into `[0, RENDER_CHUNKS)`.
pub open spec fn wrap(x: int) -> int {
    x % (RENDER_CHUNKS as int)
}

/// The texture layer that holds chunk `c`: chunks whose coordinates agree
/// modulo the window size share a layer.
pub open spec fn texture_slot(c: [isize; 4]) -> int {
    let r = RENDER_CHUNKS as int;
    wrap(c[0] as int) + r * (wrap(c[1] as int) + r * (wrap(c[2] as int) + r * wrap(c[3] as int)))
}

/// The texel of a chunk layer that holds in-chunk offset `l`.
pub open spec fn texel(l: [isize; 4]) -> [usize; 2] {
    [(l[0] + CHUNK_SIZE * l[1]) as usize, (l[2] + CHUNK_SIZE * l[3]) as usize]
}

/// The window corner for a viewer standing in block `pos`: the chunk that
/// holds the block `RENDER_DISTANCE` below the viewer on every axis.
pub open spec fn corner_for(pos: [isize; 4]) -> [isize; 4] {
    [
        ((pos[0] - RENDER_DISTANCE) / CHUNK_SIZE as int) as isize,
        ((pos[1] - RENDER_DISTANCE) / CHUNK_SIZE as int) as isize,
        ((pos[2] - RENDER_DISTANCE) / CHUNK_SIZE as int) as isize,
        ((pos[3] - RENDER_DISTANCE) / CHUNK_SIZE as int) as isize,
    ]
}

/// The texture layer that holds chunk `chunk`.
pub fn chunk_texture_loc(chunk: [isize; 4]) -> (r: usize)
    ensures
        r == texture_slot(chunk),
{
    let mut m: [usize; 4] = [0, 0, 0, 0];
    let mut i: usize = 0;
    while i < 4
        invariant
            i <= 4,
            forall|j: int| 0 <= j < i ==> #[trigger] m[j] == wrap(chunk[j] as int),
        decreases 4 - i,
    {
        proof {
            vstd::arithmetic::div_mod::lemma_mod_bound(chunk[i as int] as int, RENDER_CHUNKS as int);
        }
        match chunk[i].checked_rem_euclid(RENDER_CHUNKS as isize) {
            Some(v) => m[i] = v as usize,
            None => {},
        }
        i = i + 1;
    }
    let r = RENDER_CHUNKS;
    m[0] + r * (m[1] + r * (m[2] + r * m[3]))
}

/// The window corner for a viewer standing in block `pos`: on every axis, the
/// chunk that holds the block `RENDER_DISTANCE` below the viewer. The viewer
/// then stands between `RENDER_DISTANCE` and `RENDER_DISTANCE + CHUNK_SIZE - 1`
/// blocks from the window's low face, and as far, give or take one, from its
/// high face.
pub fn player_corner(pos: [isize; 4]) -> (r: [isize; 4])
    requires
        isize::MIN + 64 <= pos[0] <= isize::MAX - 64,
        isize::MIN + 64 <= pos[1] <= isize::MAX - 64,
        isize::MIN + 64 <= pos[2] <= isize::MAX - 64,
        isize::MIN + 64 <= pos[3] <= isize::MAX - 64,
    ensures
        r == corner_for(pos),
        corner_ok(r),
{
    let shifted: [isize; 4] = [
        pos[0] - RENDER_DISTANCE as isize,
        pos[1] - RENDER_DISTANCE as isize,
        pos[2] - RENDER_DISTANCE as isize,
        pos[3] - RENDER_DISTANCE as isize,
    ];
    let (c, _) = chunk_position(shifted);
    assert(c =~= corner_for(pos));
    c
}

/// Which chunks are resident for rendering and whether the mesh is stale.
pub struct LoadedRegion {
    corner: Option<[isize; 4]>,
    mesh_dirty: bool,
}

impl View for LoadedRegion {
    /// The window's first chunk, if any chunk was loaded yet, and whether the
    /// mesh is stale.
    type V = (Option<[isize; 4]>, bool);

    closed spec fn view(&self) -> (Option<[isize; 4]>, bool) {
        (self.corner, self.mesh_dirty)
    }
}

impl LoadedRegion {
    /// The window, if there is one, covers a block range that fits in an
    /// `isize`.
    pub open spec fn wf(&self) -> bool {
        match self@.0 {
            Some(k) => corner_ok(k),
            None => true,
        }
    }

    /// Nothing is resident and the (empty) mesh is current.
    pub fn new() -> (r: Self)
        ensures
            r@ == (None::<[isize; 4]>, false),
            r.wf(),
    {
        LoadedRegion { corner: None, mesh_dirty: false }
    }

    pub fn corner(&self) -> (r: Option<[isize; 4]>)
        ensures
            r == self@.0,
    {
        self.corner
    }

    pub fn mesh_dirty(&self) -> (r: bool)
        ensures
            r == self@.1,
    {
        self.mesh_dirty
    }

    /// Whether chunk `chunk` is resident.
    pub fn is_chunk_loaded(&self, chunk: [isize; 4]) -> (r: bool)
        ensures
            r == in_window(self@.0, chunk),
    {
        match self.corner {
            None => false,
            Some(k) => {
                let mut i: usize = 0;
                while i < 4
                    invariant
                        self.corner == Some(k),
                        i <= 4,
                        forall|j: int| 0 <= j < i ==> 0 <= #[trigger] chunk[j] - k[j] < RENDER_CHUNKS,
                    decreases 4 - i,
                {
                    let d = chunk[i] as i128 - k[i] as i128;
                    if d < 0 || d >= RENDER_CHUNKS as i128 {
                        return false;
                    }
                    i = i + 1;
                }
                true
            },
        }
    }

    /// The block at `coords` changed; `opacity_changed` tells whether it
    /// changed between transparent and opaque. An opacity change marks the
    /// mesh stale wherever it happened: the mesher also reads voxels one step
    /// outside the resident chunks. If the block's chunk is resident, returns
    /// the texture layer and texel to update; otherwise returns `None`.
    pub fn block_changed(&mut self, coords: [isize; 4], opacity_changed: bool) -> (r: Option<(usize, [usize; 2])>)
        ensures
            final(self)@ == (old(self)@.0, old(self)@.1 || opacity_changed),
            in_window(old(self)@.0, chunk_of(coords)) ==> r == Some(
                (texture_slot(chunk_of(coords)) as usize, texel(local_of(coords))),
            ),
            !in_window(old(self)@.0, chunk_of(coords)) ==> r.is_none(),
    {
        if opacity_changed {
            self.mesh_dirty = true;
        }
        let (which_chunk, rel_pos) = chunk_position(coords);
        if self.is_chunk_loaded(which_chunk) {
            let layer = chunk_texture_loc(which_chunk);
            let t: [usize; 2] = [
                (rel_pos[0] + CHUNK_SIZE as isize * rel_pos[1]) as usize,
                (rel_pos[2] + CHUNK_SIZE as isize * rel_pos[3]) as usize,
            ];
            assert(t =~= texel(local_of(coords)));
            Some((layer, t))
        } else {
            None
        }
    }

    /// Moves the window to `new_corner`. Returns the chunks of the new window
    /// that were not resident before, in window order, for the caller to
    /// upload, and marks the mesh stale. Moving to the current corner does
    /// nothing.
    pub fn move_to(&mut self, new_corner: [isize; 4]) -> (r: Vec<[isize; 4]>)
        requires
            corner_ok(new_corner),
        ensures
            final(self).wf(),
            old(self)@.0 == Some(new_corner) ==> r@.len() == 0 && final(self)@ == old(self)@,
            old(self)@.0 != Some(new_corner) ==> r@ == window_chunks(new_corner).filter(
                |c: [isize; 4]| !in_window(old(self)@.0, c),
            ) && final(self)@ == (Some(new_corner), true),
    {
        let mut out: Vec<[isize; 4]> = Vec::new();
        match self.corner {
            Some(k) => {
                if crate::world::same_coords(k, new_corner) {
                    return out;
                }
            },
            None => {},
        }
        let ghost old_corner = self@.0;
        let ghost pred = |c: [isize; 4]| !in_window(old_corner, c);
        let ghost all = window_chunks(new_corner);
        let r = RENDER_CHUNKS;
        let count = r * r * r * r;
        assert(all.len() == count);
        let mut t: usize = 0;
        while t < count
            invariant
                corner_ok(new_corner),
                self@.0 == old_corner,
                pred == (|c: [isize; 4]| !in_window(old_corner, c)),
                all == window_chunks(new_corner),
                r == RENDER_CHUNKS,
                count == all.len(),
                t <= count,
                out@ == all.take(t as int).filter(pred),
            decreases count - t,
        {
            let c: [isize; 4] = [
                new_corner[0] + (t / (r * r * r)) as isize,
                new_corner[1] + ((t / (r * r)) % r) as isize,
                new_corner[2] + ((t / r) % r) as isize,
                new_corner[3] + (t % r) as isize,
            ];
            assert(c =~= all[t as int]);
            proof {
                reveal(Seq::filter);
                assert(all.take(t + 1).drop_last() =~= all.take(t as int));
            }
            if !self.is_chunk_loaded(c) {
                out.push(c);
            }
            t = t + 1;
        }
        assert(all.take(count as int) =~= all);
        self.corner = Some(new_corner);
        self.mesh_dirty = true;
        out
    }

    /// Rebuilds the mesh of the window's block range from `world` and marks
    /// it current. With no window yet the mesh is empty.
    pub fn redo_mesh(&mut self, world: &World) -> (r: Vec<Quad>)
        requires
            world.wf(),
            old(self).wf(),
        ensures
            r@ == window_mesh(world@, old(self)@.0),
            quads_fit(r@),
            final(self)@ == (old(self)@.0, false),
            final(self).wf(),
    {
        self.mesh_dirty = false;
        match self.corner {
            None => Vec::new(),
            Some(k) => {
                let side = CHUNK_SIZE as isize;
                let span = RENDER_CHUNKS as isize;
                let lo: [isize; 4] = [k[0] * side, k[1] * side, k[2] * side, k[3] * side];
                let hi: [isize; 4] = [
                    (k[0] + span) * side,
                    (k[1] + span) * side,
                    (k[2] + span) * side,
                    (k[3] + span) * side,
                ];
                assert(lo =~= window_lo(k));
                assert(hi =~= window_hi(k));
                proof {
                    lemma_window_region_ok(k);
                }
                mesh_region(world, lo, hi)
            },
        }
    }
}

/// The mesh of the window at `corner` in a world whose contents are `w`.
pub open spec fn window_mesh(w: Map<[isize; 4], crate::block::BlockName>, corner: Option<[isize; 4]>) -> Seq<Quad> {
    match corner {
        Some(k) => mesh_of(w, window_lo(k), window_hi(k)),
        None => Seq::empty(),
    }
}

proof fn lemma_window_region_ok(k: [isize; 4])
    requires
        corner_ok(k),
    ensures
        region_ok(window_lo(k), window_hi(k)),
{
    let lo = window_lo(k);
    let hi = window_hi(k);
    assert forall|n: int| 0 <= n < 6 implies scan_len(lo, hi, #[trigger] plane_at(n)) <= usize::MAX by {
        assert(scan_len(lo, hi, plane_at(n)) == 33 * 33 * 32 * 32);
    }
}

/// Rebuilding the mesh twice with no change to the world in between gives
/// the same quads both times: `first` comes from a rebuild in state `s0`,
/// which leaves state `s1`, and `second` from a rebuild in `s1`.
pub proof fn lemma_rebuild_idempotent(
    world: World,
    s0: LoadedRegion,
    s1: LoadedRegion,
    first: Seq<Quad>,
    second: Seq<Quad>,
)
    requires
        first == window_mesh(world@, s0@.0),
        s1@ == (s0@.0, false),
        second == window_mesh(world@, s1@.0),
    ensures
        first == second,
{
}

} // verus!
