//! Dense chunks of blocks, the split of absolute coordinates into a chunk and
//! an offset inside it, and the procedural generator that fills new chunks.

use crate::block::{Block, BlockName};
use vstd::prelude::*;

verus! {

/// Side length of a chunk on every axis. The renderer's shader relies on this
/// exact value.
pub const CHUNK_SIZE: usize = 8;

/// Number of blocks in one chunk.
pub const CHUNK_VOLUME: usize = CHUNK_SIZE * CHUNK_SIZE * CHUNK_SIZE * CHUNK_SIZE;

/// Every component of `l` is an offset inside a chunk.
pub open spec fn local_in_range(l: [isize; 4]) -> bool {
    &&& 0 <= l[0] < CHUNK_SIZE
    &&& 0 <= l[1] < CHUNK_SIZE
    &&& 0 <= l[2] < CHUNK_SIZE
    &&& 0 <= l[3] < CHUNK_SIZE
}

/// Position of an in-chunk offset in a chunk's storage: the first axis varies
/// fastest.
pub open spec fn local_index(l: [isize; 4]) -> int {
    let s = CHUNK_SIZE as int;
    l[0] + s * (l[1] + s * (l[2] + s * l[3]))
}

/// The in-chunk offset stored at position `i`.
pub open spec fn local_of_index(i: int) -> [isize; 4] {
    let s = CHUNK_SIZE as int;
    [(i % s) as isize, ((i / s) % s) as isize, ((i / (s * s)) % s) as isize, (i / (s * s * s)) as isize]
}

/// A chunk coordinate all of whose blocks have absolute coordinates that fit
/// in an `isize`.
pub open spec fn chunk_in_range(c: [isize; 4]) -> bool {
    &&& isize::MIN as int / (CHUNK_SIZE as int) <= c[0] <= isize::MAX as int / (CHUNK_SIZE as int)
    &&& isize::MIN as int / (CHUNK_SIZE as int) <= c[1] <= isize::MAX as int / (CHUNK_SIZE as int)
    &&& isize::MIN as int / (CHUNK_SIZE as int) <= c[2] <= isize::MAX as int / (CHUNK_SIZE as int)
    &&& isize::MIN as int / (CHUNK_SIZE as int) <= c[3] <= isize::MAX as int / (CHUNK_SIZE as int)
}

/// The absolute coordinate of offset `l` in chunk `c`.
pub open spec fn absolute(c: [isize; 4], l: [isize; 4]) -> [isize; 4] {
    [
        (c[0] * (CHUNK_SIZE as int) + l[0]) as isize,
        (c[1] * (CHUNK_SIZE as int) + l[1]) as isize,
        (c[2] * (CHUNK_SIZE as int) + l[2]) as isize,
        (c[3] * (CHUNK_SIZE as int) + l[3]) as isize,
    ]
}

/// The chunk that holds `p`: floored division on every axis.
pub open spec fn chunk_of(p: [isize; 4]) -> [isize; 4] {
    [
        (p[0] as int / CHUNK_SIZE as int) as isize,
        (p[1] as int / CHUNK_SIZE as int) as isize,
        (p[2] as int / CHUNK_SIZE as int) as isize,
        (p[3] as int / CHUNK_SIZE as int) as isize,
    ]
}

/// The offset of `p` inside its chunk: the non-negative remainder on every axis.
pub open spec fn local_of(p: [isize; 4]) -> [isize; 4] {
    [
        (p[0] as int % CHUNK_SIZE as int) as isize,
        (p[1] as int % CHUNK_SIZE as int) as isize,
        (p[2] as int % CHUNK_SIZE as int) as isize,
        (p[3] as int % CHUNK_SIZE as int) as isize,
    ]
}

/// What the generator places at absolute coordinate `p`: air everywhere, so
/// that a place nothing was written to reads as air. Any terrain is written
/// by the host through the world's accessors.
pub open spec fn generated(p: [isize; 4]) -> BlockName {
    BlockName::Air
}

/// Splitting an integer by a positive chunk size and joining it back gives the
/// integer again, with a remainder in `[0, s)`; negative integers included.
pub proof fn lemma_split_join(c: int, s: int)
    requires
        s > 0,
    ensures
        (c / s) * s + c % s == c,
        0 <= c % s < s,
{
    vstd::arithmetic::div_mod::lemma_fundamental_div_mod(c, s);
    vstd::arithmetic::div_mod::lemma_mod_bound(c, s);
    vstd::arithmetic::mul::lemma_mul_is_commutative(c / s, s);
}

/// Offsets inside an in-range chunk have absolute coordinates that fit in an
/// `isize`.
pub proof fn lemma_absolute_fits(c: [isize; 4], l: [isize; 4])
    requires
        chunk_in_range(c),
        local_in_range(l),
    ensures
        isize::MIN <= c[0] * (CHUNK_SIZE as int) + l[0] <= isize::MAX,
        isize::MIN <= c[1] * (CHUNK_SIZE as int) + l[1] <= isize::MAX,
        isize::MIN <= c[2] * (CHUNK_SIZE as int) + l[2] <= isize::MAX,
        isize::MIN <= c[3] * (CHUNK_SIZE as int) + l[3] <= isize::MAX,
{
    assert(isize::MAX == 0x7fff_ffff || isize::MAX == 0x7fff_ffff_ffff_ffff);
    assert(isize::MIN == -0x8000_0000 || isize::MIN == -0x8000_0000_0000_0000);
}

/// The offset stored at a position of a chunk is in range.
pub proof fn lemma_local_of_index_range(i: int)
    requires
        0 <= i < CHUNK_VOLUME,
    ensures
        local_in_range(local_of_index(i)),
        local_of_index(i)[0] == i % 8,
        local_of_index(i)[1] == (i / 8) % 8,
        local_of_index(i)[2] == (i / 64) % 8,
        local_of_index(i)[3] == i / 512,
{
}

/// The storage position of an offset gives the offset back.
pub proof fn lemma_local_index_inverse(l: [isize; 4])
    requires
        local_in_range(l),
    ensures
        0 <= local_index(l) < CHUNK_VOLUME,
        local_of_index(local_index(l)) == l,
{
    let i = local_index(l);
    let x = l[0] as int;
    let y = l[1] as int;
    let z = l[2] as int;
    let w = l[3] as int;
    assert(i % 8 == x && i / 8 == y + 8 * (z + 8 * w)) by {
        vstd::arithmetic::div_mod::lemma_fundamental_div_mod_converse(i, 8, y + 8 * (z + 8 * w), x);
    }
    assert((i / 8) % 8 == y && i / 64 == z + 8 * w) by {
        vstd::arithmetic::div_mod::lemma_fundamental_div_mod_converse(i / 8, 8, z + 8 * w, y);
        vstd::arithmetic::div_mod::lemma_div_denominator(i, 8, 8);
    }
    assert((i / 64) % 8 == z && i / 512 == w) by {
        vstd::arithmetic::div_mod::lemma_fundamental_div_mod_converse(i / 64, 8, w, z);
        vstd::arithmetic::div_mod::lemma_div_denominator(i, 64, 8);
    }
    let r = local_of_index(i);
    assert(r[0] == l[0] && r[1] == l[1] && r[2] == l[2] && r[3] == l[3]);
    assert(r =~= l);
}

/// The offset stored at storage position `i` is stored at `i`.
pub proof fn lemma_index_local_inverse(i: int)
    requires
        0 <= i < CHUNK_VOLUME,
    ensures
        local_in_range(local_of_index(i)),
        local_index(local_of_index(i)) == i,
{
    lemma_local_of_index_range(i);
    vstd::arithmetic::div_mod::lemma_fundamental_div_mod(i, 8);
    vstd::arithmetic::div_mod::lemma_fundamental_div_mod(i / 8, 8);
    vstd::arithmetic::div_mod::lemma_fundamental_div_mod(i / 64, 8);
    vstd::arithmetic::div_mod::lemma_div_denominator(i, 8, 8);
    vstd::arithmetic::div_mod::lemma_div_denominator(i, 64, 8);
}

/// Joining an in-range chunk and offset and splitting the result gives them
/// back.
pub proof fn lemma_absolute_split(c: [isize; 4], l: [isize; 4])
    requires
        chunk_in_range(c),
        local_in_range(l),
    ensures
        chunk_of(absolute(c, l)) == c,
        local_of(absolute(c, l)) == l,
{
    lemma_absolute_fits(c, l);
    let p = absolute(c, l);
    vstd::arithmetic::div_mod::lemma_fundamental_div_mod_converse(p[0] as int, 8, c[0] as int, l[0] as int);
    vstd::arithmetic::div_mod::lemma_fundamental_div_mod_converse(p[1] as int, 8, c[1] as int, l[1] as int);
    vstd::arithmetic::div_mod::lemma_fundamental_div_mod_converse(p[2] as int, 8, c[2] as int, l[2] as int);
    vstd::arithmetic::div_mod::lemma_fundamental_div_mod_converse(p[3] as int, 8, c[3] as int, l[3] as int);
    assert(chunk_of(p) =~= c);
    assert(local_of(p) =~= l);
}

/// Any absolute coordinate is the join of its chunk and its offset, and both
/// parts are in range.
pub proof fn lemma_position_split(p: [isize; 4])
    ensures
        chunk_in_range(chunk_of(p)),
        local_in_range(local_of(p)),
        absolute(chunk_of(p), local_of(p)) == p,
{
    lemma_split_join(p[0] as int, 8);
    lemma_split_join(p[1] as int, 8);
    lemma_split_join(p[2] as int, 8);
    lemma_split_join(p[3] as int, 8);
    let a = absolute(chunk_of(p), local_of(p));
    assert(a =~= p);
}

/// A chunk's contents: `CHUNK_VOLUME` blocks in storage order.
pub struct Chunk(Vec<Block>);

impl View for Chunk {
    type V = Seq<BlockName>;

    closed spec fn view(&self) -> Seq<BlockName> {
        self.0@.map_values(|b: Block| b@)
    }
}

/// The materials that a freshly generated chunk at `c` holds.
pub open spec fn generated_chunk(c: [isize; 4]) -> Seq<BlockName> {
    Seq::new(CHUNK_VOLUME as nat, |i: int| generated(absolute(c, local_of_index(i))))
}

/// The bytes that stand for a sequence of materials.
pub open spec fn material_bytes_of(s: Seq<BlockName>) -> Seq<u8> {
    s.map_values(|b: BlockName| b.spec_id())
}

impl Chunk {
    /// A chunk holds exactly `CHUNK_VOLUME` blocks.
    pub open spec fn wf(&self) -> bool {
        self@.len() == CHUNK_VOLUME
    }

    /// Generates the chunk at chunk coordinate `which_chunk`.
    pub fn new(which_chunk: [isize; 4]) -> (r: Self)
        requires
            chunk_in_range(which_chunk),
        ensures
            r.wf(),
            r@ == generated_chunk(which_chunk),
    {
        let mut blocks: Vec<Block> = Vec::with_capacity(CHUNK_VOLUME);
        let mut i: usize = 0;
        while i < CHUNK_VOLUME
            invariant
                chunk_in_range(which_chunk),
                i <= CHUNK_VOLUME,
                blocks@.len() == i,
                forall|j: int|
                    0 <= j < i ==> #[trigger] blocks@[j]@ == generated(
                        absolute(which_chunk, local_of_index(j)),
                    ),
            decreases CHUNK_VOLUME - i,
        {
            let p = cell_position(which_chunk, i);
            blocks.push(generate_block(p));
            i = i + 1;
        }
        let r = Chunk(blocks);
        assert(r@ =~= generated_chunk(which_chunk));
        r
    }

    /// The block at in-chunk offset `l`.
    pub fn get(&self, l: [isize; 4]) -> (r: &Block)
        requires
            self.wf(),
            local_in_range(l),
        ensures
            r@ == self@[local_index(l)],
    {
        let s = CHUNK_SIZE as isize;
        let i = (l[0] + s * (l[1] + s * (l[2] + s * l[3]))) as usize;
        &self.0[i]
    }

    /// A handle on the slot at in-chunk offset `l`, for replacing its block.
    pub fn get_mut(&mut self, l: [isize; 4]) -> (r: &mut Block)
        requires
            old(self).wf(),
            local_in_range(l),
        ensures
            (*r)@ == old(self)@[local_index(l)],
            final(self).wf(),
            final(self)@ == old(self)@.update(local_index(l), (*final(r))@),
    {
        let s = CHUNK_SIZE as isize;
        let i = (l[0] + s * (l[1] + s * (l[2] + s * l[3]))) as usize;
        &mut self.0[i]
    }

    /// The chunk's materials as bytes, in storage order.
    pub fn material_bytes(&self) -> (r: Vec<u8>)
        ensures
            r@ == material_bytes_of(self@),
    {
        let mut out: Vec<u8> = Vec::with_capacity(self.0.len());
        let mut i: usize = 0;
        while i < self.0.len()
            invariant
                i <= self.0@.len(),
                out@ == material_bytes_of(self@.take(i as int)),
            decreases self.0@.len() - i,
        {
            out.push(self.0[i].name().id());
            i = i + 1;
            assert(material_bytes_of(self@.take(i as int)) =~= material_bytes_of(
                self@.take(i - 1),
            ).push(self@[i - 1].spec_id()));
        }
        assert(self@.take(i as int) =~= self@);
        out
    }

    /// Hands the chunk's materials, as bytes in storage order, to `f`.
    pub fn pass_as_slice<F: FnOnce(&[u8])>(&self, f: F)
        requires
            forall|s: &[u8]| s@ == material_bytes_of(self@) ==> #[trigger] f.requires((s,)),
        ensures
            exists|s: &[u8]| s@ == material_bytes_of(self@) && #[trigger] f.ensures((s,), ()),
    {
        let bytes = self.material_bytes();
        f(bytes.as_slice());
    }
}

/// The absolute coordinate of the block at storage position `i` of chunk
/// `which_chunk`.
fn cell_position(which_chunk: [isize; 4], i: usize) -> (r: [isize; 4])
    requires
        chunk_in_range(which_chunk),
        i < CHUNK_VOLUME,
    ensures
        r == absolute(which_chunk, local_of_index(i as int)),
{
    proof {
        lemma_local_of_index_range(i as int);
        lemma_absolute_fits(which_chunk, local_of_index(i as int));
    }
    let s = CHUNK_SIZE;
    let x = (i % s) as isize;
    let y = ((i / s) % s) as isize;
    let z = ((i / (s * s)) % s) as isize;
    let w = (i / (s * s * s)) as isize;
    let side = CHUNK_SIZE as isize;
    [
        which_chunk[0] * side + x,
        which_chunk[1] * side + y,
        which_chunk[2] * side + z,
        which_chunk[3] * side + w,
    ]
}

/// Splits an absolute coordinate into its chunk and its offset inside the
/// chunk, by floored division and non-negative remainder on every axis.
pub fn chunk_position(coords: [isize; 4]) -> (r: ([isize; 4], [isize; 4]))
    ensures
        r.0 == chunk_of(coords),
        r.1 == local_of(coords),
        chunk_in_range(r.0),
        local_in_range(r.1),
        absolute(r.0, r.1) == coords,
{
    proof {
        lemma_position_split(coords);
    }
    let mut chunk: [isize; 4] = [0, 0, 0, 0];
    let mut rel_pos: [isize; 4] = [0, 0, 0, 0];
    let mut i: usize = 0;
    while i < 4
        invariant
            i <= 4,
            forall|k: int| 0 <= k < i ==> #[trigger] chunk[k] == chunk_of(coords)[k],
            forall|k: int| 0 <= k < i ==> #[trigger] rel_pos[k] == local_of(coords)[k],
        decreases 4 - i,
    {
        match coords[i].checked_div_euclid(CHUNK_SIZE as isize) {
            Some(c) => chunk[i] = c,
            None => {},
        }
        match coords[i].checked_rem_euclid(CHUNK_SIZE as isize) {
            Some(l) => rel_pos[i] = l,
            None => {},
        }
        i = i + 1;
    }
    assert(chunk =~= chunk_of(coords));
    assert(rel_pos =~= local_of(coords));
    (chunk, rel_pos)
}

/// The generator: a pure, deterministic function of the absolute
/// coordinate, which fills every place with air.
pub fn generate_block(_block: [isize; 4]) -> (r: Block)
    ensures
        r@ == generated(_block),
{
    Block::create(BlockName::Air)
}

/// Generation is deterministic: two chunks generated at the same chunk
/// coordinate hold the same materials and export the same bytes.
pub proof fn lemma_generation_deterministic(a: Chunk, b: Chunk, which_chunk: [isize; 4])
    requires
        a@ == generated_chunk(which_chunk),
        b@ == generated_chunk(which_chunk),
    ensures
        a@ == b@,
        material_bytes_of(a@) == material_bytes_of(b@),
{
}

} // verus!
