//! The world: a sparse, conceptually unbounded 4D grid of blocks, stored as
//! chunks that are generated the first time a write reaches them.

use crate::block::{Block, BlockName};
use crate::chunk::{
    absolute, chunk_in_range, chunk_of, chunk_position, generated, generated_chunk,
    lemma_absolute_split, lemma_index_local_inverse, lemma_local_index_inverse, lemma_position_split, local_in_range, local_index, local_of,
    local_of_index, material_bytes_of, Chunk,
};
use vstd::prelude::*;

verus! {

/// The contents of a world in which nothing was written yet: what the
/// generator places at every coordinate.
pub open spec fn generated_world() -> Map<[isize; 4], BlockName> {
    Map::new(|p: [isize; 4]| true, |p: [isize; 4]| generated(p))
}

/// The materials of the chunk `c` of a world whose contents are `w`, in
/// storage order.
pub open spec fn chunk_contents(w: Map<[isize; 4], BlockName>, c: [isize; 4]) -> Seq<BlockName> {
    Seq::new(crate::chunk::CHUNK_VOLUME as nat, |i: int| w[absolute(c, local_of_index(i))])
}

/// Whether two coordinates are equal, component by component.
pub fn same_coords(a: [isize; 4], b: [isize; 4]) -> (r: bool)
    ensures
        r == (a == b),
{
    let r = a[0] == b[0] && a[1] == b[1] && a[2] == b[2] && a[3] == b[3];
    proof {
        if r {
            assert(a =~= b);
        }
    }
    r
}

/// Lexicographic order on coordinates, first axis most significant.
pub open spec fn coords_lt(a: [isize; 4], b: [isize; 4]) -> bool {
    a[0] < b[0] || (a[0] == b[0] && (a[1] < b[1] || (a[1] == b[1] && (a[2] < b[2] || (a[2]
        == b[2] && a[3] < b[3])))))
}

proof fn lemma_lt_transitive(a: [isize; 4], b: [isize; 4], c: [isize; 4])
    requires
        coords_lt(a, b),
        coords_lt(b, c),
    ensures
        coords_lt(a, c),
{
}

proof fn lemma_lt_total(a: [isize; 4], b: [isize; 4])
    ensures
        coords_lt(a, b) || coords_lt(b, a) || a == b,
        !(coords_lt(a, b) && coords_lt(b, a)),
        !coords_lt(a, a),
{
    if !coords_lt(a, b) && !coords_lt(b, a) {
        assert(a =~= b);
    }
}

/// Whether `a` comes before `b` in lexicographic order.
pub fn coords_less(a: [isize; 4], b: [isize; 4]) -> (r: bool)
    ensures
        r == coords_lt(a, b),
{
    if a[0] != b[0] {
        a[0] < b[0]
    } else if a[1] != b[1] {
        a[1] < b[1]
    } else if a[2] != b[2] {
        a[2] < b[2]
    } else {
        a[3] < b[3]
    }
}

/// A sparse map from chunk coordinate to chunk. A chunk coordinate without an
/// entry holds what the generator places there.
///
/// The entries are kept in a `Vec` sorted by chunk coordinate and found by
/// binary search. std's `HashMap` is not used: vstd specifies its lookups
/// only for key types whose hashing and equality it models (integers, `bool`
/// and boxed integers); for any other key type that has to be assumed, and
/// `[isize; 4]` is such a type, so nothing could be proved of a lookup.
pub struct World {
    chunks: Vec<([isize; 4], Chunk)>,
}

impl World {
    /// Every entry is a well-formed chunk at an in-range coordinate, and the
    /// entries are sorted by chunk coordinate with no coordinate twice.
    pub closed spec fn wf(&self) -> bool {
        &&& forall|i: int|
            0 <= i < self.chunks@.len() ==> {
                &&& chunk_in_range(#[trigger] self.chunks@[i].0)
                &&& self.chunks@[i].1.wf()
            }
        &&& forall|i: int, j: int|
            0 <= i < j < self.chunks@.len() ==> coords_lt(
                #[trigger] self.chunks@[i].0,
                #[trigger] self.chunks@[j].0,
            )
    }

    proof fn lemma_keys_distinct(&self)
        requires
            self.wf(),
        ensures
            forall|i: int, j: int|
                0 <= i < self.chunks@.len() && 0 <= j < self.chunks@.len() && i != j ==> (
                #[trigger] self.chunks@[i].0) != (#[trigger] self.chunks@[j].0),
    {
        assert forall|i: int, j: int|
            0 <= i < self.chunks@.len() && 0 <= j < self.chunks@.len() && i != j implies (
            #[trigger] self.chunks@[i].0) != (#[trigger] self.chunks@[j].0) by {
            lemma_lt_total(self.chunks@[i].0, self.chunks@[j].0);
        }
    }

    closed spec fn has_chunk(&self, c: [isize; 4]) -> bool {
        exists|i: int| 0 <= i < self.chunks@.len() && (#[trigger] self.chunks@[i]).0 == c
    }

    closed spec fn entry_index(&self, c: [isize; 4]) -> int {
        choose|i: int| 0 <= i < self.chunks@.len() && (#[trigger] self.chunks@[i]).0 == c
    }

    closed spec fn material(&self, p: [isize; 4]) -> BlockName {
        let c = chunk_of(p);
        if self.has_chunk(c) {
            self.chunks@[self.entry_index(c)].1@[local_index(local_of(p))]
        } else {
            generated(p)
        }
    }

    proof fn lemma_entry_index(&self, c: [isize; 4], i: int)
        requires
            self.wf(),
            0 <= i < self.chunks@.len(),
            self.chunks@[i].0 == c,
        ensures
            self.has_chunk(c),
            self.entry_index(c) == i,
    {
        assert(self.has_chunk(c));
        self.lemma_keys_distinct();
    }

    /// Creates an empty world; every coordinate holds what the generator
    /// places there.
    pub fn new() -> (r: Self)
        ensures
            r.wf(),
            r@ == generated_world(),
            forall|p: [isize; 4]| #[trigger] r@.dom().contains(p),
            forall|p: [isize; 4]| #[trigger] r@[p] == BlockName::Air,
    {
        let r = World { chunks: Vec::new() };
        assert(r@ =~= generated_world());
        r
    }

    /// Where chunk `c` stands among the sorted entries: `Ok(i)` if entry `i`
    /// holds it, `Err(i)` if it has no entry and one would go at `i`.
    fn search(&self, c: [isize; 4]) -> (r: Result<usize, usize>)
        requires
            self.wf(),
        ensures
            match r {
                Ok(i) => i < self.chunks@.len() && self.chunks@[i as int].0 == c
                    && self.entry_index(c) == i,
                Err(i) => {
                    &&& i <= self.chunks@.len()
                    &&& !self.has_chunk(c)
                    &&& forall|j: int| 0 <= j < i ==> coords_lt(#[trigger] self.chunks@[j].0, c)
                    &&& forall|j: int|
                        i <= j < self.chunks@.len() ==> coords_lt(c, #[trigger] self.chunks@[j].0)
                },
            },
    {
        let mut lo: usize = 0;
        let mut hi: usize = self.chunks.len();
        while lo < hi
            invariant
                self.wf(),
                lo <= hi <= self.chunks@.len(),
                forall|j: int| 0 <= j < lo ==> coords_lt(#[trigger] self.chunks@[j].0, c),
                forall|j: int| hi <= j < self.chunks@.len() ==> coords_lt(c, #[trigger] self.chunks@[j].0),
            decreases hi - lo,
        {
            let mid = lo + (hi - lo) / 2;
            let k = self.chunks[mid].0;
            if coords_less(k, c) {
                proof {
                    assert forall|j: int| 0 <= j <= mid implies coords_lt(#[trigger] self.chunks@[j].0, c) by {
                        if j < mid {
                            lemma_lt_transitive(self.chunks@[j].0, k, c);
                        }
                    }
                }
                lo = mid + 1;
            } else if same_coords(k, c) {
                proof {
                    self.lemma_entry_index(c, mid as int);
                }
                return Ok(mid);
            } else {
                proof {
                    lemma_lt_total(k, c);
                    assert forall|j: int| mid <= j < self.chunks@.len() implies coords_lt(c, #[trigger] self.chunks@[j].0) by {
                        if j > mid {
                            lemma_lt_transitive(c, k, self.chunks@[j].0);
                        }
                    }
                }
                hi = mid;
            }
        }
        proof {
            assert(!self.has_chunk(c)) by {
                if self.has_chunk(c) {
                    let j = self.entry_index(c);
                    lemma_lt_total(c, c);
                }
            }
        }
        Err(lo)
    }

    /// The material at absolute coordinate `coords`.
    pub fn get(&self, coords: [isize; 4]) -> (r: BlockName)
        requires
            self.wf(),
        ensures
            r == self@[coords],
    {
        let (which_chunk, rel_pos) = chunk_position(coords);
        match self.search(which_chunk) {
            Ok(i) => self.chunks[i].1.get(rel_pos).name(),
            Err(_) => crate::chunk::generate_block(coords).name(),
        }
    }

    /// Makes sure the chunk `c` has an entry and returns its position; the
    /// world's contents do not change.
    fn ensure_chunk(&mut self, c: [isize; 4]) -> (r: usize)
        requires
            old(self).wf(),
            chunk_in_range(c),
        ensures
            final(self).wf(),
            final(self)@ == old(self)@,
            r < final(self).chunks@.len(),
            final(self).chunks@[r as int].0 == c,
            final(self).entry_index(c) == r,
    {
        match self.search(c) {
            Ok(i) => i,
            Err(pos) => {
                let ghost before = *self;
                self.chunks.insert(pos, (c, Chunk::new(c)));
                proof {
                    let bs = before.chunks@;
                    bs.insert_ensures(pos as int, self.chunks@[pos as int]);
                    assert(self.chunks@ == bs.insert(pos as int, self.chunks@[pos as int]));
                    let shifted = |k: int| if k < pos { k } else { k + 1 };
                    assert forall|k: int| 0 <= k < bs.len() implies #[trigger] self.chunks@[shifted(k)]
                        == bs[k] by {
                    }
                    assert forall|k: int| 0 <= k < self.chunks@.len() && k != pos implies #[trigger] self.chunks@[k]
                        == bs[if k < pos { k } else { k - 1 }] by {
                        assert(self.chunks@[shifted(if k < pos { k } else { k - 1 })] == bs[if k < pos { k } else { k - 1 }]);
                    }
                    assert(self.wf()) by {
                        assert forall|i: int, j: int| 0 <= i < j < self.chunks@.len() implies coords_lt(
                            #[trigger] self.chunks@[i].0,
                            #[trigger] self.chunks@[j].0,
                        ) by {
                            if i != pos && j != pos {
                                let bi = if i < pos { i } else { i - 1 };
                                let bj = if j < pos { j } else { j - 1 };
                                assert(coords_lt(bs[bi].0, bs[bj].0));
                            } else if i == pos {
                                assert(self.chunks@[j] == bs[j - 1]);
                            } else {
                                assert(self.chunks@[i] == bs[i]);
                            }
                        }
                    }
                    self.lemma_entry_index(c, pos as int);
                    assert forall|p: [isize; 4]| self.material(p) == before.material(p) by {
                        let cp = chunk_of(p);
                        lemma_position_split(p);
                        if cp == c {
                            lemma_local_index_inverse(local_of(p));
                            assert(self.chunks@[pos as int].1@ == generated_chunk(c));
                        } else if before.has_chunk(cp) {
                            let k = before.entry_index(cp);
                            assert(self.chunks@[shifted(k)] == bs[k]);
                            self.lemma_entry_index(cp, shifted(k));
                        } else {
                            assert(!self.has_chunk(cp)) by {
                                if self.has_chunk(cp) {
                                    let k = self.entry_index(cp);
                                    let bk = if k < pos { k } else { k - 1 };
                                    assert(bs[bk].0 == cp);
                                }
                            }
                        }
                    }
                    assert(self@ =~= before@);
                }
                pos
            },
        }
    }

    /// A handle on the slot at absolute coordinate `coords`, for replacing its
    /// block in place. Generates the slot's chunk if it has no entry yet.
    pub fn get_mut(&mut self, coords: [isize; 4]) -> (r: &mut Block)
        requires
            old(self).wf(),
        ensures
            (*r)@ == old(self)@[coords],
            final(self).wf(),
            final(self)@ == old(self)@.insert(coords, (*final(r))@),
            forall|p: [isize; 4]| #[trigger] final(self)@.dom().contains(p),
    {
        let (which_chunk, rel_pos) = chunk_position(coords);
        let i = self.ensure_chunk(which_chunk);
        proof {
            self.lemma_slot_update(i as int, coords);
        }
        let entry = &mut self.chunks[i];
        entry.1.get_mut(rel_pos)
    }

    /// Puts `block` at absolute coordinate `coords`, dropping the block that
    /// was there, and reports whether the slot changed between transparent and
    /// opaque.
    pub fn set(&mut self, coords: [isize; 4], block: Block) -> (r: bool)
        requires
            old(self).wf(),
        ensures
            final(self).wf(),
            final(self)@ == old(self)@.insert(coords, block@),
            forall|p: [isize; 4]| #[trigger] final(self)@.dom().contains(p),
            r == (old(self)@[coords].spec_is_transparent() != block@.spec_is_transparent()),
    {
        let slot = self.get_mut(coords);
        let changed = slot.is_transparent() != block.is_transparent();
        *slot = block;
        changed
    }

    /// The materials of chunk `which_chunk` as bytes, in storage order. A
    /// chunk without an entry is generated for the purpose and not kept.
    pub fn chunk_bytes(&self, which_chunk: [isize; 4]) -> (r: Vec<u8>)
        requires
            self.wf(),
            chunk_in_range(which_chunk),
        ensures
            r@ == material_bytes_of(chunk_contents(self@, which_chunk)),
    {
        proof {
            assert forall|i: int| 0 <= i < crate::chunk::CHUNK_VOLUME implies chunk_of(
                #[trigger] absolute(which_chunk, local_of_index(i)),
            ) == which_chunk && local_index(local_of(absolute(which_chunk, local_of_index(i))))
                == i by {
                lemma_index_local_inverse(i);
                lemma_absolute_split(which_chunk, local_of_index(i));
            }
        }
        match self.search(which_chunk) {
            Ok(i) => {
                proof {
                    assert(self.chunks@[i as int].1@ =~= chunk_contents(self@, which_chunk));
                }
                self.chunks[i].1.material_bytes()
            },
            Err(_) => {
                let fresh = Chunk::new(which_chunk);
                proof {
                    assert(fresh@ =~= chunk_contents(self@, which_chunk));
                }
                fresh.material_bytes()
            },
        }
    }

    /// Hands the materials of chunk `which_chunk`, as bytes in storage order,
    /// to `f`.
    pub fn pass_chunk_as_slice<F: FnOnce(&[u8])>(&self, which_chunk: [isize; 4], f: F)
        requires
            self.wf(),
            chunk_in_range(which_chunk),
            forall|s: &[u8]|
                s@ == material_bytes_of(chunk_contents(self@, which_chunk)) ==> #[trigger] f.requires(
                    (s,),
                ),
        ensures
            exists|s: &[u8]|
                s@ == material_bytes_of(chunk_contents(self@, which_chunk)) && #[trigger] f.ensures(
                    (s,),
                    (),
                ),
    {
        let bytes = self.chunk_bytes(which_chunk);
        f(bytes.as_slice());
    }

    /// Replacing the block of one slot of the entry at `i`, which holds `p`,
    /// changes the world's contents at `p` alone.
    proof fn lemma_slot_update(&self, i: int, p: [isize; 4])
        requires
            self.wf(),
            0 <= i < self.chunks@.len(),
            self.chunks@[i].0 == chunk_of(p),
        ensures
            forall|after: World|
                #![trigger after.view()]
                after.chunks@.len() == self.chunks@.len() && (forall|j: int|
                    0 <= j < self.chunks@.len() && j != i ==> after.chunks@[j] == self.chunks@[j])
                    && after.chunks@[i].0 == self.chunks@[i].0 && after.chunks@[i].1@
                    == self.chunks@[i].1@.update(
                    local_index(local_of(p)),
                    after.chunks@[i].1@[local_index(local_of(p))],
                ) ==> after.wf() && after@ == self@.insert(
                    p,
                    after.chunks@[i].1@[local_index(local_of(p))],
                ),
    {
        let c = chunk_of(p);
        let idx = local_index(local_of(p));
        lemma_position_split(p);
        lemma_local_index_inverse(local_of(p));
        assert forall|after: World|
            #![trigger after.view()]
            after.chunks@.len() == self.chunks@.len() && (forall|j: int|
                0 <= j < self.chunks@.len() && j != i ==> after.chunks@[j] == self.chunks@[j])
                && after.chunks@[i].0 == self.chunks@[i].0 && after.chunks@[i].1@
                == self.chunks@[i].1@.update(idx, after.chunks@[i].1@[idx]) implies after.wf()
                && after@ == self@.insert(p, after.chunks@[i].1@[idx]) by {
            assert(after.wf()) by {
                assert forall|j: int| 0 <= j < after.chunks@.len() implies chunk_in_range(
                    #[trigger] after.chunks@[j].0,
                ) && after.chunks@[j].1.wf() by {
                    if j != i {
                        assert(after.chunks@[j] == self.chunks@[j]);
                    }
                }
                assert forall|j: int, k: int|
                    0 <= j < after.chunks@.len() && 0 <= k < after.chunks@.len() && j != k implies (
                    #[trigger] after.chunks@[j].0) != (#[trigger] after.chunks@[k].0) by {
                    assert(self.chunks@[j].0 != self.chunks@[k].0);
                }
            }
            after.lemma_entry_index(c, i);
            self.lemma_entry_index(c, i);
            assert forall|q: [isize; 4]| #[trigger]
                after.material(q) == self@.insert(p, after.chunks@[i].1@[idx])[q] by {
                let cq = chunk_of(q);
                lemma_position_split(q);
                if cq == c {
                    if q != p {
                        lemma_local_index_inverse(local_of(q));
                        assert(local_index(local_of(q)) != idx);
                    }
                } else if self.has_chunk(cq) {
                    let k = self.entry_index(cq);
                    assert(k != i);
                    assert(after.chunks@[k] == self.chunks@[k]);
                    after.lemma_entry_index(cq, k);
                } else {
                    assert(!after.has_chunk(cq)) by {
                        if after.has_chunk(cq) {
                            let k = after.entry_index(cq);
                            if k != i {
                                assert(after.chunks@[k] == self.chunks@[k]);
                            }
                        }
                    }
                }
            }
            assert(after@ =~= self@.insert(p, after.chunks@[i].1@[idx]));
        }
    }
}

impl View for World {
    type V = Map<[isize; 4], BlockName>;

    closed spec fn view(&self) -> Map<[isize; 4], BlockName> {
        Map::new(|p: [isize; 4]| true, |p: [isize; 4]| self.material(p))
    }
}

/// Reading a coordinate right after a block was written there gives that
/// block's material; every other coordinate reads as before.
pub proof fn lemma_read_after_write(before: World, after: World, p: [isize; 4], b: BlockName)
    requires
        after@ == before@.insert(p, b),
    ensures
        after@[p] == b,
        forall|q: [isize; 4]| q != p ==> after@[q] == before@[q],
{
}

/// In a world with no writes, every coordinate reads as air.
pub proof fn lemma_fresh_world_is_air(w: World, p: [isize; 4])
    requires
        w@ == generated_world(),
    ensures
        w@[p] == BlockName::Air,
{
}

/// A world holds a material at every coordinate: the domain of its
/// contents is every coordinate.
pub proof fn lemma_world_total(w: World)
    ensures
        forall|p: [isize; 4]| #[trigger] w@.dom().contains(p),
{
}

/// Taking a slot's handle and putting back a block of the material it held
/// leaves the world's contents unchanged.
pub proof fn lemma_rewrite_same(before: World, after: World, p: [isize; 4])
    requires
        after@ == before@.insert(p, before@[p]),
    ensures
        after@ == before@,
{
    lemma_world_total(before);
    assert(after@ =~= before@);
}

} // verus!
