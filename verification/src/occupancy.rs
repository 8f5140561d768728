use vstd::prelude::*;

use crate::geometry::Position;

verus! {

/// Side of the padded index space: padding each axis by `size - 1` absorbs
/// every negative coordinate the search can reach, so the padded cube has
/// side `2 * size - 1`.
pub open spec fn spec_side(size: int) -> int {
    2 * size - 1
}

/// Number of addressable bits: one per padded coordinate.
pub open spec fn spec_bit_count(size: int) -> int {
    spec_side(size) * spec_side(size) * spec_side(size)
}

/// Number of 64-bit words backing the bit set.
pub open spec fn spec_word_count(size: int) -> int {
    (spec_bit_count(size) + 63) / 64
}

/// The coordinate range the search can reach in a cube of side `size`:
/// the path starts at the origin and never spans `size` or more cells on
/// any axis.
pub open spec fn in_cube_range(size: int, t: (int, int, int)) -> bool {
    &&& -(size - 1) <= t.0 <= size - 1
    &&& -(size - 1) <= t.1 <= size - 1
    &&& -(size - 1) <= t.2 <= size - 1
}

/// Collision-free linearisation of a padded coordinate: pad each axis by
/// `size - 1`, then index row-major over the side-`(2 * size - 1)` cube.
pub open spec fn spec_index(size: int, t: (int, int, int)) -> int {
    (t.0 + size - 1) * spec_side(size) * spec_side(size) + (t.1 + size - 1) * spec_side(size) + (
    t.2 + size - 1)
}

/// Whether bit `i` is set in the backing words.
pub open spec fn bit_is_set(words: Seq<u64>, i: int) -> bool {
    words[i / 64] & (1u64 << ((i % 64) as u64)) != 0
}

/// A bit-addressable set over the padded coordinate space of a cube of side
/// `size`, recording which cells the path built so far has covered.
#[derive(Debug, Clone)]
pub struct Bitmask {
    size: usize,
    bits: Vec<u64>,
}

/// Every padded coordinate in range has an index inside the bit space.
pub proof fn lemma_index_bounds(size: int, t: (int, int, int))
    requires
        1 <= size,
        in_cube_range(size, t),
    ensures
        0 <= spec_index(size, t) < spec_bit_count(size),
        0 <= spec_index(size, t) / 64 < spec_word_count(size),
{
    let s = spec_side(size);
    let a = t.0 + size - 1;
    let b = t.1 + size - 1;
    let c = t.2 + size - 1;
    assert(0 <= a < s && 0 <= b < s && 0 <= c < s);
    assert(0 <= a * s * s + b * s + c < s * s * s) by (nonlinear_arith)
        requires
            1 <= s,
            0 <= a < s,
            0 <= b < s,
            0 <= c < s,
    ;
}

/// The linear index is collision-free: distinct padded coordinates in range
/// always map to distinct bit indices.
pub proof fn lemma_index_injective(size: int, t1: (int, int, int), t2: (int, int, int))
    requires
        1 <= size,
        in_cube_range(size, t1),
        in_cube_range(size, t2),
        t1 != t2,
    ensures
        spec_index(size, t1) != spec_index(size, t2),
{
    let s = spec_side(size);
    let a1 = t1.0 + size - 1;
    let b1 = t1.1 + size - 1;
    let c1 = t1.2 + size - 1;
    let a2 = t2.0 + size - 1;
    let b2 = t2.1 + size - 1;
    let c2 = t2.2 + size - 1;
    assert((a1 != a2 || b1 != b2 || c1 != c2) ==> a1 * s * s + b1 * s + c1 != a2 * s * s + b2 * s
        + c2) by (nonlinear_arith)
        requires
            1 <= s,
            0 <= a1 < s,
            0 <= b1 < s,
            0 <= c1 < s,
            0 <= a2 < s,
            0 <= b2 < s,
            0 <= c2 < s,
    ;
}

proof fn lemma_or_sets_bit(w: u64, sh: u64)
    by (bit_vector)
    requires
        sh < 64,
    ensures
        (w | (1u64 << sh)) & (1u64 << sh) != 0,
{
}

proof fn lemma_or_keeps_other_bits(w: u64, sh1: u64, sh2: u64)
    by (bit_vector)
    requires
        sh1 < 64,
        sh2 < 64,
        sh1 != sh2,
    ensures
        ((w | (1u64 << sh1)) & (1u64 << sh2) != 0) == (w & (1u64 << sh2) != 0),
{
}

proof fn lemma_or_already_set_is_noop(w: u64, sh: u64)
    by (bit_vector)
    requires
        sh < 64,
        w & (1u64 << sh) != 0,
    ensures
        w | (1u64 << sh) == w,
{
}

proof fn lemma_zero_word_has_no_bits(sh: u64)
    by (bit_vector)
    ensures
        0u64 & (1u64 << sh) == 0,
{
}

impl View for Bitmask {
    type V = Set<(int, int, int)>;

    /// The set of cells whose bit is set, as plain coordinate triples.
    closed spec fn view(&self) -> Set<(int, int, int)> {
        Set::new(
            |t: (int, int, int)|
                in_cube_range(self.size as int, t) && bit_is_set(
                    self.bits@,
                    spec_index(self.size as int, t),
                ),
        )
    }
}

impl Bitmask {
    /// The cube side this tracker was created for.
    pub closed spec fn spec_size(self) -> int {
        self.size as int
    }

    /// The backing bit storage, word by word.
    pub closed spec fn words(self) -> Seq<u64> {
        self.bits@
    }

    /// Well-formed trackers hold exactly the words the padded space needs.
    /// The side stays at most 64 so that every reachable coordinate fits an
    /// `i8`.
    pub open spec fn wf(self) -> bool {
        &&& 1 <= self.spec_size() <= 64
        &&& self.words().len() == spec_word_count(self.spec_size())
    }

    /// The occupancy set is a function of the side and the backing words
    /// alone: restoring both restores it exactly.
    pub proof fn lemma_view_from_words(self, other: Bitmask)
        requires
            self.spec_size() == other.spec_size(),
            self.words() == other.words(),
        ensures
            self@ == other@,
    {
        assert(self@ =~= other@);
    }

    /// A fresh tracker for a cube of side `size`, with no cell marked.
    pub fn new(size: usize) -> (r: Bitmask)
        requires
            1 <= size <= 64,
        ensures
            r.wf(),
            r.spec_size() == size,
            r@ == Set::<(int, int, int)>::empty(),
    {
        // Have extra padding on the bit count because negative coordinates
        // are padded into positive space.
        let side = size + size - 1;
        proof {
            assert(side * side <= 127 * 127 && side * side * side <= 127 * 127
                * 127) by (nonlinear_arith)
                requires
                    1 <= side <= 127,
            ;
        }
        let bit_count = side * side * side;
        let word_count = (bit_count + 63) / 64;
        let mut bits: Vec<u64> = Vec::new();
        while bits.len() < word_count
            invariant
                bits@.len() <= word_count,
                forall|i: int| 0 <= i < bits@.len() ==> bits@[i] == 0u64,
            decreases word_count - bits@.len(),
        {
            bits.push(0);
        }
        let r = Bitmask { size, bits };
        proof {
            assert forall|t: (int, int, int)| !(#[trigger] r@.contains(t)) by {
                if in_cube_range(size as int, t) {
                    lemma_index_bounds(size as int, t);
                    let i = spec_index(size as int, t);
                    assert(r.bits@[i / 64] == 0u64);
                    lemma_zero_word_has_no_bits((i % 64) as u64);
                }
            }
            assert(r@ =~= Set::<(int, int, int)>::empty());
        }
        r
    }

    /// The word index and bit mask addressing the cell `pos`.
    pub fn get_index(&self, pos: Position) -> (r: (usize, u64))
        requires
            self.wf(),
            in_cube_range(self.spec_size(), pos@),
        ensures
            r.0 == spec_index(self.spec_size(), pos@) / 64,
            r.0 < self.words().len(),
            r.1 == 1u64 << ((spec_index(self.spec_size(), pos@) % 64) as u64),
    {
        proof {
            lemma_index_bounds(self.spec_size(), pos@);
        }
        let side = self.size + self.size - 1;
        let padded_x = (pos.x as i32 + self.size as i32 - 1) as usize;
        let padded_y = (pos.y as i32 + self.size as i32 - 1) as usize;
        let padded_z = (pos.z as i32 + self.size as i32 - 1) as usize;
        proof {
            assert(padded_x < side && padded_y < side && padded_z < side);
            assert(padded_x * side * side + padded_y * side + padded_z < side * side
                * side) by (nonlinear_arith)
                requires
                    1 <= side,
                    padded_x < side,
                    padded_y < side,
                    padded_z < side,
            ;
            assert(padded_x * side <= 127 * 127 && padded_x * side * side <= 127 * 127 * 127
                && padded_y * side <= 127 * 127 && side * side * side <= 127 * 127
                * 127) by (nonlinear_arith)
                requires
                    1 <= side <= 127,
                    padded_x < side,
                    padded_y < side,
            ;
        }
        let idx = padded_x * side * side + padded_y * side + padded_z;
        let word_idx = idx / 64;
        let bit_idx = (idx % 64) as u64;
        (word_idx, 1u64 << bit_idx)
    }

    /// Whether the cell `pos` is already part of the path.
    pub fn is_visited(&self, pos: Position) -> (r: bool)
        requires
            self.wf(),
            in_cube_range(self.spec_size(), pos@),
        ensures
            r == self@.contains(pos@),
    {
        let (word_idx, bit_mask) = self.get_index(pos);
        (self.bits[word_idx] & bit_mask) != 0
    }

    /// Marks the cell `pos` as part of the path: exactly the addressed
    /// word changes, by or-ing the cell's mask in. Marking an already
    /// marked cell leaves the bit storage identical, so the operation is
    /// idempotent down to the backing words.
    pub fn mark_visited(&mut self, pos: Position)
        requires
            old(self).wf(),
            in_cube_range(old(self).spec_size(), pos@),
        ensures
            final(self).wf(),
            final(self).spec_size() == old(self).spec_size(),
            final(self).words() == old(self).words().update(
                spec_index(old(self).spec_size(), pos@) / 64,
                old(self).words()[spec_index(old(self).spec_size(), pos@) / 64] | (1u64 << ((
                spec_index(old(self).spec_size(), pos@) % 64) as u64)),
            ),
            old(self)@.contains(pos@) ==> final(self).words() == old(self).words(),
            final(self)@ == old(self)@.insert(pos@),
    {
        let (word_idx, bit_mask) = self.get_index(pos);
        let word = self.bits[word_idx];
        self.bits[word_idx] = word | bit_mask;
        proof {
            let size = self.spec_size();
            let p = pos@;
            let pi = spec_index(size, p);
            assert forall|t: (int, int, int)| #[trigger]
                self@.contains(t) == old(self)@.insert(p).contains(t) by {
                if in_cube_range(size, t) {
                    let ti = spec_index(size, t);
                    lemma_index_bounds(size, t);
                    if t == p {
                        lemma_or_sets_bit(word, (pi % 64) as u64);
                    } else {
                        lemma_index_injective(size, t, p);
                        if ti / 64 == pi / 64 {
                            assert((ti % 64) as u64 != (pi % 64) as u64);
                            lemma_or_keeps_other_bits(word, (pi % 64) as u64, (ti % 64) as u64);
                        } else {
                            assert(self.bits@[ti / 64] == old(self).bits@[ti / 64]);
                        }
                    }
                }
            }
            assert(self@ =~= old(self)@.insert(p));
            assert(self.bits@ =~= old(self).bits@.update(
                pi / 64,
                old(self).bits@[pi / 64] | (1u64 << ((pi % 64) as u64)),
            ));
            if old(self)@.contains(p) {
                lemma_or_already_set_is_noop(word, (pi % 64) as u64);
                assert(self.bits@ =~= old(self).bits@);
            }
        }
    }

    /// A deep copy of the backing bit storage, to be restored later when a
    /// search branch fails. The copy shares nothing with the live tracker.
    pub fn snapshot(&self) -> (r: Vec<u64>)
        ensures
            r@ == self.words(),
    {
        let mut r: Vec<u64> = Vec::new();
        let mut i: usize = 0;
        while i < self.bits.len()
            invariant
                i <= self.bits@.len(),
                r@ =~= self.bits@.subrange(0, i as int),
            decreases self.bits@.len() - i,
        {
            r.push(self.bits[i]);
            i = i + 1;
        }
        proof {
            assert(r@ =~= self.bits@);
        }
        r
    }

    /// Restores the bit storage captured by an earlier `snapshot`, undoing
    /// every mark made since.
    pub fn backtrack(&mut self, snapshot: Vec<u64>)
        requires
            snapshot@.len() == old(self).words().len(),
        ensures
            final(self).spec_size() == old(self).spec_size(),
            final(self).words() == snapshot@,
            old(self).wf() ==> final(self).wf(),
    {
        self.bits = snapshot;
    }
}

/// Snapshot/restore round-trip: occupancy is a function of the cube side
/// and the backing words alone, so restoring the words captured before any
/// number of further marks yields an occupancy set identical to the one at
/// the restore point, whatever cells were marked in between.
pub proof fn lemma_snapshot_restore(before: Bitmask, after: Bitmask)
    requires
        after.spec_size() == before.spec_size(),
        after.words() == before.words(),
    ensures
        after@ == before@,
{
    before.lemma_view_from_words(after);
}

} // verus!
