//! The cell substrate model: immutable capacity-bounded tree nodes, a mutable
//! builder bounded by the same limits, and a read cursor over a cell's bits
//! and references.

use vstd::prelude::*;
use crate::error::{DecodeError, PackError};
use crate::bits::bits_uint;
use vstd::arithmetic::power2::pow2;

verus! {

broadcast use vstd::std_specs::vec::group_vec_axioms;

/// Hard limit on the number of content bits a single cell may hold.
pub const MAX_DATA_BITS: usize = 1023;

/// Hard limit on the number of child references a single cell may hold.
pub const MAX_REFS: usize = 4;

/// Modulus of the display fingerprint, a prime below two to the thirty-two.
pub const FP_MOD: u64 = 4294967291;

/// Multiplier of the display fingerprint.
pub const FP_MUL: u64 = 65599;

/// An immutable tree node: a bounded run of content bits plus a bounded list
/// of child cells.
pub struct Cell {
    pub data: Vec<bool>,
    pub refs: Vec<Cell>,
}

/// Mathematical model of a cell: the bit sequence and the models of the
/// children.
#[verifier::ext_equal]
pub ghost struct CellV {
    pub data: Seq<bool>,
    pub refs: Seq<CellV>,
}

/// The models of a list of cells.
pub open spec fn cells_view(refs: Vec<Cell>) -> Seq<CellV>
    decreases refs,
{
    Seq::new(
        refs@.len(),
        |i: int|
            if 0 <= i < refs.len() {
                refs[i].view()
            } else {
                arbitrary()
            },
    )
}

impl Cell {
    /// The mathematical value of this cell.
    pub open spec fn view(&self) -> CellV
        decreases *self,
    {
        CellV { data: self.data@, refs: cells_view(self.refs) }
    }
}

impl CellV {
    /// Capacity limits hold at this node and in every descendant.
    pub open spec fn wf(self) -> bool
        decreases self,
    {
        &&& self.data.len() <= MAX_DATA_BITS
        &&& self.refs.len() <= MAX_REFS
        &&& forall|i: int| 0 <= i < self.refs.len() ==> (#[trigger] self.refs[i]).wf()
    }
}

/// Appending one cell to a list appends its model to the list's models.
pub proof fn lemma_cells_view_push(a: Vec<Cell>, b: Vec<Cell>)
    requires
        b@.len() == a@.len() + 1,
        forall|j: int| 0 <= j < a@.len() ==> b@[j] == a@[j],
    ensures
        cells_view(b) == cells_view(a).push(b@[a@.len() as int]@),
{
    assert forall|j: int| 0 <= j < b@.len() implies cells_view(b)[j] == cells_view(a).push(
        b@[a@.len() as int]@,
    )[j] by {
        assert(cells_view(b)[j] == b@[j]@);
        if j < a@.len() {
            assert(cells_view(a)[j] == a@[j]@);
        }
    }
    assert(cells_view(b) =~= cells_view(a).push(b@[a@.len() as int]@));
}

/// A well-formed cell has well-formed children.
pub proof fn lemma_wf_child(c: CellV, i: int)
    requires
        c.wf(),
        0 <= i < c.refs.len(),
    ensures
        c.refs[i].wf(),
{
}

/// Deep structural equality of two cells, the model's stand-in for comparing
/// content hashes of a content-addressed store.
pub fn cell_eq(a: &Cell, b: &Cell) -> (r: bool)
    ensures
        r <==> a@ == b@,
    decreases *a,
{
    proof {
        assert(a@.data == a.data@);
        assert(b@.data == b.data@);
        assert(a@.refs.len() == a.refs@.len());
        assert(b@.refs.len() == b.refs@.len());
    }
    if a.data.len() != b.data.len() {
        return false;
    }
    if a.refs.len() != b.refs.len() {
        return false;
    }
    let n = a.data.len();
    let mut i: usize = 0;
    while i < n
        invariant
            n == a.data.len() == b.data.len(),
            i <= n,
            forall|j: int| 0 <= j < i ==> a.data@[j] == b.data@[j],
        decreases n - i,
    {
        if a.data[i] != b.data[i] {
            assert(a@.data[i as int] != b@.data[i as int]);
            return false;
        }
        i = i + 1;
    }
    assert(a@.data =~= b@.data);
    let m = a.refs.len();
    let mut k: usize = 0;
    while k < m
        invariant
            m == a.refs.len() == b.refs.len(),
            k <= m,
            a@.data == b@.data,
            forall|j: int| 0 <= j < k ==> a@.refs[j] == b@.refs[j],
        decreases m - k,
    {
        if !cell_eq(&a.refs[k], &b.refs[k]) {
            assert(a@.refs[k as int] != b@.refs[k as int]);
            return false;
        }
        assert(a@.refs[k as int] == b@.refs[k as int]);
        k = k + 1;
    }
    assert(a@.refs =~= b@.refs);
    assert(a@ =~= b@);
    true
}

/// A deep copy of a cell.
pub fn cell_clone(c: &Cell) -> (r: Cell)
    ensures
        r@ == c@,
    decreases *c,
{
    let mut data: Vec<bool> = Vec::new();
    let mut i: usize = 0;
    while i < c.data.len()
        invariant
            i <= c.data.len(),
            data@ == c.data@.take(i as int),
        decreases c.data.len() - i,
    {
        data.push(c.data[i]);
        proof {
            assert(data@ =~= c.data@.take(i + 1));
        }
        i = i + 1;
    }
    assert(data@ =~= c.data@);
    let mut refs: Vec<Cell> = Vec::new();
    let mut k: usize = 0;
    while k < c.refs.len()
        invariant
            k <= c.refs.len(),
            refs@.len() == k,
            forall|j: int| 0 <= j < k ==> #[trigger] refs@[j]@ == c.refs@[j]@,
        decreases c.refs.len() - k,
    {
        let child = cell_clone(&c.refs[k]);
        refs.push(child);
        k = k + 1;
    }
    let r = Cell { data, refs };
    proof {
        assert forall|j: int| 0 <= j < refs@.len() implies cells_view(r.refs)[j] == cells_view(
            c.refs,
        )[j] by {
            assert(cells_view(r.refs)[j] == r.refs@[j]@);
            assert(cells_view(c.refs)[j] == c.refs@[j]@);
        }
        assert(cells_view(r.refs) =~= cells_view(c.refs));
        assert(r@ =~= c@);
    }
    r
}

/// A mutable accumulator that produces a new cell, bounded by the same
/// capacity limits as the cells it builds.
pub struct CellBuilder {
    pub data: Vec<bool>,
    pub refs: Vec<Cell>,
}

impl CellBuilder {
    /// The cell value this builder would produce.
    pub open spec fn view(&self) -> CellV {
        CellV { data: self.data@, refs: cells_view(self.refs) }
    }

    /// A fresh empty builder.
    pub fn new() -> (r: CellBuilder)
        ensures
            r@.data == Seq::<bool>::empty(),
            r@.refs == Seq::<CellV>::empty(),
    {
        let r = CellBuilder { data: Vec::new(), refs: Vec::new() };
        proof {
            assert(r@.data =~= Seq::<bool>::empty());
            assert(r@.refs =~= Seq::<CellV>::empty());
        }
        r
    }

    /// A builder seeded with a bit pattern, if the pattern alone fits.
    pub fn from_raw_bits(bits: Vec<bool>) -> (r: Result<CellBuilder, PackError>)
        ensures
            r is Ok <==> bits@.len() <= MAX_DATA_BITS,
            r matches Ok(b) ==> b@.data == bits@ && b@.refs == Seq::<CellV>::empty(),
            r is Err ==> r == Err::<CellBuilder, PackError>(PackError::NotFitInSlice),
    {
        if bits.len() > MAX_DATA_BITS {
            return Err(PackError::NotFitInSlice);
        }
        let r = CellBuilder { data: bits, refs: Vec::new() };
        proof {
            assert(r@.refs =~= Seq::<CellV>::empty());
        }
        Ok(r)
    }

    /// Number of content bits accumulated so far.
    pub fn size_bits(&self) -> (r: usize)
        ensures
            r == self@.data.len(),
    {
        self.data.len()
    }

    /// Number of child references attached so far.
    pub fn size_refs(&self) -> (r: usize)
        ensures
            r == self@.refs.len(),
    {
        self.refs.len()
    }

    /// Number of reference slots still free.
    pub fn spare_capacity_refs(&self) -> (r: usize)
        ensures
            r == if self@.refs.len() < MAX_REFS {
                MAX_REFS - self@.refs.len()
            } else {
                0int
            },
    {
        if self.refs.len() < MAX_REFS {
            MAX_REFS - self.refs.len()
        } else {
            0
        }
    }

    /// Appends a bit pattern when it fits; otherwise leaves the builder
    /// untouched.
    pub fn store_bits(&mut self, bits: &Vec<bool>) -> (r: Result<(), PackError>)
        ensures
            r is Ok <==> old(self)@.data.len() + bits@.len() <= MAX_DATA_BITS,
            r is Ok ==> final(self)@.data == old(self)@.data + bits@ && final(self).refs == old(
                self,
            ).refs,
            r is Err ==> *final(self) == *old(self) && r == Err::<(), PackError>(
                PackError::NotFitInSlice,
            ),
    {
        if bits.len() > MAX_DATA_BITS || self.data.len() > MAX_DATA_BITS - bits.len() {
            return Err(PackError::NotFitInSlice);
        }
        let mut i: usize = 0;
        while i < bits.len()
            invariant
                i <= bits@.len(),
                self.refs == old(self).refs,
                self.data@ == old(self).data@ + bits@.take(i as int),
            decreases bits@.len() - i,
        {
            self.data.push(bits[i]);
            proof {
                assert(self.data@ =~= old(self).data@ + bits@.take(i + 1));
            }
            i = i + 1;
        }
        proof {
            assert(self.data@ =~= old(self).data@ + bits@);
        }
        Ok(())
    }

    /// Attaches a child cell when a reference slot is free; otherwise leaves
    /// the builder untouched.
    pub fn store_reference(&mut self, c: Cell) -> (r: Result<(), PackError>)
        ensures
            r is Ok <==> old(self)@.refs.len() < MAX_REFS,
            r is Ok ==> final(self)@.refs == old(self)@.refs.push(c@) && final(self).data == old(
                self,
            ).data,
            r is Err ==> *final(self) == *old(self) && r == Err::<(), PackError>(
                PackError::NotFitInSlice,
            ),
    {
        if self.refs.len() >= MAX_REFS {
            return Err(PackError::NotFitInSlice);
        }
        let ghost oldrefs = self.refs;
        let ghost cv = c@;
        self.refs.push(c);
        proof {
            assert forall|j: int| 0 <= j < self.refs@.len() implies cells_view(self.refs)[j]
                == cells_view(oldrefs).push(cv)[j] by {
                assert(cells_view(self.refs)[j] == self.refs@[j]@);
                if j < oldrefs@.len() {
                    assert(cells_view(oldrefs)[j] == oldrefs@[j]@);
                }
            }
            assert(cells_view(self.refs) =~= cells_view(oldrefs).push(cv));
        }
        Ok(())
    }

    /// Appends the remaining bits and the remaining references of a cursor
    /// when both fit; otherwise leaves the builder untouched.
    pub fn store_slice(&mut self, s: &CellSlice) -> (r: Result<(), PackError>)
        requires
            s.wf(),
        ensures
            r is Ok <==> old(self)@.data.len() + s@.data.len() <= MAX_DATA_BITS && old(
                self,
            )@.refs.len() + s@.refs.len() <= MAX_REFS,
            r is Ok ==> final(self)@.data == old(self)@.data + s@.data && final(self)@.refs
                == old(self)@.refs + s@.refs,
            r is Err ==> *final(self) == *old(self) && r == Err::<(), PackError>(
                PackError::NotFitInSlice,
            ),
    {
        let rem_bits = s.remaining_bits();
        let rem_refs = s.remaining_refs();
        if rem_bits > MAX_DATA_BITS || self.data.len() > MAX_DATA_BITS - rem_bits {
            return Err(PackError::NotFitInSlice);
        }
        if rem_refs > MAX_REFS || self.refs.len() > MAX_REFS - rem_refs {
            return Err(PackError::NotFitInSlice);
        }
        let mut i: usize = s.bit_pos;
        while i < s.cell.data.len()
            invariant
                s.wf(),
                s.bit_pos <= i <= s.cell.data@.len(),
                self.refs == old(self).refs,
                self.data@ == old(self).data@ + s.cell.data@.subrange(s.bit_pos as int, i as int),
            decreases s.cell.data@.len() - i,
        {
            self.data.push(s.cell.data[i]);
            proof {
                assert(self.data@ =~= old(self).data@ + s.cell.data@.subrange(
                    s.bit_pos as int,
                    i + 1,
                ));
            }
            i = i + 1;
        }
        proof {
            assert(self.data@ =~= old(self).data@ + s@.data);
        }
        let ghost middata = self.data@;
        let mut k: usize = s.ref_pos;
        while k < s.cell.refs.len()
            invariant
                s.wf(),
                s.ref_pos <= k <= s.cell.refs@.len(),
                self.data@ == middata,
                self.refs@.len() == old(self).refs@.len() + k - s.ref_pos,
                cells_view(self.refs) == cells_view(old(self).refs) + cells_view(
                    s.cell.refs,
                ).subrange(s.ref_pos as int, k as int),
            decreases s.cell.refs@.len() - k,
        {
            let ghost prevrefs = self.refs;
            let child = cell_clone(&s.cell.refs[k]);
            self.refs.push(child);
            proof {
                assert forall|j: int| 0 <= j < self.refs@.len() implies cells_view(self.refs)[j]
                    == (cells_view(old(self).refs) + cells_view(s.cell.refs).subrange(
                    s.ref_pos as int,
                    k + 1,
                ))[j] by {
                    assert(cells_view(self.refs)[j] == self.refs@[j]@);
                    if j < prevrefs@.len() {
                        assert(cells_view(prevrefs)[j] == prevrefs@[j]@);
                    }
                    if s.ref_pos <= j - old(self).refs@.len() + s.ref_pos < s.cell.refs@.len() {
                        assert(cells_view(s.cell.refs)[j - old(self).refs@.len() + s.ref_pos]
                            == s.cell.refs@[j - old(self).refs@.len() + s.ref_pos]@);
                    }
                }
                assert(cells_view(self.refs) =~= cells_view(old(self).refs) + cells_view(
                    s.cell.refs,
                ).subrange(s.ref_pos as int, k + 1));
            }
            k = k + 1;
        }
        proof {
            assert(cells_view(self.refs) =~= cells_view(old(self).refs) + s@.refs);
        }
        Ok(())
    }

    /// Seals the builder into an immutable cell.
    pub fn build(self) -> (r: Cell)
        requires
            self@.wf(),
        ensures
            r@ == self@,
            r@.wf(),
    {
        Cell { data: self.data, refs: self.refs }
    }

}

/// A read-only position-tracking view over a cell's bits and references.
pub struct CellSlice {
    pub cell: Cell,
    pub bit_pos: usize,
    pub ref_pos: usize,
}

/// Mathematical model of a cursor: the bits and the child cells not yet
/// consumed.
#[verifier::ext_equal]
pub ghost struct SliceV {
    pub data: Seq<bool>,
    pub refs: Seq<CellV>,
}

impl CellSlice {
    /// The remaining contents of this cursor.
    pub open spec fn view(&self) -> SliceV {
        SliceV {
            data: self.cell@.data.skip(self.bit_pos as int),
            refs: self.cell@.refs.skip(self.ref_pos as int),
        }
    }

    /// The cursor's positions lie inside its cell and the cell is within
    /// capacity limits.
    pub open spec fn wf(&self) -> bool {
        &&& self.cell@.wf()
        &&& self.bit_pos <= self.cell@.data.len()
        &&& self.ref_pos <= self.cell@.refs.len()
    }

    /// A cursor standing at the start of a cell.
    pub fn of_cell(c: &Cell) -> (r: CellSlice)
        requires
            c@.wf(),
        ensures
            r.wf(),
            r.cell@ == c@,
            r.bit_pos == 0,
            r.ref_pos == 0,
            r@.data == c@.data,
            r@.refs == c@.refs,
    {
        let r = CellSlice { cell: cell_clone(c), bit_pos: 0, ref_pos: 0 };
        proof {
            assert(r@.data =~= c@.data);
            assert(r@.refs =~= c@.refs);
        }
        r
    }

    /// Number of bits not yet consumed.
    pub fn remaining_bits(&self) -> (r: usize)
        requires
            self.wf(),
        ensures
            r == self@.data.len(),
    {
        self.cell.data.len() - self.bit_pos
    }

    /// Number of references not yet consumed.
    pub fn remaining_refs(&self) -> (r: usize)
        requires
            self.wf(),
        ensures
            r == self@.refs.len(),
    {
        self.cell.refs.len() - self.ref_pos
    }

    /// The bit offset inside the underlying cell at which the remaining data
    /// begins.
    pub fn offset_bits(&self) -> (r: usize)
        ensures
            r == self.bit_pos,
    {
        self.bit_pos
    }

    /// Consumes one bit, failing on an exhausted cursor.
    pub fn load_bit(&mut self) -> (r: Result<bool, DecodeError>)
        requires
            old(self).wf(),
        ensures
            final(self).wf(),
            final(self).cell == old(self).cell,
            final(self).ref_pos == old(self).ref_pos,
            r is Ok <==> old(self)@.data.len() > 0,
            r matches Ok(b) ==> b == old(self)@.data[0] && final(self).bit_pos == old(
                self,
            ).bit_pos + 1 && final(self)@.data == old(self)@.data.skip(1),
            r is Err ==> *final(self) == *old(self) && r == Err::<bool, DecodeError>(
                (DecodeError::CursorExhausted { bit: old(self).bit_pos as u64 }),
            ),
    {
        if self.bit_pos >= self.cell.data.len() {
            return Err(DecodeError::CursorExhausted { bit: self.bit_pos as u64 });
        }
        let b = self.cell.data[self.bit_pos];
        self.bit_pos = self.bit_pos + 1;
        proof {
            assert(self@.data =~= old(self)@.data.skip(1));
        }
        Ok(b)
    }

    /// Consumes `n` bits and returns their numeric value, most significant
    /// bit first.
    pub fn load_uint(&mut self, n: usize) -> (r: Result<u64, DecodeError>)
        requires
            old(self).wf(),
            n <= 64,
        ensures
            final(self).wf(),
            final(self).cell == old(self).cell,
            final(self).ref_pos == old(self).ref_pos,
            r is Ok <==> old(self)@.data.len() >= n,
            r matches Ok(v) ==> v as nat == bits_uint(old(self)@.data.take(n as int)) && final(self).bit_pos == old(self).bit_pos + n && final(self)@.data == old(self)@.data.skip(
                n as int,
            ),
            r is Err ==> *final(self) == *old(self) && r == Err::<u64, DecodeError>(
                (DecodeError::CursorExhausted { bit: old(self).bit_pos as u64 }),
            ),
    {
        if self.cell.data.len() - self.bit_pos < n {
            return Err(DecodeError::CursorExhausted { bit: self.bit_pos as u64 });
        }
        let mut v: u64 = 0;
        let mut i: usize = 0;
        proof {
            vstd::arithmetic::power2::lemma2_to64();
            assert(old(self)@.data.take(0) =~= Seq::<bool>::empty());
        }
        while i < n
            invariant
                old(self).wf(),
                *self == *old(self),
                i <= n,
                n <= 64,
                old(self).bit_pos + n <= old(self).cell.data@.len(),
                v as nat == bits_uint(old(self)@.data.take(i as int)),
                (v as nat) < pow2(i as nat),
            decreases n - i,
        {
            let b = self.cell.data[self.bit_pos + i];
            proof {
                vstd::arithmetic::power2::lemma2_to64();
                vstd::arithmetic::power2::lemma2_to64_rest();
                if (i as nat) < 63 {
                    vstd::arithmetic::power2::lemma_pow2_strictly_increases(i as nat, 63);
                }
                assert(v < 0x8000_0000_0000_0000);
                assert(old(self)@.data.take(i + 1).drop_last() =~= old(self)@.data.take(i as int));
                assert(old(self)@.data.take(i + 1).last() == old(self)@.data[i as int]);
                vstd::arithmetic::power2::lemma_pow2_unfold((i + 1) as nat);
            }
            v = v * 2 + if b {
                1
            } else {
                0
            };
            i = i + 1;
        }
        self.bit_pos = self.bit_pos + n;
        proof {
            assert(self@.data =~= old(self)@.data.skip(n as int));
        }
        Ok(v)
    }

    /// Clones the `i`-th remaining child reference without consuming it.
    pub fn get_reference_cloned(&self, i: usize) -> (r: Result<Cell, DecodeError>)
        requires
            self.wf(),
        ensures
            r is Ok <==> i < self@.refs.len(),
            r matches Ok(c) ==> c@ == self@.refs[i as int] && c@.wf(),
            r is Err ==> r == Err::<Cell, DecodeError>(
                (DecodeError::MissingReference { bit: self.bit_pos as u64 }),
            ),
    {
        if i >= self.cell.refs.len() - self.ref_pos {
            return Err(DecodeError::MissingReference { bit: self.bit_pos as u64 });
        }
        let c = cell_clone(&self.cell.refs[self.ref_pos + i]);
        proof {
            assert(cells_view(self.cell.refs)[self.ref_pos + i] == self.cell.refs@[self.ref_pos
                + i]@);
            assert(self@.refs[i as int] == self.cell@.refs[self.ref_pos + i]);
            lemma_wf_child(self.cell@, self.ref_pos + i);
        }
        Ok(c)
    }

    /// Consumes and returns the next child reference.
    pub fn load_reference(&mut self) -> (r: Result<Cell, DecodeError>)
        requires
            old(self).wf(),
        ensures
            final(self).wf(),
            final(self).cell == old(self).cell,
            final(self).bit_pos == old(self).bit_pos,
            r is Ok <==> old(self)@.refs.len() > 0,
            r matches Ok(c) ==> c@ == old(self)@.refs[0] && c@.wf() && final(self).ref_pos == old(
                self,
            ).ref_pos + 1 && final(self)@.refs == old(self)@.refs.skip(1),
            r is Err ==> *final(self) == *old(self) && r == Err::<Cell, DecodeError>(
                (DecodeError::MissingReference { bit: old(self).bit_pos as u64 }),
            ),
    {
        if self.ref_pos >= self.cell.refs.len() {
            return Err(DecodeError::MissingReference { bit: self.bit_pos as u64 });
        }
        let c = cell_clone(&self.cell.refs[self.ref_pos]);
        proof {
            assert(cells_view(self.cell.refs)[self.ref_pos as int] == self.cell.refs@[self.ref_pos
                as int]@);
            lemma_wf_child(self.cell@, self.ref_pos as int);
        }
        self.ref_pos = self.ref_pos + 1;
        proof {
            assert(self@.refs =~= old(self)@.refs.skip(1));
        }
        Ok(c)
    }
}

/// One step of the display fingerprint.
pub open spec fn fp_absorb(h: nat, x: nat) -> nat {
    (h * (FP_MUL as nat) + x) % (FP_MOD as nat)
}

/// Fingerprint state after absorbing a bit string.
pub open spec fn fp_over_bits(h: nat, s: Seq<bool>) -> nat
    decreases s.len(),
{
    if s.len() == 0 {
        h
    } else {
        fp_over_bits(
            fp_absorb(
                h,
                if s[0] {
                    2nat
                } else {
                    1nat
                },
            ),
            s.drop_first(),
        )
    }
}

/// Display fingerprint of a cell: a content-determined identifier that stands
/// in for the content hash when rendering listings.
pub open spec fn fp_cell(c: CellV) -> nat
    decreases c, 1int, 0int,
{
    fp_over_refs(fp_over_bits(fp_absorb(17, c.data.len()), c.data), c.refs, 0)
}

/// Fingerprint state after absorbing the fingerprints of children from index
/// `i` on.
pub open spec fn fp_over_refs(h: nat, refs: Seq<CellV>, i: int) -> nat
    decreases refs, 0int, refs.len() - i,
{
    if 0 <= i < refs.len() {
        fp_over_refs(fp_absorb(h, fp_cell(refs[i])), refs, i + 1)
    } else {
        h
    }
}

/// Computes the display fingerprint of a cell.
pub fn fingerprint(c: &Cell) -> (r: u64)
    ensures
        r as nat == fp_cell(c@),
        r < FP_MOD,
    decreases *c,
{
    let lenmod: u64 = (c.data.len() as u64) % FP_MOD;
    let mut h: u64 = (17 * FP_MUL + lenmod) % FP_MOD;
    proof {
        vstd::arithmetic::div_mod::lemma_add_mod_noop(
            17 * (FP_MUL as int),
            c.data.len() as int,
            FP_MOD as int,
        );
        assert(h as nat == fp_absorb(17, c@.data.len()));
        assert(c@.data.skip(0) =~= c@.data);
        assert(c@.refs.skip(0) =~= c@.refs);
    }
    let ghost h0 = h as nat;
    let mut i: usize = 0;
    while i < c.data.len()
        invariant
            i <= c.data@.len(),
            h < FP_MOD,
            fp_over_bits(h0, c@.data) == fp_over_bits(h as nat, c@.data.skip(i as int)),
        decreases c.data@.len() - i,
    {
        let x: u64 = if c.data[i] {
            2
        } else {
            1
        };
        proof {
            assert(c@.data.skip(i as int).drop_first() =~= c@.data.skip(i + 1));
            assert(c@.data.skip(i as int)[0] == c@.data[i as int]);
        }
        h = (h * FP_MUL + x) % FP_MOD;
        i = i + 1;
    }
    proof {
        assert(c@.data.skip(c.data@.len() as int) =~= Seq::<bool>::empty());
        assert(fp_over_bits(h0, c@.data) == h as nat);
    }
    let ghost h1 = h as nat;
    let mut k: usize = 0;
    while k < c.refs.len()
        invariant
            k <= c.refs@.len(),
            h < FP_MOD,
            fp_over_refs(h1, c@.refs, 0) == fp_over_refs(h as nat, c@.refs, k as int),
        decreases c.refs@.len() - k,
    {
        proof {
            assert(cells_view(c.refs)[k as int] == c.refs@[k as int]@);
        }
        let child_fp = fingerprint(&c.refs[k]);
        h = (h * FP_MUL + child_fp) % FP_MOD;
        k = k + 1;
    }
    proof {
        assert(fp_over_refs(h1, c@.refs, 0) == h as nat);
        assert(h as nat == fp_cell(c@));
    }
    h
}

} // verus!
