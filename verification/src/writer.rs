//! The assembler: linearizes a stream of opcode encodings, nested reference
//! subtrees and debug annotations into the minimum number of cells honoring
//! the capacity limits, keeping one reference slot of every open cell
//! reserved for the final chaining pass.

use vstd::prelude::*;
use crate::bits::{bits_of_bytes, bits_from_bytes};
use crate::cell::{
    Cell,
    CellV,
    CellBuilder,
    CellSlice,
    cells_view,
    cell_clone,
    fingerprint,
    lemma_wf_child,
    fp_cell,
    MAX_DATA_BITS,
    MAX_REFS,
};
use crate::error::PackError;

verus! {

broadcast use vstd::std_specs::vec::group_vec_axioms;

/// A source-level position recorded for a run of bits.
#[derive(Clone, Copy, Debug, PartialEq, Eq, Structural)]
pub struct DbgPos {
    pub line: u64,
    pub column: u64,
}

/// A debug-info node mirroring one cell: bit offsets within the cell mapped
/// to source positions, plus one child node per attached subtree.
pub struct DbgNode {
    pub entries: Vec<(usize, DbgPos)>,
    pub children: Vec<DbgNode>,
}

/// Mathematical model of a debug-info node.
#[verifier::ext_equal]
pub ghost struct DbgNodeV {
    pub entries: Seq<(usize, DbgPos)>,
    pub children: Seq<DbgNodeV>,
}

/// The models of a list of debug nodes.
pub open spec fn dbg_views(nodes: Vec<DbgNode>) -> Seq<DbgNodeV>
    decreases nodes,
{
    Seq::new(
        nodes@.len(),
        |i: int|
            if 0 <= i < nodes.len() {
                nodes[i].view()
            } else {
                arbitrary()
            },
    )
}

impl DbgNode {
    /// The mathematical value of this node.
    pub open spec fn view(&self) -> DbgNodeV
        decreases *self,
    {
        DbgNodeV { entries: self.entries@, children: dbg_views(self.children) }
    }
}

/// Every offset in the node and its descendants respects the cell bit limit.
pub open spec fn dbg_wf(d: DbgNodeV) -> bool
    decreases d,
{
    &&& entries_bounded(d.entries, MAX_DATA_BITS as int)
    &&& forall|i: int| 0 <= i < d.children.len() ==> dbg_wf(#[trigger] d.children[i])
}

/// Every recorded offset is at most `len`.
pub open spec fn entries_bounded(s: Seq<(usize, DbgPos)>, len: int) -> bool {
    forall|i: int| 0 <= i < s.len() ==> (#[trigger] s[i]).0 <= len
}

/// The entries shifted forward by `off` bits.
pub open spec fn shift_entries(s: Seq<(usize, DbgPos)>, off: int) -> Seq<(usize, DbgPos)> {
    Seq::new(s.len(), |i: int| (((s[i].0 + off) as usize), s[i].1))
}

impl DbgNode {
    /// An empty node.
    pub fn empty() -> (r: DbgNode)
        ensures
            r@.entries == Seq::<(usize, DbgPos)>::empty(),
            r@.children == Seq::<DbgNodeV>::empty(),
            dbg_wf(r@),
    {
        let r = DbgNode { entries: Vec::new(), children: Vec::new() };
        proof {
            assert(r@.entries =~= Seq::<(usize, DbgPos)>::empty());
            assert(r@.children =~= Seq::<DbgNodeV>::empty());
        }
        r
    }

    /// A node holding one position at offset zero.
    pub fn from_pos(pos: DbgPos) -> (r: DbgNode)
        ensures
            r@.entries == seq![(0usize, pos)],
            r@.children == Seq::<DbgNodeV>::empty(),
            dbg_wf(r@),
    {
        let mut entries: Vec<(usize, DbgPos)> = Vec::new();
        entries.push((0, pos));
        let r = DbgNode { entries, children: Vec::new() };
        proof {
            assert(r@.entries =~= seq![(0usize, pos)]);
            assert(r@.children =~= Seq::<DbgNodeV>::empty());
        }
        r
    }

    /// Merges `other` into this node as inlined content beginning at bit
    /// `offset`: every offset of `other` itself is shifted by `offset`, while
    /// its children — separate cells — keep their own offsets.
    pub fn inline_node(&mut self, offset: usize, other: DbgNode) -> (r: ())
        requires
            offset <= MAX_DATA_BITS,
            entries_bounded(other@.entries, MAX_DATA_BITS as int),
        ensures
            final(self)@.entries == old(self)@.entries + shift_entries(
                other@.entries,
                offset as int,
            ),
            final(self)@.children == old(self)@.children + other@.children,
    {
        let n = other.entries.len();
        let mut i: usize = 0;
        while i < n
            invariant
                n == other.entries@.len(),
                i <= n,
                offset <= MAX_DATA_BITS,
                entries_bounded(other@.entries, MAX_DATA_BITS as int),
                self.children == old(self).children,
                self.entries@ == old(self).entries@ + shift_entries(
                    other@.entries,
                    offset as int,
                ).take(i as int),
            decreases n - i,
        {
            let (o, p) = other.entries[i];
            proof {
                assert(other@.entries[i as int].0 <= MAX_DATA_BITS);
            }
            self.entries.push((o + offset, p));
            proof {
                assert(self.entries@ =~= old(self).entries@ + shift_entries(
                    other@.entries,
                    offset as int,
                ).take(i + 1));
            }
            i = i + 1;
        }
        proof {
            assert(self.entries@ =~= old(self).entries@ + shift_entries(
                other@.entries,
                offset as int,
            ));
        }
        let ghost oldchildren = self.children;
        let ghost otherchildren = other.children;
        let mut incoming = other.children;
        self.children.append(&mut incoming);
        proof {
            assert forall|j: int| 0 <= j < dbg_views(self.children).len() implies dbg_views(
                self.children,
            )[j] == (dbg_views(oldchildren) + dbg_views(otherchildren))[j] by {
                assert(dbg_views(self.children)[j] == self.children@[j]@);
                if j < oldchildren@.len() {
                    assert(dbg_views(oldchildren)[j] == oldchildren@[j]@);
                } else {
                    assert(dbg_views(otherchildren)[j - oldchildren@.len()]
                        == otherchildren@[j - oldchildren@.len()]@);
                }
            }
            assert(dbg_views(self.children) =~= dbg_views(oldchildren) + dbg_views(otherchildren));
            assert(final(self)@.entries =~= old(self)@.entries + shift_entries(
                other@.entries,
                offset as int,
            ));
        }
    }

    /// Attaches `other` as a child node: its offsets stay relative to its own
    /// cell and are not shifted.
    pub fn append_node(&mut self, other: DbgNode) -> (r: ())
        ensures
            final(self)@.entries == old(self)@.entries,
            final(self)@.children == old(self)@.children.push(other@),
    {
        let ghost oldchildren = self.children;
        let ghost otherv = other@;
        self.children.push(other);
        proof {
            assert forall|j: int| 0 <= j < dbg_views(self.children).len() implies dbg_views(
                self.children,
            )[j] == (dbg_views(oldchildren).push(otherv))[j] by {
                assert(dbg_views(self.children)[j] == self.children@[j]@);
                if j < oldchildren@.len() {
                    assert(dbg_views(oldchildren)[j] == oldchildren@[j]@);
                }
            }
            assert(dbg_views(self.children) =~= dbg_views(oldchildren).push(otherv));
        }
    }
}

/// One cell under construction, paired with the debug subtree accumulated
/// for the bits and references written so far.
pub struct Unit {
    pub builder: CellBuilder,
    pub dbg: DbgNode,
}

/// Mathematical model of a unit.
#[verifier::ext_equal]
pub ghost struct UnitV {
    pub cell: CellV,
    pub dbg: DbgNodeV,
}

impl Unit {
    /// The mathematical value of this unit.
    pub open spec fn view(&self) -> UnitV {
        UnitV { cell: self.builder@, dbg: self.dbg@ }
    }

    /// A unit around an existing builder and debug subtree.
    pub fn new(builder: CellBuilder, dbg: DbgNode) -> (r: Unit)
        ensures
            r@.cell == builder@,
            r@.dbg == dbg@,
    {
        Unit { builder, dbg }
    }

    /// An empty unit.
    pub fn empty() -> (r: Unit)
        ensures
            r@.cell.data == Seq::<bool>::empty(),
            r@.cell.refs == Seq::<CellV>::empty(),
            r@.dbg.entries == Seq::<(usize, DbgPos)>::empty(),
            r@.dbg.children == Seq::<DbgNodeV>::empty(),
            unit_wf(r),
    {
        let r = Unit { builder: CellBuilder::new(), dbg: DbgNode::empty() };
        proof {
            assert(r@.cell.wf());
        }
        r
    }
}

/// The debug map of one finished cell: its fingerprint and its offset-to-
/// position entries.
pub struct DbgInfoEntry {
    pub hash: u64,
    pub entries: Vec<(usize, DbgPos)>,
}

/// The persisted debug map of a finished tree, one entry per cell in
/// pre-order.
pub struct DbgInfo {
    pub cells: Vec<DbgInfoEntry>,
}

impl DbgInfo {
    /// The mathematical value of the map.
    pub open spec fn view(&self) -> Seq<(nat, Seq<(usize, DbgPos)>)> {
        Seq::new(self.cells@.len(), |i: int| (self.cells@[i].hash as nat, self.cells@[i].entries@))
    }

    /// The debug map of a cell and its mirroring debug tree.
    pub fn from_cell(cell: &Cell, dbg: &DbgNode) -> (r: DbgInfo)
        requires
            cell@.wf(),
        ensures
            r@ == spec_dbg_info(cell@, dbg@),
    {
        let mut out = DbgInfo { cells: Vec::new() };
        proof {
            assert(out@ =~= Seq::<(nat, Seq<(usize, DbgPos)>)>::empty());
        }
        dbg_info_build(cell, dbg, &mut out);
        proof {
            assert(out@ =~= Seq::<(nat, Seq<(usize, DbgPos)>)>::empty() + spec_dbg_info(
                cell@,
                dbg@,
            ));
        }
        out
    }
}

/// The debug map of a cell: the cell's own entry, then the maps of the
/// children paired with the debug subtrees, in order.
pub open spec fn spec_dbg_info(c: CellV, d: DbgNodeV) -> Seq<(nat, Seq<(usize, DbgPos)>)>
    decreases c, 1int, 0int,
{
    seq![(fp_cell(c), d.entries)] + spec_dbg_info_children(c, d, 0)
}

/// The debug maps of the children from index `i` on; a child without a
/// mirroring debug node, or the reverse, contributes nothing.
pub open spec fn spec_dbg_info_children(c: CellV, d: DbgNodeV, i: int) -> Seq<
    (nat, Seq<(usize, DbgPos)>),
>
    decreases c, 0int, c.refs.len() - i,
{
    if 0 <= i < c.refs.len() && i < d.children.len() {
        spec_dbg_info(c.refs[i], d.children[i]) + spec_dbg_info_children(c, d, i + 1)
    } else {
        Seq::empty()
    }
}

/// Walks a cell and its debug tree in parallel, appending one map entry per
/// visited cell.
fn dbg_info_build(cell: &Cell, dbg: &DbgNode, out: &mut DbgInfo)
    requires
        cell@.wf(),
    ensures
        final(out)@ == old(out)@ + spec_dbg_info(cell@, dbg@),
    decreases *cell,
{
    let h = fingerprint(cell);
    let mut entries: Vec<(usize, DbgPos)> = Vec::new();
    let mut i: usize = 0;
    while i < dbg.entries.len()
        invariant
            i <= dbg.entries@.len(),
            entries@ == dbg.entries@.take(i as int),
        decreases dbg.entries@.len() - i,
    {
        entries.push(dbg.entries[i]);
        proof {
            assert(entries@ =~= dbg.entries@.take(i + 1));
        }
        i = i + 1;
    }
    proof {
        assert(entries@ =~= dbg.entries@);
    }
    out.cells.push(DbgInfoEntry { hash: h, entries });
    proof {
        assert(out@ =~= old(out)@ + seq![(fp_cell(cell@), dbg@.entries)]);
    }
    let ghost rootv = old(out)@ + seq![(fp_cell(cell@), dbg@.entries)];
    let mut k: usize = 0;
    let bound = if cell.refs.len() < dbg.children.len() {
        cell.refs.len()
    } else {
        dbg.children.len()
    };
    while k < bound
        invariant
            cell@.wf(),
            bound <= cell.refs@.len(),
            bound <= dbg.children@.len(),
            bound == if cell.refs@.len() < dbg.children@.len() {
                cell.refs@.len()
            } else {
                dbg.children@.len()
            },
            k <= bound,
            rootv + spec_dbg_info_children(cell@, dbg@, 0) == out@ + spec_dbg_info_children(
                cell@,
                dbg@,
                k as int,
            ),
        decreases bound - k,
    {
        proof {
            lemma_wf_child(cell@, k as int);
            assert(cells_view(cell.refs)[k as int] == cell.refs@[k as int]@);
            assert(dbg_views(dbg.children)[k as int] == dbg.children@[k as int]@);
        }
        dbg_info_build(&cell.refs[k], &dbg.children[k], out);
        proof {
            assert(rootv + spec_dbg_info_children(cell@, dbg@, 0) =~= out@
                + spec_dbg_info_children(cell@, dbg@, k + 1));
        }
        k = k + 1;
    }
    proof {
        assert(spec_dbg_info_children(cell@, dbg@, bound as int) =~= Seq::<
            (nat, Seq<(usize, DbgPos)>),
        >::empty());
        assert(final(out)@ =~= old(out)@ + spec_dbg_info(cell@, dbg@));
    }
}

impl Unit {
    /// Seals the unit: builds its cell and flattens its debug tree into the
    /// persisted fingerprint-keyed map.
    pub fn finalize(self) -> (r: (Cell, DbgInfo))
        requires
            self.builder@.wf(),
        ensures
            r.0@ == self@.cell,
            r.0@.wf(),
            r.1@ == spec_dbg_info(self@.cell, self@.dbg),
    {
        let Unit { builder, dbg } = self;
        let cell = builder.build();
        let info = DbgInfo::from_cell(&cell, &dbg);
        (cell, info)
    }
}

/// The unit's builder is within capacity and its debug offsets lie inside
/// the accumulated bits.
pub open spec fn unit_sane(u: Unit) -> bool {
    &&& u.builder@.wf()
    &&& dbg_wf(u.dbg@)
    &&& entries_bounded(u.dbg@.entries, u.builder@.data.len() as int)
}

/// A sane unit that moreover keeps one reference slot reserved for the
/// chaining done at finalization.
pub open spec fn unit_wf(u: Unit) -> bool {
    &&& unit_sane(u)
    &&& u.builder@.refs.len() + 1 <= MAX_REFS
}

/// The models of a stack of units.
pub open spec fn units_view(v: Vec<Unit>) -> Seq<UnitV> {
    Seq::new(v@.len(), |i: int| v@[i]@)
}

/// How one unit is folded into the one below it at finalization: inline its
/// bits and references when they fit, otherwise attach it as one child
/// reference, the debug subtree following the same rule.
pub open spec fn merge_units(dest: UnitV, cursor: UnitV) -> UnitV {
    if dest.cell.data.len() + cursor.cell.data.len() <= MAX_DATA_BITS && dest.cell.refs.len()
        + cursor.cell.refs.len() <= MAX_REFS {
        UnitV {
            cell: CellV {
                data: dest.cell.data + cursor.cell.data,
                refs: dest.cell.refs + cursor.cell.refs,
            },
            dbg: DbgNodeV {
                entries: dest.dbg.entries + shift_entries(
                    cursor.dbg.entries,
                    dest.cell.data.len() as int,
                ),
                children: dest.dbg.children + cursor.dbg.children,
            },
        }
    } else {
        UnitV {
            cell: CellV { data: dest.cell.data, refs: dest.cell.refs.push(cursor.cell) },
            dbg: DbgNodeV {
                entries: dest.dbg.entries,
                children: dest.dbg.children.push(cursor.dbg),
            },
        }
    }
}

/// The single unit left after folding the stack tail-to-head.
pub open spec fn collapse_units(s: Seq<UnitV>) -> UnitV
    decreases s.len(),
{
    if s.len() <= 1 {
        if s.len() == 1 {
            s[0]
        } else {
            arbitrary()
        }
    } else {
        collapse_units(
            s.drop_last().update(s.len() - 2, merge_units(s[s.len() - 2], s.last())),
        )
    }
}

/// Appends every cell of `refs` to `builder` as a child reference, stopping
/// early when a slot is missing; the builder's bits are never touched.
pub fn checked_append_references(builder: &mut CellBuilder, refs: &Vec<Cell>) -> (ok: bool)
    requires
        old(builder)@.refs.len() <= MAX_REFS,
        forall|i: int| 0 <= i < refs@.len() ==> (#[trigger] cells_view(*refs)[i]).wf(),
    ensures
        ok <==> old(builder)@.refs.len() + refs@.len() <= MAX_REFS,
        final(builder)@.data == old(builder)@.data,
        ok ==> final(builder)@.refs == old(builder)@.refs + cells_view(*refs),
    {
    let n = refs.len();
    let mut i: usize = 0;
    while i < n
        invariant
            n == refs@.len(),
            i <= n,
            forall|j: int| 0 <= j < refs@.len() ==> (#[trigger] cells_view(*refs)[j]).wf(),
            builder@.data == old(builder)@.data,
            builder@.refs == old(builder)@.refs + cells_view(*refs).take(i as int),
            old(builder)@.refs.len() + i <= MAX_REFS,
        decreases n - i,
    {
        proof {
            assert(cells_view(*refs)[i as int] == refs@[i as int]@);
        }
        let cell = cell_clone(&refs[i]);
        if builder.store_reference(cell).is_err() {
            proof {
                assert(old(builder)@.refs.len() + refs@.len() > MAX_REFS);
            }
            return false;
        }
        proof {
            assert(builder@.refs =~= old(builder)@.refs + cells_view(*refs).take(i + 1));
        }
        i = i + 1;
    }
    proof {
        assert(builder@.refs =~= old(builder)@.refs + cells_view(*refs));
    }
    true
}

/// The ordered stack of units being written; never empty.
pub struct Units {
    pub units: Vec<Unit>,
}

impl Default for Units {
    /// The default stack holds a single empty unit.
    fn default() -> (r: Units)
        ensures
            r.wf(),
            r@.len() == 1,
            r@[0].cell.data == Seq::<bool>::empty(),
            r@[0].cell.refs == Seq::<CellV>::empty(),
    {
        Units::new()
    }
}

impl Units {
    /// The mathematical value of the stack.
    pub open spec fn view(&self) -> Seq<UnitV> {
        units_view(self.units)
    }

    /// The stack holds at least one unit and every unit is within capacity
    /// with one reference slot reserved.
    pub open spec fn wf(&self) -> bool {
        &&& self.units@.len() >= 1
        &&& forall|i: int| 0 <= i < self.units@.len() ==> unit_wf(#[trigger] self.units@[i])
    }

    /// A stack holding a single empty unit.
    pub fn new() -> (r: Units)
        ensures
            r.wf(),
            r@.len() == 1,
            r@[0].cell.data == Seq::<bool>::empty(),
            r@[0].cell.refs == Seq::<CellV>::empty(),
            r@[0].dbg.entries == Seq::<(usize, DbgPos)>::empty(),
            r@[0].dbg.children == Seq::<DbgNodeV>::empty(),
    {
        let mut units: Vec<Unit> = Vec::new();
        units.push(Unit::empty());
        let r = Units { units };
        r
    }

    /// Pushes an already assembled unit onto the stack.
    pub fn write_unit(&mut self, unit: Unit) -> (r: Result<(), PackError>)
        requires
            old(self).wf(),
            unit_wf(unit),
        ensures
            final(self).wf(),
            final(self)@ == old(self)@.push(unit@),
            r is Ok,
    {
        let ghost oldunits = self.units;
        let ghost unitv = unit@;
        self.units.push(unit);
        proof {
            assert(final(self)@ =~= old(self)@.push(unitv));
        }
        Ok(())
    }

    /// Writes a byte-aligned command.
    pub fn write_command(&mut self, command: &Vec<u8>, dbg: DbgNode) -> (r: Result<(), PackError>)
        requires
            old(self).wf(),
            command@.len() * 8 <= usize::MAX,
            dbg_wf(dbg@),
            entries_bounded(dbg@.entries, (command@.len() * 8) as int),
        ensures
            final(self).wf(),
            r is Ok <==> command@.len() * 8 <= MAX_DATA_BITS,
            write_bitstring_post(old(self)@, final(self)@, bits_of_bytes(command@), dbg@),
    {
        let nbits = command.len() * 8;
        proof {
            assert(bits_of_bytes(command@).take((command@.len() * 8) as int) =~= bits_of_bytes(
                command@,
            ));
        }
        self.write_command_bitstring(command, nbits, dbg)
    }

    /// Writes a command of `bits` bits: appended to the open cell when it
    /// fits, else placed into a fresh cell; fails only when the pattern alone
    /// cannot fit in an empty cell.
    pub fn write_command_bitstring(&mut self, command: &Vec<u8>, bits: usize, dbg: DbgNode) -> (r:
        Result<(), PackError>)
        requires
            old(self).wf(),
            bits <= command@.len() * 8,
            command@.len() * 8 <= usize::MAX,
            dbg_wf(dbg@),
            entries_bounded(dbg@.entries, bits as int),
        ensures
            final(self).wf(),
            r is Ok <==> bits <= MAX_DATA_BITS,
            write_bitstring_post(
                old(self)@,
                final(self)@,
                bits_of_bytes(command@).take(bits as int),
                dbg@,
            ),
    {
        if bits > MAX_DATA_BITS {
            return Err(PackError::NotFitInSlice);
        }
        let b = bits_from_bytes(command, bits);
        let ghost oldv = self@;
        let last_opt = self.units.pop();
        let mut last = match last_opt {
            Some(u) => u,
            None => {
                proof {
                    assert(false);
                }
                return Err(PackError::NotFitInSlice);
            },
        };
        proof {
            assert(oldv[oldv.len() - 1] == last@);
            assert(unit_wf(last));
        }
        if last.builder.size_bits() <= MAX_DATA_BITS - bits {
            let orig_offset = last.builder.size_bits();
            let stored = last.builder.store_bits(&b);
            proof {
                assert(stored is Ok);
            }
            last.dbg.inline_node(orig_offset, dbg);
            let ghost lastv = last@;
            self.units.push(last);
            proof {
                assert(units_view(self.units) =~= oldv.update(oldv.len() - 1, lastv));
                assert(unit_wf(self.units@[self.units@.len() - 1]));
            }
            Ok(())
        } else {
            self.units.push(last);
            proof {
                assert(units_view(self.units) =~= oldv);
            }
            let builder = match CellBuilder::from_raw_bits(b) {
                Ok(builder) => builder,
                Err(e) => {
                    proof {
                        assert(false);
                    }
                    return Err(e);
                },
            };
            let fresh = Unit::new(builder, dbg);
            let ghost freshv = fresh@;
            self.units.push(fresh);
            proof {
                assert(units_view(self.units) =~= oldv.push(freshv));
                assert(freshv.cell.refs =~= Seq::<CellV>::empty());
                assert(unit_wf(self.units@[self.units@.len() - 1]));
            }
            Ok(())
        }
    }

    /// Writes a command that additionally attaches child subtrees to the same
    /// cell as its bit pattern, reserving one reference slot.
    pub fn write_composite_command(
        &mut self,
        command: &Vec<u8>,
        references: Vec<Cell>,
        dbg: DbgNode,
    ) -> (r: Result<(), PackError>)
        requires
            old(self).wf(),
            command@.len() * 8 <= usize::MAX,
            forall|i: int|
                0 <= i < references@.len() ==> (#[trigger] cells_view(references)[i]).wf(),
            dbg@.children.len() == references@.len(),
            dbg_wf(dbg@),
            entries_bounded(dbg@.entries, (command@.len() * 8) as int),
        ensures
            final(self).wf(),
            r is Ok <==> command@.len() * 8 <= MAX_DATA_BITS && references@.len() + 1 <= MAX_REFS,
            write_composite_post(
                old(self)@,
                final(self)@,
                bits_of_bytes(command@),
                cells_view(references),
                dbg@,
            ),
    {
        let nbits = command.len() * 8;
        let nrefs = references.len();
        if nbits > MAX_DATA_BITS || nrefs >= MAX_REFS {
            return Err(PackError::NotFitInSlice);
        }
        let b = bits_from_bytes(command, nbits);
        proof {
            assert(b@ =~= bits_of_bytes(command@));
        }
        let ghost oldv = self@;
        let last_opt = self.units.pop();
        let mut last = match last_opt {
            Some(u) => u,
            None => {
                proof {
                    assert(false);
                }
                return Err(PackError::NotFitInSlice);
            },
        };
        proof {
            assert(oldv[oldv.len() - 1] == last@);
            assert(unit_wf(last));
        }
        if last.builder.spare_capacity_refs() > nrefs && last.builder.size_bits() <= MAX_DATA_BITS
            - nbits {
            let orig_offset = last.builder.size_bits();
            let stored = last.builder.store_bits(&b);
            proof {
                assert(stored is Ok);
            }
            let appended = checked_append_references(&mut last.builder, &references);
            proof {
                assert(appended);
            }
            last.dbg.inline_node(orig_offset, dbg);
            let ghost lastv = last@;
            self.units.push(last);
            proof {
                assert(units_view(self.units) =~= oldv.update(oldv.len() - 1, lastv));
                assert(unit_wf(self.units@[self.units@.len() - 1]));
            }
            Ok(())
        } else {
            self.units.push(last);
            proof {
                assert(units_view(self.units) =~= oldv);
            }
            let mut builder = match CellBuilder::from_raw_bits(b) {
                Ok(builder) => builder,
                Err(e) => {
                    proof {
                        assert(false);
                    }
                    return Err(e);
                },
            };
            let appended = checked_append_references(&mut builder, &references);
            proof {
                assert(appended);
            }
            let fresh = Unit::new(builder, dbg);
            let ghost freshv = fresh@;
            self.units.push(fresh);
            proof {
                assert(units_view(self.units) =~= oldv.push(freshv));
                assert(unit_wf(self.units@[self.units@.len() - 1]));
            }
            Ok(())
        }
    }

    /// Collapses the stack tail-to-head into a single root unit: each unit is
    /// inlined into its predecessor when it fits, else attached as one child
    /// reference, with the debug tree following the same rule.
    pub fn finalize(self) -> (r: (CellBuilder, DbgNode))
        requires
            self.wf(),
        ensures
            r.0@ == collapse_units(self@).cell,
            r.1@ == collapse_units(self@).dbg,
            r.0@.wf(),
            entries_bounded(collapse_units(self@).dbg.entries, r.0@.data.len() as int),
            dbg_wf(collapse_units(self@).dbg),
    {
        let ghost origv = self@;
        let mut units = self.units;
        let cursor_opt = units.pop();
        let mut cursor = match cursor_opt {
            Some(u) => u,
            None => {
                proof {
                    assert(false);
                }
                Unit::empty()
            },
        };
        proof {
            assert(units_view(units).push(cursor@) =~= origv);
        }
        while units.len() > 0
            invariant
                collapse_units(origv) == collapse_units(units_view(units).push(cursor@)),
                forall|i: int| 0 <= i < units@.len() ==> unit_wf(#[trigger] units@[i]),
                unit_sane(cursor),
            decreases units@.len(),
        {
            let ghost prestack = units_view(units).push(cursor@);
            let dest_opt = units.pop();
            let mut destination = match dest_opt {
                Some(u) => u,
                None => {
                    proof {
                        assert(false);
                    }
                    Unit::empty()
                },
            };
            proof {
                assert(destination@ == prestack[prestack.len() - 2]);
                assert(unit_wf(destination));
            }
            let ghost destv = destination@;
            let ghost cursorv = cursor@;
            let orig_offset = destination.builder.size_bits();
            let Unit { builder: cbuilder, dbg: cdbg } = cursor;
            let cell = cbuilder.build();
            let slice = CellSlice::of_cell(&cell);
            proof {
                assert(slice@.data =~= cell@.data);
                assert(slice@.refs =~= cell@.refs);
            }
            if destination.builder.store_slice(&slice).is_ok() {
                destination.dbg.inline_node(orig_offset, cdbg);
            } else {
                let stored = destination.builder.store_reference(cell);
                proof {
                    assert(stored is Ok);
                }
                destination.dbg.append_node(cdbg);
            }
            proof {
                assert(destination@ =~= merge_units(destv, cursorv));
            }
            cursor = destination;
            proof {
                assert(prestack.drop_last().update(prestack.len() - 2, merge_units(destv, cursorv))
                    =~= units_view(units).push(cursor@));
                assert(collapse_units(prestack) == collapse_units(
                    units_view(units).push(cursor@),
                ));
            }
        }
        proof {
            assert(units_view(units).push(cursor@) =~= seq![cursor@]);
            assert(collapse_units(origv) == cursor@);
        }
        (cursor.builder, cursor.dbg)
    }
}

/// The relation between the unit stacks before and after a bitstring write of
/// bit pattern `b` with debug node `d`.
pub open spec fn write_bitstring_post(
    pre: Seq<UnitV>,
    post: Seq<UnitV>,
    b: Seq<bool>,
    d: DbgNodeV,
) -> bool {
    let last = pre[pre.len() - 1];
    if last.cell.data.len() + b.len() <= MAX_DATA_BITS {
        post == pre.update(
            pre.len() - 1,
            (UnitV {
                cell: CellV { data: last.cell.data + b, refs: last.cell.refs },
                dbg: DbgNodeV {
                    entries: last.dbg.entries + shift_entries(d.entries, last.cell.data.len() as int),
                    children: last.dbg.children + d.children,
                },
            }),
        )
    } else if b.len() <= MAX_DATA_BITS {
        post == pre.push(
            (UnitV { cell: CellV { data: b, refs: Seq::<CellV>::empty() }, dbg: d }),
        )
    } else {
        post == pre
    }
}

/// The relation between the unit stacks before and after a composite write of
/// bit pattern `b` with attached subtrees `refs` and debug node `d`.
pub open spec fn write_composite_post(
    pre: Seq<UnitV>,
    post: Seq<UnitV>,
    b: Seq<bool>,
    refs: Seq<CellV>,
    d: DbgNodeV,
) -> bool {
    let last = pre[pre.len() - 1];
    if last.cell.refs.len() + refs.len() + 1 <= MAX_REFS && last.cell.data.len() + b.len()
        <= MAX_DATA_BITS {
        post == pre.update(
            pre.len() - 1,
            (UnitV {
                cell: CellV { data: last.cell.data + b, refs: last.cell.refs + refs },
                dbg: DbgNodeV {
                    entries: last.dbg.entries + shift_entries(d.entries, last.cell.data.len() as int),
                    children: last.dbg.children + d.children,
                },
            }),
        )
    } else if b.len() <= MAX_DATA_BITS && refs.len() + 1 <= MAX_REFS {
        post == pre.push((UnitV { cell: CellV { data: b, refs: refs }, dbg: d }))
    } else {
        post == pre
    }
}

} // verus!
