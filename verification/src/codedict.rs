//! The dictionary side of the decoder: the elaboration pass that recognizes
//! the push-constant-dictionary / dictionary-jump idiom, and the extractor
//! that correlates a jump-table's physical cell layout with its logical
//! key-to-code mapping.
//!
//! The dictionary layout recognized here is the cell model's own fixed-key
//! prefix tree: each node carries a label written as a binary-width length
//! field followed by that many label bits, a leaf holds its value in the
//! rest of the node, and an inner node forks into exactly two children, one
//! per next key bit. It stands in for the substrate's richer label
//! encodings in the same way the cell model stands in for substrate cells;
//! a tree in any other layout is reported as malformed.

use vstd::prelude::*;
use crate::cell::{Cell, CellV, CellSlice, cell_clone, cell_eq, cells_view, lemma_wf_child};
use crate::bits::{bits_uint, len_bits, bits_vec_value};
use crate::error::{DecodeError, DictError};
use crate::insn::{
    Code,
    Instruction,
    InstructionParameter,
    InsnV,
    ParamV,
    Opcode,
    clone_param,
    clone_insn,
};

verus! {

broadcast use vstd::std_specs::vec::group_vec_axioms;

/// Whether an opcode is one of the dictionary-get-and-jump instructions.
pub open spec fn is_dict_jump(op: Opcode) -> bool {
    op == Opcode::DictUGetJmp || op == Opcode::DictUGetJmpZ
}

/// Whether an opcode pushes a constant dictionary.
pub open spec fn is_dict_push(op: Opcode) -> bool {
    op == Opcode::DictPushConst || op == Opcode::PfxDictSwitch
}

/// Whether an adjacent pair forms the push-constant / dictionary-jump idiom.
pub open spec fn pair_matches(a: InsnV, b: InsnV) -> bool {
    is_dict_push(a.op) && is_dict_jump(b.op)
}

/// Whether the instruction at an index opens a matched aligned pair: pairs
/// are scanned in aligned, non-overlapping windows of two.
pub open spec fn opens_pair(s: Seq<InsnV>, i: int) -> bool {
    i % 2 == 0 && i + 1 < s.len() && pair_matches(s[i], s[i + 1])
}

/// The flat elaboration of one code sequence: within each aligned pair of
/// instructions that forms the idiom, the first instruction gains exactly one
/// marker parameter; every other instruction is untouched.
pub open spec fn process_spec(s: Seq<InsnV>) -> Seq<InsnV> {
    Seq::new(
        s.len(),
        |i: int|
            if opens_pair(s, i) {
                InsnV { op: s[i].op, params: s[i].params.push(ParamV::CodeDictMarker) }
            } else {
                s[i]
            },
    )
}

/// The recursive elaboration: the flat pass applied to every code node,
/// nested code included.
pub open spec fn elaborate_spec(s: Seq<InsnV>) -> Seq<InsnV>
    decreases s, 2int,
{
    Seq::new(
        s.len(),
        |i: int|
            if 0 <= i < s.len() {
                elab_insn(s[i], opens_pair(s, i))
            } else {
                arbitrary()
            },
    )
}

/// One instruction elaborated: nested code elaborated, and a marker appended
/// when the instruction opens a matched pair.
pub open spec fn elab_insn(i: InsnV, marked: bool) -> InsnV
    decreases i, 1int,
{
    InsnV {
        op: i.op,
        params: if marked {
            elab_params(i.params).push(ParamV::CodeDictMarker)
        } else {
            elab_params(i.params)
        },
    }
}

/// Operands elaborated: nested code descends, everything else is untouched.
pub open spec fn elab_params(ps: Seq<ParamV>) -> Seq<ParamV>
    decreases ps, 2int,
{
    Seq::new(
        ps.len(),
        |j: int|
            if 0 <= j < ps.len() {
                match ps[j] {
                    ParamV::Code { code, cell } => ParamV::Code {
                        code: elaborate_spec(code),
                        cell,
                    },
                    p => p,
                }
            } else {
                arbitrary()
            },
    )
}

/// Whether two adjacent instructions form the idiom.
pub fn match_dictpushconst_dictugetjmp(first: &Instruction, second: &Instruction) -> (r: bool)
    ensures
        r <==> pair_matches(first@, second@),
{
    let snd = second.op;
    if !(snd == Opcode::DictUGetJmp || snd == Opcode::DictUGetJmpZ) {
        return false;
    }
    let fst = first.op;
    fst == Opcode::DictPushConst || fst == Opcode::PfxDictSwitch
}

impl Code {
    /// The flat elaboration pass over this node only.
    pub fn process_dictpushconst_dictugetjmp(code: &mut Code) -> (r: ())
        ensures
            final(code)@ == process_spec(old(code)@),
    {
        let n = code.insns.len();
        let mut out: Vec<Instruction> = Vec::new();
        let mut i: usize = 0;
        while i < n
            invariant
                n == code.insns@.len(),
                *code == *old(code),
                i <= n,
                out@.len() == i,
                forall|k: int| 0 <= k < i ==> #[trigger] out@[k]@ == process_spec(old(code)@)[k],
            decreases n - i,
        {
            let marked = if i % 2 == 0 && i + 1 < n {
                match_dictpushconst_dictugetjmp(&code.insns[i], &code.insns[i + 1])
            } else {
                false
            };
            proof {
                assert(code@[i as int] == code.insns@[i as int]@);
                if i + 1 < n {
                    assert(code@[i as int + 1] == code.insns@[i as int + 1]@);
                }
                assert(marked == opens_pair(old(code)@, i as int));
            }
            let mut insn = clone_insn(&code.insns[i]);
            if marked {
                let ghost before = insn@;
                insn.params.push(InstructionParameter::CodeDictMarker);
                proof {
                    assert forall|k: int| 0 <= k < insn@.params.len() implies insn@.params[k]
                        == before.params.push(ParamV::CodeDictMarker)[k] by {
                        assert(insn@.params[k] == insn.params@[k]@);
                        if k < before.params.len() {
                            assert(before.params[k] == insn.params@[k]@);
                        }
                    }
                    assert(insn@.params =~= before.params.push(ParamV::CodeDictMarker));
                    assert(insn@ =~= process_spec(old(code)@)[i as int]);
                }
            }
            out.push(insn);
            i = i + 1;
        }
        *code = Code { insns: out };
        proof {
            assert forall|k: int| 0 <= k < final(code)@.len() implies final(code)@[k]
                == process_spec(old(code)@)[k] by {
                assert(final(code)@[k] == final(code).insns@[k]@);
            }
            assert(final(code)@ =~= process_spec(old(code)@));
        }
    }

    /// Applies the flat pass to this node and, by rebuilding each
    /// instruction, to every nested code node.
    pub fn traverse_code_tree(&mut self) -> (r: ())
        ensures
            final(self)@ == elaborate_spec(old(self)@),
    {
        let elaborated = elaborate_code(&*self);
        *self = elaborated;
    }

    /// The idiom-elaboration entry point: marks every aligned
    /// push-constant-dictionary / dictionary-jump pair in the whole tree.
    pub fn elaborate_dictpushconst_dictugetjmp(&mut self) -> (r: ())
        ensures
            final(self)@ == elaborate_spec(old(self)@),
    {
        self.traverse_code_tree()
    }
}

/// The first bit offset at or after `off` at which the cell data, read to
/// its end, equals the target bits.
pub open spec fn first_align(data: Seq<bool>, tb: Seq<bool>, off: int) -> Option<int>
    decreases data.len() - off + 1,
{
    if off > data.len() || off < 0 {
        None
    } else if data.skip(off) == tb {
        Some(off)
    } else {
        first_align(data, tb, off + 1)
    }
}

/// Where a value with bits `tb` and references `tr` lives inside the subtree
/// `c`: the current node is checked first — its references must agree
/// reference-by-reference, and its data must align with the value at some
/// offset — and otherwise the children are searched in index order.
pub open spec fn spec_locate(c: CellV, tb: Seq<bool>, tr: Seq<CellV>, path: Seq<u8>) -> Option<
    (Seq<u8>, int),
>
    decreases c, 1int, 0int,
{
    if c.refs == tr && first_align(c.data, tb, 0) is Some {
        Some((path, first_align(c.data, tb, 0)->Some_0))
    } else {
        spec_locate_children(c, tb, tr, path, 0)
    }
}

/// The first successful location among the children from index `i` on.
pub open spec fn spec_locate_children(
    c: CellV,
    tb: Seq<bool>,
    tr: Seq<CellV>,
    path: Seq<u8>,
    i: int,
) -> Option<(Seq<u8>, int)>
    decreases c, 0int, c.refs.len() - i,
{
    if 0 <= i < c.refs.len() {
        match spec_locate(c.refs[i], tb, tr, path.push(i as u8)) {
            Some(v) => Some(v),
            None => spec_locate_children(c, tb, tr, path, i + 1),
        }
    } else {
        None
    }
}

/// The cell reached from `c` by following child indices in `p`.
pub open spec fn follow_path(c: CellV, p: Seq<u8>) -> Option<CellV>
    decreases p.len(),
{
    if p.len() == 0 {
        Some(c)
    } else if 0 <= p[0] < c.refs.len() {
        follow_path(c.refs[p[0] as int], p.skip(1))
    } else {
        None
    }
}

/// Soundness of location: a found position really holds the value — the
/// path leads to a node whose references equal the value's and whose data
/// from the offset on is bit-for-bit the value's data.
pub proof fn lemma_locate_sound(c: CellV, tb: Seq<bool>, tr: Seq<CellV>, p: Seq<u8>, off: int)
    requires
        c.wf(),
        spec_locate(c, tb, tr, Seq::empty()) == Some((p, off)),
    ensures
        follow_path(c, p) is Some,
        follow_path(c, p)->Some_0.refs == tr,
        follow_path(c, p)->Some_0.data.skip(off) == tb,
        0 <= off <= follow_path(c, p)->Some_0.data.len(),
{
    lemma_locate_sound_rec(c, tb, tr, Seq::empty(), p, off);
    assert(p.skip(0) =~= p);
}

/// The generalization of location soundness over an accumulated path prefix.
proof fn lemma_locate_sound_rec(
    c: CellV,
    tb: Seq<bool>,
    tr: Seq<CellV>,
    prefix: Seq<u8>,
    p: Seq<u8>,
    off: int,
)
    requires
        c.wf(),
        spec_locate(c, tb, tr, prefix) == Some((p, off)),
    ensures
        prefix.len() <= p.len(),
        prefix == p.take(prefix.len() as int),
        follow_path(c, p.skip(prefix.len() as int)) is Some,
        follow_path(c, p.skip(prefix.len() as int))->Some_0.refs == tr,
        follow_path(c, p.skip(prefix.len() as int))->Some_0.data.skip(off) == tb,
        0 <= off <= follow_path(c, p.skip(prefix.len() as int))->Some_0.data.len(),
    decreases c, 1int, 0int,
{
    if c.refs == tr && first_align(c.data, tb, 0) is Some {
        lemma_first_align_sound(c.data, tb, 0);
        assert(p == prefix);
        assert(p.skip(p.len() as int) =~= Seq::<u8>::empty());
        assert(prefix =~= p.take(prefix.len() as int));
    } else {
        lemma_locate_children_sound(c, tb, tr, prefix, 0, p, off);
    }
}

/// Soundness of the child search.
proof fn lemma_locate_children_sound(
    c: CellV,
    tb: Seq<bool>,
    tr: Seq<CellV>,
    prefix: Seq<u8>,
    i: int,
    p: Seq<u8>,
    off: int,
)
    requires
        c.wf(),
        spec_locate_children(c, tb, tr, prefix, i) == Some((p, off)),
    ensures
        prefix.len() <= p.len(),
        prefix == p.take(prefix.len() as int),
        follow_path(c, p.skip(prefix.len() as int)) is Some,
        follow_path(c, p.skip(prefix.len() as int))->Some_0.refs == tr,
        follow_path(c, p.skip(prefix.len() as int))->Some_0.data.skip(off) == tb,
        0 <= off <= follow_path(c, p.skip(prefix.len() as int))->Some_0.data.len(),
    decreases c, 0int, c.refs.len() - i,
{
    if 0 <= i < c.refs.len() {
        match spec_locate(c.refs[i], tb, tr, prefix.push(i as u8)) {
            Some(v) => {
                lemma_wf_child(c, i);
                lemma_locate_sound_rec(c.refs[i], tb, tr, prefix.push(i as u8), p, off);
                let l = prefix.len() as int;
                assert(prefix.push(i as u8) == p.take(l + 1));
                assert(p.len() >= l + 1);
                assert forall|k: int| 0 <= k < l implies prefix[k] == p[k] by {
                    assert(prefix.push(i as u8)[k] == p.take(l + 1)[k]);
                }
                assert(prefix =~= p.take(l));
                assert(prefix.push(i as u8)[l] == p.take(l + 1)[l]);
                assert(p[l] == i as u8);
                let rest = p.skip(l);
                assert(rest.len() > 0);
                assert(rest[0] == p[l]);
                assert(rest.skip(1) =~= p.skip(l + 1));
                assert(follow_path(c, rest) == follow_path(c.refs[i as int], rest.skip(1)));
            },
            None => {
                lemma_locate_children_sound(c, tb, tr, prefix, i + 1, p, off);
            },
        }
    }
}

/// A found alignment really is an alignment.
proof fn lemma_first_align_sound(data: Seq<bool>, tb: Seq<bool>, off: int)
    requires
        first_align(data, tb, off) is Some,
    ensures
        0 <= first_align(data, tb, off)->Some_0 <= data.len(),
        data.skip(first_align(data, tb, off)->Some_0) == tb,
        first_align(data, tb, off)->Some_0 >= off,
    decreases data.len() - off + 1,
{
    if off > data.len() || off < 0 {
    } else if data.skip(off) == tb {
    } else {
        lemma_first_align_sound(data, tb, off + 1);
    }
}

/// Whether the remaining data of two cursors is bit-for-bit equal.
pub fn slice_eq_data(lhs: &CellSlice, rhs: &CellSlice) -> (r: bool)
    requires
        lhs.wf(),
        rhs.wf(),
    ensures
        r <==> lhs@.data == rhs@.data,
{
    let n = lhs.remaining_bits();
    if n != rhs.remaining_bits() {
        proof {
            assert(lhs@.data.len() != rhs@.data.len());
        }
        return false;
    }
    let mut i: usize = 0;
    while i < n
        invariant
            lhs.wf(),
            rhs.wf(),
            n == lhs@.data.len() == rhs@.data.len(),
            i <= n,
            forall|k: int| 0 <= k < i ==> lhs@.data[k] == rhs@.data[k],
        decreases n - i,
    {
        let a = lhs.cell.data[lhs.bit_pos + i];
        let b = rhs.cell.data[rhs.bit_pos + i];
        proof {
            assert(a == lhs@.data[i as int]);
            assert(b == rhs@.data[i as int]);
        }
        if a != b {
            return false;
        }
        i = i + 1;
    }
    proof {
        assert(lhs@.data =~= rhs@.data);
    }
    true
}

/// Whether the remaining references of two cursors agree in count and,
/// reference by reference, in content.
pub fn slice_eq_children(lhs: &CellSlice, rhs: &CellSlice) -> (r: bool)
    requires
        lhs.wf(),
        rhs.wf(),
    ensures
        r <==> lhs@.refs == rhs@.refs,
{
    let n = lhs.remaining_refs();
    if n != rhs.remaining_refs() {
        proof {
            assert(lhs@.refs.len() != rhs@.refs.len());
        }
        return false;
    }
    let mut i: usize = 0;
    while i < n
        invariant
            lhs.wf(),
            rhs.wf(),
            n == lhs@.refs.len() == rhs@.refs.len(),
            i <= n,
            forall|k: int| 0 <= k < i ==> lhs@.refs[k] == rhs@.refs[k],
        decreases n - i,
    {
        let a = match lhs.get_reference_cloned(i) {
            Ok(c) => c,
            Err(_) => {
                proof {
                    assert(false);
                }
                return false;
            },
        };
        let b = match rhs.get_reference_cloned(i) {
            Ok(c) => c,
            Err(_) => {
                proof {
                    assert(false);
                }
                return false;
            },
        };
        if !cell_eq(&a, &b) {
            return false;
        }
        i = i + 1;
    }
    proof {
        assert(lhs@.refs =~= rhs@.refs);
    }
    true
}

/// Whether the cell's data from `off` to its end equals the target's
/// remaining data.
fn data_suffix_eq(cell: &Cell, off: usize, target: &CellSlice) -> (r: bool)
    requires
        cell@.wf(),
        off <= cell@.data.len(),
        target.wf(),
    ensures
        r <==> cell@.data.skip(off as int) == target@.data,
{
    let s = CellSlice { cell: cell_clone(cell), bit_pos: off, ref_pos: 0 };
    slice_eq_data(&s, target)
}

/// One logical dictionary entry: the key's bits, the leaf cell the value
/// lives in, and the bit offset at which the value's data begins there.
pub ghost struct DictEntryV {
    pub key: Seq<bool>,
    pub leaf: CellV,
    pub offset: int,
}

/// The entries of a prefix-tree dictionary node in ascending key order, or
/// nothing when the node does not follow the layout. A node carries a label:
/// a length field as wide as the binary width of the remaining key bits,
/// then that many label bits. A node that exhausts the key is a leaf whose
/// remaining data and references are the value; any other node must end
/// after its label and fork into exactly two children, one per next key bit.
pub open spec fn spec_dict_node(c: CellV, n: int, prefix: Seq<bool>) -> Option<Seq<DictEntryV>>
    decreases c,
{
    if n < 0 {
        None
    } else {
        let lb = len_bits(n as nat) as int;
        if c.data.len() < lb {
            None
        } else {
            let m = bits_uint(c.data.take(lb)) as int;
            if m > n || c.data.len() < lb + m {
                None
            } else {
                let label = c.data.subrange(lb, lb + m);
                let key2 = prefix + label;
                if m == n {
                    Some(seq![DictEntryV { key: key2, leaf: c, offset: lb + m }])
                } else if lb + m != c.data.len() || c.refs.len() != 2 {
                    None
                } else {
                    let left = spec_dict_node(c.refs[0], n - m - 1, key2.push(false));
                    let right = spec_dict_node(c.refs[1], n - m - 1, key2.push(true));
                    if left is Some && right is Some {
                        Some(left->Some_0 + right->Some_0)
                    } else {
                        None
                    }
                }
            }
        }
    }
}

/// Whether an executable entry realizes a logical one: the numeric key, and
/// a cursor standing at the value's offset in the value's leaf cell.
pub open spec fn entry_matches(e: (u64, CellSlice), s: DictEntryV) -> bool {
    &&& e.0 as nat == bits_uint(s.key)
    &&& e.1.cell@ == s.leaf
    &&& e.1.bit_pos == s.offset
    &&& e.1.ref_pos == 0
}

/// Collects the entries of a dictionary node, ascending by key.
fn dict_node_entries(
    cell: &Cell,
    n: usize,
    prefix: Vec<bool>,
    out: &mut Vec<(u64, CellSlice)>,
) -> (r: Result<(), DictError>)
    requires
        cell@.wf(),
        prefix@.len() + n <= 64,
    ensures
        r is Ok <==> spec_dict_node(cell@, n as int, prefix@) is Some,
        r is Ok ==> final(out)@.len() == old(out)@.len() + spec_dict_node(
            cell@,
            n as int,
            prefix@,
        )->Some_0.len() && (forall|k: int|
            0 <= k < old(out)@.len() ==> final(out)@[k] == old(out)@[k]) && (forall|k: int|
            0 <= k < spec_dict_node(cell@, n as int, prefix@)->Some_0.len()
                ==> entry_matches(
                #[trigger] final(out)@[old(out)@.len() + k],
                spec_dict_node(cell@, n as int, prefix@)->Some_0[k],
            )),
        r is Err ==> r == Err::<(), DictError>(DictError::Malformed),
    decreases *cell,
{
    let lb = crate::bits::bit_width(n);
    proof {
        vstd::arithmetic::power2::lemma2_to64();
        crate::bits::lemma_len_bits_bound(n as nat, 64);
    }
    if cell.data.len() < lb {
        return Err(DictError::Malformed);
    }
    let m64 = crate::loader::read_bits_value(cell, 0, lb);
    proof {
        assert(cell@.data.subrange(0, lb as int) =~= cell@.data.take(lb as int));
        crate::bits::lemma_bits_uint_bound(cell@.data.take(lb as int));
        vstd::arithmetic::power2::lemma2_to64();
        crate::bits::lemma_len_bits_bound(n as nat, 7);
        if (lb as nat) < 7 {
            vstd::arithmetic::power2::lemma_pow2_strictly_increases(lb as nat, 7);
        }
        assert(m64 < 128);
    }
    let m = m64 as usize;
    if m > n || cell.data.len() - lb < m {
        return Err(DictError::Malformed);
    }
    let mut key2 = prefix;
    let mut j: usize = 0;
    let ghost prefixv = key2@;
    while j < m
        invariant
            cell@.wf(),
            lb + m <= cell@.data.len(),
            j <= m,
            key2@ == prefixv + cell@.data.subrange(lb as int, lb + j),
        decreases m - j,
    {
        key2.push(cell.data[lb + j]);
        proof {
            assert(key2@ =~= prefixv + cell@.data.subrange(lb as int, lb + j + 1));
        }
        j = j + 1;
    }
    proof {
        assert(key2@ =~= prefixv + cell@.data.subrange(lb as int, lb as int + m));
    }
    proof {
        assert(lb == len_bits(n as nat));
        assert(cell@.data.take(lb as int) =~= cell@.data.subrange(0, lb as int));
        assert(m as int == bits_uint(cell@.data.take(lb as int)) as int);
    }
    if m == n {
        let value = bits_vec_value(&key2);
        let slice = CellSlice { cell: cell_clone(cell), bit_pos: lb + m, ref_pos: 0 };
        out.push((value, slice));
        proof {
            assert(spec_dict_node(cell@, n as int, prefixv) is Some);
            let es = spec_dict_node(cell@, n as int, prefixv)->Some_0;
            assert(es.len() == 1);
            assert(entry_matches(final(out)@[old(out)@.len() as int], es[0]));
        }
        return Ok(());
    }
    if cell.data.len() - lb != m || cell.refs.len() != 2 {
        return Err(DictError::Malformed);
    }
    let ghost key2v = key2@;
    let mut left_key = key2;
    let mut right_key = clone_bool_vec(&left_key);
    left_key.push(false);
    right_key.push(true);
    proof {
        lemma_wf_child(cell@, 0);
        lemma_wf_child(cell@, 1);
        assert(cells_view(cell.refs)[0] == cell.refs@[0]@);
        assert(cells_view(cell.refs)[1] == cell.refs@[1]@);
    }
    let ghost mid0 = out@;
    let left_r = dict_node_entries(&cell.refs[0], n - m - 1, left_key, out);
    if left_r.is_err() {
        return Err(DictError::Malformed);
    }
    let ghost mid1 = out@;
    let right_r = dict_node_entries(&cell.refs[1], n - m - 1, right_key, out);
    if right_r.is_err() {
        return Err(DictError::Malformed);
    }
    proof {
        assert(key2v == prefixv + cell@.data.subrange(lb as int, lb as int + m));
        assert(spec_dict_node(cell@.refs[0], n - m - 1, key2v.push(false)) is Some);
        assert(spec_dict_node(cell@.refs[1], n - m - 1, key2v.push(true)) is Some);
        assert(spec_dict_node(cell@, n as int, prefixv) is Some);
        let les = spec_dict_node(cell@.refs[0], n - m - 1, key2v.push(false))->Some_0;
        let res = spec_dict_node(cell@.refs[1], n - m - 1, key2v.push(true))->Some_0;
        let es = spec_dict_node(cell@, n as int, prefixv)->Some_0;
        assert(es =~= les + res);
        assert forall|k: int| 0 <= k < es.len() implies entry_matches(
            #[trigger] final(out)@[old(out)@.len() + k],
            es[k],
        ) by {
            if k < les.len() {
                assert(final(out)@[mid0.len() + k] == mid1[mid0.len() + k]);
                assert(entry_matches(mid1[mid0.len() + k], les[k]));
            } else {
                assert(entry_matches(final(out)@[mid1.len() + (k - les.len())], res[k - les.len()]));
            }
        }
    }
    Ok(())
}

/// A copy of a bit vector.
fn clone_bool_vec(v: &Vec<bool>) -> (r: Vec<bool>)
    ensures
        r@ == v@,
{
    let mut r: Vec<bool> = Vec::new();
    let mut i: usize = 0;
    while i < v.len()
        invariant
            i <= v@.len(),
            r@ == v@.take(i as int),
        decreases v@.len() - i,
    {
        r.push(v[i]);
        proof {
            assert(r@ =~= v@.take(i + 1));
        }
        i = i + 1;
    }
    proof {
        assert(r@ =~= v@);
    }
    r
}

/// A copy of a path.
pub fn path_clone(v: &Vec<u8>) -> (r: Vec<u8>)
    ensures
        r@ == v@,
{
    let mut r: Vec<u8> = Vec::new();
    let mut i: usize = 0;
    while i < v.len()
        invariant
            i <= v@.len(),
            r@ == v@.take(i as int),
        decreases v@.len() - i,
    {
        r.push(v[i]);
        proof {
            assert(r@ =~= v@.take(i + 1));
        }
        i = i + 1;
    }
    proof {
        assert(r@ =~= v@);
    }
    r
}

/// Finds where the value under `target` lives inside the subtree of the
/// cursor's cell, extending `path` with the child indices taken.
pub fn locate(slice: CellSlice, target: &CellSlice, path: Vec<u8>) -> (r: Result<
    (Vec<u8>, usize),
    DictError,
>)
    requires
        slice.wf(),
        slice.bit_pos == 0,
        slice.ref_pos == 0,
        target.wf(),
    ensures
        match spec_locate(slice.cell@, target@.data, target@.refs, path@) {
            Some(v) => r matches Ok(e) && e.0@ == v.0 && e.1 as int == v.1,
            None => r == Err::<(Vec<u8>, usize), DictError>(DictError::NotFound),
        },
{
    locate_in(&slice.cell, target, path)
}

/// The search behind `locate`, walking the physical tree by reference.
fn locate_in(cell: &Cell, target: &CellSlice, path: Vec<u8>) -> (r: Result<
    (Vec<u8>, usize),
    DictError,
>)
    requires
        cell@.wf(),
        target.wf(),
    ensures
        match spec_locate(cell@, target@.data, target@.refs, path@) {
            Some(v) => r matches Ok(e) && e.0@ == v.0 && e.1 as int == v.1,
            None => r == Err::<(Vec<u8>, usize), DictError>(DictError::NotFound),
        },
    decreases *cell,
{
    let fresh = CellSlice { cell: cell_clone(cell), bit_pos: 0, ref_pos: 0 };
    let children_eq = slice_eq_children(&fresh, target);
    proof {
        assert(fresh@.refs =~= cell@.refs);
        assert(children_eq <==> cell@.refs == target@.refs);
    }
    if children_eq {
        let n = cell.data.len();
        let mut off: usize = 0;
        while off <= n
            invariant
                cell@.wf(),
                n == cell@.data.len(),
                off <= n + 1,
                target.wf(),
                cell@.refs == target@.refs,
                first_align(cell@.data, target@.data, 0) == first_align(
                    cell@.data,
                    target@.data,
                    off as int,
                ),
            decreases n - off + 1,
        {
            if data_suffix_eq(cell, off, target) {
                proof {
                    assert(first_align(cell@.data, target@.data, off as int) == Some(off as int));
                    assert(spec_locate(cell@, target@.data, target@.refs, path@) == Some(
                        (path@, off as int),
                    ));
                }
                return Ok((path, off));
            }
            off = off + 1;
        }
        proof {
            assert(first_align(cell@.data, target@.data, 0) is None);
        }
    }
    proof {
        assert(spec_locate(cell@, target@.data, target@.refs, path@) == spec_locate_children(
            cell@,
            target@.data,
            target@.refs,
            path@,
            0,
        ));
    }
    let nrefs = cell.refs.len();
    let mut i: usize = 0;
    while i < nrefs
        invariant
            cell@.wf(),
            nrefs == cell@.refs.len(),
            i <= nrefs,
            target.wf(),
            spec_locate(cell@, target@.data, target@.refs, path@) == spec_locate_children(
                cell@,
                target@.data,
                target@.refs,
                path@,
                i as int,
            ),
        decreases nrefs - i,
    {
        proof {
            lemma_wf_child(cell@, i as int);
            assert(cells_view(cell.refs)[i as int] == cell.refs@[i as int]@);
        }
        let mut next = path_clone(&path);
        next.push(i as u8);
        proof {
            assert(next@ =~= path@.push(i as u8));
            vstd::std_specs::vec::axiom_vec_index_decreases(cell.refs, i as int);
        }
        match locate_in(&cell.refs[i], target, next) {
            Ok(v) => {
                return Ok(v);
            },
            Err(_) => {},
        }
        i = i + 1;
    }
    Err(DictError::NotFound)
}

/// Every entry of a well-formed dictionary lies in a well-formed leaf at a
/// valid offset, with a key as wide as the key bits left to consume.
pub proof fn lemma_dict_entries_wf(c: CellV, n: int, prefix: Seq<bool>)
    requires
        c.wf(),
        spec_dict_node(c, n, prefix) is Some,
    ensures
        forall|k: int|
            0 <= k < spec_dict_node(c, n, prefix)->Some_0.len() ==> {
                let e = #[trigger] spec_dict_node(c, n, prefix)->Some_0[k];
                &&& e.leaf.wf()
                &&& 0 <= e.offset <= e.leaf.data.len()
                &&& e.key.len() == prefix.len() + n
            },
    decreases c,
{
    let lb = len_bits(n as nat) as int;
    let m = bits_uint(c.data.take(lb)) as int;
    if m == n {
    } else {
        lemma_wf_child(c, 0);
        lemma_wf_child(c, 1);
        let key2 = prefix + c.data.subrange(lb, lb + m);
        lemma_dict_entries_wf(c.refs[0], n - m - 1, key2.push(false));
        lemma_dict_entries_wf(c.refs[1], n - m - 1, key2.push(true));
        let les = spec_dict_node(c.refs[0], n - m - 1, key2.push(false))->Some_0;
        let res = spec_dict_node(c.refs[1], n - m - 1, key2.push(true))->Some_0;
        assert(spec_dict_node(c, n, prefix)->Some_0 =~= les + res);
    }
}

/// One resolved dictionary value: the tree path from the dictionary root,
/// the numeric key, the bit offset at which the value begins in the located
/// cell, and the decoded code.
pub struct MapEntry {
    pub path: Vec<u8>,
    pub id: u64,
    pub offset: usize,
    pub code: Code,
}

/// Mathematical model of one resolved value.
#[verifier::ext_equal]
pub ghost struct MapEntryV {
    pub path: Seq<u8>,
    pub id: u64,
    pub offset: int,
    pub code: Seq<InsnV>,
}

impl MapEntry {
    /// The mathematical value of this entry.
    pub open spec fn view(&self) -> MapEntryV {
        MapEntryV {
            path: self.path@,
            id: self.id,
            offset: self.offset as int,
            code: self.code@,
        }
    }
}

/// The dictionary-extraction state: the dictionary root, the fixed key
/// width, and — once `mark` has run — the resolved map.
pub struct DelimitedHashmapE {
    pub dict: Cell,
    pub key_size: usize,
    pub map: Vec<MapEntry>,
}

/// The resolution of every dictionary value, in ascending key order: each
/// value is located in the physical tree, decoded as code, and refused when
/// a second key resolves to an already-used path.
pub open spec fn spec_mark(dict: CellV, n: int) -> Result<Seq<MapEntryV>, DictError> {
    match spec_dict_node(dict, n, Seq::empty()) {
        None => Err(DictError::Malformed),
        Some(entries) => spec_mark_iter(dict, entries, 0, Seq::empty()),
    }
}

/// The resolution of the entries from index `i` on, given the map built so
/// far.
pub open spec fn spec_mark_iter(
    dict: CellV,
    entries: Seq<DictEntryV>,
    i: int,
    acc: Seq<MapEntryV>,
) -> Result<Seq<MapEntryV>, DictError>
    decreases entries.len() - i,
{
    if !(0 <= i < entries.len()) {
        Ok(acc)
    } else {
        let e = entries[i];
        let tb = e.leaf.data.skip(e.offset);
        let tr = e.leaf.refs;
        match spec_locate(dict, tb, tr, Seq::empty()) {
            None => Err(DictError::NotFound),
            Some(loc) => match crate::loader::spec_load(e.leaf, e.offset, 0) {
                Err(de) => Err(DictError::Decode(de)),
                Ok(code) => if exists|j: int| 0 <= j < acc.len() && (#[trigger] acc[j]).path
                    == loc.0 {
                    Err(DictError::NonUniquePath)
                } else {
                    spec_mark_iter(
                        dict,
                        entries,
                        i + 1,
                        acc.push(
                            (MapEntryV {
                                path: loc.0,
                                id: bits_uint(e.key) as u64,
                                offset: loc.1,
                                code,
                            }),
                        ),
                    )
                },
            },
        }
    }
}

/// A successful resolution holds exactly one map entry per dictionary key.
pub proof fn lemma_mark_count(dict: CellV, n: int)
    ensures
        spec_mark(dict, n) matches Ok(m) ==> spec_dict_node(dict, n, Seq::empty()) is Some
            && m.len() == spec_dict_node(dict, n, Seq::empty())->Some_0.len(),
{
    if spec_mark(dict, n) is Ok {
        let entries = spec_dict_node(dict, n, Seq::empty())->Some_0;
        lemma_mark_iter_count(dict, entries, 0, Seq::empty());
    }
}

/// The resolution grows the map by one entry per remaining key.
proof fn lemma_mark_iter_count(
    dict: CellV,
    entries: Seq<DictEntryV>,
    i: int,
    acc: Seq<MapEntryV>,
)
    requires
        0 <= i <= entries.len(),
    ensures
        spec_mark_iter(dict, entries, i, acc) matches Ok(m) ==> m.len() == acc.len()
            + entries.len() - i,
    decreases entries.len() - i,
{
    if i < entries.len() && spec_mark_iter(dict, entries, i, acc) is Ok {
        let e = entries[i];
        let tb = e.leaf.data.skip(e.offset);
        let tr = e.leaf.refs;
        let loc = spec_locate(dict, tb, tr, Seq::empty())->Some_0;
        let code = crate::loader::spec_load(e.leaf, e.offset, 0)->Ok_0;
        lemma_mark_iter_count(
            dict,
            entries,
            i + 1,
            acc.push(
                (MapEntryV { path: loc.0, id: bits_uint(e.key) as u64, offset: loc.1, code }),
            ),
        );
    }
}

/// Whether two paths are equal byte for byte.
pub fn paths_equal(a: &Vec<u8>, b: &Vec<u8>) -> (r: bool)
    ensures
        r <==> a@ == b@,
{
    if a.len() != b.len() {
        return false;
    }
    let mut i: usize = 0;
    while i < a.len()
        invariant
            a@.len() == b@.len(),
            i <= a@.len(),
            forall|k: int| 0 <= k < i ==> a@[k] == b@[k],
        decreases a@.len() - i,
    {
        if a[i] != b[i] {
            return false;
        }
        i = i + 1;
    }
    proof {
        assert(a@ =~= b@);
    }
    true
}

impl DelimitedHashmapE {
    /// The mathematical value of the resolved map.
    pub open spec fn view(&self) -> Seq<MapEntryV> {
        Seq::new(self.map@.len(), |i: int| self.map@[i]@)
    }

    /// Fresh extraction state for a dictionary root and key width.
    pub fn new(cell: Cell, key_size: usize) -> (r: DelimitedHashmapE)
        ensures
            r.dict == cell,
            r.key_size == key_size,
            r@ == Seq::<MapEntryV>::empty(),
    {
        let r = DelimitedHashmapE { dict: cell, key_size, map: Vec::new() };
        proof {
            assert(r@ =~= Seq::<MapEntryV>::empty());
        }
        r
    }

    /// Populates the resolved map, or fails: a value whose physical location
    /// cannot be found aborts with a not-found error, and two keys resolving
    /// to one location abort with a non-unique-path error.
    pub fn mark(&mut self) -> (r: Result<(), DictError>)
        requires
            old(self).dict@.wf(),
            old(self).key_size <= 64,
            old(self)@ == Seq::<MapEntryV>::empty(),
        ensures
            final(self).dict == old(self).dict,
            final(self).key_size == old(self).key_size,
            match spec_mark(old(self).dict@, old(self).key_size as int) {
                Ok(m) => r is Ok && final(self)@ == m,
                Err(e) => r == Err::<(), DictError>(e),
            },
    {
        let ghost dictv = self.dict@;
        let ghost n = self.key_size as int;
        let mut entries: Vec<(u64, CellSlice)> = Vec::new();
        let empty_prefix: Vec<bool> = Vec::new();
        proof {
            assert(empty_prefix@ =~= Seq::<bool>::empty());
        }
        let parsed = dict_node_entries(&self.dict, self.key_size, empty_prefix, &mut entries);
        if parsed.is_err() {
            return Err(DictError::Malformed);
        }
        let ghost es = spec_dict_node(dictv, n, Seq::<bool>::empty())->Some_0;
        proof {
            lemma_dict_entries_wf(dictv, n, Seq::empty());
            assert(entries@.len() == es.len());
            assert forall|k: int| 0 <= k < es.len() implies entry_matches(
                #[trigger] entries@[k],
                es[k],
            ) by {
                assert(entry_matches(entries@[0 + k], es[k]));
            }
        }
        let count = entries.len();
        let mut i: usize = 0;
        while i < count
            invariant
                self.dict@ == dictv,
                self.dict == old(self).dict,
                self.key_size == old(self).key_size,
                n == self.key_size as int,
                dictv.wf(),
                count == entries@.len() == es.len(),
                i <= count,
                forall|k: int| 0 <= k < es.len() ==> entry_matches(#[trigger] entries@[k], es[k]),
                forall|k: int|
                    0 <= k < es.len() ==> {
                        let e = #[trigger] es[k];
                        &&& e.leaf.wf()
                        &&& 0 <= e.offset <= e.leaf.data.len()
                    },
                spec_mark(dictv, n) == spec_mark_iter(dictv, es, i as int, self@),
            decreases count - i,
        {
            let target = &entries[i].1;
            proof {
                assert(entry_matches(entries@[i as int], es[i as int]));
                assert(target.wf());
                assert(target@.data =~= es[i as int].leaf.data.skip(es[i as int].offset));
                assert(target@.refs =~= es[i as int].leaf.refs);
            }
            let root_slice = CellSlice::of_cell(&self.dict);
            let empty_path: Vec<u8> = Vec::new();
            proof {
                assert(empty_path@ =~= Seq::<u8>::empty());
            }
            let loc = match locate(root_slice, target, empty_path) {
                Ok(l) => l,
                Err(_) => {
                    return Err(DictError::NotFound);
                },
            };
            let ghost e = es[i as int];
            let ghost locv = spec_locate(dictv, e.leaf.data.skip(e.offset), e.leaf.refs, Seq::empty());
            let code = match crate::loader::load_at(&target.cell, target.bit_pos, target.ref_pos) {
                Ok(c) => c,
                Err(de) => {
                    proof {
                        assert(crate::loader::spec_load(e.leaf, e.offset, 0) == Err::<
                            Seq<InsnV>,
                            DecodeError,
                        >(de));
                    }
                    return Err(DictError::Decode(de));
                },
            };
            proof {
                assert(crate::loader::spec_load(e.leaf, e.offset, 0) == Ok::<
                    Seq<InsnV>,
                    DecodeError,
                >(code@));
                assert(locv == Some((loc.0@, loc.1 as int)));
            }
            let dup = loop_find_dup(&self.map, &loc.0);
            proof {
                if dup {
                    let j = choose|j: int|
                        0 <= j < self.map@.len() && (#[trigger] self.map@[j])@.path == loc.0@;
                    assert(self@[j].path == loc.0@);
                } else {
                    assert forall|j: int| 0 <= j < self@.len() implies (#[trigger] self@[j]).path
                        != loc.0@ by {
                        assert(self.map@[j]@.path != loc.0@);
                    }
                }
                assert(dup <==> exists|j: int|
                    0 <= j < self@.len() && (#[trigger] self@[j]).path == loc.0@);
            }
            if dup {
                return Err(DictError::NonUniquePath);
            }
            let ghost premap = self@;
            let id = entries[i].0;
            proof {
                assert(id as nat == bits_uint(e.key));
            }
            let entry = MapEntry { path: loc.0, id, offset: loc.1, code };
            let ghost entryv = entry@;
            self.map.push(entry);
            proof {
                assert(self@ =~= premap.push(entryv));
                assert(entryv == (MapEntryV {
                    path: entryv.path,
                    id: bits_uint(e.key) as u64,
                    offset: entryv.offset,
                    code: entryv.code,
                }));
                assert(spec_mark_iter(dictv, es, i as int, premap) == spec_mark_iter(
                    dictv,
                    es,
                    i + 1,
                    premap.push(entryv),
                ));
            }
            i = i + 1;
        }
        proof {
            assert(spec_mark_iter(dictv, es, count as int, self@) == Ok::<
                Seq<MapEntryV>,
                DictError,
            >(self@));
        }
        Ok(())
    }
}

/// Whether some already resolved entry uses the given path.
fn loop_find_dup(map: &Vec<MapEntry>, path: &Vec<u8>) -> (r: bool)
    ensures
        r <==> exists|j: int|
            0 <= j < map@.len() && (#[trigger] map@[j])@.path == path@,
{
    let mut j: usize = 0;
    while j < map.len()
        invariant
            j <= map@.len(),
            forall|k: int| 0 <= k < j ==> (#[trigger] map@[k])@.path != path@,
        decreases map@.len() - j,
    {
        if paths_equal(&map[j].path, path) {
            proof {
                assert((map@[j as int])@.path == path@);
            }
            return true;
        }
        j = j + 1;
    }
    false
}

/// The elaboration's effect, instruction by instruction, over a whole code
/// sequence: the opener of a matched aligned pair gains exactly one trailing
/// marker; every other instruction — the closer of a pair included — keeps
/// its operand count; and every existing operand keeps its place, nested
/// code being elaborated in turn and everything else left untouched.
pub proof fn lemma_elaborate_marks(s: Seq<InsnV>, i: int)
    requires
        0 <= i < s.len(),
    ensures
        elaborate_spec(s).len() == s.len(),
        elaborate_spec(s)[i].op == s[i].op,
        opens_pair(s, i) ==> elaborate_spec(s)[i].params.len() == s[i].params.len() + 1
            && elaborate_spec(s)[i].params.last() == ParamV::CodeDictMarker,
        !opens_pair(s, i) ==> elaborate_spec(s)[i].params.len() == s[i].params.len(),
        forall|j: int|
            0 <= j < s[i].params.len() ==> #[trigger] elaborate_spec(s)[i].params[j] == (match s[i].params[j] {
                ParamV::Code { code, cell } => ParamV::Code { code: elaborate_spec(code), cell },
                p => p,
            }),
{
    assert(elaborate_spec(s)[i] == elab_insn(s[i], opens_pair(s, i)));
    assert forall|j: int| 0 <= j < s[i].params.len() implies #[trigger] elaborate_spec(
        s,
    )[i].params[j] == (match s[i].params[j] {
        ParamV::Code { code, cell } => ParamV::Code { code: elaborate_spec(code), cell },
        p => p,
    }) by {
        assert(elab_params(s[i].params)[j] == (match s[i].params[j] {
            ParamV::Code { code, cell } => ParamV::Code { code: elaborate_spec(code), cell },
            p => p,
        }));
    }
}

/// Builds the elaboration of a code tree.
fn elaborate_code(c: &Code) -> (r: Code)
    ensures
        r@ == elaborate_spec(c@),
    decreases *c,
{
    let n = c.insns.len();
    let mut insns: Vec<Instruction> = Vec::new();
    let mut i: usize = 0;
    while i < n
        invariant
            n == c.insns@.len(),
            i <= n,
            insns@.len() == i,
            forall|k: int| 0 <= k < i ==> #[trigger] insns@[k]@ == elaborate_spec(c@)[k],
        decreases n - i,
    {
        let marked = if i % 2 == 0 && i + 1 < n {
            match_dictpushconst_dictugetjmp(&c.insns[i], &c.insns[i + 1])
        } else {
            false
        };
        proof {
            assert(c@[i as int] == c.insns@[i as int]@);
            if i + 1 < n {
                assert(c@[i as int + 1] == c.insns@[i as int + 1]@);
            }
            assert(marked == opens_pair(c@, i as int));
        }
        let insn = &c.insns[i];
        let mut params: Vec<InstructionParameter> = Vec::new();
        let m = insn.params.len();
        let mut j: usize = 0;
        while j < m
            invariant
                n == c.insns@.len(),
                i < n,
                *insn == c.insns[i as int],
                m == insn.params@.len(),
                j <= m,
                params@.len() == j,
                forall|k: int| 0 <= k < j ==> #[trigger] params@[k]@ == elab_params(
                    insn@.params,
                )[k],
            decreases m - j,
        {
            proof {
                assert(insn@.params[j as int] == insn.params@[j as int]@);
            }
            let p = &insn.params[j];
            let q = match p {
                InstructionParameter::Code { code, cell } => {
                    proof {
                        vstd::std_specs::vec::axiom_vec_index_decreases(c.insns, i as int);
                        vstd::std_specs::vec::axiom_vec_index_decreases(
                            c.insns[i as int].params,
                            j as int,
                        );
                        assert(insn.params[j as int] == c.insns[i as int].params[j as int]);
                        assert(decreases_to!(*c => *code));
                    }
                    let nested = elaborate_code(code);
                    InstructionParameter::Code { code: nested, cell: cell_clone(cell) }
                },
                other => clone_param(other),
            };
            params.push(q);
            j = j + 1;
        }
        if marked {
            params.push(InstructionParameter::CodeDictMarker);
        }
        let new_insn = Instruction { op: insn.op, params };
        proof {
            let target = elab_insn(c@[i as int], marked);
            assert forall|k: int| 0 <= k < new_insn@.params.len() implies new_insn@.params[k]
                == target.params[k] by {
                assert(new_insn@.params[k] == new_insn.params@[k]@);
            }
            assert(new_insn@.params =~= target.params);
            assert(new_insn@ =~= target);
        }
        insns.push(new_insn);
        i = i + 1;
    }
    let r = Code { insns };
    proof {
        assert forall|k: int| 0 <= k < r@.len() implies r@[k] == elaborate_spec(c@)[k] by {
            assert(r@[k] == r.insns@[k]@);
        }
        assert(r@ =~= elaborate_spec(c@));
    }
    r
}

} // verus!
