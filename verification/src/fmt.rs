//! Rendering of the instruction model and of cell trees as indented,
//! fingerprint-annotated listings. Every renderer is specified exactly: the
//! spec functions below state the produced text character for character, and
//! each executable renderer is proved to return it.

use vstd::prelude::*;
use vstd::string::StringExecFns;
use vstd::arithmetic::power2::pow2;
use crate::bits::{bits_uint, hex_digit_char};
use crate::cell::{
    Cell,
    CellV,
    cells_view,
    cell_clone,
    cell_eq,
    fingerprint,
    fp_cell,
    MAX_DATA_BITS,
    MAX_REFS,
};
use crate::insn::{Code, Instruction, InstructionParameter, InsnV, ParamV, opcode_name};
use crate::codedict::{DelimitedHashmapE, MapEntryV, spec_mark};

verus! {

broadcast use vstd::std_specs::vec::group_vec_axioms;

/// The decimal spelling of a number.
pub open spec fn dec_chars(n: nat) -> Seq<char>
    decreases n,
{
    if n < 10 {
        seq![hex_digit_char(n)]
    } else {
        dec_chars(n / 10) + seq![hex_digit_char(n % 10)]
    }
}

/// One hexadecimal digit as a string slice.
pub fn digit_str(d: u64) -> (r: &'static str)
    requires
        d < 16,
    ensures
        r@ == seq![hex_digit_char(d as nat)],
{
    let r: &'static str = if d == 0 {
        "0"
    } else if d == 1 {
        "1"
    } else if d == 2 {
        "2"
    } else if d == 3 {
        "3"
    } else if d == 4 {
        "4"
    } else if d == 5 {
        "5"
    } else if d == 6 {
        "6"
    } else if d == 7 {
        "7"
    } else if d == 8 {
        "8"
    } else if d == 9 {
        "9"
    } else if d == 10 {
        "a"
    } else if d == 11 {
        "b"
    } else if d == 12 {
        "c"
    } else if d == 13 {
        "d"
    } else if d == 14 {
        "e"
    } else {
        "f"
    };
    proof {
        reveal_strlit("0");
        reveal_strlit("1");
        reveal_strlit("2");
        reveal_strlit("3");
        reveal_strlit("4");
        reveal_strlit("5");
        reveal_strlit("6");
        reveal_strlit("7");
        reveal_strlit("8");
        reveal_strlit("9");
        reveal_strlit("a");
        reveal_strlit("b");
        reveal_strlit("c");
        reveal_strlit("d");
        reveal_strlit("e");
        reveal_strlit("f");
        assert(r@ =~= seq![hex_digit_char(d as nat)]);
    }
    r
}

/// The decimal rendering of a number.
pub fn dec_u64(n: u64) -> (r: String)
    ensures
        r@ == dec_chars(n as nat),
    decreases n,
{
    if n < 10 {
        String::from_str(digit_str(n))
    } else {
        let mut s = dec_u64(n / 10);
        s.append(digit_str(n % 10));
        s
    }
}

/// The eight hexadecimal digits of a fingerprint, most significant first.
pub open spec fn fp_hex_chars(h: u64) -> Seq<char> {
    Seq::new(8, |i: int| hex_digit_char((((h >> (((7 - i) * 4) as u64)) & 0xf) as nat)))
}

/// The eight-digit hexadecimal rendering of a fingerprint.
pub fn fp_hex(h: u64) -> (r: String)
    ensures
        r@ == fp_hex_chars(h),
{
    let mut s = String::new();
    let mut k: usize = 0;
    while k < 8
        invariant
            k <= 8,
            s@.len() == k,
            forall|j: int| 0 <= j < k ==> s@[j] == fp_hex_chars(h)[j],
        decreases 8 - k,
    {
        let shift: u64 = ((7 - k) * 4) as u64;
        let d = (h >> shift) & 0xf;
        proof {
            assert(d < 16) by (bit_vector)
                requires
                    d == (h >> shift) & 0xf,
            ;
        }
        s.append(digit_str(d));
        k = k + 1;
    }
    proof {
        assert(s@ =~= fp_hex_chars(h));
    }
    s
}

/// The hexadecimal spelling of the bits of `data` from `from` up to `to`,
/// four bits per digit; a trailing group short of four bits is padded with
/// zeros and flagged with an underscore.
pub open spec fn blob_hex_chars(data: Seq<bool>, from: int, to: int) -> Seq<char>
    decreases to - from,
{
    if from >= to {
        Seq::empty()
    } else {
        let end = if from + 4 <= to {
            from + 4
        } else {
            to
        };
        let pad = 4 - (end - from);
        let digit = seq![
            hex_digit_char(bits_uint(data.subrange(from, end)) * pow2(pad as nat))
        ];
        if end == to && pad != 0 {
            digit + "_"@
        } else {
            digit + blob_hex_chars(data, end, to)
        }
    }
}

/// Renders the bits of a cell from `from` up to `to` as hexadecimal digits.
pub fn blob_hex(cell: &Cell, from: usize, to: usize) -> (r: String)
    requires
        from <= to <= cell@.data.len(),
    ensures
        r@ == blob_hex_chars(cell@.data, from as int, to as int),
    decreases to - from,
{
    if from >= to {
        let r = String::new();
        proof {
            assert(r@ =~= blob_hex_chars(cell@.data, from as int, to as int));
        }
        return r;
    }
    let end = if to - from <= 4 {
        to
    } else {
        from + 4
    };
    let mut v: u64 = 0;
    let mut idx: usize = from;
    proof {
        vstd::arithmetic::power2::lemma2_to64();
        assert(cell@.data.subrange(from as int, from as int) =~= Seq::<bool>::empty());
        assert(cell@.data == cell.data@);
    }
    while idx < end
        invariant
            from <= idx <= end,
            end <= cell.data@.len(),
            end - from <= 4,
            cell@.data == cell.data@,
            v as nat == bits_uint(cell@.data.subrange(from as int, idx as int)),
            (v as nat) < pow2((idx - from) as nat),
        decreases end - idx,
    {
        proof {
            vstd::arithmetic::power2::lemma2_to64();
            assert(cell@.data.subrange(from as int, idx + 1).drop_last() =~= cell@.data.subrange(
                from as int,
                idx as int,
            ));
            assert(cell@.data.subrange(from as int, idx + 1).last() == cell@.data[idx as int]);
            vstd::arithmetic::power2::lemma_pow2_unfold((idx - from + 1) as nat);
        }
        let bit = cell.data[idx];
        v = v * 2 + if bit {
            1
        } else {
            0
        };
        idx = idx + 1;
    }
    let pad = 4 - (end - from);
    let ghost base = bits_uint(cell@.data.subrange(from as int, end as int));
    let mut p: usize = 0;
    proof {
        vstd::arithmetic::power2::lemma2_to64();
    }
    while p < pad
        invariant
            p <= pad,
            pad == 4 - (end - from),
            from <= end,
            end - from <= 4,
            v as nat == base * pow2(p as nat),
            base < pow2((end - from) as nat),
        decreases pad - p,
    {
        proof {
            vstd::arithmetic::power2::lemma2_to64();
            vstd::arithmetic::power2::lemma_pow2_unfold((p + 1) as nat);
            vstd::arithmetic::power2::lemma_pow2_adds((end - from) as nat, p as nat);
            vstd::arithmetic::power2::lemma_pow2_strictly_increases(
                ((end - from) + p) as nat,
                4,
            );
        }
        v = v * 2;
        p = p + 1;
    }
    proof {
        vstd::arithmetic::power2::lemma2_to64();
        vstd::arithmetic::power2::lemma_pow2_pos(pad as nat);
        vstd::arithmetic::mul::lemma_mul_strict_inequality(
            base as int,
            pow2((end - from) as nat) as int,
            pow2(pad as nat) as int,
        );
        vstd::arithmetic::power2::lemma_pow2_adds((end - from) as nat, pad as nat);
        assert(v < 16);
    }
    let mut out = String::from_str(digit_str(v));
    if end == to && pad != 0 {
        out.append("_");
        proof {
            assert(out@ =~= blob_hex_chars(cell@.data, from as int, to as int));
        }
    } else {
        let rest = blob_hex(cell, end, to);
        out.append(rest.as_str());
        proof {
            assert(out@ =~= blob_hex_chars(cell@.data, from as int, to as int));
        }
    }
    out
}

/// Whether a rendered cell with these contents was already seen.
fn seen_has_cell(seen: &Vec<Cell>, cell: &Cell) -> (r: bool)
    ensures
        r <==> cells_view(*seen).contains(cell@),
{
    let mut i: usize = 0;
    while i < seen.len()
        invariant
            i <= seen@.len(),
            forall|k: int| 0 <= k < i ==> seen@[k]@ != cell@,
        decreases seen@.len() - i,
    {
        proof {
            assert(cells_view(*seen)[i as int] == seen@[i as int]@);
        }
        if cell_eq(&seen[i], cell) {
            proof {
                assert(cells_view(*seen)[i as int] == cell@);
            }
            return true;
        }
        i = i + 1;
    }
    proof {
        if cells_view(*seen).contains(cell@) {
            let w = choose|w: int| 0 <= w < cells_view(*seen).len() && cells_view(*seen)[w]
                == cell@;
            assert(cells_view(*seen)[w] == seen@[w]@);
        }
    }
    false
}

/// Whether a cell and all its descendants respect the capacity limits.
pub fn cell_wf_check(cell: &Cell) -> (r: bool)
    ensures
        r <==> cell@.wf(),
    decreases *cell,
{
    if cell.data.len() > MAX_DATA_BITS || cell.refs.len() > MAX_REFS {
        return false;
    }
    let mut i: usize = 0;
    while i < cell.refs.len()
        invariant
            i <= cell.refs@.len(),
            cell@.data.len() <= MAX_DATA_BITS,
            cell@.refs.len() <= MAX_REFS,
            forall|k: int| 0 <= k < i ==> (#[trigger] cell@.refs[k]).wf(),
        decreases cell.refs@.len() - i,
    {
        proof {
            assert(cells_view(cell.refs)[i as int] == cell.refs@[i as int]@);
        }
        if !cell_wf_check(&cell.refs[i]) {
            return false;
        }
        i = i + 1;
    }
    true
}

// ---------------------------------------------------------------------------
// The plain listing renderer, used for code stored in a resolved dictionary:
// nested code renders recursively, a jump-table marker is only tagged.
// Each function returns the produced text and the seen-set after rendering.
// ---------------------------------------------------------------------------

/// The plain listing of the instructions of `s` from index `i` on.
pub open spec fn render_plain_code(
    s: Seq<InsnV>,
    i: int,
    ind: Seq<char>,
    col: bool,
    seen: Seq<CellV>,
) -> (Seq<char>, Seq<CellV>)
    decreases s, 3int, s.len() - i,
{
    if 0 <= i < s.len() {
        let one = render_plain_insn(s[i], ind, col, seen);
        let rest = render_plain_code(s, i + 1, ind, col, one.1);
        (one.0 + rest.0, rest.1)
    } else {
        (Seq::empty(), seen)
    }
}

/// The plain listing of one instruction: indent, mnemonic, operands, line
/// break.
pub open spec fn render_plain_insn(x: InsnV, ind: Seq<char>, col: bool, seen: Seq<CellV>) -> (
    Seq<char>,
    Seq<CellV>,
)
    decreases x, 4int, 0int,
{
    let pr = render_plain_params(x.params, 0, ind, col, seen);
    (ind + opcode_name(x.op) + pr.0 + "\n"@, pr.1)
}

/// The plain listing of the operands from index `j` on.
pub open spec fn render_plain_params(
    ps: Seq<ParamV>,
    j: int,
    ind: Seq<char>,
    col: bool,
    seen: Seq<CellV>,
) -> (Seq<char>, Seq<CellV>)
    decreases ps, 3int, ps.len() - j,
{
    if 0 <= j < ps.len() {
        let one = render_plain_param(ps[j], ind, col, seen);
        let rest = render_plain_params(ps, j + 1, ind, col, one.1);
        (one.0 + rest.0, rest.1)
    } else {
        (Seq::empty(), seen)
    }
}

/// The plain listing of one operand. A nested code subtree renders in full
/// the first time its cell's content appears and, when collapsing, as a
/// single back-reference each later time.
pub open spec fn render_plain_param(p: ParamV, ind: Seq<char>, col: bool, seen: Seq<CellV>) -> (
    Seq<char>,
    Seq<CellV>,
)
    decreases p, 4int, 0int,
{
    match p {
        ParamV::Int(v) => (" "@ + dec_chars(v as nat), seen),
        ParamV::Opaque(c) => (" ;; ref #"@ + fp_hex_chars((fp_cell(c) as u64)), seen),
        ParamV::CodeDictMarker => (" ;; jump table"@, seen),
        ParamV::Code { code, cell } => {
            if col && seen.contains(cell) {
                (" { ;; see #"@ + fp_hex_chars((fp_cell(cell) as u64)) + " }"@, seen)
            } else {
                let nested = render_plain_code(code, 0, ind + "  "@, col, seen.push(cell));
                (
                    " { ;; #"@ + fp_hex_chars((fp_cell(cell) as u64)) + "\n"@ + nested.0 + ind
                        + "}"@,
                    nested.1,
                )
            }
        },
    }
}

/// Renders instructions from index `i` on, exactly as `render_plain_code`
/// describes.
fn print_plain_at(c: &Code, i: usize, indent: &String, col: bool, seen: &mut Vec<Cell>) -> (r:
    String)
    requires
        i <= c.insns@.len(),
    ensures
        r@ == render_plain_code(c@, i as int, indent@, col, cells_view(*old(seen))).0,
        cells_view(*final(seen)) == render_plain_code(
            c@,
            i as int,
            indent@,
            col,
            cells_view(*old(seen)),
        ).1,
    decreases *c, 3int, c.insns@.len() - i,
{
    if i == c.insns.len() {
        let r = String::new();
        return r;
    }
    proof {
        vstd::std_specs::vec::axiom_vec_index_decreases(c.insns, i as int);
        assert(c@[i as int] == c.insns@[i as int]@);
    }
    let mut out = print_plain_insn(&c.insns[i], indent, col, seen);
    let rest = print_plain_at(c, i + 1, indent, col, seen);
    out.append(rest.as_str());
    out
}

/// Renders one instruction, exactly as `render_plain_insn` describes.
fn print_plain_insn(insn: &Instruction, indent: &String, col: bool, seen: &mut Vec<Cell>) -> (r:
    String)
    ensures
        r@ == render_plain_insn(insn@, indent@, col, cells_view(*old(seen))).0,
        cells_view(*final(seen)) == render_plain_insn(
            insn@,
            indent@,
            col,
            cells_view(*old(seen)),
        ).1,
    decreases *insn, 4int, 0int,
{
    let mut out = String::new();
    out.append(indent.as_str());
    out.append(insn.name());
    let pt = print_plain_params(insn, 0, indent, col, seen);
    out.append(pt.as_str());
    out.append("\n");
    proof {
        assert(out@ =~= render_plain_insn(insn@, indent@, col, cells_view(*old(seen))).0);
    }
    out
}

/// Renders operands from index `j` on, exactly as `render_plain_params`
/// describes.
fn print_plain_params(insn: &Instruction, j: usize, indent: &String, col: bool, seen: &mut Vec<
    Cell,
>) -> (r: String)
    requires
        j <= insn.params@.len(),
    ensures
        r@ == render_plain_params(insn@.params, j as int, indent@, col, cells_view(*old(seen))).0,
        cells_view(*final(seen)) == render_plain_params(
            insn@.params,
            j as int,
            indent@,
            col,
            cells_view(*old(seen)),
        ).1,
    decreases *insn, 3int, insn.params@.len() - j,
{
    if j == insn.params.len() {
        let r = String::new();
        return r;
    }
    proof {
        vstd::std_specs::vec::axiom_vec_index_decreases(insn.params, j as int);
        assert(decreases_to!(*insn => insn.params[j as int]));
        assert(insn@.params[j as int] == insn.params@[j as int]@);
    }
    let mut out = print_plain_param(&insn.params[j], indent, col, seen);
    let rest = print_plain_params(insn, j + 1, indent, col, seen);
    out.append(rest.as_str());
    out
}

/// Renders one operand, exactly as `render_plain_param` describes.
fn print_plain_param(p: &InstructionParameter, indent: &String, col: bool, seen: &mut Vec<
    Cell,
>) -> (r: String)
    ensures
        r@ == render_plain_param(p@, indent@, col, cells_view(*old(seen))).0,
        cells_view(*final(seen)) == render_plain_param(
            p@,
            indent@,
            col,
            cells_view(*old(seen)),
        ).1,
    decreases *p, 4int, 0int,
{
    let mut out = String::new();
    match p {
        InstructionParameter::Int(v) => {
            out.append(" ");
            out.append(dec_u64(*v).as_str());
            proof {
                assert(out@ =~= render_plain_param(p@, indent@, col, cells_view(*old(seen))).0);
            }
        },
        InstructionParameter::Opaque(cell) => {
            let fp = fingerprint(cell);
            out.append(" ;; ref #");
            out.append(fp_hex(fp).as_str());
            proof {
                assert(fp == fp_cell(cell@) as u64);
                assert(out@ =~= render_plain_param(p@, indent@, col, cells_view(*old(seen))).0);
            }
        },
        InstructionParameter::CodeDictMarker => {
            out.append(" ;; jump table");
            proof {
                assert(out@ =~= render_plain_param(p@, indent@, col, cells_view(*old(seen))).0);
            }
        },
        InstructionParameter::Code { code, cell } => {
            let fp = fingerprint(cell);
            proof {
                assert(fp == fp_cell(cell@) as u64);
            }
            if col && seen_has_cell(seen, cell) {
                out.append(" { ;; see #");
                out.append(fp_hex(fp).as_str());
                out.append(" }");
                proof {
                    assert(out@ =~= render_plain_param(
                        p@,
                        indent@,
                        col,
                        cells_view(*old(seen)),
                    ).0);
                }
            } else {
                let ghost pre = *seen;
                seen.push(cell_clone(cell));
                proof {
                    crate::cell::lemma_cells_view_push(pre, *seen);
                    assert(cells_view(*seen) =~= cells_view(pre).push(cell@));
                }
                out.append(" { ;; #");
                out.append(fp_hex(fp).as_str());
                out.append("\n");
                let mut deeper = indent.clone();
                deeper.append("  ");
                let nested = print_plain_at(code, 0, &deeper, col, seen);
                out.append(nested.as_str());
                out.append(indent.as_str());
                out.append("}");
                proof {
                    assert(out@ =~= render_plain_param(
                        p@,
                        indent@,
                        col,
                        cells_view(pre),
                    ).0);
                }
            }
        },
    }
    out
}

// ---------------------------------------------------------------------------
// The dictionary renderer.
// ---------------------------------------------------------------------------

/// The first index at or after `j` whose resolved entry uses `path`.
pub open spec fn map_find(map: Seq<MapEntryV>, path: Seq<u8>, j: int) -> Option<int>
    decreases map.len() - j,
{
    if !(0 <= j < map.len()) {
        None
    } else if map[j].path == path {
        Some(j)
    } else {
        map_find(map, path, j + 1)
    }
}

/// The rendering of one physical dictionary node: its fingerprint header;
/// at a resolved location, the bits up to the value's offset as an opaque
/// blob, the method id, and the value's listing, with no further descent;
/// elsewhere its bits as a blob and every child in index order.
pub open spec fn render_dict_cell(
    map: Seq<MapEntryV>,
    c: CellV,
    ind: Seq<char>,
    path: Seq<u8>,
) -> Seq<char>
    decreases c, 1int, 0int,
{
    let head = ind + ".cell { ;; #"@ + fp_hex_chars((fp_cell(c) as u64)) + "\n"@;
    let inner = ind + "  "@;
    let body = match map_find(map, path, 0) {
        Some(ix) => {
            let e = map[ix];
            (if 0 <= e.offset <= c.data.len() {
                inner + ".blob x"@ + blob_hex_chars(c.data, 0, e.offset) + "\n"@
            } else {
                Seq::empty()
            }) + inner + ";; method "@ + dec_chars(e.id as nat) + "\n"@ + render_plain_code(
                e.code,
                0,
                inner,
                true,
                Seq::empty(),
            ).0
        },
        None => {
            (if c.data.len() > 0 {
                inner + ".blob x"@ + blob_hex_chars(c.data, 0, c.data.len() as int) + "\n"@
            } else {
                Seq::empty()
            }) + render_dict_children(map, c, inner, path, 0)
        },
    };
    head + body + ind + "}\n"@
}

/// The renderings of the children from index `i` on.
pub open spec fn render_dict_children(
    map: Seq<MapEntryV>,
    c: CellV,
    ind: Seq<char>,
    path: Seq<u8>,
    i: int,
) -> Seq<char>
    decreases c, 0int, c.refs.len() - i,
{
    if 0 <= i < c.refs.len() {
        render_dict_cell(map, c.refs[i], ind, path.push(i as u8)) + render_dict_children(
            map,
            c,
            ind,
            path,
            i + 1,
        )
    } else {
        Seq::empty()
    }
}

impl DelimitedHashmapE {
    /// The index of the resolved entry recorded for a tree path, if any.
    fn entry_at(&self, path: &Vec<u8>) -> (r: Option<usize>)
        ensures
            r is Some <==> map_find(self@, path@, 0) is Some,
            r matches Some(ix) ==> ix as int == map_find(self@, path@, 0)->Some_0 && ix
                < self.map@.len() && self.map@[ix as int]@.path == path@,
    {
        let mut j: usize = 0;
        while j < self.map.len()
            invariant
                j <= self.map@.len(),
                map_find(self@, path@, 0) == map_find(self@, path@, j as int),
            decreases self.map@.len() - j,
        {
            proof {
                assert(self@[j as int] == self.map@[j as int]@);
            }
            if crate::codedict::paths_equal(&self.map[j].path, path) {
                return Some(j);
            }
            j = j + 1;
        }
        None
    }

    /// Renders the dictionary's physical tree, annotating each location at
    /// which a resolved value begins with its method id and disassembled
    /// code.
    pub fn print(&self, indent: &str) -> (r: String)
        ensures
            r@ == render_dict_cell(self@, self.dict@, indent@, Seq::empty()),
    {
        let base = String::from_str(indent);
        let path: Vec<u8> = Vec::new();
        proof {
            assert(path@ =~= Seq::<u8>::empty());
        }
        self.print_impl(&cell_clone(&self.dict), &base, path)
    }

    /// The recursive body of the dictionary renderer.
    fn print_impl(&self, cell: &Cell, indent: &String, path: Vec<u8>) -> (r: String)
        ensures
            r@ == render_dict_cell(self@, cell@, indent@, path@),
        decreases *cell, 1int, 0int,
    {
        let mut out = String::new();
        out.append(indent.as_str());
        out.append(".cell { ;; #");
        let fp = fingerprint(cell);
        proof {
            assert(fp == fp_cell(cell@) as u64);
        }
        out.append(fp_hex(fp).as_str());
        out.append("\n");
        let mut inner = indent.clone();
        inner.append("  ");
        match self.entry_at(&path) {
            Some(ix) => {
                let offset = self.map[ix].offset;
                proof {
                    assert(self@[ix as int] == self.map@[ix as int]@);
                }
                if offset <= cell.data.len() {
                    out.append(inner.as_str());
                    out.append(".blob x");
                    out.append(blob_hex(cell, 0, offset).as_str());
                    out.append("\n");
                }
                out.append(inner.as_str());
                out.append(";; method ");
                out.append(dec_u64(self.map[ix].id).as_str());
                out.append("\n");
                let mut seen: Vec<Cell> = Vec::new();
                proof {
                    assert(cells_view(seen) =~= Seq::<CellV>::empty());
                }
                let listing = print_plain_at(&self.map[ix].code, 0, &inner, true, &mut seen);
                out.append(listing.as_str());
            },
            None => {
                if cell.data.len() > 0 {
                    out.append(inner.as_str());
                    out.append(".blob x");
                    out.append(blob_hex(cell, 0, cell.data.len()).as_str());
                    out.append("\n");
                }
                let children = self.print_children(cell, &inner, &path, 0);
                out.append(children.as_str());
            },
        }
        out.append(indent.as_str());
        out.append("}\n");
        proof {
            assert(out@ =~= render_dict_cell(self@, cell@, indent@, path@));
        }
        out
    }

    /// Renders the children of a node from index `i` on.
    fn print_children(&self, cell: &Cell, inner: &String, path: &Vec<u8>, i: usize) -> (r: String)
        requires
            i <= cell.refs@.len(),
        ensures
            r@ == render_dict_children(self@, cell@, inner@, path@, i as int),
        decreases *cell, 0int, cell.refs@.len() - i,
    {
        if i == cell.refs.len() {
            let r = String::new();
            return r;
        }
        proof {
            vstd::std_specs::vec::axiom_vec_index_decreases(cell.refs, i as int);
            assert(cells_view(cell.refs)[i as int] == cell.refs@[i as int]@);
        }
        let mut next = crate::codedict::path_clone(path);
        next.push(i as u8);
        proof {
            assert(next@ =~= path@.push(i as u8));
        }
        let mut out = self.print_impl(&cell.refs[i], inner, next);
        let rest = self.print_children(cell, inner, path, i + 1);
        out.append(rest.as_str());
        out
    }
}

// ---------------------------------------------------------------------------
// The full listing renderer: like the plain one, but an instruction that
// carries the jump-table marker additionally renders its resolved
// dictionary.
// ---------------------------------------------------------------------------

/// Whether an operand list carries the jump-table marker.
pub open spec fn has_marker(ps: Seq<ParamV>) -> bool {
    exists|j: int| 0 <= j < ps.len() && (#[trigger] ps[j]) is CodeDictMarker
}

/// The rendering of the jump table a marked push-constant instruction
/// carries: nothing unless the instruction holds a key width of at most 64
/// and a within-capacity dictionary cell whose resolution succeeds.
pub open spec fn render_dict_insn(x: InsnV, ind: Seq<char>) -> Seq<char> {
    if x.params.len() < 2 {
        Seq::empty()
    } else if !(x.params[0] is Int) {
        Seq::empty()
    } else if x.params[0]->Int_0 > 64 {
        Seq::empty()
    } else if !(x.params[1] is Opaque) {
        Seq::empty()
    } else if !x.params[1]->Opaque_0.wf() {
        Seq::empty()
    } else {
        match spec_mark(x.params[1]->Opaque_0, x.params[0]->Int_0 as int) {
            Ok(m) => "\n"@ + render_dict_cell(
                m,
                x.params[1]->Opaque_0,
                ind + "  "@,
                Seq::empty(),
            ),
            Err(_) => Seq::empty(),
        }
    }
}

/// The full listing of the instructions of `s` from index `i` on.
pub open spec fn render_code(
    s: Seq<InsnV>,
    i: int,
    ind: Seq<char>,
    col: bool,
    seen: Seq<CellV>,
) -> (Seq<char>, Seq<CellV>)
    decreases s, 3int, s.len() - i,
{
    if 0 <= i < s.len() {
        let one = render_insn(s[i], ind, col, seen);
        let rest = render_code(s, i + 1, ind, col, one.1);
        (one.0 + rest.0, rest.1)
    } else {
        (Seq::empty(), seen)
    }
}

/// The full listing of one instruction, its resolved jump table included
/// when it carries the marker.
pub open spec fn render_insn(x: InsnV, ind: Seq<char>, col: bool, seen: Seq<CellV>) -> (
    Seq<char>,
    Seq<CellV>,
)
    decreases x, 4int, 0int,
{
    let pr = render_params(x.params, 0, ind, col, seen);
    let dict = if has_marker(x.params) {
        render_dict_insn(x, ind)
    } else {
        Seq::empty()
    };
    (ind + opcode_name(x.op) + pr.0 + dict + "\n"@, pr.1)
}

/// The full listing of the operands from index `j` on.
pub open spec fn render_params(
    ps: Seq<ParamV>,
    j: int,
    ind: Seq<char>,
    col: bool,
    seen: Seq<CellV>,
) -> (Seq<char>, Seq<CellV>)
    decreases ps, 3int, ps.len() - j,
{
    if 0 <= j < ps.len() {
        let one = render_param(ps[j], ind, col, seen);
        let rest = render_params(ps, j + 1, ind, col, one.1);
        (one.0 + rest.0, rest.1)
    } else {
        (Seq::empty(), seen)
    }
}

/// The full listing of one operand.
pub open spec fn render_param(p: ParamV, ind: Seq<char>, col: bool, seen: Seq<CellV>) -> (
    Seq<char>,
    Seq<CellV>,
)
    decreases p, 4int, 0int,
{
    match p {
        ParamV::Int(v) => (" "@ + dec_chars(v as nat), seen),
        ParamV::Opaque(c) => (" ;; ref #"@ + fp_hex_chars((fp_cell(c) as u64)), seen),
        ParamV::CodeDictMarker => (" ;; jump table"@, seen),
        ParamV::Code { code, cell } => {
            if col && seen.contains(cell) {
                (" { ;; see #"@ + fp_hex_chars((fp_cell(cell) as u64)) + " }"@, seen)
            } else {
                let nested = render_code(code, 0, ind + "  "@, col, seen.push(cell));
                (
                    " { ;; #"@ + fp_hex_chars((fp_cell(cell) as u64)) + "\n"@ + nested.0 + ind
                        + "}"@,
                    nested.1,
                )
            }
        },
    }
}

/// Whether an instruction carries the jump-table marker.
fn has_dict_marker(insn: &Instruction) -> (r: bool)
    ensures
        r <==> has_marker(insn@.params),
{
    let m = insn.params.len();
    let mut j: usize = 0;
    while j < m
        invariant
            m == insn.params@.len(),
            j <= m,
            forall|k: int| 0 <= k < j ==> !((#[trigger] insn@.params[k]) is CodeDictMarker),
        decreases m - j,
    {
        proof {
            assert(insn@.params[j as int] == insn.params@[j as int]@);
        }
        if let InstructionParameter::CodeDictMarker = &insn.params[j] {
            return true;
        }
        j = j + 1;
    }
    false
}

/// Resolves and renders the dictionary a marked push-constant instruction
/// carries, exactly as `render_dict_insn` describes; renders nothing when
/// resolution fails.
fn render_dict(insn: &Instruction, indent: &String) -> (r: String)
    ensures
        r@ == render_dict_insn(insn@, indent@),
{
    let out = String::new();
    proof {
        assert(out@ =~= Seq::<char>::empty());
    }
    if insn.params.len() < 2 {
        return out;
    }
    proof {
        assert(insn@.params[0] == insn.params@[0]@);
        assert(insn@.params[1] == insn.params@[1]@);
    }
    let key_size: usize = match &insn.params[0] {
        InstructionParameter::Int(v) => {
            if *v > 64 {
                return out;
            }
            *v as usize
        },
        _ => {
            return out;
        },
    };
    let dict = match &insn.params[1] {
        InstructionParameter::Opaque(cell) => cell,
        _ => {
            return out;
        },
    };
    if !cell_wf_check(dict) {
        return out;
    }
    let mut state = DelimitedHashmapE::new(cell_clone(dict), key_size);
    if state.mark().is_err() {
        return out;
    }
    let mut r = String::new();
    r.append("\n");
    let mut deeper = indent.clone();
    deeper.append("  ");
    r.append(state.print(deeper.as_str()).as_str());
    proof {
        assert(r@ =~= render_dict_insn(insn@, indent@));
    }
    r
}

/// Renders instructions from index `i` on, exactly as `render_code`
/// describes.
fn print_code_at(c: &Code, i: usize, indent: &String, col: bool, seen: &mut Vec<Cell>) -> (r:
    String)
    requires
        i <= c.insns@.len(),
    ensures
        r@ == render_code(c@, i as int, indent@, col, cells_view(*old(seen))).0,
        cells_view(*final(seen)) == render_code(
            c@,
            i as int,
            indent@,
            col,
            cells_view(*old(seen)),
        ).1,
    decreases *c, 3int, c.insns@.len() - i,
{
    if i == c.insns.len() {
        let r = String::new();
        return r;
    }
    proof {
        vstd::std_specs::vec::axiom_vec_index_decreases(c.insns, i as int);
        assert(c@[i as int] == c.insns@[i as int]@);
    }
    let mut out = print_insn(&c.insns[i], indent, col, seen);
    let rest = print_code_at(c, i + 1, indent, col, seen);
    out.append(rest.as_str());
    out
}

/// Renders one instruction, exactly as `render_insn` describes.
fn print_insn(insn: &Instruction, indent: &String, col: bool, seen: &mut Vec<Cell>) -> (r: String)
    ensures
        r@ == render_insn(insn@, indent@, col, cells_view(*old(seen))).0,
        cells_view(*final(seen)) == render_insn(insn@, indent@, col, cells_view(*old(seen))).1,
    decreases *insn, 4int, 0int,
{
    let mut out = String::new();
    out.append(indent.as_str());
    out.append(insn.name());
    let pt = print_params(insn, 0, indent, col, seen);
    out.append(pt.as_str());
    if has_dict_marker(insn) {
        out.append(render_dict(insn, indent).as_str());
    }
    out.append("\n");
    proof {
        assert(out@ =~= render_insn(insn@, indent@, col, cells_view(*old(seen))).0);
    }
    out
}

/// Renders operands from index `j` on, exactly as `render_params` describes.
fn print_params(insn: &Instruction, j: usize, indent: &String, col: bool, seen: &mut Vec<
    Cell,
>) -> (r: String)
    requires
        j <= insn.params@.len(),
    ensures
        r@ == render_params(insn@.params, j as int, indent@, col, cells_view(*old(seen))).0,
        cells_view(*final(seen)) == render_params(
            insn@.params,
            j as int,
            indent@,
            col,
            cells_view(*old(seen)),
        ).1,
    decreases *insn, 3int, insn.params@.len() - j,
{
    if j == insn.params.len() {
        let r = String::new();
        return r;
    }
    proof {
        vstd::std_specs::vec::axiom_vec_index_decreases(insn.params, j as int);
        assert(decreases_to!(*insn => insn.params[j as int]));
        assert(insn@.params[j as int] == insn.params@[j as int]@);
    }
    let mut out = print_param(&insn.params[j], indent, col, seen);
    let rest = print_params(insn, j + 1, indent, col, seen);
    out.append(rest.as_str());
    out
}

/// Renders one operand, exactly as `render_param` describes.
fn print_param(p: &InstructionParameter, indent: &String, col: bool, seen: &mut Vec<Cell>) -> (r:
    String)
    ensures
        r@ == render_param(p@, indent@, col, cells_view(*old(seen))).0,
        cells_view(*final(seen)) == render_param(p@, indent@, col, cells_view(*old(seen))).1,
    decreases *p, 4int, 0int,
{
    let mut out = String::new();
    match p {
        InstructionParameter::Int(v) => {
            out.append(" ");
            out.append(dec_u64(*v).as_str());
            proof {
                assert(out@ =~= render_param(p@, indent@, col, cells_view(*old(seen))).0);
            }
        },
        InstructionParameter::Opaque(cell) => {
            let fp = fingerprint(cell);
            out.append(" ;; ref #");
            out.append(fp_hex(fp).as_str());
            proof {
                assert(fp == fp_cell(cell@) as u64);
                assert(out@ =~= render_param(p@, indent@, col, cells_view(*old(seen))).0);
            }
        },
        InstructionParameter::CodeDictMarker => {
            out.append(" ;; jump table");
            proof {
                assert(out@ =~= render_param(p@, indent@, col, cells_view(*old(seen))).0);
            }
        },
        InstructionParameter::Code { code, cell } => {
            let fp = fingerprint(cell);
            proof {
                assert(fp == fp_cell(cell@) as u64);
            }
            if col && seen_has_cell(seen, cell) {
                out.append(" { ;; see #");
                out.append(fp_hex(fp).as_str());
                out.append(" }");
                proof {
                    assert(out@ =~= render_param(p@, indent@, col, cells_view(*old(seen))).0);
                }
            } else {
                let ghost pre = *seen;
                seen.push(cell_clone(cell));
                proof {
                    crate::cell::lemma_cells_view_push(pre, *seen);
                    assert(cells_view(*seen) =~= cells_view(pre).push(cell@));
                }
                out.append(" { ;; #");
                out.append(fp_hex(fp).as_str());
                out.append("\n");
                let mut deeper = indent.clone();
                deeper.append("  ");
                let nested = print_code_at(code, 0, &deeper, col, seen);
                out.append(nested.as_str());
                out.append(indent.as_str());
                out.append("}");
                proof {
                    assert(out@ =~= render_param(p@, indent@, col, cells_view(pre)).0);
                }
            }
        },
    }
    out
}

impl Code {
    /// Renders the instruction sequence as an indented listing; with
    /// `collapse` set, a nested subtree whose cell content was already
    /// rendered in full appears as a single back-reference line instead.
    pub fn print(&self, indent: &str, collapse: bool) -> (r: String)
        ensures
            r@ == render_code(self@, 0, indent@, collapse, Seq::empty()).0,
    {
        let mut seen: Vec<Cell> = Vec::new();
        proof {
            assert(cells_view(seen) =~= Seq::<CellV>::empty());
        }
        let base = String::from_str(indent);
        print_code_at(self, 0, &base, collapse, &mut seen)
    }
}

// ---------------------------------------------------------------------------
// The cell-tree renderer.
// ---------------------------------------------------------------------------

/// The rendering of a whole cell tree: each node's bits as a blob with its
/// fingerprint, children indented below it.
pub open spec fn render_tree(c: CellV, ind: Seq<char>) -> Seq<char>
    decreases c, 1int, 0int,
{
    ind + "x"@ + blob_hex_chars(c.data, 0, c.data.len() as int) + " ;; #"@ + fp_hex_chars(
        (fp_cell(c) as u64),
    ) + "\n"@ + render_tree_children(c, ind + "  "@, 0)
}

/// The renderings of a node's children from index `i` on.
pub open spec fn render_tree_children(c: CellV, ind: Seq<char>, i: int) -> Seq<char>
    decreases c, 0int, c.refs.len() - i,
{
    if 0 <= i < c.refs.len() {
        render_tree(c.refs[i], ind) + render_tree_children(c, ind, i + 1)
    } else {
        Seq::empty()
    }
}

/// Renders a whole cell tree as nested bitstring blobs.
pub fn print_tree_of_cells(cell: &Cell) -> (r: String)
    ensures
        r@ == render_tree(cell@, Seq::empty()),
{
    let base = String::new();
    print_tree_rec(cell, &base)
}

/// The recursive body of the cell-tree renderer.
fn print_tree_rec(cell: &Cell, indent: &String) -> (r: String)
    ensures
        r@ == render_tree(cell@, indent@),
    decreases *cell, 1int, 0int,
{
    let mut out = String::new();
    out.append(indent.as_str());
    out.append("x");
    out.append(blob_hex(cell, 0, cell.data.len()).as_str());
    out.append(" ;; #");
    let fp = fingerprint(cell);
    proof {
        assert(fp == fp_cell(cell@) as u64);
    }
    out.append(fp_hex(fp).as_str());
    out.append("\n");
    let mut deeper = indent.clone();
    deeper.append("  ");
    let children = print_tree_children(cell, &deeper, 0);
    out.append(children.as_str());
    proof {
        assert(out@ =~= render_tree(cell@, indent@));
    }
    out
}

/// Renders a node's children from index `i` on.
fn print_tree_children(cell: &Cell, deeper: &String, i: usize) -> (r: String)
    requires
        i <= cell.refs@.len(),
    ensures
        r@ == render_tree_children(cell@, deeper@, i as int),
    decreases *cell, 0int, cell.refs@.len() - i,
{
    if i == cell.refs.len() {
        let r = String::new();
        return r;
    }
    proof {
        vstd::std_specs::vec::axiom_vec_index_decreases(cell.refs, i as int);
        assert(cells_view(cell.refs)[i as int] == cell.refs@[i as int]@);
    }
    let mut out = print_tree_rec(&cell.refs[i], deeper);
    let rest = print_tree_children(cell, deeper, i + 1);
    out.append(rest.as_str());
    out
}

/// The set of distinct cell contents reachable from a cell, itself
/// included.
pub open spec fn tree_cells(c: CellV) -> Set<CellV>
    decreases c, 1int, 0int,
{
    set![c].union(tree_cells_children(c, 0))
}

/// The contents reachable through the children from index `i` on.
pub open spec fn tree_cells_children(c: CellV, i: int) -> Set<CellV>
    decreases c, 0int, c.refs.len() - i,
{
    if 0 <= i < c.refs.len() {
        tree_cells(c.refs[i]).union(tree_cells_children(c, i + 1))
    } else {
        Set::empty()
    }
}

/// The contents recorded in a list of cells.
pub open spec fn recorded_set(s: Seq<Cell>) -> Set<CellV> {
    Set::new(|x: CellV| exists|j: int| 0 <= j < s.len() && (#[trigger] s[j])@ == x)
}

/// No two cells of the list share their content.
pub open spec fn distinct_cells(s: Seq<Cell>) -> bool {
    forall|i: int, j: int| 0 <= i < j < s.len() ==> (#[trigger] s[i])@ != (#[trigger] s[j])@
}

/// A list of pairwise-distinct contents records exactly as many contents as
/// it has cells.
proof fn lemma_distinct_card(s: Seq<Cell>)
    requires
        distinct_cells(s),
    ensures
        recorded_set(s).finite(),
        recorded_set(s).len() == s.len(),
    decreases s.len(),
{
    if s.len() == 0 {
        broadcast use vstd::set::group_set_axioms;

        assert(recorded_set(s) =~= Set::<CellV>::empty());
    } else {
        let head = s.drop_last();
        assert(distinct_cells(head)) by {
            assert forall|i: int, j: int| 0 <= i < j < head.len() implies (#[trigger] head[i])@
                != (#[trigger] head[j])@ by {
                assert(head[i] == s[i]);
                assert(head[j] == s[j]);
            }
        }
        lemma_distinct_card(head);
        let last = s.last()@;
        assert forall|x: CellV| recorded_set(s).contains(x) == recorded_set(head).insert(
            last,
        ).contains(x) by {
            if recorded_set(s).contains(x) {
                let j = choose|j: int| 0 <= j < s.len() && (#[trigger] s[j])@ == x;
                if j < s.len() - 1 {
                    assert(head[j]@ == x);
                    assert(recorded_set(head).contains(x));
                }
            }
            if recorded_set(head).contains(x) {
                let j = choose|j: int| 0 <= j < head.len() && (#[trigger] head[j])@ == x;
                assert(s[j]@ == x);
                assert(recorded_set(s).contains(x));
            }
            if x == last {
                assert(recorded_set(s).contains(x));
            }
        }
        assert(recorded_set(s) =~= recorded_set(head).insert(last));
        assert(!recorded_set(head).contains(last)) by {
            if recorded_set(head).contains(last) {
                let j = choose|j: int| 0 <= j < head.len() && (#[trigger] head[j])@ == last;
                assert(s[j]@ == s[s.len() - 1]@);
            }
        }
        vstd::set::axiom_set_insert_finite(recorded_set(head), last);
        vstd::set::axiom_set_insert_len(recorded_set(head), last);
    }
}

/// Counts the distinct cells of a tree, two cells counting as one when their
/// contents are equal: the result is the cardinality of the set of reachable
/// contents. The tree is only read.
pub fn count_unique_cells(cell: &Cell) -> (r: usize)
    ensures
        tree_cells(cell@).finite(),
        r as nat == tree_cells(cell@).len(),
        r >= 1,
{
    let mut seen: Vec<Cell> = Vec::new();
    proof {
        assert(recorded_set(seen@) =~= Set::<CellV>::empty());
    }
    collect_unique(cell, &mut seen);
    proof {
        assert(recorded_set(seen@) =~= tree_cells(cell@));
        lemma_distinct_card(seen@);
    }
    seen.len()
}

/// Records one cell of each content reachable from the tree: afterwards the
/// recorded contents are exactly the previously recorded ones together with
/// the tree's.
fn collect_unique(cell: &Cell, seen: &mut Vec<Cell>) -> (r: ())
    requires
        distinct_cells(old(seen)@),
    ensures
        distinct_cells(final(seen)@),
        final(seen)@.len() >= old(seen)@.len(),
        final(seen)@.len() >= 1,
        forall|j: int| 0 <= j < old(seen)@.len() ==> final(seen)@[j] == old(seen)@[j],
        recorded_set(final(seen)@) == recorded_set(old(seen)@).union(tree_cells(cell@)),
    decreases *cell, 1int, 0int,
{
    let ghost entry = seen@;
    let present = seen_has_cell(seen, cell);
    proof {
        if present {
            let w = choose|w: int| 0 <= w < cells_view(*seen).len() && (#[trigger] cells_view(
                *seen,
            )[w]) == cell@;
            assert(seen@[w]@ == cell@);
            assert(recorded_set(seen@).contains(cell@));
        } else {
            if recorded_set(seen@).contains(cell@) {
                let w = choose|w: int| 0 <= w < seen@.len() && (#[trigger] seen@[w])@ == cell@;
                assert(cells_view(*seen)[w] == seen@[w]@);
                assert(cells_view(*seen).contains(cell@));
            }
        }
    }
    if !present {
        seen.push(cell_clone(cell));
        proof {
            assert forall|x: CellV| recorded_set(seen@).contains(x) == recorded_set(
                entry,
            ).insert(cell@).contains(x) by {
                if recorded_set(seen@).contains(x) {
                    let j = choose|j: int| 0 <= j < seen@.len() && (#[trigger] seen@[j])@ == x;
                    if j < entry.len() {
                        assert(entry[j]@ == x);
                        assert(recorded_set(entry).contains(x));
                    }
                }
                if recorded_set(entry).contains(x) {
                    let j = choose|j: int| 0 <= j < entry.len() && (#[trigger] entry[j])@ == x;
                    assert(seen@[j]@ == x);
                    assert(recorded_set(seen@).contains(x));
                }
                if x == cell@ {
                    assert(seen@[seen@.len() - 1]@ == x);
                    assert(recorded_set(seen@).contains(x));
                }
            }
            assert(recorded_set(seen@) =~= recorded_set(entry).insert(cell@));
            assert forall|i: int, j: int| 0 <= i < j < seen@.len() implies (#[trigger] seen@[i])@
                != (#[trigger] seen@[j])@ by {
                if j == seen@.len() - 1 {
                    assert(entry[i]@ != cell@);
                }
            }
        }
    }
    let ghost started = seen@;
    let n = cell.refs.len();
    let mut i: usize = 0;
    proof {
        assert(recorded_set(entry).union(tree_cells(cell@)) =~= recorded_set(
            started,
        ).union(tree_cells_children(cell@, 0)));
    }
    while i < n
        invariant
            n == cell.refs@.len(),
            i <= n,
            distinct_cells(seen@),
            seen@.len() >= started.len(),
            seen@.len() >= 1,
            started.len() >= entry.len(),
            started.len() >= 1,
            forall|j: int| 0 <= j < started.len() ==> seen@[j] == started[j],
            forall|j: int| 0 <= j < entry.len() ==> started[j] == entry[j],
            recorded_set(entry).union(tree_cells(cell@)) == recorded_set(seen@).union(
                tree_cells_children(cell@, i as int),
            ),
        decreases n - i,
    {
        proof {
            vstd::std_specs::vec::axiom_vec_index_decreases(cell.refs, i as int);
            assert(cells_view(cell.refs)[i as int] == cell.refs@[i as int]@);
        }
        let ghost before = seen@;
        collect_unique(&cell.refs[i], seen);
        proof {
            assert(recorded_set(entry).union(tree_cells(cell@)) =~= recorded_set(seen@).union(
                tree_cells_children(cell@, i + 1),
            ));
        }
        i = i + 1;
    }
    proof {
        assert(tree_cells_children(cell@, n as int) =~= Set::<CellV>::empty());
        assert(recorded_set(seen@) =~= recorded_set(entry).union(tree_cells(cell@)));
    }
}

} // verus!
