//! The decoder: walks a bit/reference cursor, consults the opcode table, and
//! produces the instruction model, recursively decoding references marked as
//! nested code.

use vstd::prelude::*;
use crate::bits::bits_uint;
use crate::cell::{Cell, CellV, CellSlice, cell_clone, lemma_wf_child};
use crate::error::DecodeError;
use crate::insn::{Code, Instruction, InstructionParameter, InsnV, ParamV, Opcode};

verus! {

broadcast use vstd::std_specs::vec::group_vec_axioms;

/// Bit pattern of each opcode, as the value of its eight leading bits.
pub const OP_NOP: u64 = 0;

pub const OP_PUSHINT: u64 = 1;

pub const OP_DICTUGETJMP: u64 = 2;

pub const OP_DICTUGETJMPZ: u64 = 3;

pub const OP_CALLREF: u64 = 4;

pub const OP_PUSHREF: u64 = 5;

pub const OP_DICTPUSHCONST: u64 = 6;

pub const OP_PFXDICTSWITCH: u64 = 7;

/// Width of the opcode field, in bits.
pub const OPCODE_BITS: usize = 8;

/// Width of the immediate operand of the push-integer instruction.
pub const IMM_BITS: usize = 8;

/// Width of the key-size operand of the dictionary instructions.
pub const KEYSIZE_BITS: usize = 10;

/// Prepends one instruction to a decode result.
pub open spec fn cons_insn(i: InsnV, rest: Result<Seq<InsnV>, DecodeError>) -> Result<
    Seq<InsnV>,
    DecodeError,
> {
    match rest {
        Ok(s) => Ok(seq![i] + s),
        Err(e) => Err(e),
    }
}

/// The decode of a cell from bit position `bp` and reference position `rp`
/// onward: instructions are read until the data is exhausted; when exactly
/// one unread reference remains at that point, decoding continues inside it.
pub open spec fn spec_load(c: CellV, bp: int, rp: int) -> Result<Seq<InsnV>, DecodeError>
    decreases c, c.data.len() - bp,
{
    if bp == c.data.len() {
        if 0 <= rp && rp == c.refs.len() - 1 {
            spec_load(c.refs[rp], 0, 0)
        } else {
            Ok(Seq::<InsnV>::empty())
        }
    } else if c.data.len() - bp < OPCODE_BITS {
        Err((DecodeError::CursorExhausted { bit: bp as u64 }))
    } else {
        let op = bits_uint(c.data.subrange(bp, bp + OPCODE_BITS));
        if op == OP_NOP {
            cons_insn(
                InsnV { op: Opcode::Nop, params: Seq::empty() },
                spec_load(c, bp + OPCODE_BITS, rp),
            )
        } else if op == OP_PUSHINT {
            if c.data.len() - bp < OPCODE_BITS + IMM_BITS {
                Err((DecodeError::CursorExhausted { bit: bp as u64 }))
            } else {
                cons_insn(
                    InsnV {
                        op: Opcode::PushInt,
                        params: seq![
                            ParamV::Int(
                                bits_uint(
                                    c.data.subrange(bp + OPCODE_BITS, bp + OPCODE_BITS + IMM_BITS),
                                ) as u64,
                            )
                        ],
                    },
                    spec_load(c, bp + OPCODE_BITS + IMM_BITS, rp),
                )
            }
        } else if op == OP_DICTUGETJMP {
            cons_insn(
                InsnV { op: Opcode::DictUGetJmp, params: Seq::empty() },
                spec_load(c, bp + OPCODE_BITS, rp),
            )
        } else if op == OP_DICTUGETJMPZ {
            cons_insn(
                InsnV { op: Opcode::DictUGetJmpZ, params: Seq::empty() },
                spec_load(c, bp + OPCODE_BITS, rp),
            )
        } else if op == OP_CALLREF {
            if rp < 0 || rp >= c.refs.len() {
                Err((DecodeError::MissingReference { bit: bp as u64 }))
            } else {
                match spec_load(c.refs[rp], 0, 0) {
                    Ok(nested) => cons_insn(
                        InsnV {
                            op: Opcode::CallRef,
                            params: seq![ParamV::Code { code: nested, cell: c.refs[rp] }],
                        },
                        spec_load(c, bp + OPCODE_BITS, rp + 1),
                    ),
                    Err(e) => Err(e),
                }
            }
        } else if op == OP_PUSHREF {
            if rp < 0 || rp >= c.refs.len() {
                Err((DecodeError::MissingReference { bit: bp as u64 }))
            } else {
                cons_insn(
                    InsnV { op: Opcode::PushRef, params: seq![ParamV::Opaque(c.refs[rp])] },
                    spec_load(c, bp + OPCODE_BITS, rp + 1),
                )
            }
        } else if op == OP_DICTPUSHCONST || op == OP_PFXDICTSWITCH {
            if c.data.len() - bp < OPCODE_BITS + KEYSIZE_BITS {
                Err((DecodeError::CursorExhausted { bit: bp as u64 }))
            } else if rp < 0 || rp >= c.refs.len() {
                Err((DecodeError::MissingReference { bit: bp as u64 }))
            } else {
                cons_insn(
                    InsnV {
                        op: if op == OP_DICTPUSHCONST {
                            Opcode::DictPushConst
                        } else {
                            Opcode::PfxDictSwitch
                        },
                        params: seq![
                            ParamV::Int(
                                bits_uint(
                                    c.data.subrange(
                                        bp + OPCODE_BITS,
                                        bp + OPCODE_BITS + KEYSIZE_BITS,
                                    ),
                                ) as u64,
                            ),
                            ParamV::Opaque(c.refs[rp]),
                        ],
                    },
                    spec_load(c, bp + OPCODE_BITS + KEYSIZE_BITS, rp + 1),
                )
            }
        } else {
            Err((DecodeError::UnknownOpcode { bit: bp as u64 }))
        }
    }
}

/// The decode of a whole cell.
pub open spec fn spec_load_cell(c: CellV) -> Result<Seq<InsnV>, DecodeError> {
    spec_load(c, 0, 0)
}

/// Maps a decode result to its mathematical value.
pub open spec fn code_result_view(r: Result<Code, DecodeError>) -> Result<Seq<InsnV>, DecodeError> {
    match r {
        Ok(c) => Ok(c@),
        Err(e) => Err(e),
    }
}

/// The numeric value of `k` bits starting at bit `bp` of a cell.
pub fn read_bits_value(cell: &Cell, bp: usize, k: usize) -> (v: u64)
    requires
        bp + k <= cell@.data.len(),
        k <= 64,
    ensures
        v as nat == bits_uint(cell@.data.subrange(bp as int, bp + k)),
    decreases k,
{
    let mut v: u64 = 0;
    let mut i: usize = 0;
    proof {
        assert(cell@.data == cell.data@);
        vstd::arithmetic::power2::lemma2_to64();
        assert(cell@.data.subrange(bp as int, bp as int) =~= Seq::<bool>::empty());
    }
    while i < k
        invariant
            bp + k <= cell@.data.len(),
            k <= 64,
            i <= k,
            cell@.data == cell.data@,
            v as nat == bits_uint(cell@.data.subrange(bp as int, bp + i)),
            (v as nat) < vstd::arithmetic::power2::pow2(i as nat),
        decreases k - i,
    {
        proof {
            assert(cell.data.len() == cell.data@.len());
            assert(bp + i < cell.data@.len());
        }
        let b = cell.data[bp + i];
        proof {
            vstd::arithmetic::power2::lemma2_to64();
            vstd::arithmetic::power2::lemma2_to64_rest();
            if (i as nat) < 63 {
                vstd::arithmetic::power2::lemma_pow2_strictly_increases(i as nat, 63);
            }
            assert(v < 0x8000_0000_0000_0000);
            assert(cell@.data.subrange(bp as int, bp + i + 1).drop_last() =~= cell@.data.subrange(
                bp as int,
                bp + i,
            ));
            assert(cell@.data.subrange(bp as int, bp + i + 1).last() == cell@.data[bp + i]);
            vstd::arithmetic::power2::lemma_pow2_unfold((i + 1) as nat);
        }
        v = v * 2 + if b {
            1
        } else {
            0
        };
        i = i + 1;
    }
    v
}

/// Decodes a cell from the given positions onward, exactly as `spec_load`
/// describes.
pub fn load_at(cell: &Cell, bp: usize, rp: usize) -> (r: Result<Code, DecodeError>)
    requires
        cell@.wf(),
        bp <= cell@.data.len(),
        rp <= cell@.refs.len(),
    ensures
        code_result_view(r) == spec_load(cell@, bp as int, rp as int),
    decreases *cell, cell@.data.len() - bp,
{
    let dlen = cell.data.len();
    let rlen = cell.refs.len();
    if bp == dlen {
        if rlen > 0 && rp == rlen - 1 {
            proof {
                lemma_wf_child(cell@, rp as int);
            }
            let child = &cell.refs[rp];
            proof {
                assert(child@ == cell@.refs[rp as int]);
            }
            load_at(child, 0, 0)
        } else {
            Ok(Code::empty())
        }
    } else if dlen - bp < OPCODE_BITS {
        Err(DecodeError::CursorExhausted { bit: bp as u64 })
    } else {
        let op = read_bits_value(cell, bp, OPCODE_BITS);
        if op == OP_NOP {
            let insn = Instruction { op: Opcode::Nop, params: Vec::new() };
            proof {
                assert(insn@.params =~= Seq::<ParamV>::empty());
            }
            load_cons(insn, load_at(cell, bp + OPCODE_BITS, rp))
        } else if op == OP_PUSHINT {
            if dlen - bp < OPCODE_BITS + IMM_BITS {
                Err(DecodeError::CursorExhausted { bit: bp as u64 })
            } else {
                let imm = read_bits_value(cell, bp + OPCODE_BITS, IMM_BITS);
                let mut params: Vec<InstructionParameter> = Vec::new();
                params.push(InstructionParameter::Int(imm));
                let insn = Instruction { op: Opcode::PushInt, params };
                proof {
                    assert(insn@.params =~= seq![ParamV::Int(imm)]);
                    assert(imm as nat == bits_uint(
                        cell@.data.subrange(bp + OPCODE_BITS, bp + OPCODE_BITS + IMM_BITS),
                    ));
                }
                load_cons(insn, load_at(cell, bp + OPCODE_BITS + IMM_BITS, rp))
            }
        } else if op == OP_DICTUGETJMP {
            let insn = Instruction { op: Opcode::DictUGetJmp, params: Vec::new() };
            proof {
                assert(insn@.params =~= Seq::<ParamV>::empty());
            }
            load_cons(insn, load_at(cell, bp + OPCODE_BITS, rp))
        } else if op == OP_DICTUGETJMPZ {
            let insn = Instruction { op: Opcode::DictUGetJmpZ, params: Vec::new() };
            proof {
                assert(insn@.params =~= Seq::<ParamV>::empty());
            }
            load_cons(insn, load_at(cell, bp + OPCODE_BITS, rp))
        } else if op == OP_CALLREF {
            if rp >= rlen {
                Err(DecodeError::MissingReference { bit: bp as u64 })
            } else {
                proof {
                    lemma_wf_child(cell@, rp as int);
                }
                let nested = match load_at(&cell.refs[rp], 0, 0) {
                    Ok(n) => n,
                    Err(e) => {
                        return Err(e);
                    },
                };
                let child = cell_clone(&cell.refs[rp]);
                let mut params: Vec<InstructionParameter> = Vec::new();
                let ghost nestedv = nested@;
                params.push(InstructionParameter::Code { code: nested, cell: child });
                let insn = Instruction { op: Opcode::CallRef, params };
                proof {
                    assert(insn@.params =~= seq![
                        ParamV::Code { code: nestedv, cell: cell@.refs[rp as int] }
                    ]);
                }
                load_cons(insn, load_at(cell, bp + OPCODE_BITS, rp + 1))
            }
        } else if op == OP_PUSHREF {
            if rp >= rlen {
                Err(DecodeError::MissingReference { bit: bp as u64 })
            } else {
                proof {
                    lemma_wf_child(cell@, rp as int);
                }
                let child = cell_clone(&cell.refs[rp]);
                let mut params: Vec<InstructionParameter> = Vec::new();
                params.push(InstructionParameter::Opaque(child));
                let insn = Instruction { op: Opcode::PushRef, params };
                proof {
                    assert(insn@.params =~= seq![ParamV::Opaque(cell@.refs[rp as int])]);
                }
                load_cons(insn, load_at(cell, bp + OPCODE_BITS, rp + 1))
            }
        } else if op == OP_DICTPUSHCONST || op == OP_PFXDICTSWITCH {
            if dlen - bp < OPCODE_BITS + KEYSIZE_BITS {
                Err(DecodeError::CursorExhausted { bit: bp as u64 })
            } else if rp >= rlen {
                Err(DecodeError::MissingReference { bit: bp as u64 })
            } else {
                let keysize = read_bits_value(cell, bp + OPCODE_BITS, KEYSIZE_BITS);
                proof {
                    lemma_wf_child(cell@, rp as int);
                }
                let child = cell_clone(&cell.refs[rp]);
                let mut params: Vec<InstructionParameter> = Vec::new();
                params.push(InstructionParameter::Int(keysize));
                params.push(InstructionParameter::Opaque(child));
                let insn = Instruction {
                    op: if op == OP_DICTPUSHCONST {
                        Opcode::DictPushConst
                    } else {
                        Opcode::PfxDictSwitch
                    },
                    params,
                };
                proof {
                    assert(insn@.params =~= seq![
                        ParamV::Int(keysize),
                        ParamV::Opaque(cell@.refs[rp as int]),
                    ]);
                }
                load_cons(insn, load_at(cell, bp + OPCODE_BITS + KEYSIZE_BITS, rp + 1))
            }
        } else {
            Err(DecodeError::UnknownOpcode { bit: bp as u64 })
        }
    }
}

/// Prepends a decoded instruction to the decode of the rest of the stream.
fn load_cons(insn: Instruction, rest: Result<Code, DecodeError>) -> (r: Result<Code, DecodeError>)
    ensures
        code_result_view(r) == cons_insn(insn@, code_result_view(rest)),
{
    match rest {
        Ok(mut code) => {
            let ghost oldv = code@;
            code.insns.insert(0, insn);
            proof {
                assert forall|j: int| 0 <= j < code@.len() implies code@[j] == (seq![insn@]
                    + oldv)[j] by {
                    assert(code@[j] == code.insns@[j]@);
                }
                assert(code@ =~= seq![insn@] + oldv);
            }
            Ok(code)
        },
        Err(e) => Err(e),
    }
}

/// Decoder state: whether repeated identical subtrees should be collapsed in
/// the printed listing.
pub struct Loader {
    pub collapsed: bool,
}

impl Loader {
    /// A loader; `collapsed` selects collapsing of identical subtrees when
    /// the decoded code is printed.
    pub fn new(collapsed: bool) -> (r: Loader)
        ensures
            r.collapsed == collapsed,
    {
        Loader { collapsed }
    }

    /// Decodes the remainder of a cursor as an instruction stream, consuming
    /// it.
    pub fn load(&mut self, slice: &mut CellSlice) -> (r: Result<Code, DecodeError>)
        requires
            old(slice).wf(),
        ensures
            *final(self) == *old(self),
            final(slice).wf(),
            final(slice).cell == old(slice).cell,
            r is Ok ==> final(slice).bit_pos == old(slice).cell.data@.len() && final(slice).ref_pos == old(slice).cell.refs@.len(),
            r is Err ==> *final(slice) == *old(slice),
            code_result_view(r) == spec_load(
                old(slice).cell@,
                old(slice).bit_pos as int,
                old(slice).ref_pos as int,
            ),
    {
        let r = load_at(&slice.cell, slice.bit_pos, slice.ref_pos);
        if r.is_ok() {
            slice.bit_pos = slice.cell.data.len();
            slice.ref_pos = slice.cell.refs.len();
        }
        r
    }
}

} // verus!
