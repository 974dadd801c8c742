//! The instruction model: an ordered sequence of instructions, each with a
//! mnemonic and a list of typed parameters, some parameters holding nested
//! instruction sequences or raw subtree references.

use vstd::prelude::*;
use crate::cell::{Cell, CellV};

verus! {

broadcast use vstd::std_specs::vec::group_vec_axioms;

/// The closed set of opcodes the decoder's table recognizes.
#[derive(Clone, Copy, Debug, PartialEq, Eq, Structural)]
pub enum Opcode {
    Nop,
    PushInt,
    DictUGetJmp,
    DictUGetJmpZ,
    CallRef,
    PushRef,
    DictPushConst,
    PfxDictSwitch,
}

/// A typed operand of one instruction.
pub enum InstructionParameter {
    /// An integer literal decoded from an immediate bit field.
    Int(u64),
    /// A reference to a nested subtree decoded as code, together with the
    /// cell it came from, kept for hash display.
    Code { code: Code, cell: Cell },
    /// A reference to a nested subtree left opaque.
    Opaque(Cell),
    /// A marker appended by an elaboration pass: the preceding constant is a
    /// jump-table dictionary.
    CodeDictMarker,
}

/// One decoded instruction.
pub struct Instruction {
    pub op: Opcode,
    pub params: Vec<InstructionParameter>,
}

/// An ordered sequence of instructions; owns all nested code reachable
/// through its parameters.
pub struct Code {
    pub insns: Vec<Instruction>,
}

/// Mathematical model of an operand.
#[verifier::ext_equal]
pub ghost enum ParamV {
    Int(u64),
    Code { code: Seq<InsnV>, cell: CellV },
    Opaque(CellV),
    CodeDictMarker,
}

/// Mathematical model of one instruction.
#[verifier::ext_equal]
pub ghost struct InsnV {
    pub op: Opcode,
    pub params: Seq<ParamV>,
}

impl InstructionParameter {
    /// The mathematical value of this operand.
    pub open spec fn view(&self) -> ParamV
        decreases *self,
    {
        match self {
            InstructionParameter::Int(v) => ParamV::Int(*v),
            InstructionParameter::Code { code, cell } => ParamV::Code {
                code: code.view(),
                cell: cell.view(),
            },
            InstructionParameter::Opaque(c) => ParamV::Opaque(c.view()),
            InstructionParameter::CodeDictMarker => ParamV::CodeDictMarker,
        }
    }
}

impl Instruction {
    /// The mathematical value of this instruction.
    pub open spec fn view(&self) -> InsnV
        decreases *self,
    {
        InsnV {
            op: self.op,
            params: Seq::new(
                self.params@.len(),
                |i: int|
                    if 0 <= i < self.params.len() {
                        self.params[i].view()
                    } else {
                        arbitrary()
                    },
            ),
        }
    }

    /// The mnemonic of this instruction.
    pub fn name(&self) -> (r: &'static str)
        ensures
            r@ == opcode_name(self.op),
    {
        match self.op {
            Opcode::Nop => "NOP",
            Opcode::PushInt => "PUSHINT",
            Opcode::DictUGetJmp => "DICTUGETJMP",
            Opcode::DictUGetJmpZ => "DICTUGETJMPZ",
            Opcode::CallRef => "CALLREF",
            Opcode::PushRef => "PUSHREF",
            Opcode::DictPushConst => "DICTPUSHCONST",
            Opcode::PfxDictSwitch => "PFXDICTSWITCH",
        }
    }
}

/// The mnemonic of each opcode.
pub open spec fn opcode_name(op: Opcode) -> Seq<char> {
    match op {
        Opcode::Nop => "NOP"@,
        Opcode::PushInt => "PUSHINT"@,
        Opcode::DictUGetJmp => "DICTUGETJMP"@,
        Opcode::DictUGetJmpZ => "DICTUGETJMPZ"@,
        Opcode::CallRef => "CALLREF"@,
        Opcode::PushRef => "PUSHREF"@,
        Opcode::DictPushConst => "DICTPUSHCONST"@,
        Opcode::PfxDictSwitch => "PFXDICTSWITCH"@,
    }
}

impl Code {
    /// The mathematical value of this code sequence.
    pub open spec fn view(&self) -> Seq<InsnV>
        decreases *self,
    {
        Seq::new(
            self.insns@.len(),
            |i: int|
                if 0 <= i < self.insns.len() {
                    self.insns[i].view()
                } else {
                    arbitrary()
                },
        )
    }

    /// An empty code sequence.
    pub fn empty() -> (r: Code)
        ensures
            r@ == Seq::<InsnV>::empty(),
    {
        let r = Code { insns: Vec::new() };
        proof {
            assert(r@ =~= Seq::<InsnV>::empty());
        }
        r
    }

    /// Number of instructions at the top level of this sequence.
    pub fn len(&self) -> (r: usize)
        ensures
            r == self@.len(),
    {
        self.insns.len()
    }
}

/// A deep copy of an operand.
pub fn clone_param(p: &InstructionParameter) -> (r: InstructionParameter)
    ensures
        r@ == p@,
    decreases *p,
{
    match p {
        InstructionParameter::Int(v) => InstructionParameter::Int(*v),
        InstructionParameter::CodeDictMarker => InstructionParameter::CodeDictMarker,
        InstructionParameter::Opaque(c) => InstructionParameter::Opaque(crate::cell::cell_clone(c)),
        InstructionParameter::Code { code, cell } => InstructionParameter::Code {
            code: clone_code(code),
            cell: crate::cell::cell_clone(cell),
        },
    }
}

/// A deep copy of an instruction.
pub fn clone_insn(i: &Instruction) -> (r: Instruction)
    ensures
        r@ == i@,
    decreases *i,
{
    let mut params: Vec<InstructionParameter> = Vec::new();
    let mut j: usize = 0;
    while j < i.params.len()
        invariant
            j <= i.params@.len(),
            params@.len() == j,
            forall|k: int| 0 <= k < j ==> #[trigger] params@[k]@ == i.params@[k]@,
        decreases i.params@.len() - j,
    {
        let p = clone_param(&i.params[j]);
        params.push(p);
        j = j + 1;
    }
    let r = Instruction { op: i.op, params };
    proof {
        assert forall|k: int| 0 <= k < r@.params.len() implies r@.params[k] == i@.params[k] by {
            assert(r@.params[k] == r.params@[k]@);
            assert(i@.params[k] == i.params@[k]@);
        }
        assert(r@.params =~= i@.params);
        assert(r@ =~= i@);
    }
    r
}

/// A deep copy of a code sequence.
pub fn clone_code(c: &Code) -> (r: Code)
    ensures
        r@ == c@,
    decreases *c,
{
    let mut insns: Vec<Instruction> = Vec::new();
    let mut j: usize = 0;
    while j < c.insns.len()
        invariant
            j <= c.insns@.len(),
            insns@.len() == j,
            forall|k: int| 0 <= k < j ==> #[trigger] insns@[k]@ == c.insns@[k]@,
        decreases c.insns@.len() - j,
    {
        let i = clone_insn(&c.insns[j]);
        insns.push(i);
        j = j + 1;
    }
    let r = Code { insns };
    proof {
        assert forall|k: int| 0 <= k < r@.len() implies r@[k] == c@[k] by {
            assert(r@[k] == r.insns@[k]@);
            assert(c@[k] == c.insns@[k]@);
        }
        assert(r@ =~= c@);
    }
    r
}

} // verus!
