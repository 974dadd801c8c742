//! The round-trip law of the codec: assembling a stream of reference-free
//! commands and decoding the finalized root reproduces the instruction
//! sequence, cell boundaries being invisible to the logical stream.

use vstd::prelude::*;
use crate::cell::{CellV, MAX_DATA_BITS, MAX_REFS};
use crate::insn::{InsnV, ParamV, Opcode};
use crate::loader::{
    spec_load,
    spec_load_cell,
    OP_NOP,
    OP_PUSHINT,
    OP_DICTUGETJMP,
    OP_DICTUGETJMPZ,
};
use crate::writer::{UnitV, DbgNodeV, collapse_units, merge_units, write_bitstring_post};
use crate::bits::bits_uint;

verus! {

broadcast use vstd::std_specs::vec::group_vec_axioms;

/// The `k`-bit binary spelling of a number, most significant bit first.
pub open spec fn enc_bits(v: nat, k: nat) -> Seq<bool>
    decreases k,
{
    if k == 0 {
        Seq::empty()
    } else {
        enc_bits(v / 2, (k - 1) as nat).push(v % 2 == 1)
    }
}

/// The spelling reads back as the number it spells.
pub proof fn lemma_enc_bits_value(v: nat, k: nat)
    requires
        v < vstd::arithmetic::power2::pow2(k),
    ensures
        enc_bits(v, k).len() == k,
        bits_uint(enc_bits(v, k)) == v,
    decreases k,
{
    if k == 0 {
        vstd::arithmetic::power2::lemma2_to64();
    } else {
        vstd::arithmetic::power2::lemma_pow2_unfold(k);
        lemma_enc_bits_value(v / 2, (k - 1) as nat);
        assert(enc_bits(v, k).drop_last() =~= enc_bits(v / 2, (k - 1) as nat));
    }
}

/// Whether an instruction is one the assembler-side law covers: an
/// instruction with a fixed reference-free encoding.
pub open spec fn insn_encodable(i: InsnV) -> bool {
    ||| i == (InsnV { op: Opcode::Nop, params: Seq::<ParamV>::empty() })
    ||| (i.op == Opcode::PushInt && i.params =~= seq![ParamV::Int(i.params[0]->Int_0)]
        && i.params[0] is Int && i.params[0]->Int_0 < 256)
    ||| i == (InsnV { op: Opcode::DictUGetJmp, params: Seq::<ParamV>::empty() })
    ||| i == (InsnV { op: Opcode::DictUGetJmpZ, params: Seq::<ParamV>::empty() })
}

/// The encoding of one reference-free instruction.
pub open spec fn enc_insn(i: InsnV) -> Seq<bool> {
    if i.op == Opcode::Nop {
        enc_bits(OP_NOP as nat, 8)
    } else if i.op == Opcode::PushInt {
        enc_bits(OP_PUSHINT as nat, 8) + enc_bits(i.params[0]->Int_0 as nat, 8)
    } else if i.op == Opcode::DictUGetJmp {
        enc_bits(OP_DICTUGETJMP as nat, 8)
    } else {
        enc_bits(OP_DICTUGETJMPZ as nat, 8)
    }
}

/// The bit stream spelled by a sequence of reference-free instructions.
pub open spec fn stream_of(insns: Seq<InsnV>) -> Seq<bool>
    decreases insns.len(),
{
    if insns.len() == 0 {
        Seq::empty()
    } else {
        enc_insn(insns[0]) + stream_of(insns.skip(1))
    }
}

/// Whether every instruction of a sequence has a reference-free encoding.
pub open spec fn all_encodable(s: Seq<InsnV>) -> bool {
    forall|i: int| 0 <= i < s.len() ==> insn_encodable(#[trigger] s[i])
}

/// Concatenating instruction sequences concatenates their streams.
pub proof fn lemma_stream_concat(a: Seq<InsnV>, b: Seq<InsnV>)
    ensures
        stream_of(a + b) == stream_of(a) + stream_of(b),
    decreases a.len(),
{
    if a.len() == 0 {
        assert(a + b =~= b);
        assert(stream_of(a) + stream_of(b) =~= stream_of(b));
    } else {
        assert((a + b).skip(1) =~= a.skip(1) + b);
        lemma_stream_concat(a.skip(1), b);
        assert(stream_of(a + b) =~= stream_of(a) + stream_of(b));
    }
}

/// Decoding from a position where an encodable stream begins yields exactly
/// its instructions, continued by whatever the single trailing reference
/// decodes to.
pub proof fn lemma_load_stream(c: CellV, bp: int, i1: Seq<InsnV>, i2: Seq<InsnV>)
    requires
        0 <= bp <= c.data.len(),
        c.data.skip(bp) == stream_of(i1),
        all_encodable(i1),
        c.refs.len() <= 1,
        c.refs.len() == 0 ==> i2 == Seq::<InsnV>::empty(),
        c.refs.len() == 1 ==> spec_load(c.refs[0], 0, 0) == Ok::<
            Seq<InsnV>,
            crate::error::DecodeError,
        >(i2),
    ensures
        spec_load(c, bp, 0) == Ok::<Seq<InsnV>, crate::error::DecodeError>(i1 + i2),
    decreases i1.len(),
{
    vstd::arithmetic::power2::lemma2_to64();
    if i1.len() == 0 {
        assert(c.data.skip(bp).len() == 0);
        assert(bp == c.data.len());
        if c.refs.len() == 1 {
            assert(i1 + i2 =~= i2);
        } else {
            assert(i1 + i2 =~= Seq::<InsnV>::empty());
        }
    } else {
        let x = i1[0];
        assert(insn_encodable(x));
        let e = enc_insn(x);
        let rest = stream_of(i1.skip(1));
        assert(c.data.skip(bp) == e + rest);
        let k = e.len() as int;
        lemma_enc_bits_value(OP_NOP as nat, 8);
        lemma_enc_bits_value(OP_PUSHINT as nat, 8);
        lemma_enc_bits_value(OP_DICTUGETJMP as nat, 8);
        lemma_enc_bits_value(OP_DICTUGETJMPZ as nat, 8);
        if x.op == Opcode::PushInt {
            lemma_enc_bits_value(x.params[0]->Int_0 as nat, 8);
        }
        assert(c.data.len() - bp == k + rest.len());
        assert(c.data.subrange(bp, bp + 8) =~= e.take(8));
        assert(e.take(8) =~= enc_bits(
            if x.op == Opcode::Nop {
                OP_NOP as nat
            } else if x.op == Opcode::PushInt {
                OP_PUSHINT as nat
            } else if x.op == Opcode::DictUGetJmp {
                OP_DICTUGETJMP as nat
            } else {
                OP_DICTUGETJMPZ as nat
            },
            8,
        ));
        assert forall|j: int| 0 <= j < c.data.skip(bp + k).len() implies c.data.skip(bp + k)[j]
            == rest[j] by {
            assert(c.data.skip(bp)[k + j] == c.data[bp + k + j]);
            assert((e + rest)[k + j] == rest[j]);
        }
        assert(c.data.skip(bp + k) =~= rest);
        assert(i1.skip(1).len() < i1.len());
        lemma_load_stream(c, bp + k, i1.skip(1), i2);
        if x.op == Opcode::PushInt {
            assert forall|j: int| 0 <= j < 8 implies c.data.subrange(bp + 8, bp + 16)[j]
                == enc_bits(x.params[0]->Int_0 as nat, 8)[j] by {
                assert(c.data.subrange(bp + 8, bp + 16)[j] == c.data[bp + 8 + j]);
                assert(c.data.skip(bp)[8 + j] == c.data[bp + 8 + j]);
                assert((e + rest)[8 + j] == e[8 + j]);
                assert(e[8 + j] == enc_bits(x.params[0]->Int_0 as nat, 8)[j]);
            }
            assert(c.data.subrange(bp + 8, bp + 16) =~= enc_bits(x.params[0]->Int_0 as nat, 8));
            assert(bits_uint(c.data.subrange(bp + 8, bp + 16)) == x.params[0]->Int_0 as nat);
            assert((InsnV {
                op: Opcode::PushInt,
                params: seq![
                    ParamV::Int(
                        bits_uint(c.data.subrange(bp + 8, bp + 16)) as u64,
                    )
                ],
            }) =~= x);
        } else {
            assert((InsnV { op: x.op, params: Seq::<ParamV>::empty() }) =~= x);
        }
        assert(seq![x] + (i1.skip(1) + i2) =~= i1 + i2);
    }
}

/// The chained shape a stack of reference-free units collapses into: each
/// cell holds one chunk's stream and at most one continuation reference.
pub open spec fn chain_of(c: CellV, chs: Seq<Seq<InsnV>>) -> bool
    decreases c,
{
    &&& chs.len() >= 1
    &&& c.data == stream_of(chs[0])
    &&& all_encodable(chs[0])
    &&& if c.refs.len() == 0 {
        chs.len() == 1
    } else {
        c.refs.len() == 1 && chain_of(c.refs[0], chs.skip(1))
    }
}

/// A chained cell decodes to the concatenation of its chunks.
pub proof fn lemma_chain_decode(c: CellV, chs: Seq<Seq<InsnV>>)
    requires
        chain_of(c, chs),
    ensures
        spec_load(c, 0, 0) == Ok::<Seq<InsnV>, crate::error::DecodeError>(chs.flatten()),
    decreases c,
{
    assert(c.data.skip(0) =~= c.data);
    if c.refs.len() == 0 {
        lemma_load_stream(c, 0, chs[0], Seq::empty());
        assert(chs.flatten() =~= chs[0] + chs.skip(1).flatten());
        assert(chs.skip(1).len() == 0);
        assert(chs.skip(1).flatten() =~= Seq::<InsnV>::empty());
        assert(chs[0] + Seq::<InsnV>::empty() =~= chs[0]);
        assert(chs.flatten() =~= chs[0]);
    } else {
        lemma_chain_decode(c.refs[0], chs.skip(1));
        lemma_load_stream(c, 0, chs[0], chs.skip(1).flatten());
        assert(chs.flatten() =~= chs[0] + chs.skip(1).flatten());
    }
}

/// Whether a unit stack is a stack of reference-free, stream-aligned cells,
/// one chunk of instructions per unit.
pub open spec fn aligned_units(us: Seq<UnitV>, chunks: Seq<Seq<InsnV>>) -> bool {
    &&& us.len() == chunks.len()
    &&& us.len() >= 1
    &&& forall|i: int|
        0 <= i < us.len() ==> (#[trigger] us[i]).cell.refs.len() == 0 && us[i].cell.data
            == stream_of(chunks[i]) && all_encodable(chunks[i])
}

/// Collapsing a stack whose head units are reference-free aligned chunks and
/// whose last unit is an already-formed chain yields a chain carrying all
/// the instructions in order.
proof fn lemma_collapse_chain(us: Seq<UnitV>, chunks: Seq<Seq<InsnV>>, chs_last: Seq<Seq<InsnV>>)
    requires
        us.len() >= 1,
        chunks.len() == us.len() - 1,
        forall|i: int|
            0 <= i < us.len() - 1 ==> (#[trigger] us[i]).cell.refs.len() == 0 && us[i].cell.data
                == stream_of(chunks[i]) && all_encodable(chunks[i]),
        chain_of(us.last().cell, chs_last),
    ensures
        exists|chs: Seq<Seq<InsnV>>|
            chain_of(collapse_units(us).cell, chs) && #[trigger] chs.flatten() == chunks.flatten()
                + chs_last.flatten(),
    decreases us.len(),
{
    if us.len() == 1 {
        assert(collapse_units(us) == us[0]);
        assert(chunks.len() == 0);
        assert(chunks.flatten() =~= Seq::<InsnV>::empty());
        assert(chs_last.flatten() =~= chunks.flatten() + chs_last.flatten());
        assert(chain_of(collapse_units(us).cell, chs_last) && chs_last.flatten()
            == chunks.flatten() + chs_last.flatten());
    } else {
        let l = us.len() as int;
        let dest = us[l - 2];
        let cursor = us.last();
        let merged = merge_units(dest, cursor);
        let inline = dest.cell.data.len() + cursor.cell.data.len() <= MAX_DATA_BITS
            && dest.cell.refs.len() + cursor.cell.refs.len() <= MAX_REFS;
        let chs_merged = if inline {
            seq![chunks[l - 2] + chs_last[0]] + chs_last.skip(1)
        } else {
            seq![chunks[l - 2]] + chs_last
        };
        if inline {
            lemma_stream_concat(chunks[l - 2], chs_last[0]);
            assert(merged.cell.data =~= stream_of(chunks[l - 2] + chs_last[0]));
            assert(merged.cell.refs =~= cursor.cell.refs);
            assert(chs_merged[0] == chunks[l - 2] + chs_last[0]);
            if cursor.cell.refs.len() == 0 {
                assert(chs_last.len() == 1);
                assert(chs_merged.len() == 1);
            } else {
                assert(chs_merged.skip(1) =~= chs_last.skip(1));
            }
            assert(chain_of(merged.cell, chs_merged));
            assert(chs_merged.flatten() =~= chunks[l - 2] + chs_last.flatten()) by {
                assert(chs_merged.skip(1) =~= chs_last.skip(1));
                assert(chs_merged.flatten() =~= (chunks[l - 2] + chs_last[0]) + chs_last.skip(
                    1,
                ).flatten());
                assert(chs_last.flatten() =~= chs_last[0] + chs_last.skip(1).flatten());
            }
        } else {
            assert(merged.cell.data == dest.cell.data);
            assert(merged.cell.refs =~= Seq::<CellV>::empty().push(cursor.cell));
            assert(merged.cell.refs.len() == 1);
            assert(merged.cell.refs[0] == cursor.cell);
            assert(chs_merged.skip(1) =~= chs_last);
            assert(chs_merged[0] == chunks[l - 2]);
            assert(chain_of(merged.cell, chs_merged));
            assert(chs_merged.flatten() =~= chunks[l - 2] + chs_last.flatten());
        }
        let us2 = us.drop_last().update(l - 2, merged);
        assert(collapse_units(us) == collapse_units(us2));
        let chunks2 = chunks.drop_last();
        assert(us2.len() == l - 1);
        assert(us2.last() == merged);
        assert(chunks2.len() == us2.len() - 1);
        assert forall|i: int|
            0 <= i < us2.len() - 1 implies (#[trigger] us2[i]).cell.refs.len() == 0
            && us2[i].cell.data == stream_of(chunks2[i]) && all_encodable(chunks2[i]) by {
            assert(us2[i] == us[i]);
            assert(chunks2[i] == chunks[i]);
        }
        lemma_collapse_chain(us2, chunks2, chs_merged);
        let chs = choose|chs: Seq<Seq<InsnV>>|
            chain_of(collapse_units(us2).cell, chs) && #[trigger] chs.flatten()
                == chunks2.flatten() + chs_merged.flatten();
        assert(chunks =~= chunks2.push(chunks[l - 2]));
        Seq::lemma_flatten_push(chunks2, chunks[l - 2]);
        assert(chs.flatten() =~= chunks.flatten() + chs_last.flatten());
    }
}

/// The round trip: a stack of reference-free units, each holding the stream
/// of a chunk of encodable instructions, finalizes into a root whose decode
/// is exactly the concatenation of the chunks.
pub proof fn lemma_round_trip(us: Seq<UnitV>, chunks: Seq<Seq<InsnV>>)
    requires
        aligned_units(us, chunks),
    ensures
        spec_load_cell(collapse_units(us).cell) == Ok::<Seq<InsnV>, crate::error::DecodeError>(
            chunks.flatten(),
        ),
{
    let l = us.len() as int;
    let chs_last = seq![chunks[l - 1]];
    assert(chain_of(us.last().cell, chs_last)) by {
        assert(us[l - 1].cell.refs.len() == 0);
        assert(us[l - 1].cell.data == stream_of(chunks[l - 1]));
    }
    let chunks_head = chunks.drop_last();
    assert(chunks_head.len() == us.len() - 1);
    assert forall|i: int|
        0 <= i < us.len() - 1 implies (#[trigger] us[i]).cell.refs.len() == 0 && us[i].cell.data
        == stream_of(chunks_head[i]) && all_encodable(chunks_head[i]) by {
        assert(chunks_head[i] == chunks[i]);
    }
    lemma_collapse_chain(us, chunks_head, chs_last);
    let chs = choose|chs: Seq<Seq<InsnV>>|
        chain_of(collapse_units(us).cell, chs) && #[trigger] chs.flatten() == chunks_head.flatten()
            + chs_last.flatten();
    lemma_chain_decode(collapse_units(us).cell, chs);
    assert(chs_last.flatten() =~= chunks[l - 1] + chs_last.skip(1).flatten());
    assert(chs_last.skip(1).flatten() =~= Seq::<InsnV>::empty());
    assert(chs_last.flatten() =~= chunks[l - 1]);
    assert(chunks =~= chunks_head.push(chunks[l - 1]));
    Seq::lemma_flatten_push(chunks_head, chunks[l - 1]);
    assert(chs.flatten() =~= chunks.flatten());
}

/// The round trip as observed through the listing text: the finalized root
/// of a stack of reference-free encodable chunks disassembles to exactly
/// the rendering of the elaborated, concatenated instruction sequence.
pub proof fn lemma_round_trip_text(us: Seq<UnitV>, chunks: Seq<Seq<InsnV>>, collapsed: bool)
    requires
        aligned_units(us, chunks),
    ensures
        crate::disasm::disasm_text(collapse_units(us).cell, 0, 0, collapsed)
            == crate::fmt::render_code(
            crate::codedict::elaborate_spec(chunks.flatten()),
            0,
            Seq::empty(),
            collapsed,
            Seq::empty(),
        ).0,
{
    lemma_round_trip(us, chunks);
}

/// A bitstring write of one encodable chunk's stream keeps the stack
/// aligned: the chunk lands at the end of the open cell or opens a fresh
/// one, and no write touches any reference.
pub proof fn lemma_write_keeps_alignment(
    pre: Seq<UnitV>,
    post: Seq<UnitV>,
    chunks: Seq<Seq<InsnV>>,
    cmd: Seq<InsnV>,
    d: DbgNodeV,
)
    requires
        aligned_units(pre, chunks),
        all_encodable(cmd),
        stream_of(cmd).len() <= MAX_DATA_BITS,
        write_bitstring_post(pre, post, stream_of(cmd), d),
    ensures
        exists|chunks2: Seq<Seq<InsnV>>|
            aligned_units(post, chunks2) && #[trigger] chunks2.flatten() == chunks.flatten() + cmd,
{
    let l = pre.len() as int;
    let last = pre[l - 1];
    let b = stream_of(cmd);
    if last.cell.data.len() + b.len() <= MAX_DATA_BITS {
        let chunks2 = chunks.update(l - 1, chunks[l - 1] + cmd);
        lemma_stream_concat(chunks[l - 1], cmd);
        assert(post[l - 1].cell.data =~= stream_of(chunks[l - 1] + cmd));
        assert forall|i: int|
            0 <= i < post.len() implies (#[trigger] post[i]).cell.refs.len() == 0
            && post[i].cell.data == stream_of(chunks2[i]) && all_encodable(chunks2[i]) by {
            if i < l - 1 {
                assert(post[i] == pre[i]);
                assert(chunks2[i] == chunks[i]);
            }
        }
        assert(aligned_units(post, chunks2));
        assert(chunks =~= chunks2.update(l - 1, chunks[l - 1]));
        lemma_flatten_update_last(chunks, chunks2, l - 1, cmd);
        assert(chunks2.flatten() =~= chunks.flatten() + cmd);
    } else {
        let chunks2 = chunks.push(cmd);
        assert(post[l as int] == (UnitV {
            cell: CellV { data: b, refs: Seq::<CellV>::empty() },
            dbg: d,
        }));
        assert forall|i: int|
            0 <= i < post.len() implies (#[trigger] post[i]).cell.refs.len() == 0
            && post[i].cell.data == stream_of(chunks2[i]) && all_encodable(chunks2[i]) by {
            if i < l {
                assert(post[i] == pre[i]);
                assert(chunks2[i] == chunks[i]);
            }
        }
        assert(aligned_units(post, chunks2));
        Seq::lemma_flatten_push(chunks, cmd);
        assert(chunks2.flatten() =~= chunks.flatten() + cmd);
    }
}

/// Flattening after extending the last chunk appends exactly the extension.
proof fn lemma_flatten_update_last(
    chunks: Seq<Seq<InsnV>>,
    chunks2: Seq<Seq<InsnV>>,
    ix: int,
    cmd: Seq<InsnV>,
)
    requires
        chunks.len() >= 1,
        ix == chunks.len() - 1,
        chunks2 == chunks.update(ix, chunks[ix] + cmd),
    ensures
        chunks2.flatten() == chunks.flatten() + cmd,
{
    let head = chunks.drop_last();
    assert(chunks =~= head.push(chunks[ix]));
    assert(chunks2 =~= head.push(chunks[ix] + cmd));
    Seq::lemma_flatten_push(head, chunks[ix]);
    Seq::lemma_flatten_push(head, chunks[ix] + cmd);
    assert(chunks2.flatten() =~= chunks.flatten() + cmd);
}

} // verus!
