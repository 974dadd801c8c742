//! The decode entry points: disassembly of a cursor into an annotated
//! listing, and of a standalone hex-encoded code fragment.

use vstd::prelude::*;
use vstd::string::StrSliceExecFns;
use crate::bits::hex_char_value;
use crate::cell::{Cell, CellV, CellSlice, MAX_DATA_BITS};
use crate::codedict::elaborate_spec;
use crate::error::DecodeError;
use crate::fmt::render_code;
use crate::loader::{Loader, spec_load};

verus! {

broadcast use vstd::std_specs::vec::group_vec_axioms;

/// The listing of a decoded cursor: the decode of the cursor's remainder,
/// elaborated for the jump-table idiom, rendered with an empty indent.
pub open spec fn disasm_text(c: CellV, bp: int, rp: int, collapsed: bool) -> Seq<char> {
    render_code(
        elaborate_spec(spec_load(c, bp, rp)->Ok_0),
        0,
        Seq::empty(),
        collapsed,
        Seq::empty(),
    ).0
}

/// Disassembles the remainder of a cursor with identical-subtree collapsing
/// off; same text and same final cursor as `disasm_ex` with the flag off.
pub fn disasm(slice: &mut CellSlice) -> (r: Result<String, DecodeError>)
    requires
        old(slice).wf(),
    ensures
        final(slice).wf(),
        final(slice).cell == old(slice).cell,
        r is Ok <==> spec_load(old(slice).cell@, old(slice).bit_pos as int, old(slice).ref_pos as int) is Ok,
        r matches Ok(t) ==> t@ == disasm_text(
            old(slice).cell@,
            old(slice).bit_pos as int,
            old(slice).ref_pos as int,
            false,
        ) && final(slice).bit_pos == old(slice).cell.data@.len() && final(slice).ref_pos == old(
            slice,
        ).cell.refs@.len(),
        r matches Err(e) ==> Err::<Seq<crate::insn::InsnV>, DecodeError>(e) == spec_load(
            old(slice).cell@,
            old(slice).bit_pos as int,
            old(slice).ref_pos as int,
        ) && *final(slice) == *old(slice),
{
    disasm_ex(slice, false)
}

/// Disassembles the remainder of a cursor: decodes it, elaborates the
/// jump-table idiom, and renders the listing, collapsing repeated identical
/// subtrees when asked to. The text is a function of the cursor's cell
/// content, its position, and the flag alone; the cell under the cursor is
/// never changed.
pub fn disasm_ex(slice: &mut CellSlice, collapsed: bool) -> (r: Result<String, DecodeError>)
    requires
        old(slice).wf(),
    ensures
        final(slice).wf(),
        final(slice).cell == old(slice).cell,
        r is Ok <==> spec_load(old(slice).cell@, old(slice).bit_pos as int, old(slice).ref_pos as int) is Ok,
        r matches Ok(t) ==> t@ == disasm_text(
            old(slice).cell@,
            old(slice).bit_pos as int,
            old(slice).ref_pos as int,
            collapsed,
        ) && final(slice).bit_pos == old(slice).cell.data@.len() && final(slice).ref_pos == old(
            slice,
        ).cell.refs@.len(),
        r matches Err(e) ==> Err::<Seq<crate::insn::InsnV>, DecodeError>(e) == spec_load(
            old(slice).cell@,
            old(slice).bit_pos as int,
            old(slice).ref_pos as int,
        ) && *final(slice) == *old(slice),
{
    let mut loader = Loader::new(collapsed);
    let mut code = match loader.load(slice) {
        Ok(c) => c,
        Err(e) => {
            return Err(e);
        },
    };
    code.elaborate_dictpushconst_dictugetjmp();
    let text = code.print("", loader.collapsed);
    proof {
        reveal_strlit("");
        assert(""@ =~= Seq::<char>::empty());
    }
    Ok(text)
}

/// The four bits of one hexadecimal digit, most significant first.
pub open spec fn nibble_bits(v: u64) -> Seq<bool> {
    seq![(v >> 3) & 1 == 1, (v >> 2) & 1 == 1, (v >> 1) & 1 == 1, v & 1 == 1]
}

/// The bit string spelled by a hexadecimal string, or nothing when a
/// character is not a hexadecimal digit.
pub open spec fn hex_bits(s: Seq<char>) -> Option<Seq<bool>>
    decreases s.len(),
{
    if s.len() == 0 {
        Some(Seq::empty())
    } else {
        match hex_char_value(s[0]) {
            None => None,
            Some(v) => match hex_bits(s.skip(1)) {
                None => None,
                Some(rest) => Some(nibble_bits(v) + rest),
            },
        }
    }
}

/// Builds a standalone cell from a hex-encoded bit pattern; refused when a
/// character is not a hexadecimal digit or the pattern exceeds the cell bit
/// limit.
pub fn parse_hex_slice(fragment: &str) -> (r: Option<Cell>)
    ensures
        r is Some <==> hex_bits(fragment@) is Some && hex_bits(fragment@)->Some_0.len()
            <= MAX_DATA_BITS,
        r matches Some(c) ==> c@.data == hex_bits(fragment@)->Some_0 && c@.refs == Seq::<
            CellV,
        >::empty() && c@.wf(),
{
    let n = fragment.unicode_len();
    if n >= 256 {
        proof {
            lemma_hex_bits_len(fragment@);
        }
        return None;
    }
    let mut data: Vec<bool> = Vec::new();
    let mut i: usize = 0;
    proof {
        assert(fragment@.skip(0) =~= fragment@);
        assert(data@ =~= Seq::<bool>::empty());
        if hex_bits(fragment@) is Some {
            assert(data@ =~= hex_bits(fragment@)->Some_0.take(0));
            assert(hex_bits(fragment@)->Some_0 =~= data@ + hex_bits(fragment@.skip(0))->Some_0);
        }
    }
    while i < n
        invariant
            n == fragment@.len(),
            i <= n,
            n <= 255,
            data@.len() == i * 4,
            hex_bits(fragment@) matches Some(b) ==> data@ == b.take(4 * i) && hex_bits(
                fragment@.skip(i as int),
            ) is Some,
            hex_bits(fragment@) is Some <==> hex_bits(fragment@.skip(i as int)) is Some,
            hex_bits(fragment@) matches Some(b) ==> b =~= data@ + hex_bits(
                fragment@.skip(i as int),
            )->Some_0,
        decreases n - i,
    {
        let c = fragment.get_char(i);
        proof {
            assert(fragment@.skip(i as int)[0] == fragment@[i as int]);
            assert(fragment@.skip(i as int).skip(1) =~= fragment@.skip(i + 1));
        }
        let v = match crate::bits::parse_hex_char(c) {
            Some(v) => v,
            None => {
                return None;
            },
        };
        data.push((v >> 3) & 1 == 1);
        data.push((v >> 2) & 1 == 1);
        data.push((v >> 1) & 1 == 1);
        data.push(v & 1 == 1);
        proof {
            if hex_bits(fragment@) is Some {
                assert(data@ =~= hex_bits(fragment@)->Some_0.take(4 * (i + 1)));
                assert(hex_bits(fragment@)->Some_0 =~= data@ + hex_bits(
                    fragment@.skip(i + 1),
                )->Some_0);
            }
        }
        i = i + 1;
    }
    proof {
        assert(fragment@.skip(n as int) =~= Seq::<char>::empty());
        if hex_bits(fragment@) is Some {
            assert(data@ =~= hex_bits(fragment@)->Some_0);
        }
    }
    let cell = Cell { data, refs: Vec::new() };
    proof {
        assert(cell@.refs =~= Seq::<CellV>::empty());
    }
    Some(cell)
}

/// A hex string of `n` digits spells `4 n` bits when it spells any.
proof fn lemma_hex_bits_len(s: Seq<char>)
    ensures
        hex_bits(s) matches Some(b) ==> b.len() == 4 * s.len(),
    decreases s.len(),
{
    if s.len() > 0 {
        lemma_hex_bits_len(s.skip(1));
    }
}

/// Disassembles a standalone hex-encoded code fragment; nothing when the
/// pattern is not valid hexadecimal, does not fit one cell, or does not
/// decode.
pub fn disasm_fragment(fragment: &str) -> (r: Option<String>)
    ensures
        r is Some <==> hex_bits(fragment@) is Some && hex_bits(fragment@)->Some_0.len()
            <= MAX_DATA_BITS && spec_load(
            (CellV { data: hex_bits(fragment@)->Some_0, refs: Seq::empty() }),
            0,
            0,
        ) is Ok,
        r matches Some(t) ==> t@ == disasm_text(
            (CellV { data: hex_bits(fragment@)->Some_0, refs: Seq::empty() }),
            0,
            0,
            false,
        ),
{
    let cell = match parse_hex_slice(fragment) {
        Some(c) => c,
        None => {
            return None;
        },
    };
    let mut slice = CellSlice::of_cell(&cell);
    match disasm(&mut slice) {
        Ok(text) => Some(text),
        Err(_) => None,
    }
}

} // verus!
