use tsol_asm::bits::bits_from_bytes;
use tsol_asm::cell::{Cell, CellSlice, cell_eq, fingerprint};
use tsol_asm::codedict::{locate, DelimitedHashmapE};
use tsol_asm::disasm::{disasm_ex, disasm_fragment, parse_hex_slice};
use tsol_asm::error::{DecodeError, DictError, PackError};
use tsol_asm::fmt::count_unique_cells;
use tsol_asm::insn::{Code, Instruction, InstructionParameter, Opcode};
use tsol_asm::loader::Loader;
use tsol_asm::writer::{DbgNode, DbgPos, Unit, Units};

fn bits(bytes: &[u8]) -> Vec<bool> {
    bits_from_bytes(&bytes.to_vec(), bytes.len() * 8)
}

fn leaf(bytes: &[u8]) -> Cell {
    Cell { data: bits(bytes), refs: vec![] }
}

fn load_cell(cell: &Cell) -> Result<Code, DecodeError> {
    let mut loader = Loader::new(false);
    let mut slice = CellSlice::of_cell(cell);
    loader.load(&mut slice)
}

fn ops_of(code: &Code) -> Vec<Opcode> {
    code.insns.iter().map(|i| i.op).collect()
}

#[test]
fn round_trip_simple_commands() {
    let mut units = Units::new();
    units.write_command(&vec![0x00], DbgNode::empty()).unwrap();
    units.write_command(&vec![0x01, 0x2a], DbgNode::empty()).unwrap();
    units.write_command(&vec![0x02], DbgNode::empty()).unwrap();
    units.write_command(&vec![0x03], DbgNode::empty()).unwrap();
    let (builder, _dbg) = units.finalize();
    let cell = builder.build();
    let code = load_cell(&cell).unwrap();
    assert_eq!(
        ops_of(&code),
        vec![Opcode::Nop, Opcode::PushInt, Opcode::DictUGetJmp, Opcode::DictUGetJmpZ]
    );
    match &code.insns[1].params[0] {
        InstructionParameter::Int(v) => assert_eq!(*v, 42),
        _ => panic!("expected an integer operand"),
    }
}

#[test]
fn round_trip_across_cell_boundaries() {
    // enough commands that the stream spans several cells
    let mut units = Units::new();
    let n = 400usize;
    for i in 0..n {
        units
            .write_command(&vec![0x01, (i % 256) as u8], DbgNode::empty())
            .unwrap();
    }
    let (builder, _dbg) = units.finalize();
    let cell = builder.build();
    let code = load_cell(&cell).unwrap();
    assert_eq!(code.insns.len(), n);
    for i in 0..n {
        assert_eq!(code.insns[i].op, Opcode::PushInt);
        match &code.insns[i].params[0] {
            InstructionParameter::Int(v) => assert_eq!(*v as usize, i % 256),
            _ => panic!("expected an integer operand"),
        }
    }
}

#[test]
fn capacity_invariant_holds() {
    let mut units = Units::new();
    for _ in 0..300 {
        units.write_command(&vec![0x00, 0x00, 0x00], DbgNode::empty()).unwrap();
    }
    for u in &units.units {
        assert!(u.builder.size_bits() <= 1023);
        assert!(u.builder.size_refs() <= 3);
    }
    let (builder, _dbg) = units.finalize();
    assert!(builder.size_bits() <= 1023);
    assert!(builder.size_refs() <= 4);
}

#[test]
fn bitstring_write_overflow_is_refused() {
    let mut units = Units::new();
    let big = vec![0u8; 128];
    assert_eq!(
        units.write_command_bitstring(&big, 1024, DbgNode::empty()),
        Err(PackError::NotFitInSlice)
    );
}

#[test]
fn composite_write_attaches_references() {
    let mut units = Units::new();
    let child = leaf(&[0x00]);
    let mut dbg = DbgNode::empty();
    dbg.append_node(DbgNode::empty());
    units
        .write_composite_command(&vec![0x04], vec![child], dbg)
        .unwrap();
    assert_eq!(units.units.last().unwrap().builder.size_refs(), 1);
}

#[test]
fn composite_write_reserves_one_slot() {
    let mut units = Units::new();
    let refs: Vec<Cell> = (0..4).map(|_| leaf(&[0x00])).collect();
    let mut dbg = DbgNode::empty();
    for _ in 0..4 {
        dbg.append_node(DbgNode::empty());
    }
    assert_eq!(
        units.write_composite_command(&vec![0x04], refs, dbg),
        Err(PackError::NotFitInSlice)
    );
}

#[test]
fn collapse_prints_one_rendering_per_hash() {
    let inner = leaf(&[0x00]);
    let root = Cell {
        data: bits(&[0x04, 0x04]),
        refs: vec![
            Cell { data: inner.data.clone(), refs: vec![] },
            Cell { data: inner.data.clone(), refs: vec![] },
        ],
    };
    let mut slice = CellSlice::of_cell(&root);
    let collapsed = disasm_ex(&mut slice, true).unwrap();
    assert_eq!(collapsed.matches(" ;; see #").count(), 1);
    let mut slice2 = CellSlice::of_cell(&root);
    let full = disasm_ex(&mut slice2, false).unwrap();
    assert_eq!(full.matches(" ;; see #").count(), 0);
}

// a one-bit-key dictionary: root label is empty, then a fork into two leaves
fn dict_two_values(v0: &[u8], v1: &[u8]) -> Cell {
    Cell {
        data: vec![false], // zero-length label: one-bit length field holding zero
        refs: vec![leaf(v0), leaf(v1)],
    }
}

#[test]
fn mark_populates_every_key() {
    let dict = dict_two_values(&[0x00], &[0x02]);
    let mut state = DelimitedHashmapE::new(dict, 1);
    state.mark().unwrap();
    assert_eq!(state.map.len(), 2);
    let ids: Vec<u64> = state.map.iter().map(|e| e.id).collect();
    assert_eq!(ids, vec![0, 1]);
    assert_eq!(state.map[0].path, vec![0u8]);
    assert_eq!(state.map[1].path, vec![1u8]);
}

#[test]
fn mark_rejects_colliding_values() {
    // two distinct keys with bit-identical values resolve to one location
    let dict = dict_two_values(&[0x00], &[0x00]);
    let mut state = DelimitedHashmapE::new(dict, 1);
    assert_eq!(state.mark(), Err(DictError::NonUniquePath));
}

#[test]
fn mark_rejects_malformed_dictionaries() {
    let dict = Cell { data: vec![], refs: vec![] };
    let mut state = DelimitedHashmapE::new(dict, 1);
    assert_eq!(state.mark(), Err(DictError::Malformed));
}

#[test]
fn mark_reports_undecodable_values() {
    let dict = dict_two_values(&[0xff], &[0x02]);
    let mut state = DelimitedHashmapE::new(dict, 1);
    assert_eq!(
        state.mark(),
        Err(DictError::Decode(DecodeError::UnknownOpcode { bit: 0 }))
    );
}

#[test]
fn located_paths_reproduce_the_values() {
    let values: Vec<Vec<u8>> = vec![vec![0x00], vec![0x02]];
    let dict = dict_two_values(&values[0], &values[1]);
    let mut state = DelimitedHashmapE::new(
        Cell {
            data: dict.data.clone(),
            refs: vec![
                Cell { data: dict.refs[0].data.clone(), refs: vec![] },
                Cell { data: dict.refs[1].data.clone(), refs: vec![] },
            ],
        },
        1,
    );
    state.mark().unwrap();
    for (k, entry) in state.map.iter().enumerate() {
        // follow the recorded path from the root by reference index
        let mut node = &dict;
        for step in &entry.path {
            node = &node.refs[*step as usize];
        }
        // the bits from the recorded offset on are exactly the value's bits
        let expected = bits(&values[k]);
        assert_eq!(&node.data[entry.offset..], &expected[..]);
    }
}

#[test]
fn locate_fails_on_absent_values() {
    let hay = leaf(&[0x00]);
    let needle = leaf(&[0x55]);
    let target = CellSlice::of_cell(&needle);
    let r = locate(CellSlice::of_cell(&hay), &target, vec![]);
    assert_eq!(r, Err(DictError::NotFound));
}

fn plain(op: Opcode) -> Instruction {
    Instruction { op, params: vec![] }
}

fn push_const_dict() -> Instruction {
    Instruction {
        op: Opcode::DictPushConst,
        params: vec![
            InstructionParameter::Int(1),
            InstructionParameter::Opaque(dict_two_values(&[0x00], &[0x02])),
        ],
    }
}

fn marker_count(insn: &Instruction) -> usize {
    insn.params
        .iter()
        .filter(|p| matches!(p, InstructionParameter::CodeDictMarker))
        .count()
}

#[test]
fn idiom_pair_gains_exactly_one_marker() {
    let mut code = Code {
        insns: vec![push_const_dict(), plain(Opcode::DictUGetJmp)],
    };
    code.elaborate_dictpushconst_dictugetjmp();
    assert_eq!(marker_count(&code.insns[0]), 1);
    assert_eq!(marker_count(&code.insns[1]), 0);
}

#[test]
fn unaligned_pair_gains_no_marker() {
    // the pair starts at an odd index, outside any aligned window of two
    let mut code = Code {
        insns: vec![
            plain(Opcode::Nop),
            push_const_dict(),
            plain(Opcode::DictUGetJmp),
        ],
    };
    code.elaborate_dictpushconst_dictugetjmp();
    for insn in &code.insns {
        assert_eq!(marker_count(insn), 0);
    }
}

#[test]
fn mismatched_pair_gains_no_marker() {
    let mut code = Code {
        insns: vec![plain(Opcode::Nop), plain(Opcode::DictUGetJmp)],
    };
    code.elaborate_dictpushconst_dictugetjmp();
    for insn in &code.insns {
        assert_eq!(marker_count(insn), 0);
    }
}

#[test]
fn nested_code_is_elaborated_too() {
    let nested = Code {
        insns: vec![push_const_dict(), plain(Opcode::DictUGetJmpZ)],
    };
    let mut code = Code {
        insns: vec![Instruction {
            op: Opcode::CallRef,
            params: vec![InstructionParameter::Code {
                code: nested,
                cell: leaf(&[0x00]),
            }],
        }],
    };
    code.elaborate_dictpushconst_dictugetjmp();
    match &code.insns[0].params[0] {
        InstructionParameter::Code { code: inner, .. } => {
            assert_eq!(marker_count(&inner.insns[0]), 1);
        }
        _ => panic!("expected nested code"),
    }
}

#[test]
fn inline_shifts_debug_offsets_by_destination_size() {
    let pos = DbgPos { line: 7, column: 3 };
    let mut dest = DbgNode::empty();
    dest.inline_node(0, DbgNode::from_pos(pos));
    // destination already holds 100 bits; the inlined node sits at offset 40
    let mut incoming = DbgNode::from_pos(pos);
    incoming.inline_node(40, DbgNode::from_pos(pos));
    let mut child = DbgNode::from_pos(pos);
    child.entries[0].0 = 8;
    incoming.append_node(child);
    dest.inline_node(100, incoming);
    let offsets: Vec<usize> = dest.entries.iter().map(|e| e.0).collect();
    assert_eq!(offsets, vec![0, 100, 140]);
    // attached children keep their own offsets
    assert_eq!(dest.children[0].entries[0].0, 8);
}

#[test]
fn append_leaves_debug_offsets_untouched() {
    let pos = DbgPos { line: 1, column: 2 };
    let mut dest = DbgNode::from_pos(pos);
    let mut other = DbgNode::from_pos(pos);
    other.entries[0].0 = 33;
    dest.append_node(other);
    assert_eq!(dest.entries.len(), 1);
    assert_eq!(dest.entries[0].0, 0);
    assert_eq!(dest.children[0].entries[0].0, 33);
}

#[test]
fn finalize_inlines_when_it_fits() {
    let mut units = Units::new();
    units.write_command(&vec![0x00], DbgNode::empty()).unwrap();
    units
        .write_unit(Unit::new(
            tsol_asm::cell::CellBuilder::from_raw_bits(bits(&[0x02])).unwrap(),
            DbgNode::empty(),
        ))
        .unwrap();
    let (builder, _dbg) = units.finalize();
    // both fit in one cell: sixteen bits, no references
    assert_eq!(builder.size_bits(), 16);
    assert_eq!(builder.size_refs(), 0);
}

#[test]
fn finalize_attaches_when_it_does_not_fit() {
    let mut units = Units::new();
    let big = vec![0u8; 120];
    units.write_command(&big, DbgNode::empty()).unwrap();
    units.write_command(&big, DbgNode::empty()).unwrap();
    let (builder, _dbg) = units.finalize();
    assert_eq!(builder.size_bits(), 960);
    assert_eq!(builder.size_refs(), 1);
}

#[test]
fn debug_info_is_keyed_by_fingerprint() {
    let pos = DbgPos { line: 4, column: 9 };
    let builder = tsol_asm::cell::CellBuilder::from_raw_bits(bits(&[0x00])).unwrap();
    let unit = Unit::new(builder, DbgNode::from_pos(pos));
    let (cell, info) = unit.finalize();
    assert_eq!(info.cells.len(), 1);
    assert_eq!(info.cells[0].hash, fingerprint(&cell));
    assert_eq!(info.cells[0].entries, vec![(0usize, pos)]);
}

#[test]
fn decode_errors_are_reported() {
    assert!(matches!(load_cell(&leaf(&[0xff])), Err(DecodeError::UnknownOpcode { .. })));
    let short = Cell { data: vec![true, false, true], refs: vec![] };
    assert!(matches!(load_cell(&short), Err(DecodeError::CursorExhausted { .. })));
    assert!(matches!(load_cell(&leaf(&[0x04])), Err(DecodeError::MissingReference { .. })));
    // push-integer cut off after its opcode
    assert!(matches!(load_cell(&leaf(&[0x01])), Err(DecodeError::CursorExhausted { .. })));
}

#[test]
fn decode_errors_carry_their_bit_position() {
    // a sound first instruction, then an unknown opcode at bit 8
    match load_cell(&leaf(&[0x00, 0xff])) {
        Err(DecodeError::UnknownOpcode { bit }) => assert_eq!(bit, 8),
        _ => panic!("expected an unknown-opcode failure"),
    }
    match load_cell(&leaf(&[0x00, 0x01])) {
        Err(e) => {
            assert!(matches!(e, DecodeError::CursorExhausted { bit: 8 }));
            assert_eq!(e.position(), 8);
        }
        _ => panic!("expected a cursor-exhausted failure"),
    }
}

#[test]
fn disasm_agrees_with_disasm_ex() {
    let root = leaf(&[0x00, 0x01, 0x07, 0x02]);
    let mut s1 = CellSlice::of_cell(&root);
    let mut s2 = CellSlice::of_cell(&root);
    let a = tsol_asm::disasm::disasm(&mut s1).unwrap();
    let b = disasm_ex(&mut s2, false).unwrap();
    assert_eq!(a, b);
    assert_eq!(s1.bit_pos, s2.bit_pos);
    assert_eq!(s1.ref_pos, s2.ref_pos);
}

#[test]
fn fragment_decoding_round_trips_text() {
    let text = disasm_fragment("00012a02").unwrap();
    assert!(text.contains("NOP"));
    assert!(text.contains("PUSHINT 42"));
    assert!(text.contains("DICTUGETJMP"));
    assert!(disasm_fragment("zz").is_none());
    assert!(disasm_fragment("0001").is_none());
}

#[test]
fn parse_hex_slice_reads_nibbles() {
    let cell = parse_hex_slice("f0").unwrap();
    assert_eq!(cell.data, vec![true, true, true, true, false, false, false, false]);
    assert!(parse_hex_slice("0g").is_none());
}

#[test]
fn unique_cells_are_counted_by_content() {
    let shared = leaf(&[0x00]);
    let root = Cell {
        data: vec![],
        refs: vec![
            Cell { data: shared.data.clone(), refs: vec![] },
            Cell { data: shared.data.clone(), refs: vec![] },
            leaf(&[0x02]),
        ],
    };
    assert_eq!(count_unique_cells(&root), 3);
    assert!(cell_eq(&root.refs[0], &root.refs[1]));
    assert!(!cell_eq(&root.refs[0], &root.refs[2]));
}

#[test]
fn nested_code_decodes_recursively() {
    let inner = leaf(&[0x00]);
    let root = Cell { data: bits(&[0x04]), refs: vec![inner] };
    let code = load_cell(&root).unwrap();
    assert_eq!(code.insns[0].op, Opcode::CallRef);
    match &code.insns[0].params[0] {
        InstructionParameter::Code { code: nested, .. } => {
            assert_eq!(ops_of(nested), vec![Opcode::Nop]);
        }
        _ => panic!("expected nested code"),
    }
}

#[test]
fn continuation_reference_is_followed() {
    let tail = leaf(&[0x02]);
    let root = Cell { data: bits(&[0x00]), refs: vec![tail] };
    let code = load_cell(&root).unwrap();
    assert_eq!(ops_of(&code), vec![Opcode::Nop, Opcode::DictUGetJmp]);
}

#[test]
fn dictionary_idiom_renders_the_jump_table() {
    // DICTPUSHCONST with a one-bit key and two methods, then DICTUGETJMP
    let dict = dict_two_values(&[0x00], &[0x02]);
    let root = Cell {
        data: {
            let mut d = bits(&[0x06]); // DICTPUSHCONST
            let mut keybits = vec![false; 10];
            keybits[9] = true; // key size 1
            d.extend(keybits);
            d.extend(bits(&[0x02])); // DICTUGETJMP
            d
        },
        refs: vec![dict],
    };
    let mut slice = CellSlice::of_cell(&root);
    let text = disasm_ex(&mut slice, false).unwrap();
    assert!(text.contains("DICTPUSHCONST"));
    assert!(text.contains("method 0"));
    assert!(text.contains("method 1"));
}
