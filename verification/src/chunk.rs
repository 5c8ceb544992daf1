//! The bytecode container: a byte vector, a constant pool and a line
//! map, together with the instruction encoding.
//!
//! Every instruction is one opcode byte, optionally followed by a
//! constant-pool id: one byte for the short forms, three big-endian
//! bytes for the long forms.  The spec-level `Instr` type and the
//! `decode` function give the meaning of a byte sequence; the compiler
//! only appends whole instructions, and the VM only runs decodable code.

use crate::debug::pairs_wf;
use crate::debug::spec_add;
use crate::debug::spec_get_line;
use crate::debug::LineMap;
use crate::value::Value;
use crate::value::ValueModel;
use vstd::prelude::*;

verus! {

#[derive(Clone, Copy, PartialEq, Eq, Structural, Debug)]
pub enum OpCode {
    Constant,
    LongConstant,
    Nil,
    True,
    False,
    Pop,
    GetGlobal,
    GetLongGlobal,
    DefineGlobal,
    DefineLongGlobal,
    SetGlobal,
    SetLongGlobal,
    Equal,
    Greater,
    Less,
    Add,
    Subtract,
    Multiply,
    Divide,
    Remainder,
    Not,
    Negate,
    Print,
    Return,
}

/// The byte that encodes an opcode.
pub open spec fn opcode_byte(op: OpCode) -> u8 {
    match op {
        OpCode::Constant => 0,
        OpCode::LongConstant => 1,
        OpCode::Nil => 2,
        OpCode::True => 3,
        OpCode::False => 4,
        OpCode::Pop => 5,
        OpCode::GetGlobal => 6,
        OpCode::GetLongGlobal => 7,
        OpCode::DefineGlobal => 8,
        OpCode::DefineLongGlobal => 9,
        OpCode::SetGlobal => 10,
        OpCode::SetLongGlobal => 11,
        OpCode::Equal => 12,
        OpCode::Greater => 13,
        OpCode::Less => 14,
        OpCode::Add => 15,
        OpCode::Subtract => 16,
        OpCode::Multiply => 17,
        OpCode::Divide => 18,
        OpCode::Remainder => 19,
        OpCode::Not => 20,
        OpCode::Negate => 21,
        OpCode::Print => 22,
        OpCode::Return => 23,
    }
}

/// The opcode a byte encodes, if any.
pub open spec fn spec_opcode_from_byte(b: u8) -> Option<OpCode> {
    if b == 0 {
        Some(OpCode::Constant)
    } else if b == 1 {
        Some(OpCode::LongConstant)
    } else if b == 2 {
        Some(OpCode::Nil)
    } else if b == 3 {
        Some(OpCode::True)
    } else if b == 4 {
        Some(OpCode::False)
    } else if b == 5 {
        Some(OpCode::Pop)
    } else if b == 6 {
        Some(OpCode::GetGlobal)
    } else if b == 7 {
        Some(OpCode::GetLongGlobal)
    } else if b == 8 {
        Some(OpCode::DefineGlobal)
    } else if b == 9 {
        Some(OpCode::DefineLongGlobal)
    } else if b == 10 {
        Some(OpCode::SetGlobal)
    } else if b == 11 {
        Some(OpCode::SetLongGlobal)
    } else if b == 12 {
        Some(OpCode::Equal)
    } else if b == 13 {
        Some(OpCode::Greater)
    } else if b == 14 {
        Some(OpCode::Less)
    } else if b == 15 {
        Some(OpCode::Add)
    } else if b == 16 {
        Some(OpCode::Subtract)
    } else if b == 17 {
        Some(OpCode::Multiply)
    } else if b == 18 {
        Some(OpCode::Divide)
    } else if b == 19 {
        Some(OpCode::Remainder)
    } else if b == 20 {
        Some(OpCode::Not)
    } else if b == 21 {
        Some(OpCode::Negate)
    } else if b == 22 {
        Some(OpCode::Print)
    } else if b == 23 {
        Some(OpCode::Return)
    } else {
        None
    }
}

/// Encoding then reading back an opcode byte is the identity.
pub proof fn lemma_opcode_roundtrip(op: OpCode)
    ensures
        spec_opcode_from_byte(opcode_byte(op)) == Some(op),
{
}

pub fn opcode_to_byte(op: OpCode) -> (b: u8)
    ensures
        b == opcode_byte(op),
{
    match op {
        OpCode::Constant => 0,
        OpCode::LongConstant => 1,
        OpCode::Nil => 2,
        OpCode::True => 3,
        OpCode::False => 4,
        OpCode::Pop => 5,
        OpCode::GetGlobal => 6,
        OpCode::GetLongGlobal => 7,
        OpCode::DefineGlobal => 8,
        OpCode::DefineLongGlobal => 9,
        OpCode::SetGlobal => 10,
        OpCode::SetLongGlobal => 11,
        OpCode::Equal => 12,
        OpCode::Greater => 13,
        OpCode::Less => 14,
        OpCode::Add => 15,
        OpCode::Subtract => 16,
        OpCode::Multiply => 17,
        OpCode::Divide => 18,
        OpCode::Remainder => 19,
        OpCode::Not => 20,
        OpCode::Negate => 21,
        OpCode::Print => 22,
        OpCode::Return => 23,
    }
}

/// The opcode for a byte, `None` for an unknown byte.
pub fn opcode_from_byte(b: u8) -> (r: Option<OpCode>)
    ensures
        r == spec_opcode_from_byte(b),
{
    match b {
        0 => Some(OpCode::Constant),
        1 => Some(OpCode::LongConstant),
        2 => Some(OpCode::Nil),
        3 => Some(OpCode::True),
        4 => Some(OpCode::False),
        5 => Some(OpCode::Pop),
        6 => Some(OpCode::GetGlobal),
        7 => Some(OpCode::GetLongGlobal),
        8 => Some(OpCode::DefineGlobal),
        9 => Some(OpCode::DefineLongGlobal),
        10 => Some(OpCode::SetGlobal),
        11 => Some(OpCode::SetLongGlobal),
        12 => Some(OpCode::Equal),
        13 => Some(OpCode::Greater),
        14 => Some(OpCode::Less),
        15 => Some(OpCode::Add),
        16 => Some(OpCode::Subtract),
        17 => Some(OpCode::Multiply),
        18 => Some(OpCode::Divide),
        19 => Some(OpCode::Remainder),
        20 => Some(OpCode::Not),
        21 => Some(OpCode::Negate),
        22 => Some(OpCode::Print),
        23 => Some(OpCode::Return),
        _ => None,
    }
}

/// A decoded instruction.  `long` records whether a constant id was
/// encoded in the three-byte form.
pub enum Instr {
    Constant { id: u32, long: bool },
    Nil,
    True,
    False,
    Pop,
    GetGlobal { id: u32, long: bool },
    DefineGlobal { id: u32, long: bool },
    SetGlobal { id: u32, long: bool },
    Equal,
    Greater,
    Less,
    Add,
    Subtract,
    Multiply,
    Divide,
    Remainder,
    Not,
    Negate,
    Print,
    Return,
}

/// Bytes of an instruction: the opcode, plus 1 or 3 id bytes for the
/// constant-addressed forms.
pub open spec fn instr_size(i: Instr) -> nat {
    match i {
        Instr::Constant { long, .. } => if long {
            4
        } else {
            2
        },
        Instr::GetGlobal { long, .. } => if long {
            4
        } else {
            2
        },
        Instr::DefineGlobal { long, .. } => if long {
            4
        } else {
            2
        },
        Instr::SetGlobal { long, .. } => if long {
            4
        } else {
            2
        },
        _ => 1,
    }
}

/// A 24-bit big-endian id.
pub open spec fn be24(b0: u8, b1: u8, b2: u8) -> u32 {
    ((b0 as u32) << 16) | ((b1 as u32) << 8) | (b2 as u32)
}

/// The first instruction of a byte sequence and its size, or `None`
/// when the first byte is no opcode or its operand bytes are missing.
pub open spec fn decode_head(code: Seq<u8>) -> Option<Instr> {
    match spec_opcode_from_byte(code[0]) {
        None => None,
        Some(op) => match op {
            OpCode::Constant => if code.len() >= 2 {
                Some(Instr::Constant { id: code[1] as u32, long: false })
            } else {
                None
            },
            OpCode::LongConstant => if code.len() >= 4 {
                Some(Instr::Constant { id: be24(code[1], code[2], code[3]), long: true })
            } else {
                None
            },
            OpCode::GetGlobal => if code.len() >= 2 {
                Some(Instr::GetGlobal { id: code[1] as u32, long: false })
            } else {
                None
            },
            OpCode::GetLongGlobal => if code.len() >= 4 {
                Some(Instr::GetGlobal { id: be24(code[1], code[2], code[3]), long: true })
            } else {
                None
            },
            OpCode::DefineGlobal => if code.len() >= 2 {
                Some(Instr::DefineGlobal { id: code[1] as u32, long: false })
            } else {
                None
            },
            OpCode::DefineLongGlobal => if code.len() >= 4 {
                Some(Instr::DefineGlobal { id: be24(code[1], code[2], code[3]), long: true })
            } else {
                None
            },
            OpCode::SetGlobal => if code.len() >= 2 {
                Some(Instr::SetGlobal { id: code[1] as u32, long: false })
            } else {
                None
            },
            OpCode::SetLongGlobal => if code.len() >= 4 {
                Some(Instr::SetGlobal { id: be24(code[1], code[2], code[3]), long: true })
            } else {
                None
            },
            OpCode::Nil => Some(Instr::Nil),
            OpCode::True => Some(Instr::True),
            OpCode::False => Some(Instr::False),
            OpCode::Pop => Some(Instr::Pop),
            OpCode::Equal => Some(Instr::Equal),
            OpCode::Greater => Some(Instr::Greater),
            OpCode::Less => Some(Instr::Less),
            OpCode::Add => Some(Instr::Add),
            OpCode::Subtract => Some(Instr::Subtract),
            OpCode::Multiply => Some(Instr::Multiply),
            OpCode::Divide => Some(Instr::Divide),
            OpCode::Remainder => Some(Instr::Remainder),
            OpCode::Not => Some(Instr::Not),
            OpCode::Negate => Some(Instr::Negate),
            OpCode::Print => Some(Instr::Print),
            OpCode::Return => Some(Instr::Return),
        },
    }
}

/// The instruction sequence of a byte sequence: every byte belongs to
/// exactly one instruction, or `None` when the bytes are not a whole
/// number of well-formed instructions.
pub open spec fn decode(code: Seq<u8>) -> Option<Seq<Instr>>
    decreases code.len(),
{
    if code.len() == 0 {
        Some(Seq::empty())
    } else {
        match decode_head(code) {
            None => None,
            Some(i) => if instr_size(i) <= code.len() {
                match decode(code.skip(instr_size(i) as int)) {
                    None => None,
                    Some(rest) => Some(seq![i] + rest),
                }
            } else {
                None
            },
        }
    }
}

/// The bytes that encode an instruction.
pub open spec fn encode_instr(i: Instr) -> Seq<u8> {
    match i {
        Instr::Constant { id, long } => encode_id(opcode_byte(OpCode::Constant), opcode_byte(OpCode::LongConstant), id, long),
        Instr::GetGlobal { id, long } => encode_id(opcode_byte(OpCode::GetGlobal), opcode_byte(OpCode::GetLongGlobal), id, long),
        Instr::DefineGlobal { id, long } => encode_id(opcode_byte(OpCode::DefineGlobal), opcode_byte(OpCode::DefineLongGlobal), id, long),
        Instr::SetGlobal { id, long } => encode_id(opcode_byte(OpCode::SetGlobal), opcode_byte(OpCode::SetLongGlobal), id, long),
        Instr::Nil => seq![opcode_byte(OpCode::Nil)],
        Instr::True => seq![opcode_byte(OpCode::True)],
        Instr::False => seq![opcode_byte(OpCode::False)],
        Instr::Pop => seq![opcode_byte(OpCode::Pop)],
        Instr::Equal => seq![opcode_byte(OpCode::Equal)],
        Instr::Greater => seq![opcode_byte(OpCode::Greater)],
        Instr::Less => seq![opcode_byte(OpCode::Less)],
        Instr::Add => seq![opcode_byte(OpCode::Add)],
        Instr::Subtract => seq![opcode_byte(OpCode::Subtract)],
        Instr::Multiply => seq![opcode_byte(OpCode::Multiply)],
        Instr::Divide => seq![opcode_byte(OpCode::Divide)],
        Instr::Remainder => seq![opcode_byte(OpCode::Remainder)],
        Instr::Not => seq![opcode_byte(OpCode::Not)],
        Instr::Negate => seq![opcode_byte(OpCode::Negate)],
        Instr::Print => seq![opcode_byte(OpCode::Print)],
        Instr::Return => seq![opcode_byte(OpCode::Return)],
    }
}

/// The short or long byte form of a constant-addressed instruction.
pub open spec fn encode_id(short_op: u8, long_op: u8, id: u32, long: bool) -> Seq<u8> {
    if long {
        seq![long_op, ((id >> 16) & 0xff) as u8, ((id >> 8) & 0xff) as u8, (id & 0xff) as u8]
    } else {
        seq![short_op, id as u8]
    }
}

/// An instruction whose id fits its encoding form.
pub open spec fn instr_encodable(i: Instr) -> bool {
    match i {
        Instr::Constant { id, long } => if long {
            id <= 0xffffff
        } else {
            id <= 0xff
        },
        Instr::GetGlobal { id, long } => if long {
            id <= 0xffffff
        } else {
            id <= 0xff
        },
        Instr::DefineGlobal { id, long } => if long {
            id <= 0xffffff
        } else {
            id <= 0xff
        },
        Instr::SetGlobal { id, long } => if long {
            id <= 0xffffff
        } else {
            id <= 0xff
        },
        _ => true,
    }
}

/// Decoding the encoding of one instruction yields that instruction.
pub proof fn lemma_decode_encode(i: Instr)
    requires
        instr_encodable(i),
    ensures
        decode(encode_instr(i)) == Some(seq![i]),
        encode_instr(i).len() == instr_size(i),
{
    let code = encode_instr(i);
    assert(id_roundtrip_ok()) by {
        lemma_be24_roundtrip();
    }
    assert(decode_head(code) == Some(i));
    assert(code.skip(instr_size(i) as int) =~= Seq::<u8>::empty());
    assert(decode(code.skip(instr_size(i) as int)) == Some(Seq::<Instr>::empty()));
    assert(decode(code)->Some_0 =~= seq![i]);
}

/// The big-endian id bytes read back as the id they came from.
pub open spec fn id_roundtrip_ok() -> bool {
    forall|id: u32|
        id <= 0xffffff ==> #[trigger] be24(
            ((id >> 16) & 0xff) as u8,
            ((id >> 8) & 0xff) as u8,
            (id & 0xff) as u8,
        ) == id
}

pub proof fn lemma_be24_roundtrip()
    ensures
        id_roundtrip_ok(),
{
    assert forall|id: u32| id <= 0xffffff implies #[trigger] be24(
        ((id >> 16) & 0xff) as u8,
        ((id >> 8) & 0xff) as u8,
        (id & 0xff) as u8,
    ) == id by {
        let b0 = ((id >> 16) & 0xff) as u8;
        let b1 = ((id >> 8) & 0xff) as u8;
        let b2 = (id & 0xff) as u8;
        assert(id <= 0xffffff ==> ((((((id >> 16) & 0xff) as u8) as u32) << 16) | (((((id >> 8)
            & 0xff) as u8) as u32) << 8) | (((id & 0xff) as u8) as u32)) == id) by (bit_vector);
    }
}

/// Also `be24` never exceeds 24 bits.
pub proof fn lemma_be24_bound(b0: u8, b1: u8, b2: u8)
    ensures
        be24(b0, b1, b2) <= 0xffffff,
{
    assert((((b0 as u32) << 16) | ((b1 as u32) << 8) | (b2 as u32)) <= 0xffffff) by (bit_vector);
}

/// Decoding distributes over concatenation at instruction boundaries.
pub proof fn lemma_decode_append(a: Seq<u8>, b: Seq<u8>)
    requires
        decode(a) is Some,
        decode(b) is Some,
    ensures
        decode(a + b) is Some,
        decode(a + b)->Some_0 == decode(a)->Some_0 + decode(b)->Some_0,
    decreases a.len(),
{
    if a.len() == 0 {
        assert(a + b =~= b);
        assert(decode(a)->Some_0 + decode(b)->Some_0 =~= decode(b)->Some_0);
    } else {
        let i = decode_head(a)->Some_0;
        let sz = instr_size(i) as int;
        assert(decode_head(a) is Some);
        assert((a + b)[0] == a[0]);
        assert(a.len() >= 2 ==> (a + b)[1] == a[1]);
        assert(a.len() >= 4 ==> (a + b)[2] == a[2] && (a + b)[3] == a[3]);
        assert(decode_head(a + b) == Some(i));
        assert((a + b).skip(sz) =~= a.skip(sz) + b);
        lemma_decode_append(a.skip(sz), b);
        assert(decode(a + b)->Some_0 =~= decode(a)->Some_0 + decode(b)->Some_0);
    }
}

/// Stack slots an instruction reads below the top before it runs.
pub open spec fn instr_arity(i: Instr) -> nat {
    match i {
        Instr::Constant { .. } => 0,
        Instr::Nil => 0,
        Instr::True => 0,
        Instr::False => 0,
        Instr::Pop => 1,
        Instr::GetGlobal { .. } => 0,
        Instr::DefineGlobal { .. } => 1,
        Instr::SetGlobal { .. } => 1,
        Instr::Equal => 2,
        Instr::Greater => 2,
        Instr::Less => 2,
        Instr::Add => 2,
        Instr::Subtract => 2,
        Instr::Multiply => 2,
        Instr::Divide => 2,
        Instr::Remainder => 2,
        Instr::Not => 1,
        Instr::Negate => 1,
        Instr::Print => 1,
        Instr::Return => 0,
    }
}

/// Net stack effect of an instruction.
pub open spec fn instr_net(i: Instr) -> int {
    match i {
        Instr::Constant { .. } => 1,
        Instr::Nil => 1,
        Instr::True => 1,
        Instr::False => 1,
        Instr::Pop => -1,
        Instr::GetGlobal { .. } => 1,
        Instr::DefineGlobal { .. } => -1,
        Instr::SetGlobal { .. } => 0,
        Instr::Equal => -1,
        Instr::Greater => -1,
        Instr::Less => -1,
        Instr::Add => -1,
        Instr::Subtract => -1,
        Instr::Multiply => -1,
        Instr::Divide => -1,
        Instr::Remainder => -1,
        Instr::Not => 0,
        Instr::Negate => 0,
        Instr::Print => -1,
        Instr::Return => 0,
    }
}

/// Net stack effect of an instruction sequence.
pub open spec fn net_sum(instrs: Seq<Instr>) -> int
    decreases instrs.len(),
{
    if instrs.len() == 0 {
        0
    } else {
        instr_net(instrs[0]) + net_sum(instrs.skip(1))
    }
}

/// Started at stack height `h`, every instruction finds the slots it
/// reads.
pub open spec fn frag_safe(instrs: Seq<Instr>, h: int) -> bool
    decreases instrs.len(),
{
    if instrs.len() == 0 {
        true
    } else {
        h >= instr_arity(instrs[0]) && frag_safe(instrs.skip(1), h + instr_net(instrs[0]))
    }
}

pub proof fn lemma_net_sum_append(a: Seq<Instr>, b: Seq<Instr>)
    ensures
        net_sum(a + b) == net_sum(a) + net_sum(b),
    decreases a.len(),
{
    if a.len() == 0 {
        assert(a + b =~= b);
    } else {
        assert((a + b)[0] == a[0]);
        assert((a + b).skip(1) =~= a.skip(1) + b);
        lemma_net_sum_append(a.skip(1), b);
    }
}

pub proof fn lemma_frag_safe_append(a: Seq<Instr>, b: Seq<Instr>, h: int)
    requires
        frag_safe(a, h),
        frag_safe(b, h + net_sum(a)),
    ensures
        frag_safe(a + b, h),
    decreases a.len(),
{
    if a.len() == 0 {
        assert(a + b =~= b);
    } else {
        assert((a + b)[0] == a[0]);
        assert((a + b).skip(1) =~= a.skip(1) + b);
        lemma_net_sum_append(a.skip(1), b);
        lemma_frag_safe_append(a.skip(1), b, h + instr_net(a[0]));
    }
}

pub proof fn lemma_frag_safe_mono(a: Seq<Instr>, h1: int, h2: int)
    requires
        frag_safe(a, h1),
        h1 <= h2,
    ensures
        frag_safe(a, h2),
    decreases a.len(),
{
    if a.len() > 0 {
        lemma_frag_safe_mono(a.skip(1), h1 + instr_net(a[0]), h2 + instr_net(a[0]));
    }
}

/// An instruction's constant references stay inside the pool, and the
/// global-addressing forms name string constants.
pub open spec fn instr_operands_ok(i: Instr, consts: Seq<ValueModel>) -> bool {
    match i {
        Instr::Constant { id, .. } => id < consts.len(),
        Instr::GetGlobal { id, .. } => id < consts.len() && consts[id as int] is Str,
        Instr::DefineGlobal { id, .. } => id < consts.len() && consts[id as int] is Str,
        Instr::SetGlobal { id, .. } => id < consts.len() && consts[id as int] is Str,
        _ => true,
    }
}

pub open spec fn code_operands_ok(instrs: Seq<Instr>, consts: Seq<ValueModel>) -> bool {
    forall|k: int| 0 <= k < instrs.len() ==> instr_operands_ok(#[trigger] instrs[k], consts)
}

/// Growing the pool preserves operand validity.
pub proof fn lemma_operands_ok_extend(
    instrs: Seq<Instr>,
    c1: Seq<ValueModel>,
    c2: Seq<ValueModel>,
)
    requires
        code_operands_ok(instrs, c1),
        c1.len() <= c2.len(),
        forall|k: int| 0 <= k < c1.len() ==> c2[k] == c1[k],
    ensures
        code_operands_ok(instrs, c2),
{
    assert forall|k: int| 0 <= k < instrs.len() implies instr_operands_ok(
        #[trigger] instrs[k],
        c2,
    ) by {
        assert(instr_operands_ok(instrs[k], c1));
    }
}

/// Whether some instruction halts execution.
pub open spec fn contains_return(instrs: Seq<Instr>) -> bool {
    exists|k: int| 0 <= k < instrs.len() && instrs[k] is Return
}

/// What the VM requires of a chunk before it runs it from a stack of
/// height `h`: decodable code, valid operands, a `Return` to halt on,
/// and enough stack for every instruction.
pub open spec fn chunk_exec_wf(code: Seq<u8>, consts: Seq<ValueModel>, h: int) -> bool {
    &&& decode(code) is Some
    &&& code_operands_ok(decode(code)->Some_0, consts)
    &&& contains_return(decode(code)->Some_0)
    &&& frag_safe(decode(code)->Some_0, h)
}

/// Total byte size of an instruction sequence.
pub open spec fn sizes_sum(instrs: Seq<Instr>) -> nat
    decreases instrs.len(),
{
    if instrs.len() == 0 {
        0
    } else {
        instr_size(instrs[0]) + sizes_sum(instrs.skip(1))
    }
}

/// Decodable code is covered exactly by its instructions: every byte
/// belongs to one instruction, and walking them advances the offset by
/// each instruction's size to land precisely on the end of the code.
pub proof fn lemma_decode_covers(code: Seq<u8>)
    requires
        decode(code) is Some,
    ensures
        sizes_sum(decode(code)->Some_0) == code.len(),
    decreases code.len(),
{
    if code.len() > 0 {
        let i = decode_head(code)->Some_0;
        let sz = instr_size(i) as int;
        lemma_decode_covers(code.skip(sz));
        assert(decode(code)->Some_0.skip(1) =~= decode(code.skip(sz))->Some_0);
    }
}

/// Abstract state of a chunk.
pub struct ChunkModel {
    pub code: Seq<u8>,
    pub constants: Seq<ValueModel>,
    pub lines: Seq<(usize, usize)>,
}

pub struct Chunk {
    code: Vec<u8>,
    constants: Vec<Value>,
    lines: LineMap,
}

/// The line map is well formed and its offsets stay inside the code.
pub open spec fn lines_ok(m: ChunkModel) -> bool {
    &&& pairs_wf(m.lines)
    &&& m.lines.len() > 0 ==> m.lines.last().0 < m.code.len()
}

/// The smallest line later writes may carry.
pub open spec fn max_line(m: ChunkModel) -> usize {
    if m.lines.len() == 0 {
        0
    } else {
        m.lines.last().1
    }
}

impl View for Chunk {
    type V = ChunkModel;

    closed spec fn view(&self) -> ChunkModel {
        ChunkModel {
            code: self.code@,
            constants: Seq::new(self.constants@.len(), |i: int| self.constants@[i]@),
            lines: self.lines@,
        }
    }
}

impl Default for Chunk {
    fn default() -> (r: Chunk)
        ensures
            r@.code == Seq::<u8>::empty(),
            r@.constants == Seq::<ValueModel>::empty(),
            r@.lines == Seq::<(usize, usize)>::empty(),
    {
        let r = Chunk { code: Vec::new(), constants: Vec::new(), lines: LineMap::default() };
        proof {
            assert(r@.constants =~= Seq::<ValueModel>::empty());
        }
        r
    }
}

impl Chunk {
    /// The byte at a code offset.
    pub fn read(&self, index: usize) -> (b: u8)
        requires
            index < self@.code.len(),
        ensures
            b == self@.code[index as int],
            self@.code.len() <= usize::MAX,
    {
        let n: usize = self.code.len();
        proof {
            assert(n == self@.code.len());
        }
        self.code[index]
    }

    /// Appends one raw byte, attributing it to a source line.  Lines
    /// never decrease from one write to the next.
    pub fn write(&mut self, byte: u8, line: usize)
        requires
            lines_ok(old(self)@),
            line >= max_line(old(self)@),
        ensures
            final(self)@.code == old(self)@.code.push(byte),
            final(self)@.constants == old(self)@.constants,
            final(self)@.lines == spec_add(old(self)@.lines, old(self)@.code.len() as usize, line),
            lines_ok(final(self)@),
            max_line(final(self)@) <= line,
            spec_get_line(final(self)@.lines, old(self)@.code.len() as int) == line || (old(
                self,
            )@.lines.len() > 0 && line == max_line(old(self)@) && spec_get_line(
                final(self)@.lines,
                old(self)@.code.len() as int,
            ) == spec_get_line(old(self)@.lines, old(self)@.code.len() as int)),
    {
        let offset = self.code.len();
        self.code.push(byte);
        self.lines.add(offset, line);
        proof {
            assert(final(self)@.constants =~= old(self)@.constants);
        }
    }

    /// Appends a value to the constant pool and returns its id.
    pub fn add_constant(&mut self, constant: Value) -> (id: usize)
        ensures
            final(self)@.constants == old(self)@.constants.push(constant@),
            final(self)@.code == old(self)@.code,
            final(self)@.lines == old(self)@.lines,
            id == old(self)@.constants.len(),
    {
        self.constants.push(constant);
        proof {
            assert(final(self)@.constants =~= old(self)@.constants.push(constant@));
        }
        self.constants.len() - 1
    }

    /// How many constants the pool holds.
    pub fn constants_count(&self) -> (n: usize)
        ensures
            n == self@.constants.len(),
    {
        self.constants.len()
    }

    /// The constant stored under an id.
    pub fn get_constant(&self, id: usize) -> (v: &Value)
        requires
            id < self@.constants.len(),
        ensures
            v@ == self@.constants[id as int],
    {
        &self.constants[id]
    }

    /// Adds the value to the pool and emits the instruction that pushes
    /// it, in the short two-byte form for ids up to `0xff` and the
    /// four-byte big-endian form above.  Ids from 2^24 up are rejected
    /// by the precondition.
    pub fn write_constant(&mut self, constant: Value, line: usize)
        requires
            lines_ok(old(self)@),
            line >= max_line(old(self)@),
            old(self)@.constants.len() < 0x1000000,
        ensures
            final(self)@.constants == old(self)@.constants.push(constant@),
            final(self)@.code == old(self)@.code + encode_instr(
                Instr::Constant {
                    id: old(self)@.constants.len() as u32,
                    long: old(self)@.constants.len() > 0xff,
                },
            ),
            final(self)@.lines == spec_add(old(self)@.lines, old(self)@.code.len() as usize, line),
            lines_ok(final(self)@),
            max_line(final(self)@) <= line,
    {
        let ghost m0 = self@;
        let id = self.add_constant(constant);
        if id <= 0xff {
            self.write(opcode_to_byte(OpCode::Constant), line);
            self.write(id as u8, line);
            proof {
                assert(final(self)@.code =~= m0.code + encode_instr(
                    Instr::Constant { id: id as u32, long: false },
                ));
                lemma_spec_add_twice(m0.lines, m0.code.len() as usize, line);
            }
        } else {
            let id32 = id as u32;
            self.write(opcode_to_byte(OpCode::LongConstant), line);
            self.write(((id32 >> 16) & 0xff) as u8, line);
            self.write(((id32 >> 8) & 0xff) as u8, line);
            self.write((id32 & 0xff) as u8, line);
            proof {
                assert(final(self)@.code =~= m0.code + encode_instr(
                    Instr::Constant { id: id as u32, long: true },
                ));
                lemma_spec_add_twice(m0.lines, m0.code.len() as usize, line);
            }
        }
    }

    /// The source line of the instruction at a byte offset.
    pub fn get_line(&self, offset: usize) -> (line: usize)
        ensures
            line == spec_get_line(self@.lines, offset as int),
    {
        self.lines.get_line(offset)
    }
}

/// Writing several bytes of one instruction records at most one line
/// pair: later adds with the same line change nothing.
proof fn lemma_spec_add_twice(pairs: Seq<(usize, usize)>, offset: usize, line: usize)
    ensures
        forall|o2: usize| #[trigger] spec_add(spec_add(pairs, offset, line), o2, line) == spec_add(
            pairs,
            offset,
            line,
        ),
{
}

/// Constant-pool ids up to `0xff` are addressed by the short
/// `Constant` form; larger ids (up to `0xffffff`) need the long form.
pub fn constant_is_long(id: usize) -> (r: bool)
    requires
        id <= 0xffffff,
    ensures
        r == (id > 0xff),
{
    id > 0xff
}

} // verus!
