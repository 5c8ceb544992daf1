//! A single-pass bytecode compiler and stack virtual machine for a
//! small dynamically typed scripting language: a Pratt parser emits
//! bytecode into a chunk, and a fetch-decode-execute loop runs it over
//! a value stack and a globals map.  Numbers are IEEE-754 binary64
//! values carried as raw bits; printing collects into an output buffer
//! and error reports into a diagnostics buffer, for the driver to show.

use vstd::prelude::*;

pub mod chunk;
pub mod compiler;
pub mod debug;
pub mod num;
pub mod scanner;
pub mod value;
pub mod vm;

pub use compiler::compile;

use chunk::frag_safe;
use chunk::Chunk;
use chunk::Instr;
use chunk::OpCode;
use value::Value;
use value::ValueModel;
use vm::Vm;

verus! {

/// Compiles and runs a source text on a fresh machine: `Ok` exactly
/// when the source compiles and the compiled program halts normally
/// from an empty stack and an empty globals map, the matching
/// `CompileError` or `RuntimeError` otherwise.
pub fn run_string(source: &str) -> (r: Result<(), vm::InterpretError>)
    requires
        source@.len() < usize::MAX,
    ensures
        compiler::trivial_source(source@) ==> r is Ok,
        !(r matches Err(vm::InterpretError::Ice(_))),
        (r matches Err(vm::InterpretError::CompileError(_))) <==> compiler::sp_compile(
            source@,
        ).err,
        !compiler::sp_compile(source@).err ==> ({
            let sp = compiler::sp_compile(source@);
            let started = vm::MachineState {
                stack: Seq::<ValueModel>::empty(),
                globals: Map::<Seq<char>, ValueModel>::empty(),
                output: Seq::<Seq<char>>::empty(),
            };
            match vm::exec_instrs(sp.instrs, sp.consts, started, 0) {
                vm::RunOutcome::Done { st } => r is Ok,
                vm::RunOutcome::Fail { kind, offset, st } => r matches Err(
                    vm::InterpretError::RuntimeError(m),
                ) && m@ == vm::runtime_msg(kind),
            }
        }),
{
    let mut machine = Vm::new(Box::new(Chunk::default()));

    machine.interpret(source)
}

/// Builds a small chunk by hand and runs it: pushes 1.2 and 3.4, adds
/// them, divides by 3.4, negates, and returns.
pub fn run_test() {
    let ghost instrs = seq![
        Instr::Constant { id: 0, long: false },
        Instr::Constant { id: 1, long: false },
        Instr::Add,
        Instr::Constant { id: 2, long: false },
        Instr::Divide,
        Instr::Negate,
        Instr::Return,
    ];

    let mut chunk = Chunk::default();
    let ghost c0 = chunk@.code;
    let ghost d0 = Seq::<Instr>::empty();
    proof {
        assert(chunk::decode(c0) == Some(d0));
    }

    chunk.write_constant(Value::Number(0x3ff3333333333333), 1);
    let ghost c1 = chunk@.code;
    let ghost d1 = d0.push(instrs[0]);
    proof {
        step_decode(c0, d0, instrs[0]);
    }

    chunk.write_constant(Value::Number(0x400b333333333333), 1);
    let ghost c2 = chunk@.code;
    let ghost d2 = d1.push(instrs[1]);
    proof {
        step_decode(c1, d1, instrs[1]);
    }

    chunk.write(chunk::opcode_to_byte(OpCode::Add), 1);
    let ghost c3 = chunk@.code;
    let ghost d3 = d2.push(Instr::Add);
    proof {
        assert(c3 =~= c2 + chunk::encode_instr(Instr::Add));
        step_decode(c2, d2, Instr::Add);
    }

    chunk.write_constant(Value::Number(0x400b333333333333), 1);
    let ghost c4 = chunk@.code;
    let ghost d4 = d3.push(instrs[3]);
    proof {
        step_decode(c3, d3, instrs[3]);
    }

    chunk.write(chunk::opcode_to_byte(OpCode::Divide), 1);
    let ghost c5 = chunk@.code;
    let ghost d5 = d4.push(Instr::Divide);
    proof {
        assert(c5 =~= c4 + chunk::encode_instr(Instr::Divide));
        step_decode(c4, d4, Instr::Divide);
    }

    chunk.write(chunk::opcode_to_byte(OpCode::Negate), 1);
    let ghost c6 = chunk@.code;
    let ghost d6 = d5.push(Instr::Negate);
    proof {
        assert(c6 =~= c5 + chunk::encode_instr(Instr::Negate));
        step_decode(c5, d5, Instr::Negate);
    }

    chunk.write(chunk::opcode_to_byte(OpCode::Return), 1);
    let ghost c7 = chunk@.code;
    let ghost d7 = d6.push(Instr::Return);
    proof {
        assert(c7 =~= c6 + chunk::encode_instr(Instr::Return));
        step_decode(c6, d6, Instr::Return);
        assert(d7 =~= instrs);
        assert(chunk::decode(c7) == Some(instrs));
        assert(chunk@.constants.len() == 3);
        assert(chunk@.constants[0] is Num);
        assert(chunk@.constants[1] is Num);
        assert(chunk@.constants[2] is Num);
    }

    let mut machine = Vm::new(Box::new(chunk));

    proof {
        lemma_test_chunk_runs(instrs, machine.chunk_model().constants, machine.st());
        assert(machine.rem_code() =~= machine.chunk_model().code);
    }
    machine.run().unwrap();
}

/// One appended instruction extends the decoding.
proof fn step_decode(code0: Seq<u8>, decoded0: Seq<Instr>, i: Instr)
    requires
        chunk::decode(code0) == Some(decoded0),
        chunk::instr_encodable(i),
    ensures
        chunk::decode(code0 + chunk::encode_instr(i)) == Some(decoded0.push(i)),
{
    chunk::lemma_decode_encode(i);
    chunk::lemma_decode_append(code0, chunk::encode_instr(i));
    assert(chunk::decode(code0 + chunk::encode_instr(i))->Some_0 =~= decoded0.push(i));
}

/// The hand-built test chunk is well formed and halts normally.
proof fn lemma_test_chunk_runs(instrs: Seq<Instr>, consts: Seq<ValueModel>, st: vm::MachineState)
    requires
        instrs == seq![
            Instr::Constant { id: 0, long: false },
            Instr::Constant { id: 1, long: false },
            Instr::Add,
            Instr::Constant { id: 2, long: false },
            Instr::Divide,
            Instr::Negate,
            Instr::Return,
        ],
        consts.len() == 3,
        consts[0] is Num,
        consts[1] is Num,
        consts[2] is Num,
        st.stack.len() == 0,
    ensures
        chunk::code_operands_ok(instrs, consts),
        chunk::contains_return(instrs),
        frag_safe(instrs, 0),
        vm::exec_instrs(instrs, consts, st, 0) is Done,
{
    assert(chunk::code_operands_ok(instrs, consts)) by {
        assert forall|k: int| 0 <= k < instrs.len() implies chunk::instr_operands_ok(
            #[trigger] instrs[k],
            consts,
        ) by {
            if k == 0 {
                assert(instrs[0] == (Instr::Constant { id: 0u32, long: false }));
            }
        }
    }
    assert(instrs[6] is Return);
    let s1 = instrs.skip(1);
    let s2 = instrs.skip(2);
    let s3 = instrs.skip(3);
    let s4 = instrs.skip(4);
    let s5 = instrs.skip(5);
    let s6 = instrs.skip(6);
    let s7 = instrs.skip(7);
    assert(s1 =~= instrs.subrange(1, 7));
    assert(s1.skip(1) =~= s2);
    assert(s2.skip(1) =~= s3);
    assert(s3.skip(1) =~= s4);
    assert(s4.skip(1) =~= s5);
    assert(s5.skip(1) =~= s6);
    assert(s6.skip(1) =~= s7);
    assert(s7 =~= Seq::<Instr>::empty());
    assert(frag_safe(s7, 1));
    assert(frag_safe(s6, 1));
    assert(frag_safe(s5, 1));
    assert(frag_safe(s4, 2));
    assert(frag_safe(s3, 1));
    assert(frag_safe(s2, 2));
    assert(frag_safe(s1, 1));
    assert(frag_safe(instrs, 0));

    let st1 = vm::st_push(st, consts[0]);
    let st2 = vm::st_push(st1, consts[1]);
    let a0 = consts[0]->Num_0;
    let b0 = consts[1]->Num_0;
    assert(st2.stack.len() == 2);
    assert(st2.stack.last() == consts[1]);
    assert(st2.stack[0] == consts[0]);
    let st3 = vm::MachineState {
        stack: st2.stack.drop_last().drop_last().push(ValueModel::Num(num::add_bits(a0, b0))),
        ..st2
    };
    let st4 = vm::st_push(st3, consts[2]);
    assert(st4.stack.len() == 2);
    let a1 = st4.stack[0]->Num_0;
    let b1 = consts[2]->Num_0;
    let st5 = vm::MachineState {
        stack: st4.stack.drop_last().drop_last().push(
            ValueModel::Num(vm::arith_bits(vm::ArithOp::Div, a1, b1)),
        ),
        ..st4
    };
    assert(st5.stack.len() == 1);
    assert(st5.stack.last() is Num);
    let st6 = vm::MachineState {
        stack: st5.stack.drop_last().push(ValueModel::Num(num::neg_bits(st5.stack.last()->Num_0))),
        ..st5
    };
    assert(vm::exec_instrs(instrs, consts, st, 0) == vm::exec_instrs(s1, consts, st1, 2));
    assert(vm::exec_instrs(s1, consts, st1, 2) == vm::exec_instrs(s2, consts, st2, 4));
    assert(vm::exec_instrs(s2, consts, st2, 4) == vm::exec_instrs(s3, consts, st3, 5));
    assert(vm::exec_instrs(s3, consts, st3, 5) == vm::exec_instrs(s4, consts, st4, 7));
    assert(vm::exec_instrs(s4, consts, st4, 7) == vm::exec_arith(s5, consts, st4, 7, vm::ArithOp::Div));
    assert(vm::exec_arith(s5, consts, st4, 7, vm::ArithOp::Div) == vm::exec_instrs(s5, consts, st5, 8));
    assert(vm::exec_instrs(s5, consts, st5, 8) == vm::exec_instrs(s6, consts, st6, 9));
    assert(vm::exec_instrs(s6, consts, st6, 9) == (vm::RunOutcome::Done { st: st6 }));
}

} // verus!
