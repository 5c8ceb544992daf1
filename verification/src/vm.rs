//! The stack virtual machine: a fetch-decode-execute loop over a chunk,
//! a value stack, and a map of global variables.
//!
//! `exec_instrs` is the spec-level interpreter; `Vm::run` is proved to
//! return exactly its outcome.  Printed lines are collected in an output
//! buffer and error reports in a diagnostics buffer; the driver decides
//! where they go.

use crate::chunk::chunk_exec_wf;
use crate::chunk::code_operands_ok;
use crate::chunk::contains_return;
use crate::chunk::decode;
use crate::chunk::decode_head;
use crate::chunk::frag_safe;
use crate::chunk::instr_arity;
use crate::chunk::instr_net;
use crate::chunk::instr_size;
use crate::chunk::net_sum;
use crate::chunk::opcode_from_byte;
use crate::chunk::Chunk;
use crate::chunk::ChunkModel;
use crate::chunk::Instr;
use crate::chunk::OpCode;
use crate::debug::spec_get_line;
use crate::num;
use crate::value::display_value;
use crate::value::eq_value;
use crate::value::not_value;
use crate::value::truthy;
use crate::value::Value;
use crate::value::ValueModel;
use vstd::prelude::*;

verus! {

#[derive(Debug, PartialEq)]
pub enum InterpretError {
    CompileError(&'static str),
    RuntimeError(&'static str),
    Ice(&'static str),
}

/// The ways execution can fault at runtime.
pub enum RunErrKind {
    /// A binary arithmetic or comparison operand was not a number.
    NotNumbers,
    /// The negation operand was not a number.
    NotNumber,
    /// A global was read or assigned before being defined.
    UndefinedVariable,
}

/// The message carried by the `RuntimeError` for each fault.
pub open spec fn runtime_msg(kind: RunErrKind) -> Seq<char> {
    match kind {
        RunErrKind::NotNumbers => "Both operands must be numbers"@,
        RunErrKind::NotNumber => "Operand must be a number."@,
        RunErrKind::UndefinedVariable => "Undefined variable."@,
    }
}

/// Abstract machine state: the value stack, the global bindings, and
/// the lines printed so far.
pub struct MachineState {
    pub stack: Seq<ValueModel>,
    pub globals: Map<Seq<char>, ValueModel>,
    pub output: Seq<Seq<char>>,
}

/// The outcome of running a chunk: a normal halt at `Return`, or a
/// runtime fault.  A fault records the state at the fault and the code
/// offset of the faulting instruction.
pub enum RunOutcome {
    Done { st: MachineState },
    Fail { kind: RunErrKind, offset: nat, st: MachineState },
}

/// One push.
pub open spec fn st_push(st: MachineState, v: ValueModel) -> MachineState {
    MachineState { stack: st.stack.push(v), ..st }
}

/// The spec interpreter: executes a decoded instruction sequence on a
/// state, with `off` the code offset of the first instruction.  The
/// well-formedness conditions of `chunk_exec_wf` keep it from running
/// off the end or under the stack.
pub open spec fn exec_instrs(
    instrs: Seq<Instr>,
    consts: Seq<ValueModel>,
    st: MachineState,
    off: nat,
) -> RunOutcome
    decreases instrs.len(), 0int,
{
    if instrs.len() == 0 {
        RunOutcome::Done { st }
    } else {
        let i = instrs[0];
        let rest = instrs.skip(1);
        let off2 = off + instr_size(i);
        match i {
            Instr::Constant { id, .. } => exec_instrs(
                rest,
                consts,
                st_push(st, consts[id as int]),
                off2,
            ),
            Instr::Nil => exec_instrs(rest, consts, st_push(st, ValueModel::Nil), off2),
            Instr::True => exec_instrs(rest, consts, st_push(st, ValueModel::Bool(true)), off2),
            Instr::False => exec_instrs(rest, consts, st_push(st, ValueModel::Bool(false)), off2),
            Instr::Pop => exec_instrs(
                rest,
                consts,
                MachineState { stack: st.stack.drop_last(), ..st },
                off2,
            ),
            Instr::GetGlobal { id, .. } => {
                let name = consts[id as int]->Str_0;
                if st.globals.contains_key(name) {
                    exec_instrs(rest, consts, st_push(st, st.globals[name]), off2)
                } else {
                    RunOutcome::Fail { kind: RunErrKind::UndefinedVariable, offset: off, st }
                }
            },
            Instr::DefineGlobal { id, .. } => {
                let name = consts[id as int]->Str_0;
                exec_instrs(
                    rest,
                    consts,
                    MachineState {
                        stack: st.stack.drop_last(),
                        globals: st.globals.insert(name, st.stack.last()),
                        ..st
                    },
                    off2,
                )
            },
            Instr::SetGlobal { id, .. } => {
                let name = consts[id as int]->Str_0;
                if st.globals.contains_key(name) {
                    exec_instrs(
                        rest,
                        consts,
                        MachineState { globals: st.globals.insert(name, st.stack.last()), ..st },
                        off2,
                    )
                } else {
                    RunOutcome::Fail { kind: RunErrKind::UndefinedVariable, offset: off, st }
                }
            },
            Instr::Equal => {
                let a = st.stack[st.stack.len() - 2];
                let b = st.stack.last();
                exec_instrs(
                    rest,
                    consts,
                    MachineState {
                        stack: st.stack.drop_last().drop_last().push(
                            ValueModel::Bool(eq_value(a, b)),
                        ),
                        ..st
                    },
                    off2,
                )
            },
            Instr::Greater => exec_cmp(rest, consts, st, off, true),
            Instr::Less => exec_cmp(rest, consts, st, off, false),
            Instr::Add => {
                let a = st.stack[st.stack.len() - 2];
                let b = st.stack.last();
                if a is Str && b is Str {
                    exec_instrs(
                        rest,
                        consts,
                        MachineState {
                            stack: st.stack.drop_last().drop_last().push(
                                ValueModel::Str(a->Str_0 + b->Str_0),
                            ),
                            ..st
                        },
                        off2,
                    )
                } else if a is Num && b is Num {
                    exec_instrs(
                        rest,
                        consts,
                        MachineState {
                            stack: st.stack.drop_last().drop_last().push(
                                ValueModel::Num(num::add_bits(a->Num_0, b->Num_0)),
                            ),
                            ..st
                        },
                        off2,
                    )
                } else {
                    RunOutcome::Fail { kind: RunErrKind::NotNumbers, offset: off, st }
                }
            },
            Instr::Subtract => exec_arith(rest, consts, st, off, ArithOp::Sub),
            Instr::Multiply => exec_arith(rest, consts, st, off, ArithOp::Mul),
            Instr::Divide => exec_arith(rest, consts, st, off, ArithOp::Div),
            Instr::Remainder => exec_arith(rest, consts, st, off, ArithOp::Rem),
            Instr::Not => {
                let v = st.stack.last();
                exec_instrs(
                    rest,
                    consts,
                    MachineState { stack: st.stack.drop_last().push(not_value(v)), ..st },
                    off2,
                )
            },
            Instr::Negate => {
                let v = st.stack.last();
                if v is Num {
                    exec_instrs(
                        rest,
                        consts,
                        MachineState {
                            stack: st.stack.drop_last().push(
                                ValueModel::Num(num::neg_bits(v->Num_0)),
                            ),
                            ..st
                        },
                        off2,
                    )
                } else {
                    RunOutcome::Fail { kind: RunErrKind::NotNumber, offset: off, st }
                }
            },
            Instr::Print => {
                let v = st.stack.last();
                exec_instrs(
                    rest,
                    consts,
                    MachineState {
                        stack: st.stack.drop_last(),
                        output: st.output.push(display_value(v)),
                        ..st
                    },
                    off2,
                )
            },
            Instr::Return => RunOutcome::Done { st },
        }
    }
}

/// The arithmetic instructions that require two numbers.
pub enum ArithOp {
    Add,
    Sub,
    Mul,
    Div,
    Rem,
}

/// The named rustc_apfloat result for each arithmetic instruction.
pub open spec fn arith_bits(op: ArithOp, a: u64, b: u64) -> u64 {
    match op {
        ArithOp::Add => num::add_bits(a, b),
        ArithOp::Sub => num::sub_bits(a, b),
        ArithOp::Mul => num::mul_bits(a, b),
        ArithOp::Div => num::div_bits(a, b),
        ArithOp::Rem => num::rem_bits(a, b),
    }
}

/// Shared spec of `Subtract`/`Multiply`/`Divide`/`Remainder`, one byte
/// each and starting at `off`.
pub open spec fn exec_arith(
    rest: Seq<Instr>,
    consts: Seq<ValueModel>,
    st: MachineState,
    off: nat,
    op: ArithOp,
) -> RunOutcome
    decreases rest.len(), 1int,
{
    let a = st.stack[st.stack.len() - 2];
    let b = st.stack.last();
    if a is Num && b is Num {
        exec_instrs(
            rest,
            consts,
            MachineState {
                stack: st.stack.drop_last().drop_last().push(
                    ValueModel::Num(arith_bits(op, a->Num_0, b->Num_0)),
                ),
                ..st
            },
            off + 1,
        )
    } else {
        RunOutcome::Fail { kind: RunErrKind::NotNumbers, offset: off, st }
    }
}

/// Shared spec of `Greater` and `Less`, one byte each and starting at
/// `off`.
pub open spec fn exec_cmp(
    rest: Seq<Instr>,
    consts: Seq<ValueModel>,
    st: MachineState,
    off: nat,
    greater: bool,
) -> RunOutcome
    decreases rest.len(), 1int,
{
    let a = st.stack[st.stack.len() - 2];
    let b = st.stack.last();
    if a is Num && b is Num {
        let r = if greater {
            num::ieee_gt(a->Num_0, b->Num_0)
        } else {
            num::ieee_lt(a->Num_0, b->Num_0)
        };
        exec_instrs(
            rest,
            consts,
            MachineState {
                stack: st.stack.drop_last().drop_last().push(ValueModel::Bool(r)),
                ..st
            },
            off + 1,
        )
    } else {
        RunOutcome::Fail { kind: RunErrKind::NotNumbers, offset: off, st }
    }
}

/// The stderr line reported for a runtime fault whose instruction
/// starts at `off`.
pub open spec fn runtime_report(lines: Seq<(usize, usize)>, off: nat) -> Seq<char> {
    "[line "@ + num::dec_digits(spec_get_line(lines, off as int) as nat) + "] in script"@
}

} // verus!

verus! {

/// The global bindings: an association vector with pairwise distinct
/// names, viewed as a map from name characters to values.
struct Globals {
    entries: Vec<(String, Value)>,
}

/// The map an entry sequence denotes.
pub open spec fn entries_map(entries: Seq<(String, Value)>) -> Map<Seq<char>, ValueModel>
    decreases entries.len(),
{
    if entries.len() == 0 {
        Map::empty()
    } else {
        entries_map(entries.drop_last()).insert(entries.last().0@, entries.last().1@)
    }
}

impl View for Globals {
    type V = Map<Seq<char>, ValueModel>;

    closed spec fn view(&self) -> Map<Seq<char>, ValueModel> {
        entries_map(self.entries@)
    }
}

/// Updating the last binding of a name rebinds it in the map.
proof fn lemma_entries_map_update(entries: Seq<(String, Value)>, i: int, p: (String, Value))
    requires
        0 <= i < entries.len(),
        entries[i].0@ == p.0@,
        forall|j: int| i < j < entries.len() ==> (#[trigger] entries[j]).0@ != p.0@,
    ensures
        entries_map(entries.update(i, p)) == entries_map(entries).insert(p.0@, p.1@),
    decreases entries.len(),
{
    let e2 = entries.update(i, p);
    if i == entries.len() - 1 {
        assert(e2.drop_last() =~= entries.drop_last());
        assert(e2.last() == p);
        assert(entries_map(entries).insert(p.0@, p.1@) =~= entries_map(
            entries.drop_last(),
        ).insert(p.0@, p.1@));
    } else {
        assert(e2.drop_last() =~= entries.drop_last().update(i, p));
        assert(e2.last() == entries.last());
        assert(forall|j: int|
            i < j < entries.drop_last().len() ==> (#[trigger] entries.drop_last()[j]).0@
                != p.0@) by {
            assert(forall|j: int|
                i < j < entries.len() - 1 ==> entries.drop_last()[j] == entries[j]);
        }
        lemma_entries_map_update(entries.drop_last(), i, p);
        assert(entries.last().0@ != p.0@);
        assert(entries_map(entries.drop_last()).insert(p.0@, p.1@).insert(
            entries.last().0@,
            entries.last().1@,
        ) =~= entries_map(entries.drop_last()).insert(entries.last().0@, entries.last().1@).insert(
            p.0@,
            p.1@,
        ));
    }
}

impl Globals {
    /// Names are pairwise distinct.
    closed spec fn wf(&self) -> bool {
        forall|i: int, j: int|
            0 <= i < j < self.entries@.len() ==> (#[trigger] self.entries@[i]).0@ != (
            #[trigger] self.entries@[j]).0@
    }

    fn new() -> (r: Globals)
        ensures
            r.wf(),
            r@ == Map::<Seq<char>, ValueModel>::empty(),
    {
        Globals { entries: Vec::new() }
    }

    /// The value bound to a name, if any.
    fn get(&self, name: &String) -> (r: Option<&Value>)
        ensures
            match r {
                Some(v) => self@.contains_key(name@) && v@ == self@[name@],
                None => !self@.contains_key(name@),
            },
    {
        let mut i = self.entries.len();
        proof {
            assert(self.entries@.take(i as int) =~= self.entries@);
        }
        loop
            invariant
                i <= self.entries@.len(),
                self@.contains_key(name@) == entries_map(self.entries@.take(i as int)).contains_key(
                    name@,
                ),
                self@.contains_key(name@) ==> self@[name@] == entries_map(
                    self.entries@.take(i as int),
                )[name@],
            decreases i,
        {
            if i == 0 {
                proof {
                    assert(self.entries@.take(0) =~= Seq::<(String, Value)>::empty());
                    assert(!entries_map(Seq::<(String, Value)>::empty()).contains_key(name@));
                }
                return None;
            }
            i = i - 1;
            proof {
                assert(self.entries@.take(i as int + 1).drop_last() =~= self.entries@.take(
                    i as int,
                ));
                assert(self.entries@.take(i as int + 1).last() == self.entries@[i as int]);
            }
            if self.entries[i].0 == *name {
                return Some(&self.entries[i].1);
            }
        }
    }

    /// Whether a name is bound.
    fn contains(&self, name: &String) -> (r: bool)
        ensures
            r == self@.contains_key(name@),
    {
        match self.get(name) {
            Some(_) => true,
            None => false,
        }
    }

    /// Binds a name, overwriting silently.
    fn insert(&mut self, name: String, v: Value)
        requires
            old(self).wf(),
        ensures
            final(self).wf(),
            final(self)@ == old(self)@.insert(name@, v@),
    {
        let mut i: usize = 0;
        loop
            invariant
                i <= self.entries@.len(),
                self == old(self),
                self.wf(),
                forall|j: int| 0 <= j < i ==> (#[trigger] self.entries@[j]).0@ != name@,
            ensures
                self == old(self),
                forall|j: int|
                    0 <= j < self.entries@.len() ==> (#[trigger] self.entries@[j]).0@ != name@,
            decreases self.entries@.len() - i,
        {
            if i == self.entries.len() {
                break;
            }
            if self.entries[i].0 == name {
                let ghost e0 = self.entries@;
                self.entries[i] = (name, v);
                proof {
                    assert(self.entries@ == e0.update(i as int, (name, v)));
                    assert(forall|j: int|
                        i < j < e0.len() ==> (#[trigger] e0[j]).0@ != e0[i as int].0@);
                    lemma_entries_map_update(e0, i as int, (name, v));
                    assert(forall|k: int|
                        0 <= k < self.entries@.len() ==> (#[trigger] self.entries@[k]).0@
                            == e0[k].0@);
                }
                return ;
            }
            i = i + 1;
        }
        let ghost e0 = self.entries@;
        self.entries.push((name, v));
        proof {
            assert(self.entries@.drop_last() =~= e0);
        }
    }
}

} // verus!

verus! {

/// Initial capacity reserved for the value stack.
const STACK_MAX: usize = 256;

pub struct Vm {
    chunk: Box<Chunk>,
    ip: usize,
    stack: Vec<Value>,
    globals: Globals,
    output: Vec<String>,
    diagnostics: Vec<String>,
}

impl Vm {
    /// The chunk being executed.
    pub closed spec fn chunk_model(&self) -> ChunkModel {
        self.chunk@
    }

    /// The instruction pointer, a byte offset into the code.
    pub closed spec fn spec_ip(&self) -> usize {
        self.ip
    }

    /// The abstract machine state.
    pub closed spec fn st(&self) -> MachineState {
        MachineState {
            stack: Seq::new(self.stack@.len() as nat, |i: int| self.stack@[i]@),
            globals: self.globals@,
            output: Seq::new(self.output@.len() as nat, |i: int| self.output@[i]@),
        }
    }

    /// The error reports collected so far.
    pub closed spec fn diags(&self) -> Seq<Seq<char>> {
        Seq::new(self.diagnostics@.len() as nat, |i: int| self.diagnostics@[i]@)
    }

    /// Internal consistency of the globals table.
    pub closed spec fn wf(&self) -> bool {
        self.globals.wf()
    }

    /// The code bytes from the instruction pointer on.
    pub open spec fn rem_code(&self) -> Seq<u8> {
        self.chunk_model().code.skip(self.spec_ip() as int)
    }

    /// The instructions still to run.
    pub open spec fn rem_instrs(&self) -> Seq<Instr> {
        decode(self.rem_code())->Some_0
    }

    /// What `run` requires: decodable remaining code with valid
    /// operands, a `Return` to halt on, and stack-safe instructions.
    pub open spec fn run_ready(&self) -> bool {
        &&& self.spec_ip() <= self.chunk_model().code.len()
        &&& chunk_exec_wf(
            self.rem_code(),
            self.chunk_model().constants,
            self.st().stack.len() as int,
        )
    }

    pub fn new(chunk: Box<Chunk>) -> (vm: Vm)
        ensures
            vm.chunk_model() == chunk@,
            vm.spec_ip() == 0,
            vm.st().stack == Seq::<ValueModel>::empty(),
            vm.st().globals == Map::<Seq<char>, ValueModel>::empty(),
            vm.st().output == Seq::<Seq<char>>::empty(),
            vm.diags() == Seq::<Seq<char>>::empty(),
            vm.wf(),
    {
        let vm = Vm {
            chunk,
            ip: 0,
            stack: Vec::with_capacity(STACK_MAX),
            globals: Globals::new(),
            output: Vec::new(),
            diagnostics: Vec::new(),
        };
        proof {
            assert(vm.st().stack =~= Seq::<ValueModel>::empty());
            assert(vm.st().output =~= Seq::<Seq<char>>::empty());
            assert(vm.diags() =~= Seq::<Seq<char>>::empty());
        }
        vm
    }

    /// The lines printed so far.
    pub fn output(&self) -> (r: &Vec<String>)
        ensures
            r@.len() == self.st().output.len(),
            forall|i: int| 0 <= i < r@.len() ==> (#[trigger] r@[i])@ == self.st().output[i],
    {
        &self.output
    }

    /// The error reports collected so far.
    pub fn diagnostics(&self) -> (r: &Vec<String>)
        ensures
            r@.len() == self.diags().len(),
            forall|i: int| 0 <= i < r@.len() ==> (#[trigger] r@[i])@ == self.diags()[i],
    {
        &self.diagnostics
    }

    fn push(&mut self, value: Value)
        ensures
            final(self).st() == (MachineState {
                stack: old(self).st().stack.push(value@),
                ..old(self).st()
            }),
            final(self).chunk == old(self).chunk,
            final(self).ip == old(self).ip,
            final(self).globals == old(self).globals,
            final(self).diagnostics == old(self).diagnostics,
    {
        self.stack.push(value);
        proof {
            assert(final(self).st().stack =~= old(self).st().stack.push(value@));
        }
    }

    fn push_output(&mut self, s: String)
        ensures
            final(self).st() == (MachineState {
                output: old(self).st().output.push(s@),
                ..old(self).st()
            }),
            final(self).chunk == old(self).chunk,
            final(self).ip == old(self).ip,
            final(self).globals == old(self).globals,
            final(self).diagnostics == old(self).diagnostics,
    {
        self.output.push(s);
        proof {
            assert(final(self).st().output =~= old(self).st().output.push(s@));
            assert(final(self).st().stack =~= old(self).st().stack);
        }
    }

    fn pop(&mut self) -> (r: Result<Value, InterpretError>)
        ensures
            ({
                let s0 = old(self).st();
                &&& (s0.stack.len() > 0 ==> (r matches Ok(v) && v@ == s0.stack.last() && final(
                    self
                    ).st() == (MachineState { stack: s0.stack.drop_last(), ..s0 })))
                &&& (s0.stack.len() == 0 ==> (r matches Err(InterpretError::Ice(_)) && final(
                    self
                    ).st() == s0))
            }),
            final(self).chunk == old(self).chunk,
            final(self).ip == old(self).ip,
            final(self).globals == old(self).globals,
            final(self).diagnostics == old(self).diagnostics,
    {
        match self.stack.pop() {
            Some(v) => {
                proof {
                    assert(final(self).st().stack =~= old(self).st().stack.drop_last());
                    assert(final(self).st().output =~= old(self).st().output);
                }
                Ok(v)
            },
            None => Err(InterpretError::Ice("Popped Empty Stack")),
        }
    }

    fn peek(&self, depth: usize) -> (v: &Value)
        requires
            depth < self.st().stack.len(),
        ensures
            v@ == self.st().stack[self.st().stack.len() - depth - 1],
    {
        &self.stack[self.stack.len() - depth - 1]
    }

    fn reset_stack(&mut self)
        ensures
            final(self).st() == (MachineState {
                stack: Seq::<ValueModel>::empty(),
                ..old(self).st()
            }),
            final(self).chunk == old(self).chunk,
            final(self).ip == old(self).ip,
            final(self).globals == old(self).globals,
            final(self).diagnostics == old(self).diagnostics,
    {
        self.stack.clear();
        proof {
            assert(final(self).st().stack =~= Seq::<ValueModel>::empty());
            assert(final(self).st().output =~= old(self).st().output);
        }
    }

    fn read_byte(&mut self) -> (b: u8)
        requires
            old(self).spec_ip() < old(self).chunk_model().code.len(),
        ensures
            b == old(self).chunk_model().code[old(self).spec_ip() as int],
            final(self).ip == old(self).ip + 1,
            final(self).chunk == old(self).chunk,
            final(self).st() == old(self).st(),
            final(self).globals == old(self).globals,
            final(self).diagnostics == old(self).diagnostics,
    {
        let byte = self.chunk.read(self.ip);
        self.ip = self.ip + 1;
        byte
    }

    /// Reads a three-byte big-endian constant id.
    fn read_u24(&mut self) -> (id: u32)
        requires
            old(self).spec_ip() + 3 <= old(self).chunk_model().code.len(),
        ensures
            id == crate::chunk::be24(
                old(self).chunk_model().code[old(self).spec_ip() as int],
                old(self).chunk_model().code[old(self).spec_ip() + 1],
                old(self).chunk_model().code[old(self).spec_ip() + 2],
            ),
            final(self).ip == old(self).ip + 3,
            final(self).chunk == old(self).chunk,
            final(self).st() == old(self).st(),
            final(self).globals == old(self).globals,
            final(self).diagnostics == old(self).diagnostics,
    {
        let b0 = self.read_byte();
        let b1 = self.read_byte();
        let b2 = self.read_byte();
        ((b0 as u32) << 16) | ((b1 as u32) << 8) | (b2 as u32)
    }

    /// Reports a runtime fault: records `[line N] in script` for the
    /// instruction that starts at offset `at`, and resets the stack.
    fn report_runtime_error(&mut self, message: &'static str, at: usize) -> (e: InterpretError)
        ensures
            e == InterpretError::RuntimeError(message),
            final(self).st() == (MachineState {
                stack: Seq::<ValueModel>::empty(),
                ..old(self).st()
            }),
            final(self).diags() == old(self).diags().push(
                runtime_report(old(self).chunk_model().lines, at as nat),
            ),
            final(self).chunk == old(self).chunk,
            final(self).ip == old(self).ip,
            final(self).globals == old(self).globals,
    {
        let line = self.chunk.get_line(at);
        let mut msg = String::from_str("[line ");
        let digits = num::u64_to_dec(line as u64);
        msg.append(digits.as_str());
        msg.append("] in script");
        proof {
            assert(msg@ =~= runtime_report(self.chunk_model().lines, at as nat));
        }
        self.diagnostics.push(msg);
        self.reset_stack();
        proof {
            assert(final(self).diags() =~= old(self).diags().push(
                runtime_report(old(self).chunk_model().lines, at as nat),
            ));
        }
        InterpretError::RuntimeError(message)
    }
}

} // verus!

verus! {

/// After one non-`Return` instruction, the remaining instructions keep
/// valid operands and still contain a `Return`.
proof fn lemma_step_facts(instrs: Seq<Instr>, consts: Seq<ValueModel>)
    requires
        instrs.len() > 0,
        code_operands_ok(instrs, consts),
        contains_return(instrs),
        !(instrs[0] is Return),
    ensures
        code_operands_ok(instrs.skip(1), consts),
        contains_return(instrs.skip(1)),
{
    assert forall|k: int| 0 <= k < instrs.skip(1).len() implies crate::chunk::instr_operands_ok(
        #[trigger] instrs.skip(1)[k],
        consts,
    ) by {
        assert(instrs.skip(1)[k] == instrs[k + 1]);
        assert(crate::chunk::instr_operands_ok(instrs[k + 1], consts));
    }
    let k = choose|k: int| 0 <= k < instrs.len() && instrs[k] is Return;
    assert(instrs.skip(1)[k - 1] == instrs[k]);
    assert(contains_return(instrs.skip(1)));
}

/// Relates one decoded instruction at offset `ip` to the suffix after
/// it.
proof fn lemma_decode_step(code: Seq<u8>, ip: int, i: Instr)
    requires
        0 <= ip <= code.len(),
        decode(code.skip(ip)) is Some,
        decode(code.skip(ip))->Some_0.len() > 0,
        decode(code.skip(ip))->Some_0[0] == i,
    ensures
        code.skip(ip).len() > 0,
        decode_head(code.skip(ip)) == Some(i),
        ip + instr_size(i) <= code.len(),
        decode(code.skip(ip + instr_size(i))) == Some(decode(code.skip(ip))->Some_0.skip(1)),
{
    let suf = code.skip(ip);
    if suf.len() == 0 {
        assert(decode(suf)->Some_0.len() == 0);
    }
    assert(suf.len() > 0);
    let hd = decode_head(suf)->Some_0;
    let rest = decode(suf.skip(instr_size(hd) as int))->Some_0;
    assert(decode(suf)->Some_0 == seq![hd] + rest);
    assert((seq![hd] + rest)[0] == hd);
    assert(hd == i);
    assert(code.skip(ip + instr_size(i)) =~= suf.skip(instr_size(i) as int));
    assert((seq![hd] + rest).skip(1) =~= rest);
}

impl Vm {
    /// Pops two numbers and pushes the arithmetic result; faults when
    /// an operand is not a number.
    fn binary(&mut self, op: ArithOp) -> (r: Result<(), InterpretError>)
        requires
            old(self).st().stack.len() >= 2,
            old(self).spec_ip() >= 1,
        ensures
            final(self).chunk == old(self).chunk,
            final(self).ip == old(self).ip,
            final(self).globals == old(self).globals,
            ({
                let s0 = old(self).st();
                let a = s0.stack[s0.stack.len() - 2];
                let b = s0.stack.last();
                if a is Num && b is Num {
                    &&& r is Ok
                    &&& final(self).st() == (MachineState {
                        stack: s0.stack.drop_last().drop_last().push(
                            ValueModel::Num(arith_bits(op, a->Num_0, b->Num_0)),
                        ),
                        ..s0
                    })
                    &&& final(self).diagnostics == old(self).diagnostics
                } else {
                    &&& (r matches Err(e) && e matches InterpretError::RuntimeError(m) && m@
                        == runtime_msg(RunErrKind::NotNumbers))
                    &&& final(self).st() == (MachineState { stack: Seq::<ValueModel>::empty(), ..s0 })
                    &&& final(self).diags() == old(self).diags().push(
                        runtime_report(old(self).chunk_model().lines, (old(self).spec_ip() - 1) as nat),
                    )
                }
            }),
    {
        let ok = match self.peek(0) {
            Value::Number(_) => match self.peek(1) {
                Value::Number(_) => true,
                _ => false,
            },
            _ => false,
        };
        if ok {
            let bv = self.pop()?;
            let av = self.pop()?;
            let b = bv.as_number()?;
            let a = av.as_number()?;
            let bits = match op {
                ArithOp::Add => num::num_add(a, b),
                ArithOp::Sub => num::num_sub(a, b),
                ArithOp::Mul => num::num_mul(a, b),
                ArithOp::Div => num::num_div(a, b),
                ArithOp::Rem => num::num_rem(a, b),
            };
            self.push(Value::Number(bits));
            Ok(())
        } else {
            let e = self.report_runtime_error("Both operands must be numbers", self.ip - 1);
            Err(e)
        }
    }

    /// Pops two numbers and pushes the comparison result; faults when
    /// an operand is not a number.
    fn binary_cmp(&mut self, greater: bool) -> (r: Result<(), InterpretError>)
        requires
            old(self).st().stack.len() >= 2,
            old(self).spec_ip() >= 1,
        ensures
            final(self).chunk == old(self).chunk,
            final(self).ip == old(self).ip,
            final(self).globals == old(self).globals,
            ({
                let s0 = old(self).st();
                let a = s0.stack[s0.stack.len() - 2];
                let b = s0.stack.last();
                if a is Num && b is Num {
                    &&& r is Ok
                    &&& final(self).st() == (MachineState {
                        stack: s0.stack.drop_last().drop_last().push(
                            ValueModel::Bool(
                                if greater {
                                    num::ieee_gt(a->Num_0, b->Num_0)
                                } else {
                                    num::ieee_lt(a->Num_0, b->Num_0)
                                },
                            ),
                        ),
                        ..s0
                    })
                    &&& final(self).diagnostics == old(self).diagnostics
                } else {
                    &&& (r matches Err(e) && e matches InterpretError::RuntimeError(m) && m@
                        == runtime_msg(RunErrKind::NotNumbers))
                    &&& final(self).st() == (MachineState { stack: Seq::<ValueModel>::empty(), ..s0 })
                    &&& final(self).diags() == old(self).diags().push(
                        runtime_report(old(self).chunk_model().lines, (old(self).spec_ip() - 1) as nat),
                    )
                }
            }),
    {
        let ok = match self.peek(0) {
            Value::Number(_) => match self.peek(1) {
                Value::Number(_) => true,
                _ => false,
            },
            _ => false,
        };
        if ok {
            let bv = self.pop()?;
            let av = self.pop()?;
            let b = bv.as_number()?;
            let a = av.as_number()?;
            let res = if greater {
                num::num_gt(a, b)
            } else {
                num::num_lt(a, b)
            };
            self.push(Value::Boolean(res));
            Ok(())
        } else {
            let e = self.report_runtime_error("Both operands must be numbers", self.ip - 1);
            Err(e)
        }
    }

    /// Pops two strings and pushes their concatenation as a fresh
    /// object.
    fn concatenate(&mut self) -> (r: Result<(), InterpretError>)
        requires
            old(self).st().stack.len() >= 2,
            old(self).st().stack.last() is Str,
            old(self).st().stack[old(self).st().stack.len() - 2] is Str,
        ensures
            r is Ok,
            final(self).chunk == old(self).chunk,
            final(self).ip == old(self).ip,
            final(self).globals == old(self).globals,
            final(self).diagnostics == old(self).diagnostics,
            ({
                let s0 = old(self).st();
                let a = s0.stack[s0.stack.len() - 2];
                let b = s0.stack.last();
                final(self).st() == (MachineState {
                    stack: s0.stack.drop_last().drop_last().push(
                        ValueModel::Str(a->Str_0 + b->Str_0),
                    ),
                    ..s0
                })
            }),
    {
        let bv = self.pop()?;
        let av = self.pop()?;
        let sb = match bv.string_value() {
            Some(s) => s,
            None => {
                return Err(InterpretError::Ice("Not a string"));
            },
        };
        let sa = match av.string_value() {
            Some(s) => s,
            None => {
                return Err(InterpretError::Ice("Not a string"));
            },
        };
        let s = sa.concat(sb.as_str());
        self.push(Value::of_string(s));
        Ok(())
    }
}

} // verus!

verus! {

impl Vm {
    /// The fetch-decode-execute loop.  Returns exactly the outcome of
    /// the spec interpreter on the remaining code: `Ok` when a `Return`
    /// halts it, the reported runtime error otherwise.
    #[verifier::rlimit(100)]
    pub fn run(&mut self) -> (r: Result<(), InterpretError>)
        requires
            old(self).run_ready(),
            old(self).wf(),
        ensures
            final(self).chunk_model() == old(self).chunk_model(),
            final(self).wf(),
            ({
                let out = exec_instrs(
                    old(self).rem_instrs(),
                    old(self).chunk_model().constants,
                    old(self).st(),
                    old(self).spec_ip() as nat,
                );
                match out {
                    RunOutcome::Done { st } => r is Ok && final(self).st() == st && final(
                        self
                        ).diags() == old(self).diags(),
                    RunOutcome::Fail { kind, offset, st } => {
                        &&& (r matches Err(e) && e matches InterpretError::RuntimeError(m) && m@
                            == runtime_msg(kind))
                        &&& final(self).st() == (MachineState {
                            stack: Seq::<ValueModel>::empty(),
                            ..st
                        })
                        &&& final(self).diags() == old(self).diags().push(
                            runtime_report(old(self).chunk_model().lines, offset),
                        )
                    },
                }
            }),
    {
        let ghost answer = exec_instrs(
            old(self).rem_instrs(),
            old(self).chunk_model().constants,
            old(self).st(),
            old(self).spec_ip() as nat,
        );
        loop
            invariant
                self.wf(),
                self.chunk == old(self).chunk,
                self.diagnostics == old(self).diagnostics,
                self.spec_ip() <= self.chunk_model().code.len(),
                decode(self.rem_code()) is Some,
                code_operands_ok(self.rem_instrs(), self.chunk_model().constants),
                contains_return(self.rem_instrs()),
                frag_safe(self.rem_instrs(), self.st().stack.len() as int),
                exec_instrs(
                    self.rem_instrs(),
                    self.chunk_model().constants,
                    self.st(),
                    self.spec_ip() as nat,
                ) == answer,
                exec_instrs(
                    old(self).rem_instrs(),
                    old(self).chunk_model().constants,
                    old(self).st(),
                    old(self).spec_ip() as nat,
                ) == answer,
            decreases self.chunk_model().code.len() - self.spec_ip(),
        {
            let ghost rem = self.rem_instrs();
            let ghost c0 = self.chunk_model().code;
            let ghost consts = self.chunk_model().constants;
            let ghost ip0 = self.ip;
            let ghost st0 = self.st();
            proof {
                if rem.len() == 0 {
                    assert(!contains_return(rem));
                }
            }
            let ghost i = rem[0];
            proof {
                lemma_decode_step(c0, ip0 as int, i);
                if !(i is Return) {
                    lemma_step_facts(rem, consts);
                }
                assert(c0.skip(ip0 as int)[0] == c0[ip0 as int]);
                assert(instr_size(i) >= 2 ==> c0.skip(ip0 as int)[1] == c0[ip0 as int + 1]);
                assert(instr_size(i) >= 4 ==> c0.skip(ip0 as int)[2] == c0[ip0 as int + 2]
                    && c0.skip(ip0 as int)[3] == c0[ip0 as int + 3]);
            }
            let ip_start = self.ip;
            let instruction = self.read_byte();
            match opcode_from_byte(instruction) {
                Some(inst) => match inst {
                    OpCode::Constant => {
                        let cid = self.read_byte();
                        let id = cid as usize;
                        proof {
                            assert(i == (Instr::Constant { id: cid as u32, long: false }));
                            assert(crate::chunk::instr_operands_ok(i, consts));
                        }
                        let constant = self.chunk.get_constant(id);
                        let v = constant.clone();
                        self.push(v);
                        proof {
                            assert(self.rem_code() =~= c0.skip(ip0 + instr_size(i)));
                            assert(self.st() == st_push(st0, consts[id as int]));
                        }
                    },
                    OpCode::LongConstant => {
                        let cid = self.read_u24();
                        proof {
                            assert(i == (Instr::Constant { id: cid, long: true }));
                            assert(crate::chunk::instr_operands_ok(i, consts));
                            crate::chunk::lemma_be24_bound(
                                c0[ip0 as int + 1],
                                c0[ip0 as int + 2],
                                c0[ip0 as int + 3],
                            );
                        }
                        let id = cid as usize;
                        let constant = self.chunk.get_constant(id);
                        let v = constant.clone();
                        self.push(v);
                        proof {
                            assert(self.rem_code() =~= c0.skip(ip0 + instr_size(i)));
                            assert(self.st() == st_push(st0, consts[id as int]));
                        }
                    },
                    OpCode::Nil => {
                        self.push(Value::Nil);
                        proof {
                            assert(i == Instr::Nil);
                            assert(self.rem_code() =~= c0.skip(ip0 + instr_size(i)));
                        }
                    },
                    OpCode::True => {
                        self.push(Value::Boolean(true));
                        proof {
                            assert(i == Instr::True);
                            assert(self.rem_code() =~= c0.skip(ip0 + instr_size(i)));
                        }
                    },
                    OpCode::False => {
                        self.push(Value::Boolean(false));
                        proof {
                            assert(i == Instr::False);
                            assert(self.rem_code() =~= c0.skip(ip0 + instr_size(i)));
                        }
                    },
                    OpCode::Pop => {
                        proof {
                            assert(i == Instr::Pop);
                        }
                        self.pop()?;
                        proof {
                            assert(self.rem_code() =~= c0.skip(ip0 + instr_size(i)));
                        }
                    },
                    OpCode::GetGlobal | OpCode::GetLongGlobal => {
                        let id: usize = if matches!(inst, OpCode::GetGlobal) {
                            self.read_byte() as usize
                        } else {
                            let cid = self.read_u24();
                            proof {
                                crate::chunk::lemma_be24_bound(
                                    c0[ip0 as int + 1],
                                    c0[ip0 as int + 2],
                                    c0[ip0 as int + 3],
                                );
                            }
                            cid as usize
                        };
                        proof {
                            assert(i matches Instr::GetGlobal { id: iid, .. } && iid == id as u32);
                            assert(crate::chunk::instr_operands_ok(i, consts));
                        }
                        let constant = self.chunk.get_constant(id);
                        let name = match constant.string_value() {
                            Some(s) => s,
                            None => {
                                return Err(InterpretError::Ice("Not a string"));
                            },
                        };
                        match self.globals.get(&name) {
                            Some(value) => {
                                let v = value.clone();
                                self.push(v);
                                proof {
                                    assert(self.rem_code() =~= c0.skip(ip0 + instr_size(i)));
                                    assert(self.st() == st_push(st0, st0.globals[name@]));
                                }
                            },
                            None => {
                                proof {
                                    assert(answer == (RunOutcome::Fail {
                                        kind: RunErrKind::UndefinedVariable,
                                        offset: ip0 as nat,
                                        st: st0,
                                    }));
                                }
                                let e = self.report_runtime_error(
                                    "Undefined variable.",
                                    ip_start,
                                );
                                return Err(e);
                            },
                        }
                    },
                    OpCode::DefineGlobal | OpCode::DefineLongGlobal => {
                        let id: usize = if matches!(inst, OpCode::DefineGlobal) {
                            self.read_byte() as usize
                        } else {
                            let cid = self.read_u24();
                            proof {
                                crate::chunk::lemma_be24_bound(
                                    c0[ip0 as int + 1],
                                    c0[ip0 as int + 2],
                                    c0[ip0 as int + 3],
                                );
                            }
                            cid as usize
                        };
                        proof {
                            assert(i matches Instr::DefineGlobal { id: iid, .. } && iid == id
                                as u32);
                            assert(crate::chunk::instr_operands_ok(i, consts));
                        }
                        let constant = self.chunk.get_constant(id);
                        let name = match constant.string_value() {
                            Some(s) => s,
                            None => {
                                return Err(InterpretError::Ice("Not a string"));
                            },
                        };
                        let val = self.peek(0).clone();
                        self.globals.insert(name, val);
                        self.pop()?;
                        proof {
                            assert(self.rem_code() =~= c0.skip(ip0 + instr_size(i)));
                        }
                    },
                    OpCode::SetGlobal | OpCode::SetLongGlobal => {
                        let id: usize = if matches!(inst, OpCode::SetGlobal) {
                            self.read_byte() as usize
                        } else {
                            let cid = self.read_u24();
                            proof {
                                crate::chunk::lemma_be24_bound(
                                    c0[ip0 as int + 1],
                                    c0[ip0 as int + 2],
                                    c0[ip0 as int + 3],
                                );
                            }
                            cid as usize
                        };
                        proof {
                            assert(i matches Instr::SetGlobal { id: iid, .. } && iid == id as u32);
                            assert(crate::chunk::instr_operands_ok(i, consts));
                        }
                        let constant = self.chunk.get_constant(id);
                        let name = match constant.string_value() {
                            Some(s) => s,
                            None => {
                                return Err(InterpretError::Ice("Not a string"));
                            },
                        };
                        if self.globals.contains(&name) {
                            let val = self.peek(0).clone();
                            self.globals.insert(name, val);
                            proof {
                                assert(self.rem_code() =~= c0.skip(ip0 + instr_size(i)));
                            }
                        } else {
                            proof {
                                assert(answer == (RunOutcome::Fail {
                                    kind: RunErrKind::UndefinedVariable,
                                    offset: ip0 as nat,
                                    st: st0,
                                }));
                            }
                            let e = self.report_runtime_error("Undefined variable.", ip_start);
                            return Err(e);
                        }
                    },
                    OpCode::Equal => {
                        proof {
                            assert(i == Instr::Equal);
                        }
                        let b = self.pop()?;
                        let a = self.pop()?;
                        let eq = a.equals(&b);
                        self.push(Value::Boolean(eq));
                        proof {
                            assert(self.rem_code() =~= c0.skip(ip0 + instr_size(i)));
                        }
                    },
                    OpCode::Greater => {
                        proof {
                            assert(i == Instr::Greater);
                        }
                        proof {
                            assert(answer == exec_cmp(rem.skip(1), consts, st0, ip0 as nat, true));
                            if !(st0.stack[st0.stack.len() - 2] is Num && st0.stack.last()
                                is Num) {
                                assert(answer == (RunOutcome::Fail {
                                    kind: RunErrKind::NotNumbers,
                                    offset: ip0 as nat,
                                    st: st0,
                                }));
                            }
                        }
                        self.binary_cmp(true)?;
                        proof {
                            assert(self.rem_code() =~= c0.skip(ip0 + instr_size(i)));
                        }
                    },
                    OpCode::Less => {
                        proof {
                            assert(i == Instr::Less);
                        }
                        proof {
                            assert(answer == exec_cmp(
                                rem.skip(1),
                                consts,
                                st0,
                                ip0 as nat,
                                false,
                            ));
                            if !(st0.stack[st0.stack.len() - 2] is Num && st0.stack.last()
                                is Num) {
                                assert(answer == (RunOutcome::Fail {
                                    kind: RunErrKind::NotNumbers,
                                    offset: ip0 as nat,
                                    st: st0,
                                }));
                            }
                        }
                        self.binary_cmp(false)?;
                        proof {
                            assert(self.rem_code() =~= c0.skip(ip0 + instr_size(i)));
                        }
                    },
                    OpCode::Add => {
                        proof {
                            assert(i == Instr::Add);
                        }
                        let both_str = self.peek(0).is_string() && self.peek(1).is_string();
                        if both_str {
                            self.concatenate()?;
                            proof {
                                assert(self.rem_code() =~= c0.skip(ip0 + instr_size(i)));
                            }
                        } else {
                        proof {
                            if !(st0.stack[st0.stack.len() - 2] is Num && st0.stack.last()
                                is Num) {
                                assert(answer == (RunOutcome::Fail {
                                    kind: RunErrKind::NotNumbers,
                                    offset: ip0 as nat,
                                    st: st0,
                                }));
                            }
                        }
                            self.binary(ArithOp::Add)?;
                            proof {
                                assert(self.rem_code() =~= c0.skip(ip0 + instr_size(i)));
                            }
                        }
                    },
                    OpCode::Subtract => {
                        proof {
                            assert(i == Instr::Subtract);
                        }
                        proof {
                            assert(answer == exec_arith(
                                rem.skip(1),
                                consts,
                                st0,
                                ip0 as nat,
                                ArithOp::Sub,
                            ));
                            if !(st0.stack[st0.stack.len() - 2] is Num && st0.stack.last()
                                is Num) {
                                assert(answer == (RunOutcome::Fail {
                                    kind: RunErrKind::NotNumbers,
                                    offset: ip0 as nat,
                                    st: st0,
                                }));
                            }
                        }
                        self.binary(ArithOp::Sub)?;
                        proof {
                            assert(self.rem_code() =~= c0.skip(ip0 + instr_size(i)));
                        }
                    },
                    OpCode::Multiply => {
                        proof {
                            assert(i == Instr::Multiply);
                        }
                        proof {
                            assert(answer == exec_arith(
                                rem.skip(1),
                                consts,
                                st0,
                                ip0 as nat,
                                ArithOp::Mul,
                            ));
                            if !(st0.stack[st0.stack.len() - 2] is Num && st0.stack.last()
                                is Num) {
                                assert(answer == (RunOutcome::Fail {
                                    kind: RunErrKind::NotNumbers,
                                    offset: ip0 as nat,
                                    st: st0,
                                }));
                            }
                        }
                        self.binary(ArithOp::Mul)?;
                        proof {
                            assert(self.rem_code() =~= c0.skip(ip0 + instr_size(i)));
                        }
                    },
                    OpCode::Divide => {
                        proof {
                            assert(i == Instr::Divide);
                        }
                        proof {
                            assert(answer == exec_arith(
                                rem.skip(1),
                                consts,
                                st0,
                                ip0 as nat,
                                ArithOp::Div,
                            ));
                            if !(st0.stack[st0.stack.len() - 2] is Num && st0.stack.last()
                                is Num) {
                                assert(answer == (RunOutcome::Fail {
                                    kind: RunErrKind::NotNumbers,
                                    offset: ip0 as nat,
                                    st: st0,
                                }));
                            }
                        }
                        self.binary(ArithOp::Div)?;
                        proof {
                            assert(self.rem_code() =~= c0.skip(ip0 + instr_size(i)));
                        }
                    },
                    OpCode::Remainder => {
                        proof {
                            assert(i == Instr::Remainder);
                        }
                        proof {
                            assert(answer == exec_arith(
                                rem.skip(1),
                                consts,
                                st0,
                                ip0 as nat,
                                ArithOp::Rem,
                            ));
                            if !(st0.stack[st0.stack.len() - 2] is Num && st0.stack.last()
                                is Num) {
                                assert(answer == (RunOutcome::Fail {
                                    kind: RunErrKind::NotNumbers,
                                    offset: ip0 as nat,
                                    st: st0,
                                }));
                            }
                        }
                        self.binary(ArithOp::Rem)?;
                        proof {
                            assert(self.rem_code() =~= c0.skip(ip0 + instr_size(i)));
                        }
                    },
                    OpCode::Not => {
                        proof {
                            assert(i == Instr::Not);
                        }
                        let v = self.pop()?;
                        let t = v.truthiness();
                        self.push(Value::Boolean(!t));
                        proof {
                            assert(self.rem_code() =~= c0.skip(ip0 + instr_size(i)));
                        }
                    },
                    OpCode::Negate => {
                        proof {
                            assert(i == Instr::Negate);
                        }
                        let is_num = matches!(self.peek(0), Value::Number(_));
                        if is_num {
                            let v = self.pop()?;
                            let n = v.as_number()?;
                            self.push(Value::Number(num::num_neg(n)));
                            proof {
                                assert(self.rem_code() =~= c0.skip(ip0 + instr_size(i)));
                            }
                        } else {
                            proof {
                                assert(answer == (RunOutcome::Fail {
                                    kind: RunErrKind::NotNumber,
                                    offset: ip0 as nat,
                                    st: st0,
                                }));
                            }
                            let e = self.report_runtime_error("Operand must be a number.", ip_start);
                            return Err(e);
                        }
                    },
                    OpCode::Print => {
                        proof {
                            assert(i == Instr::Print);
                        }
                        let v = self.pop()?;
                        let line = v.display();
                        self.push_output(line);
                        proof {
                            assert(self.rem_code() =~= c0.skip(ip0 + instr_size(i)));
                        }
                    },
                    OpCode::Return => {
                        proof {
                            assert(i == Instr::Return);
                            assert(answer == (RunOutcome::Done { st: st0 }));
                        }
                        return Ok(());
                    },
                },
                None => {
                    proof {
                        assert(decode_head(c0.skip(ip0 as int)) is Some);
                        assert(false);
                    }
                    return Err(InterpretError::Ice("Unknown opcode"));
                },
            }
        }
    }
}

} // verus!

verus! {

impl Vm {
    /// Compiles the source into a fresh chunk and runs it from the
    /// current state; the globals survive from earlier runs.  Compile
    /// diagnostics are appended to the diagnostics buffer.
    pub fn interpret(&mut self, source: &str) -> (r: Result<(), InterpretError>)
        requires
            old(self).wf(),
            source@.len() < usize::MAX,
        ensures
            final(self).wf(),
            match r {
                Err(InterpretError::CompileError(_)) => final(self).st() == old(self).st()
                    && final(self).chunk_model() == old(self).chunk_model() && final(
                    self
                ).spec_ip() == old(self).spec_ip(),
                _ => {
                    &&& decode(final(self).chunk_model().code) is Some
                    &&& ({
                        let out = exec_instrs(
                            decode(final(self).chunk_model().code)->Some_0,
                            final(self).chunk_model().constants,
                            old(self).st(),
                            0,
                        );
                        match out {
                            RunOutcome::Done { st } => r is Ok && final(self).st() == st,
                            RunOutcome::Fail { kind, offset, st } => {
                                &&& (r matches Err(e) && e matches InterpretError::RuntimeError(m)
                                    && m@ == runtime_msg(kind))
                                &&& final(self).st() == (MachineState {
                                    stack: Seq::<ValueModel>::empty(),
                                    ..st
                                })
                                &&& final(self).diags() == old(self).diags().push(
                                    runtime_report(final(self).chunk_model().lines, offset),
                                )
                            },
                        }
                    })
                },
            },
            crate::compiler::trivial_source(source@) ==> r is Ok,
            r matches Err(InterpretError::CompileError(_)) ==> final(self).diags() == old(
                self
            ).diags() + crate::compiler::sp_compile(source@).diags,
            r is Ok ==> final(self).diags() == old(self).diags(),
            (r matches Err(InterpretError::CompileError(_))) <==> crate::compiler::sp_compile(
                source@,
            ).err,
            !crate::compiler::sp_compile(source@).err ==> decode(final(self).chunk_model().code)
                == Some(crate::compiler::sp_compile(source@).instrs) && final(
                self
            ).chunk_model().constants == crate::compiler::sp_compile(source@).consts,
    {
        let (res, mut diags) = crate::compiler::compile_full(source);
        let ghost compile_diags = Seq::new(diags@.len() as nat, |i: int| diags@[i]@);
        self.diagnostics.append(&mut diags);
        proof {
            assert(self.st() == old(self).st());
            assert(self.diags() =~= old(self).diags() + compile_diags);
        }

        match res {
            Ok(chunk) => {
                self.chunk = Box::new(chunk);
                self.ip = 0;
                proof {
                    let code = self.chunk_model().code;
                    let instrs = decode(code)->Some_0;
                    assert(code.skip(0) =~= code);
                    crate::chunk::lemma_frag_safe_mono(instrs, 0, self.st().stack.len() as int);
                    if crate::compiler::trivial_source(source@) {
                        crate::chunk::lemma_decode_encode(Instr::Return);
                        assert(code =~= crate::chunk::encode_instr(Instr::Return));
                        assert(instrs =~= seq![Instr::Return]);
                        assert(exec_instrs(instrs, self.chunk_model().constants, self.st(), 0)
                            == (RunOutcome::Done { st: self.st() }));
                    }
                }
                self.run()
            },
            Err(e) => {
                proof {
                    assert(e is CompileError);
                }
                Err(e)
            },
        }
    }
}

/// On a chunk whose only `Return` is its last instruction, a normal
/// halt leaves the stack exactly `net_sum` of the body higher than it
/// began: the net stack effect of a balanced program is zero.
pub proof fn lemma_stack_discipline(
    instrs: Seq<Instr>,
    consts: Seq<ValueModel>,
    st: MachineState,
    off: nat,
)
    requires
        instrs.len() > 0,
        instrs.last() is Return,
        forall|k: int| 0 <= k < instrs.len() - 1 ==> !((#[trigger] instrs[k]) is Return),
        frag_safe(instrs, st.stack.len() as int),
        exec_instrs(instrs, consts, st, off) is Done,
    ensures
        exec_instrs(instrs, consts, st, off)->Done_st.stack.len() == st.stack.len() + net_sum(
            instrs.drop_last(),
        ),
    decreases instrs.len(), 1int,
{
    let i = instrs[0];
    let rest = instrs.skip(1);
    if i is Return {
        assert(instrs.len() == 1);
        assert(instrs.drop_last() =~= Seq::<Instr>::empty());
    } else {
        assert(rest.len() > 0);
        assert(rest.last() is Return);
        assert(forall|k: int| 0 <= k < rest.len() - 1 ==> !((#[trigger] rest[k]) is Return)) by {
            assert(forall|k: int| 0 <= k < rest.len() ==> rest[k] == instrs[k + 1]);
        }
        let off2 = off + instr_size(i);
        assert(st.stack.len() >= instr_arity(i));
        assert(frag_safe(rest, st.stack.len() + instr_net(i)));
        assert(instrs.drop_last() =~= seq![i] + rest.drop_last());
        crate::chunk::lemma_net_sum_append(seq![i], rest.drop_last());
        assert(seq![i].skip(1) =~= Seq::<Instr>::empty());
        assert(net_sum(Seq::<Instr>::empty()) == 0);
        assert(net_sum(seq![i]) == instr_net(i));
        match i {
            Instr::Constant { id, .. } => {
                lemma_stack_discipline(rest, consts, st_push(st, consts[id as int]), off2);
            },
            Instr::Nil => {
                lemma_stack_discipline(rest, consts, st_push(st, ValueModel::Nil), off2);
            },
            Instr::True => {
                lemma_stack_discipline(rest, consts, st_push(st, ValueModel::Bool(true)), off2);
            },
            Instr::False => {
                lemma_stack_discipline(rest, consts, st_push(st, ValueModel::Bool(false)), off2);
            },
            Instr::Pop => {
                lemma_stack_discipline(
                    rest,
                    consts,
                    MachineState { stack: st.stack.drop_last(), ..st },
                    off2,
                );
            },
            Instr::GetGlobal { id, .. } => {
                let name = consts[id as int]->Str_0;
                lemma_stack_discipline(rest, consts, st_push(st, st.globals[name]), off2);
            },
            Instr::DefineGlobal { id, .. } => {
                let name = consts[id as int]->Str_0;
                lemma_stack_discipline(
                    rest,
                    consts,
                    MachineState {
                        stack: st.stack.drop_last(),
                        globals: st.globals.insert(name, st.stack.last()),
                        ..st
                    },
                    off2,
                );
            },
            Instr::SetGlobal { id, .. } => {
                let name = consts[id as int]->Str_0;
                lemma_stack_discipline(
                    rest,
                    consts,
                    MachineState { globals: st.globals.insert(name, st.stack.last()), ..st },
                    off2,
                );
            },
            Instr::Equal => {
                let a = st.stack[st.stack.len() - 2];
                let b = st.stack.last();
                lemma_stack_discipline(
                    rest,
                    consts,
                    MachineState {
                        stack: st.stack.drop_last().drop_last().push(
                            ValueModel::Bool(eq_value(a, b)),
                        ),
                        ..st
                    },
                    off2,
                );
            },
            Instr::Greater => {
                lemma_cmp_discipline(rest, consts, st, off, true);
            },
            Instr::Less => {
                lemma_cmp_discipline(rest, consts, st, off, false);
            },
            Instr::Add => {
                let a = st.stack[st.stack.len() - 2];
                let b = st.stack.last();
                if a is Str && b is Str {
                    lemma_stack_discipline(
                        rest,
                        consts,
                        MachineState {
                            stack: st.stack.drop_last().drop_last().push(
                                ValueModel::Str(a->Str_0 + b->Str_0),
                            ),
                            ..st
                        },
                        off2,
                    );
                } else {
                    lemma_stack_discipline(
                        rest,
                        consts,
                        MachineState {
                            stack: st.stack.drop_last().drop_last().push(
                                ValueModel::Num(num::add_bits(a->Num_0, b->Num_0)),
                            ),
                            ..st
                        },
                        off2,
                    );
                }
            },
            Instr::Subtract => {
                lemma_arith_discipline(rest, consts, st, off, ArithOp::Sub);
            },
            Instr::Multiply => {
                lemma_arith_discipline(rest, consts, st, off, ArithOp::Mul);
            },
            Instr::Divide => {
                lemma_arith_discipline(rest, consts, st, off, ArithOp::Div);
            },
            Instr::Remainder => {
                lemma_arith_discipline(rest, consts, st, off, ArithOp::Rem);
            },
            Instr::Not => {
                lemma_stack_discipline(
                    rest,
                    consts,
                    MachineState {
                        stack: st.stack.drop_last().push(not_value(st.stack.last())),
                        ..st
                    },
                    off2,
                );
            },
            Instr::Negate => {
                lemma_stack_discipline(
                    rest,
                    consts,
                    MachineState {
                        stack: st.stack.drop_last().push(
                            ValueModel::Num(num::neg_bits(st.stack.last()->Num_0)),
                        ),
                        ..st
                    },
                    off2,
                );
            },
            Instr::Print => {
                lemma_stack_discipline(
                    rest,
                    consts,
                    MachineState {
                        stack: st.stack.drop_last(),
                        output: st.output.push(display_value(st.stack.last())),
                        ..st
                    },
                    off2,
                );
            },
            Instr::Return => {},
        }
    }
}

proof fn lemma_cmp_discipline(
    rest: Seq<Instr>,
    consts: Seq<ValueModel>,
    st: MachineState,
    off: nat,
    greater: bool,
)
    requires
        rest.len() > 0,
        rest.last() is Return,
        forall|k: int| 0 <= k < rest.len() - 1 ==> !((#[trigger] rest[k]) is Return),
        st.stack.len() >= 2,
        frag_safe(rest, st.stack.len() - 1),
        exec_cmp(rest, consts, st, off, greater) is Done,
    ensures
        exec_cmp(rest, consts, st, off, greater)->Done_st.stack.len() == st.stack.len() - 1
            + net_sum(rest.drop_last()),
    decreases rest.len(), 2int,
{
    let a = st.stack[st.stack.len() - 2];
    let b = st.stack.last();
    if a is Num && b is Num {
        let r = if greater {
            num::ieee_gt(a->Num_0, b->Num_0)
        } else {
            num::ieee_lt(a->Num_0, b->Num_0)
        };
        lemma_stack_discipline(
            rest,
            consts,
            MachineState {
                stack: st.stack.drop_last().drop_last().push(ValueModel::Bool(r)),
                ..st
            },
            off + 1,
        );
    }
}

proof fn lemma_arith_discipline(
    rest: Seq<Instr>,
    consts: Seq<ValueModel>,
    st: MachineState,
    off: nat,
    op: ArithOp,
)
    requires
        rest.len() > 0,
        rest.last() is Return,
        forall|k: int| 0 <= k < rest.len() - 1 ==> !((#[trigger] rest[k]) is Return),
        st.stack.len() >= 2,
        frag_safe(rest, st.stack.len() - 1),
        exec_arith(rest, consts, st, off, op) is Done,
    ensures
        exec_arith(rest, consts, st, off, op)->Done_st.stack.len() == st.stack.len() - 1
            + net_sum(rest.drop_last()),
    decreases rest.len(), 2int,
{
    let a = st.stack[st.stack.len() - 2];
    let b = st.stack.last();
    if a is Num && b is Num {
        lemma_stack_discipline(
            rest,
            consts,
            MachineState {
                stack: st.stack.drop_last().drop_last().push(
                    ValueModel::Num(arith_bits(op, a->Num_0, b->Num_0)),
                ),
                ..st
            },
            off + 1,
        );
    }
}

/// A program the compiler accepted has net stack effect zero: run
/// from an empty stack, a normal halt leaves the stack empty again.
pub proof fn lemma_compiled_program_balanced(
    instrs: Seq<Instr>,
    consts: Seq<ValueModel>,
    st: MachineState,
)
    requires
        st.stack.len() == 0,
        instrs.len() > 0,
        instrs.last() is Return,
        forall|k: int| 0 <= k < instrs.len() - 1 ==> !((#[trigger] instrs[k]) is Return),
        frag_safe(instrs, 0),
        net_sum(instrs) == 0,
        exec_instrs(instrs, consts, st, 0) is Done,
    ensures
        exec_instrs(instrs, consts, st, 0)->Done_st.stack.len() == 0,
{
    lemma_stack_discipline(instrs, consts, st, 0);
    assert(instrs =~= instrs.drop_last().push(Instr::Return));
    crate::chunk::lemma_net_sum_append(instrs.drop_last(), seq![Instr::Return]);
    assert(instrs.drop_last() + seq![Instr::Return] =~= instrs);
    assert(seq![Instr::Return].skip(1) =~= Seq::<Instr>::empty());
    assert(net_sum(Seq::<Instr>::empty()) == 0);
    assert(net_sum(seq![Instr::Return]) == 0);
}

} // verus!

verus! {

/// Two `Not` instructions in a row turn the stack top into `Boolean`
/// of its truthiness: `not not x` equals `Boolean(truthiness(x))` for
/// every value, with the rest of the machine unchanged.
pub proof fn lemma_not_not_execution(
    instrs: Seq<Instr>,
    consts: Seq<ValueModel>,
    st: MachineState,
    off: nat,
)
    requires
        instrs.len() >= 2,
        instrs[0] == Instr::Not,
        instrs[1] == Instr::Not,
        st.stack.len() >= 1,
    ensures
        exec_instrs(instrs, consts, st, off) == exec_instrs(
            instrs.skip(2),
            consts,
            MachineState {
                stack: st.stack.drop_last().push(ValueModel::Bool(truthy(st.stack.last()))),
                ..st
            },
            off + 2,
        ),
{
    let st1 = MachineState { stack: st.stack.drop_last().push(not_value(st.stack.last())), ..st };
    assert(exec_instrs(instrs, consts, st, off) == exec_instrs(
        instrs.skip(1),
        consts,
        st1,
        off + 1,
    ));
    assert(instrs.skip(1)[0] == instrs[1]);
    let st2 = MachineState {
        stack: st1.stack.drop_last().push(not_value(st1.stack.last())),
        ..st1
    };
    assert(exec_instrs(instrs.skip(1), consts, st1, off + 1) == exec_instrs(
        instrs.skip(1).skip(1),
        consts,
        st2,
        off + 2,
    ));
    assert(instrs.skip(1).skip(1) =~= instrs.skip(2));
    assert(st1.stack.drop_last() =~= st.stack.drop_last());
    crate::value::lemma_not_not(st.stack.last());
    assert(st2.stack =~= st.stack.drop_last().push(ValueModel::Bool(truthy(st.stack.last()))));
}

} // verus!
