use vstd::prelude::*;
use vstd::string::{StringExecFns, StringSliceAdditionalSpecFns};
use std::collections::HashMap;

use crate::common::{
    falsey, lemma_equal_is_sameness, lemma_only_nil_and_false_are_falsey, opcode_of, values_equal,
    Constant, OpCode, Value, OPCODE_COUNT,
};
use crate::common::{lemma_opcode_byte_roundtrip, opcode_byte};
use crate::compiler::compiler::{
    compile_error_text, constants_interned, map_grows, prefix_of, CompileError, Compiler,
};
use crate::text::{decimal, push_decimal};
use crate::object::bytes_to_vec;
use crate::vm::interner::{distinct_texts, lemma_intern_ids_identify_texts};
use crate::gc::{trace_all, trace_prefix, Trace};
use crate::vm::chunk::Chunk;
use crate::vm::shape::{
    branch_target, compiled_shape, decodes, instruction_start, is_branch, lemma_next_start,
    lemma_start_fits, machine_op,
};
use crate::vm::depth::{depths_fit, names_slot, stack_balanced};
use crate::vm::interner::Interner;

verus! {

broadcast use vstd::std_specs::hash::group_hash_axioms;

/// Why running a program failed: a message from the machine, or the errors the
/// compiler reported.
#[derive(Debug)]
pub enum VMError {
    RuntimeError(String),
    CompileError(Vec<CompileError>),
}

/// The reports of `errors`, one per line.
pub open spec fn errors_text(errors: Seq<CompileError>) -> Seq<char>
    decreases errors.len(),
{
    if errors.len() == 0 {
        Seq::empty()
    } else {
        errors_text(errors.drop_last()) + compile_error_text(errors.last()) + "\n"@
    }
}

impl VMError {
    /// The error as it is shown to the user: the runtime message, or each
    /// compile error on a line of its own.
    pub fn to_text(&self) -> (r: String)
        ensures
            r@ == match self {
                VMError::RuntimeError(m) => m@,
                VMError::CompileError(errors) => errors_text(errors@),
            },
    {
        match self {
            VMError::RuntimeError(m) => m.clone(),
            VMError::CompileError(errors) => {
                let mut r = String::new();
                let mut i: usize = 0;
                while i < errors.len()
                    invariant
                        0 <= i <= errors@.len(),
                        r@ == errors_text(errors@.take(i as int)),
                    decreases errors@.len() - i,
                {
                    let line = errors[i].to_text();
                    r.append(line.as_str());
                    r.append("\n");
                    proof {
                        assert(errors@.take(i + 1).drop_last() == errors@.take(i as int));
                    }
                    i = i + 1;
                }
                proof {
                    assert(errors@.take(i as int) == errors@);
                }
                r
            },
        }
    }
}

/// The outcome of running a program.
pub type VMResult = Result<(), VMError>;

/// A fixed-capacity stack: `N` slots, of which the first `len` are in use.
/// Slots past the top keep whatever they held, as the machine's frames read
/// them by absolute index.
#[derive(Debug)]
pub struct Stack<T, const N: usize> {
    data: Vec<T>,
    top: usize,
}

impl<T: Copy + Default, const N: usize> Stack<T, N> {
    /// All `N` slots.
    pub closed spec fn slots(&self) -> Seq<T> {
        self.data@
    }

    /// The number of slots in use.
    pub closed spec fn spec_len(&self) -> nat {
        self.top as nat
    }

    /// The values on the stack, bottom first.
    pub open spec fn contents(&self) -> Seq<T> {
        self.slots().take(self.spec_len() as int)
    }

    /// There are `N` slots and the top is within them.
    pub closed spec fn wf(&self) -> bool {
        self.data@.len() == N && self.top <= N
    }

    /// The slots a trace walks: those in use, as far as there are slots.
    pub closed spec fn in_use(&self) -> Seq<T> {
        self.data@.take(
            if self.top <= self.data@.len() {
                self.top as int
            } else {
                self.data@.len() as int
            },
        )
    }

    /// What well-formedness gives a caller.
    pub proof fn lemma_wf(&self)
        requires
            self.wf(),
        ensures
            self.slots().len() == N,
            self.spec_len() <= N,
            self.contents().len() == self.spec_len(),
            self.in_use() == self.contents(),
    {
    }

    /// An empty stack whose slots all hold the default value.
    pub fn new() -> (s: Self)
        ensures
            s.wf(),
            s.spec_len() == 0,
            forall|i: int| 0 <= i < N ==> call_ensures(T::default, (), #[trigger] s.slots()[i]),
    {
        let mut data: Vec<T> = Vec::new();
        let mut i: usize = 0;
        while i < N
            invariant
                i <= N,
                data@.len() == i,
                forall|j: int| 0 <= j < i ==> call_ensures(T::default, (), #[trigger] data@[j]),
            decreases N - i,
        {
            data.push(T::default());
            i = i + 1;
        }
        Stack { data, top: 0 }
    }

    /// Pushes `item`. The stack must not be full.
    pub fn push(&mut self, item: T)
        requires
            old(self).wf(),
            old(self).spec_len() < N,
        ensures
            final(self).wf(),
            final(self).spec_len() == old(self).spec_len() + 1,
            final(self).slots() == old(self).slots().update(old(self).spec_len() as int, item),
            final(self).contents() == old(self).contents().push(item),
    {
        self.data.set(self.top, item);
        self.top = self.top + 1;
        proof {
            assert(self.contents() =~= old(self).contents().push(item));
        }
    }

    /// Pops the top value; its slot goes back to the default value. The stack
    /// must not be empty.
    pub fn pop(&mut self) -> (v: T)
        requires
            old(self).wf(),
            old(self).spec_len() > 0,
        ensures
            final(self).wf(),
            v == old(self).contents().last(),
            final(self).spec_len() == old(self).spec_len() - 1,
            final(self).contents() == old(self).contents().drop_last(),
            forall|i: int|
                0 <= i < N && i != final(self).spec_len() ==> #[trigger] final(self).slots()[i]
                    == old(self).slots()[i],
            call_ensures(T::default, (), final(self).slots()[final(self).spec_len() as int]),
    {
        self.top = self.top - 1;
        let v = self.data[self.top];
        self.data.set(self.top, T::default());
        proof {
            assert(self.contents() =~= old(self).contents().drop_last());
        }
        v
    }

    /// The top value. The stack must not be empty.
    pub fn top(&self) -> (v: T)
        requires
            self.wf(),
            self.spec_len() > 0,
        ensures
            v == self.contents().last(),
    {
        self.data[self.top - 1]
    }

    /// The value `offset` places below the top. It must be on the stack.
    pub fn peek(&self, offset: usize) -> (v: T)
        requires
            self.wf(),
            offset < self.spec_len(),
        ensures
            v == self.contents()[self.spec_len() - 1 - offset],
    {
        self.data[self.top - 1 - offset]
    }

    /// Makes the first `len` slots the stack's contents.
    pub fn truncate(&mut self, len: usize)
        requires
            old(self).wf(),
            len <= N,
        ensures
            final(self).wf(),
            final(self).spec_len() == len,
            final(self).slots() == old(self).slots(),
    {
        self.top = len;
    }

    pub fn is_empty(&self) -> (b: bool)
        ensures
            b == (self.spec_len() == 0),
    {
        self.top == 0
    }

    pub fn is_full(&self) -> (b: bool)
        ensures
            b == (self.spec_len() == N),
    {
        self.top == N
    }

    pub fn len(&self) -> (n: usize)
        ensures
            n == self.spec_len(),
    {
        self.top
    }

    pub fn capacity(&self) -> (n: usize)
        ensures
            n == N,
    {
        N
    }

    /// Resets every slot to the default value; the length is left as it is.
    pub fn clear(&mut self)
        requires
            old(self).wf(),
        ensures
            final(self).wf(),
            final(self).spec_len() == old(self).spec_len(),
            forall|i: int| 0 <= i < N ==> call_ensures(T::default, (), #[trigger] final(self).slots()[i]),
    {
        let mut i: usize = 0;
        while i < self.data.len()
            invariant
                self.wf(),
                self.top == old(self).top,
                0 <= i <= N,
                forall|j: int| 0 <= j < i ==> call_ensures(T::default, (), #[trigger] self.data@[j]),
            decreases N - i,
        {
            self.data.set(i, T::default());
            i = i + 1;
        }
    }

    /// The value in slot `i`, whether or not it is on the stack.
    pub fn get(&self, i: usize) -> (v: T)
        requires
            self.wf(),
            i < N,
        ensures
            v == self.slots()[i as int],
    {
        self.data[i]
    }

    /// Stores `v` in slot `i`, whether or not it is on the stack.
    pub fn set(&mut self, i: usize, v: T)
        requires
            old(self).wf(),
            i < N,
        ensures
            final(self).wf(),
            final(self).spec_len() == old(self).spec_len(),
            final(self).slots() == old(self).slots().update(i as int, v),
    {
        self.data.set(i, v);
    }
}

/// Pushing a value and then popping gives that value back and leaves the
/// stack holding what it held before.
pub proof fn lemma_push_pop<T: Copy + Default, const N: usize>(
    s0: Stack<T, N>,
    v: T,
    s1: Stack<T, N>,
    s2: Stack<T, N>,
    r: T,
)
    requires
        s0.wf(),
        s1.contents() == s0.contents().push(v),
        r == s1.contents().last(),
        s2.contents() == s1.contents().drop_last(),
    ensures
        r == v,
        s2.contents() == s0.contents(),
{
    assert(s0.contents().push(v).drop_last() =~= s0.contents());
}

impl<T: Trace + Copy + Default, const N: usize> Trace for Stack<T, N> {
    open spec fn spec_trace(&self) -> Seq<usize> {
        trace_all(self.in_use())
    }

    fn trace(&self) -> (refs: Vec<usize>) {
        let n = if self.top <= self.data.len() {
            self.top
        } else {
            self.data.len()
        };
        trace_prefix(self.data.as_slice(), n)
    }
}

/// The slot of each global variable, by the id of its interned name.
#[derive(Debug)]
pub struct GlobalIndices(pub HashMap<usize, u8>);

impl GlobalIndices {
    /// No globals yet.
    pub fn new() -> (g: GlobalIndices)
        ensures
            g.0@ == Map::<usize, u8>::empty(),
    {
        GlobalIndices(HashMap::new())
    }
}

/// How many values the machine's stack holds.
pub const STACK_MAX: usize = 256;

/// The arithmetic and comparisons on numbers, which the host carries out.
#[derive(Debug, Clone, Copy, PartialEq, Eq, Structural)]
pub enum Arith {
    Add,
    Subtract,
    Multiply,
    Divide,
    Greater,
    Less,
    Equal,
}

/// Why a run stopped with an error.
#[derive(Debug, Clone, Copy, PartialEq, Eq, Structural)]
pub enum Fault {
    /// `Negate` of something other than a number.
    OperandNotNumber,
    /// Arithmetic or an ordering on something other than two numbers.
    OperandsNotNumbers,
    /// `Add` of something other than two numbers or two strings.
    OperandsNotAddable,
    /// A global read or assigned before its definition.
    UndefinedVariable,
    /// A push onto a full stack.
    StackOverflow,
    /// An instruction that needs more values than the stack holds.
    StackUnderflow,
    /// The code ended, or a jump left it, in the middle of a run.
    EndOfCode,
    /// A byte that encodes no instruction.
    UnknownOpcode,
    /// A constant index past the constants.
    UnknownConstant,
    /// A string id with no interned text.
    UnknownString,
    /// An instruction of calls, closures or classes, which this machine's
    /// values (nil, booleans, numbers and strings) cannot take part in.
    Unsupported,
}

/// The message of each fault.
pub open spec fn fault_message(f: Fault) -> Seq<char> {
    match f {
        Fault::OperandNotNumber => "Operand must be a number."@,
        Fault::OperandsNotNumbers => "Operands must be numbers."@,
        Fault::OperandsNotAddable => "Operands must be two numbers or two strings."@,
        Fault::UndefinedVariable => "Undefined variable."@,
        Fault::StackOverflow => "Stack overflow."@,
        Fault::StackUnderflow => "Stack underflow."@,
        Fault::EndOfCode => "Unexpected end of code."@,
        Fault::UnknownOpcode => "Unknown opcode."@,
        Fault::UnknownConstant => "Unknown constant."@,
        Fault::UnknownString => "Unknown string."@,
        Fault::Unsupported => "Unsupported instruction."@,
    }
}

/// The report of a fault at `line`: its message, then where it happened.
pub open spec fn fault_report(f: Fault, line: usize) -> Seq<char> {
    fault_message(f) + "\n[line "@ + decimal(line as nat) + "] in script.\n"@
}

impl Fault {
    /// The report of this fault at `line`, as a runtime error shows it.
    pub fn report(&self, line: usize) -> (r: String)
        ensures
            r@ == fault_report(*self, line),
    {
        let mut r = self.message();
        r.append("\n[line ");
        push_decimal(&mut r, line);
        r.append("] in script.\n");
        proof {
            assert(r@ =~= fault_report(*self, line));
        }
        r
    }

    /// The message a runtime error of this kind reports.
    pub fn message(&self) -> (m: String)
        ensures
            m@ == fault_message(*self),
    {
        match self {
            Fault::OperandNotNumber => "Operand must be a number.".to_owned(),
            Fault::OperandsNotNumbers => "Operands must be numbers.".to_owned(),
            Fault::OperandsNotAddable => "Operands must be two numbers or two strings.".to_owned(),
            Fault::UndefinedVariable => "Undefined variable.".to_owned(),
            Fault::StackOverflow => "Stack overflow.".to_owned(),
            Fault::StackUnderflow => "Stack underflow.".to_owned(),
            Fault::EndOfCode => "Unexpected end of code.".to_owned(),
            Fault::UnknownOpcode => "Unknown opcode.".to_owned(),
            Fault::UnknownConstant => "Unknown constant.".to_owned(),
            Fault::UnknownString => "Unknown string.".to_owned(),
            Fault::Unsupported => "Unsupported instruction.".to_owned(),
        }
    }
}

/// What a step asks of the host.
#[derive(Debug, Clone, Copy)]
pub enum Action<N> {
    /// Nothing: step again.
    Continue,
    /// Print the value, then step again.
    Print(Value<N>),
    /// Read the digits of number constant `k` (see `number_digits`) as a number
    /// and hand it to `push_number`.
    ParseNumber(u8),
    /// Negate the number and hand the result to `push_number`.
    Negate(N),
    /// Apply the operation to the two numbers, left operand first, and hand the
    /// result to `push_number` (arithmetic) or to `push_bool` (comparisons).
    Arithmetic(Arith, N, N),
    /// The program returned.
    Done,
    /// The run stopped with this fault, reported at this line.
    Error(Fault, usize),
}

/// The machine's state as the steps see it: the instruction pointer, the
/// stack's length, all stack slots, the globals by slot, and the interned
/// texts by id.
pub type MachineState<N> = (int, int, Seq<Value<N>>, Seq<Option<Value<N>>>, Seq<Seq<u8>>);

/// Slot `i` after popping the top of a stack of length `len`: popped slots
/// go back to nil.
pub open spec fn popped<N>(slots: Seq<Value<N>>, len: int) -> Seq<Value<N>> {
    slots.update(len - 1, Value::Nil)
}

/// The line a fault at `ip` is reported at: that of the last byte read.
pub open spec fn fault_line(chunk: Chunk, ip: int) -> usize {
    if ip > 0 {
        chunk.line_of(ip - 1)
    } else {
        0
    }
}

/// A fault at `ip`: the stack is emptied and the run reports `f`.
pub open spec fn faulted<N>(chunk: Chunk, s: MachineState<N>, f: Fault) -> (MachineState<N>, Action<N>) {
    ((s.0, 0, s.2, s.3, s.4), Action::Error(f, fault_line(chunk, s.0)))
}

/// Pushes `v`, or faults when the stack is full.
pub open spec fn push_step<N>(chunk: Chunk, s: MachineState<N>, v: Value<N>) -> (MachineState<N>, Action<N>) {
    if s.1 >= STACK_MAX {
        faulted(chunk, s, Fault::StackOverflow)
    } else {
        ((s.0, s.1 + 1, s.2.update(s.1, v), s.3, s.4), Action::Continue)
    }
}

/// The globals after defining slot `k` as `v`: the table grows with empty
/// slots as far as `k`.
pub open spec fn define_global<N>(g: Seq<Option<Value<N>>>, k: int, v: Value<N>) -> Seq<Option<Value<N>>> {
    if k < g.len() {
        g.update(k, Some(v))
    } else {
        (g + Seq::new((k + 1 - g.len()) as nat, |i: int| None)).update(k, Some(v))
    }
}

/// The id of `text` among `texts`.
pub open spec fn text_id(texts: Seq<Seq<u8>>, text: Seq<u8>) -> int {
    choose|i: int| 0 <= i < texts.len() && texts[i] == text
}

/// The texts after interning `text`.
pub open spec fn interned_with(texts: Seq<Seq<u8>>, text: Seq<u8>) -> Seq<Seq<u8>> {
    if texts.contains(text) {
        texts
    } else {
        texts.push(text)
    }
}

/// `Constant`: pushes a string constant; for a number constant, asks the host
/// to read its digits.
pub open spec fn constant_step<N>(chunk: Chunk, s: MachineState<N>) -> (MachineState<N>, Action<N>) {
    let (ip, len, slots, g, t) = s;
    if ip >= chunk.code@.len() {
        faulted(chunk, s, Fault::EndOfCode)
    } else {
        let k = chunk.code@[ip];
        let s2 = (ip + 1, len, slots, g, t);
        if k >= chunk.constants@.len() {
            faulted(chunk, s2, Fault::UnknownConstant)
        } else if len >= STACK_MAX {
            faulted(chunk, s2, Fault::StackOverflow)
        } else {
            match chunk.constants@[k as int] {
                Constant::Number(_) => (s2, Action::ParseNumber(k)),
                Constant::String(id) => (
                    (ip + 1, len + 1, slots.update(len, Value::String(id)), g, t),
                    Action::Continue,
                ),
            }
        }
    }
}

/// `Add`: numbers go to the host; two strings are joined and the result
/// interned.
pub open spec fn add_step<N>(chunk: Chunk, s: MachineState<N>) -> (MachineState<N>, Action<N>) {
    let (ip, len, slots, g, t) = s;
    if len < 2 {
        faulted(chunk, s, Fault::StackUnderflow)
    } else {
        match (slots[len - 2], slots[len - 1]) {
            (Value::Number(x), Value::Number(y)) => (
                (ip, len - 2, popped(popped(slots, len), len - 1), g, t),
                Action::Arithmetic(Arith::Add, x, y),
            ),
            (Value::String(x), Value::String(y)) => {
                if x >= t.len() || y >= t.len() {
                    faulted(chunk, s, Fault::UnknownString)
                } else {
                    let t2 = interned_with(t, t[x as int] + t[y as int]);
                    let id = text_id(t2, t[x as int] + t[y as int]);
                    (
                        (ip, len - 1, popped(slots, len).update(len - 2, Value::String(id as usize)), g, t2),
                        Action::Continue,
                    )
                }
            },
            _ => faulted(chunk, s, Fault::OperandsNotAddable),
        }
    }
}

/// `Subtract`, `Multiply`, `Divide`, `Greater`, `Less`: two numbers go to the
/// host.
pub open spec fn numeric_step<N>(chunk: Chunk, s: MachineState<N>, op: Arith) -> (MachineState<N>, Action<N>) {
    let (ip, len, slots, g, t) = s;
    if len < 2 {
        faulted(chunk, s, Fault::StackUnderflow)
    } else {
        match (slots[len - 2], slots[len - 1]) {
            (Value::Number(x), Value::Number(y)) => (
                (ip, len - 2, popped(popped(slots, len), len - 1), g, t),
                Action::Arithmetic(op, x, y),
            ),
            _ => faulted(chunk, s, Fault::OperandsNotNumbers),
        }
    }
}

/// `Negate`: a number goes to the host.
pub open spec fn negate_step<N>(chunk: Chunk, s: MachineState<N>) -> (MachineState<N>, Action<N>) {
    let (ip, len, slots, g, t) = s;
    if len < 1 {
        faulted(chunk, s, Fault::StackUnderflow)
    } else {
        match slots[len - 1] {
            Value::Number(x) => ((ip, len - 1, popped(slots, len), g, t), Action::Negate(x)),
            _ => faulted(chunk, s, Fault::OperandNotNumber),
        }
    }
}

/// `Not`: replaces the top with whether it is false.
pub open spec fn not_step<N>(chunk: Chunk, s: MachineState<N>) -> (MachineState<N>, Action<N>) {
    let (ip, len, slots, g, t) = s;
    if len < 1 {
        faulted(chunk, s, Fault::StackUnderflow)
    } else {
        ((ip, len, slots.update(len - 1, Value::Bool(falsey(slots[len - 1]))), g, t), Action::Continue)
    }
}

/// `Equal`: two numbers go to the host; any other pair is compared here.
pub open spec fn equal_step<N>(chunk: Chunk, s: MachineState<N>) -> (MachineState<N>, Action<N>) {
    let (ip, len, slots, g, t) = s;
    if len < 2 {
        faulted(chunk, s, Fault::StackUnderflow)
    } else {
        match (slots[len - 2], slots[len - 1]) {
            (Value::Number(x), Value::Number(y)) => (
                (ip, len - 2, popped(popped(slots, len), len - 1), g, t),
                Action::Arithmetic(Arith::Equal, x, y),
            ),
            (a, b) => (
                (ip, len - 1, popped(slots, len).update(len - 2, Value::Bool(values_equal(a, b))), g, t),
                Action::Continue,
            ),
        }
    }
}

/// `SwitchEq`: compares the case value on top with the switch value under it,
/// popping only the case value.
pub open spec fn switch_eq_step<N>(chunk: Chunk, s: MachineState<N>) -> (MachineState<N>, Action<N>) {
    let (ip, len, slots, g, t) = s;
    if len < 2 {
        faulted(chunk, s, Fault::StackUnderflow)
    } else {
        match (slots[len - 2], slots[len - 1]) {
            (Value::Number(x), Value::Number(y)) => (
                (ip, len - 1, popped(slots, len), g, t),
                Action::Arithmetic(Arith::Equal, x, y),
            ),
            (a, b) => (
                (ip, len, slots.update(len - 1, Value::Bool(values_equal(a, b))), g, t),
                Action::Continue,
            ),
        }
    }
}

/// `Print` and `Pop`: pop the top; `Print` hands it to the host.
pub open spec fn pop_step<N>(chunk: Chunk, s: MachineState<N>, print: bool) -> (MachineState<N>, Action<N>) {
    let (ip, len, slots, g, t) = s;
    if len < 1 {
        faulted(chunk, s, Fault::StackUnderflow)
    } else if print {
        ((ip, len - 1, popped(slots, len), g, t), Action::Print(slots[len - 1]))
    } else {
        ((ip, len - 1, popped(slots, len), g, t), Action::Continue)
    }
}

/// The instructions with a one-byte operand that name a stack or global slot.
pub open spec fn slot_step<N>(chunk: Chunk, s: MachineState<N>, op: OpCode) -> (MachineState<N>, Action<N>) {
    let (ip, len, slots, g, t) = s;
    if ip >= chunk.code@.len() {
        faulted(chunk, s, Fault::EndOfCode)
    } else {
        let k = chunk.code@[ip] as int;
        let s2 = (ip + 1, len, slots, g, t);
        match op {
            OpCode::GetLocal => push_step(chunk, s2, slots[k]),
            OpCode::SetLocal => if len < 1 {
                faulted(chunk, s2, Fault::StackUnderflow)
            } else {
                ((ip + 1, len, slots.update(k, slots[len - 1]), g, t), Action::Continue)
            },
            OpCode::DefineGlobal => if len < 1 {
                faulted(chunk, s2, Fault::StackUnderflow)
            } else {
                ((ip + 1, len - 1, popped(slots, len), define_global(g, k, slots[len - 1]), t), Action::Continue)
            },
            OpCode::SetGlobal => if k >= g.len() {
                faulted(chunk, s2, Fault::UndefinedVariable)
            } else if len < 1 {
                faulted(chunk, s2, Fault::StackUnderflow)
            } else {
                ((ip + 1, len, slots, g.update(k, Some(slots[len - 1])), t), Action::Continue)
            },
            _ => if k < g.len() && g[k] is Some {
                push_step(chunk, s2, g[k].unwrap())
            } else {
                faulted(chunk, s2, Fault::UndefinedVariable)
            },
        }
    }
}

/// `JumpIfFalse`, `Jump` and `Loop`: a two-byte distance, forward from the end
/// of the instruction (only when the top is false, for `JumpIfFalse`) or back.
pub open spec fn jump_step<N>(chunk: Chunk, s: MachineState<N>, op: OpCode) -> (MachineState<N>, Action<N>) {
    let (ip, len, slots, g, t) = s;
    let code = chunk.code@;
    if ip + 1 >= code.len() {
        faulted(chunk, s, Fault::EndOfCode)
    } else {
        let off = code[ip] * 256 + code[ip + 1];
        let s3 = (ip + 2, len, slots, g, t);
        if op == OpCode::Loop {
            if off > ip + 2 {
                faulted(chunk, s3, Fault::EndOfCode)
            } else {
                ((ip + 2 - off, len, slots, g, t), Action::Continue)
            }
        } else if op == OpCode::JumpIfFalse && len < 1 {
            faulted(chunk, s3, Fault::StackUnderflow)
        } else {
            let target = if op == OpCode::Jump || falsey(slots[len - 1]) {
                ip + 2 + off
            } else {
                ip + 2
            };
            if target > code.len() {
                faulted(chunk, s3, Fault::EndOfCode)
            } else {
                ((target, len, slots, g, t), Action::Continue)
            }
        }
    }
}

/// One step of the machine from state `s` on `chunk`.
pub open spec fn step_spec<N>(chunk: Chunk, s: MachineState<N>) -> (MachineState<N>, Action<N>) {
    let (ip, len, slots, g, t) = s;
    let code = chunk.code@;
    if ip >= code.len() {
        faulted(chunk, s, Fault::EndOfCode)
    } else if code[ip] >= OPCODE_COUNT {
        faulted(chunk, (ip + 1, len, slots, g, t), Fault::UnknownOpcode)
    } else {
        let s1 = (ip + 1, len, slots, g, t);
        match opcode_of(code[ip]) {
            OpCode::Constant => constant_step(chunk, s1),
            OpCode::Nil => push_step(chunk, s1, Value::Nil),
            OpCode::True => push_step(chunk, s1, Value::Bool(true)),
            OpCode::False => push_step(chunk, s1, Value::Bool(false)),
            OpCode::Add => add_step(chunk, s1),
            OpCode::Subtract => numeric_step(chunk, s1, Arith::Subtract),
            OpCode::Multiply => numeric_step(chunk, s1, Arith::Multiply),
            OpCode::Divide => numeric_step(chunk, s1, Arith::Divide),
            OpCode::Greater => numeric_step(chunk, s1, Arith::Greater),
            OpCode::Less => numeric_step(chunk, s1, Arith::Less),
            OpCode::Negate => negate_step(chunk, s1),
            OpCode::Not => not_step(chunk, s1),
            OpCode::Equal => equal_step(chunk, s1),
            OpCode::SwitchEq => switch_eq_step(chunk, s1),
            OpCode::Print => pop_step(chunk, s1, true),
            OpCode::Pop => pop_step(chunk, s1, false),
            OpCode::GetLocal => slot_step(chunk, s1, OpCode::GetLocal),
            OpCode::SetLocal => slot_step(chunk, s1, OpCode::SetLocal),
            OpCode::DefineGlobal => slot_step(chunk, s1, OpCode::DefineGlobal),
            OpCode::SetGlobal => slot_step(chunk, s1, OpCode::SetGlobal),
            OpCode::GetGlobal => slot_step(chunk, s1, OpCode::GetGlobal),
            OpCode::JumpIfFalse => jump_step(chunk, s1, OpCode::JumpIfFalse),
            OpCode::Jump => jump_step(chunk, s1, OpCode::Jump),
            OpCode::Loop => jump_step(chunk, s1, OpCode::Loop),
            OpCode::Return => ((ip + 1, 0, slots, g, t), Action::Done),
            _ => faulted(chunk, s1, Fault::Unsupported),
        }
    }
}

/// A string value names one of the first `n` interned texts.
pub open spec fn value_interned<N>(v: Value<N>, n: nat) -> bool {
    v matches Value::String(id) ==> id < n
}

/// Every string the machine holds, in its constants, its stack slots and its
/// globals, names an interned text.
pub open spec fn all_interned<N>(
    consts: Seq<Constant>,
    slots: Seq<Value<N>>,
    globals: Seq<Option<Value<N>>>,
    n: nat,
) -> bool {
    &&& constants_interned(consts, n)
    &&& forall|i: int| 0 <= i < slots.len() ==> value_interned(#[trigger] slots[i], n)
    &&& forall|i: int|
        0 <= i < globals.len() ==> (#[trigger] globals[i] matches Some(v) ==> value_interned(v, n))
}

/// A value that `Default` makes is nil.
proof fn lemma_default_is_nil<N>(v: Value<N>)
    requires
        call_ensures(<Value<N> as Default>::default, (), v),
    ensures
        v == Value::<N>::Nil,
{
}

/// The bytecode machine. It runs a compiled chunk one instruction at a time
/// and leaves to its host what needs the host's numbers: reading number
/// literals, arithmetic and comparisons on numbers, and printing.
#[derive(Debug)]
pub struct VM<N> {
    chunk: Chunk,
    ip: usize,
    stack: Stack<Value<N>, 256>,
    globals: Vec<Option<Value<N>>>,
    interner: Interner,
    global_indices: GlobalIndices,
}

impl<N: Copy> VM<N> {
    /// The state the steps act on.
    pub closed spec fn state(&self) -> MachineState<N> {
        (
            self.ip as int,
            self.stack.spec_len() as int,
            self.stack.slots(),
            self.globals@,
            self.interner.texts(),
        )
    }

    /// The chunk being run.
    pub closed spec fn code(&self) -> Chunk {
        self.chunk
    }

    /// The global slot of each interned name.
    pub closed spec fn global_slots(&self) -> Map<usize, u8> {
        self.global_indices.0@
    }

    /// The machine's invariant.
    pub closed spec fn wf(&self) -> bool {
        &&& self.stack.wf()
        &&& self.interner.wf()
        &&& self.chunk.wf()
        &&& (self.chunk.code@.len() == 0 || compiled_shape(
            self.chunk.code@,
            self.chunk.constants@.len() as int,
        ) && stack_balanced(self.chunk.code@))
        &&& all_interned(
            self.chunk.constants@,
            self.stack.slots(),
            self.globals@,
            self.interner.texts().len(),
        )
    }

    /// What well-formedness gives a caller.
    pub proof fn lemma_wf(&self)
        requires
            self.wf(),
        ensures
            0 <= self.state().1 <= STACK_MAX,
            self.state().2.len() == STACK_MAX,
            distinct_texts(self.state().4),
            self.code().wf(),
            all_interned(self.code().constants@, self.state().2, self.state().3, self.state().4.len()),
            self.code().code@.len() == 0 || compiled_shape(
                self.code().code@,
                self.code().constants@.len() as int,
            ) && stack_balanced(self.code().code@),
    {
        self.stack.lemma_wf();
        self.interner.lemma_wf();
    }

    /// A machine with an empty chunk, an empty stack of nils, no globals and
    /// no strings.
    pub fn new() -> (vm: Self)
        ensures
            vm.wf(),
            vm.state().0 == 0,
            vm.state().1 == 0,
            vm.state().2 == Seq::new(STACK_MAX as nat, |i: int| Value::<N>::Nil),
            vm.state().3 == Seq::<Option<Value<N>>>::empty(),
            vm.state().4 == Seq::<Seq<u8>>::empty(),
            vm.code().code@.len() == 0,
            vm.global_slots() == Map::<usize, u8>::empty(),
    {
        let stack: Stack<Value<N>, 256> = Stack::new();
        let vm = VM {
            chunk: Chunk::new(),
            ip: 0,
            stack,
            globals: Vec::new(),
            interner: Interner::new(),
            global_indices: GlobalIndices::new(),
        };
        proof {
            vm.stack.lemma_wf();
            assert forall|i: int| 0 <= i < STACK_MAX implies vm.stack.slots()[i] == Value::<N>::Nil by {
                lemma_default_is_nil(vm.stack.slots()[i]);
            }
            assert(vm.stack.slots() =~= Seq::new(STACK_MAX as nat, |i: int| Value::<N>::Nil));
        }
        vm
    }

    /// Compiles `source` into the machine, to run from its first instruction
    /// with an empty stack. The names and strings of earlier sources are
    /// kept, and so are the globals. On a compile error the machine is left
    /// as it was, but for the strings the compiler interned.
    pub fn load(&mut self, source: &str) -> (r: Result<(), VMError>)
        requires
            old(self).wf(),
            source.spec_bytes().len() <= isize::MAX,
        ensures
            final(self).wf(),
            final(self).state().2 == old(self).state().2,
            final(self).state().3 == old(self).state().3,
            prefix_of(old(self).state().4, final(self).state().4),
            map_grows(old(self).global_slots(), final(self).global_slots()),
            match r {
                Ok(()) => {
                    &&& final(self).state().0 == 0
                    &&& final(self).state().1 == 0
                    &&& decodes(final(self).code().code@)
                    &&& final(self).code().code@.len() > 0
                    &&& final(self).code().code@.last() == opcode_byte(OpCode::Return)
                    &&& stack_balanced(final(self).code().code@)
                },
                Err(VMError::CompileError(errors)) => {
                    &&& errors@.len() > 0
                    &&& final(self).state().0 == old(self).state().0
                    &&& final(self).state().1 == old(self).state().1
                    &&& final(self).code() == old(self).code()
                },
                Err(VMError::RuntimeError(_)) => false,
            },
    {
        match Compiler::compile(source, &mut self.interner, &mut self.global_indices) {
            Ok(chunk) => {
                self.chunk = chunk;
                self.ip = 0;
                self.stack.truncate(0);
                Ok(())
            },
            Err(e) => Err(e),
        }
    }

    /// The digits of constant `k`, when it is a number.
    pub fn number_digits(&self, k: u8) -> (r: Option<&[u8]>)
        ensures
            match r {
                Some(d) => {
                    &&& k < self.code().constants@.len()
                    &&& self.code().constants@[k as int] matches Constant::Number(v)
                    &&& d@ == v@
                },
                None => !(k < self.code().constants@.len() && self.code().constants@[k as int] is Number),
            },
    {
        if (k as usize) < self.chunk.constants.len() {
            match &self.chunk.constants[k as usize] {
                Constant::Number(v) => Some(v.as_slice()),
                Constant::String(_) => None,
            }
        } else {
            None
        }
    }

    /// The text of string `id`, if there is one.
    pub fn string_text(&self, id: usize) -> (r: Option<&[u8]>)
        requires
            self.wf(),
        ensures
            r is Some <==> id < self.state().4.len(),
            r is Some ==> r.unwrap()@ == self.state().4[id as int],
    {
        if id < self.interner.len() {
            Some(self.interner.get(id).str.as_slice())
        } else {
            None
        }
    }

    /// The chunk being run.
    pub fn chunk(&self) -> (c: &Chunk)
        ensures
            *c == self.code(),
    {
        &self.chunk
    }

    /// The number of values on the stack.
    pub fn stack_len(&self) -> (n: usize)
        ensures
            n == self.state().1,
    {
        self.stack.len()
    }

    /// Hands the machine the number the host computed: it is pushed.
    pub fn push_number(&mut self, n: N)
        requires
            old(self).wf(),
            old(self).state().1 < STACK_MAX,
        ensures
            final(self).wf(),
            final(self).code() == old(self).code(),
            final(self).global_slots() == old(self).global_slots(),
            ({
                let (ip, len, slots, g, t) = old(self).state();
                final(self).state() == (ip, len + 1, slots.update(len, Value::Number(n)), g, t)
            }),
    {
        self.stack.push(Value::Number(n));
    }

    /// Hands the machine the truth value the host computed: it is pushed.
    pub fn push_bool(&mut self, b: bool)
        requires
            old(self).wf(),
            old(self).state().1 < STACK_MAX,
        ensures
            final(self).wf(),
            final(self).code() == old(self).code(),
            final(self).global_slots() == old(self).global_slots(),
            ({
                let (ip, len, slots, g, t) = old(self).state();
                final(self).state() == (ip, len + 1, slots.update(len, Value::Bool(b)), g, t)
            }),
    {
        self.stack.push(Value::Bool(b));
    }
    /// Pops the top value; its slot goes back to nil.
    fn pop_value(&mut self) -> (v: Value<N>)
        requires
            old(self).wf(),
            old(self).state().1 > 0,
        ensures
            final(self).wf(),
            final(self).chunk == old(self).chunk,
            final(self).global_indices == old(self).global_indices,
            ({
                let (ip, len, slots, g, t) = old(self).state();
                &&& v == slots[len - 1]
                &&& final(self).state() == (ip, len - 1, popped(slots, len), g, t)
            }),
    {
        proof {
            self.stack.lemma_wf();
        }
        let ghost len = self.stack.spec_len() as int;
        let v = self.stack.pop();
        proof {
            self.stack.lemma_wf();
            lemma_default_is_nil(self.stack.slots()[len - 1]);
            assert(self.stack.slots() =~= popped(old(self).stack.slots(), len));
        }
        v
    }

    /// Stops the run with `f`: the stack is emptied.
    fn fault(&mut self, f: Fault) -> (a: Action<N>)
        requires
            old(self).wf(),
        ensures
            final(self).wf(),
            final(self).chunk == old(self).chunk,
            final(self).global_indices == old(self).global_indices,
            (final(self).state(), a) == faulted(old(self).chunk, old(self).state(), f),
    {
        let line = if self.ip > 0 {
            self.chunk.get_line(self.ip - 1)
        } else {
            0
        };
        self.stack.truncate(0);
        Action::Error(f, line)
    }

    /// Pushes `v`, or faults when the stack is full.
    fn push_checked(&mut self, v: Value<N>) -> (a: Action<N>)
        requires
            old(self).wf(),
            value_interned(v, old(self).interner.texts().len()),
        ensures
            final(self).wf(),
            final(self).chunk == old(self).chunk,
            final(self).global_indices == old(self).global_indices,
            (final(self).state(), a) == push_step(old(self).chunk, old(self).state(), v),
    {
        proof {
            self.stack.lemma_wf();
        }
        if self.stack.is_full() {
            return self.fault(Fault::StackOverflow);
        }
        self.stack.push(v);
        Action::Continue
    }

    /// The value `offset` places below the top.
    fn peek_value(&self, offset: usize) -> (v: Value<N>)
        requires
            self.wf(),
            offset < self.state().1,
        ensures
            v == self.state().2[self.state().1 - 1 - offset],
    {
        proof {
            self.stack.lemma_wf();
        }
        self.stack.peek(offset)
    }

    fn constant(&mut self) -> (a: Action<N>)
        requires
            old(self).wf(),
        ensures
            final(self).wf(),
            final(self).chunk == old(self).chunk,
            final(self).global_indices == old(self).global_indices,
            (final(self).state(), a) == constant_step(old(self).chunk, old(self).state()),
    {
        proof {
            self.stack.lemma_wf();
        }
        if self.ip >= self.chunk.code.len() {
            return self.fault(Fault::EndOfCode);
        }
        let k = self.chunk.code[self.ip];
        self.ip = self.ip + 1;
        if k as usize >= self.chunk.constants.len() {
            return self.fault(Fault::UnknownConstant);
        }
        if self.stack.is_full() {
            return self.fault(Fault::StackOverflow);
        }
        let string_id = match &self.chunk.constants[k as usize] {
            Constant::Number(_) => None,
            Constant::String(id) => Some(*id),
        };
        match string_id {
            None => Action::ParseNumber(k),
            Some(id) => {
                self.stack.push(Value::String(id));
                Action::Continue
            },
        }
    }

    fn add(&mut self) -> (a: Action<N>)
        requires
            old(self).wf(),
        ensures
            final(self).wf(),
            final(self).chunk == old(self).chunk,
            final(self).global_indices == old(self).global_indices,
            (final(self).state(), a) == add_step(old(self).chunk, old(self).state()),
    {
        if self.stack.len() < 2 {
            return self.fault(Fault::StackUnderflow);
        }
        let b = self.peek_value(0);
        let a = self.peek_value(1);
        match (a, b) {
            (Value::Number(x), Value::Number(y)) => {
                self.pop_value();
                self.pop_value();
                Action::Arithmetic(Arith::Add, x, y)
            },
            (Value::String(x), Value::String(y)) => {
                let n = self.interner.len();
                if x >= n || y >= n {
                    return self.fault(Fault::UnknownString);
                }
                let mut joined = bytes_to_vec(self.interner.get(x).str.as_slice());
                let mut tail = bytes_to_vec(self.interner.get(y).str.as_slice());
                joined.append(&mut tail);
                let ghost t = self.interner.texts();
                let ghost text = t[x as int] + t[y as int];
                assert(joined@ == text);
                let id = self.interner.intern_bytes(joined.as_slice());
                proof {
                    let t2 = self.interner.texts();
                    self.interner.lemma_wf();
                    assert(t2 == interned_with(t, text));
                    let c = text_id(t2, text);
                    assert(0 <= c < t2.len() && t2[c] == text);
                    lemma_intern_ids_identify_texts(t2, c, id as int);
                }
                self.pop_value();
                self.pop_value();
                self.stack.push(Value::String(id));
                Action::Continue
            },
            _ => self.fault(Fault::OperandsNotAddable),
        }
    }

    fn numeric(&mut self, op: Arith) -> (a: Action<N>)
        requires
            old(self).wf(),
        ensures
            final(self).wf(),
            final(self).chunk == old(self).chunk,
            final(self).global_indices == old(self).global_indices,
            (final(self).state(), a) == numeric_step(old(self).chunk, old(self).state(), op),
    {
        if self.stack.len() < 2 {
            return self.fault(Fault::StackUnderflow);
        }
        let b = self.peek_value(0);
        let a = self.peek_value(1);
        match (a, b) {
            (Value::Number(x), Value::Number(y)) => {
                self.pop_value();
                self.pop_value();
                Action::Arithmetic(op, x, y)
            },
            _ => self.fault(Fault::OperandsNotNumbers),
        }
    }

    fn negate(&mut self) -> (a: Action<N>)
        requires
            old(self).wf(),
        ensures
            final(self).wf(),
            final(self).chunk == old(self).chunk,
            final(self).global_indices == old(self).global_indices,
            (final(self).state(), a) == negate_step(old(self).chunk, old(self).state()),
    {
        if self.stack.len() < 1 {
            return self.fault(Fault::StackUnderflow);
        }
        match self.peek_value(0) {
            Value::Number(x) => {
                self.pop_value();
                Action::Negate(x)
            },
            _ => self.fault(Fault::OperandNotNumber),
        }
    }

    fn not(&mut self) -> (a: Action<N>)
        requires
            old(self).wf(),
        ensures
            final(self).wf(),
            final(self).chunk == old(self).chunk,
            final(self).global_indices == old(self).global_indices,
            (final(self).state(), a) == not_step(old(self).chunk, old(self).state()),
    {
        if self.stack.len() < 1 {
            return self.fault(Fault::StackUnderflow);
        }
        let v = self.pop_value();
        self.stack.push(Value::Bool(v.is_falsey()));
        Action::Continue
    }

    fn equal(&mut self) -> (a: Action<N>)
        requires
            old(self).wf(),
        ensures
            final(self).wf(),
            final(self).chunk == old(self).chunk,
            final(self).global_indices == old(self).global_indices,
            (final(self).state(), a) == equal_step(old(self).chunk, old(self).state()),
    {
        if self.stack.len() < 2 {
            return self.fault(Fault::StackUnderflow);
        }
        let b = self.pop_value();
        let a = self.pop_value();
        match (a, b) {
            (Value::Number(x), Value::Number(y)) => Action::Arithmetic(Arith::Equal, x, y),
            _ => {
                self.stack.push(Value::Bool(same_value(&a, &b)));
                Action::Continue
            },
        }
    }

    fn switch_eq(&mut self) -> (a: Action<N>)
        requires
            old(self).wf(),
        ensures
            final(self).wf(),
            final(self).chunk == old(self).chunk,
            final(self).global_indices == old(self).global_indices,
            (final(self).state(), a) == switch_eq_step(old(self).chunk, old(self).state()),
    {
        if self.stack.len() < 2 {
            return self.fault(Fault::StackUnderflow);
        }
        let case = self.pop_value();
        let switch = self.peek_value(0);
        match (switch, case) {
            (Value::Number(x), Value::Number(y)) => Action::Arithmetic(Arith::Equal, x, y),
            _ => {
                self.stack.push(Value::Bool(same_value(&switch, &case)));
                Action::Continue
            },
        }
    }

    fn pop_or_print(&mut self, print: bool) -> (a: Action<N>)
        requires
            old(self).wf(),
        ensures
            final(self).wf(),
            final(self).chunk == old(self).chunk,
            final(self).global_indices == old(self).global_indices,
            (final(self).state(), a) == pop_step(old(self).chunk, old(self).state(), print),
    {
        if self.stack.len() < 1 {
            return self.fault(Fault::StackUnderflow);
        }
        let v = self.pop_value();
        if print {
            Action::Print(v)
        } else {
            Action::Continue
        }
    }
    /// The instructions with a one-byte slot operand.
    fn slot_op(&mut self, op: OpCode) -> (a: Action<N>)
        requires
            old(self).wf(),
            op == OpCode::GetLocal || op == OpCode::SetLocal || op == OpCode::DefineGlobal
                || op == OpCode::SetGlobal || op == OpCode::GetGlobal,
        ensures
            final(self).wf(),
            final(self).chunk == old(self).chunk,
            final(self).global_indices == old(self).global_indices,
            (final(self).state(), a) == slot_step(old(self).chunk, old(self).state(), op),
    {
        proof {
            self.stack.lemma_wf();
        }
        if self.ip >= self.chunk.code.len() {
            return self.fault(Fault::EndOfCode);
        }
        let k = self.chunk.code[self.ip] as usize;
        self.ip = self.ip + 1;
        match op {
            OpCode::GetLocal => {
                let v = self.stack.get(k);
                self.push_checked(v)
            },
            OpCode::SetLocal => {
                if self.stack.len() < 1 {
                    return self.fault(Fault::StackUnderflow);
                }
                let v = self.peek_value(0);
                self.stack.set(k, v);
                Action::Continue
            },
            OpCode::DefineGlobal => {
                if self.stack.len() < 1 {
                    return self.fault(Fault::StackUnderflow);
                }
                let v = self.pop_value();
                let ghost g = self.globals@;
                let ghost pre = *self;
                if k >= self.globals.len() {
                    while self.globals.len() <= k
                        invariant
                            self.chunk == pre.chunk,
                            self.ip == pre.ip,
                            self.stack == pre.stack,
                            self.interner == pre.interner,
                            self.global_indices == pre.global_indices,
                            pre.wf(),
                            g.len() <= self.globals@.len() <= k + 1,
                            self.globals@ == g + Seq::new(
                                (self.globals@.len() - g.len()) as nat,
                                |i: int| None::<Value<N>>,
                            ),
                        decreases k + 1 - self.globals@.len(),
                    {
                        let ghost before = self.globals@;
                        self.globals.push(None);
                        proof {
                            assert(self.globals@ =~= g + Seq::new(
                                (self.globals@.len() - g.len()) as nat,
                                |i: int| None::<Value<N>>,
                            ));
                        }
                    }
                }
                self.globals.set(k, Some(v));
                Action::Continue
            },
            OpCode::SetGlobal => {
                if k >= self.globals.len() {
                    return self.fault(Fault::UndefinedVariable);
                }
                if self.stack.len() < 1 {
                    return self.fault(Fault::StackUnderflow);
                }
                let v = self.peek_value(0);
                self.globals.set(k, Some(v));
                Action::Continue
            },
            _ => {
                if k < self.globals.len() {
                    match self.globals[k] {
                        Some(v) => self.push_checked(v),
                        None => self.fault(Fault::UndefinedVariable),
                    }
                } else {
                    self.fault(Fault::UndefinedVariable)
                }
            },
        }
    }

    /// `JumpIfFalse`, `Jump` and `Loop`.
    fn jump(&mut self, op: OpCode) -> (a: Action<N>)
        requires
            old(self).wf(),
            op == OpCode::JumpIfFalse || op == OpCode::Jump || op == OpCode::Loop,
        ensures
            final(self).wf(),
            final(self).chunk == old(self).chunk,
            final(self).global_indices == old(self).global_indices,
            (final(self).state(), a) == jump_step(old(self).chunk, old(self).state(), op),
    {
        proof {
            self.stack.lemma_wf();
        }
        let len = self.chunk.code.len();
        if self.ip >= len || self.ip + 1 >= len {
            return self.fault(Fault::EndOfCode);
        }
        let off = self.chunk.read_short(self.ip) as usize;
        self.ip = self.ip + 2;
        if op == OpCode::Loop {
            if off > self.ip {
                return self.fault(Fault::EndOfCode);
            }
            self.ip = self.ip - off;
            return Action::Continue;
        }
        if op == OpCode::JumpIfFalse && self.stack.len() < 1 {
            return self.fault(Fault::StackUnderflow);
        }
        let taken = op == OpCode::Jump || self.peek_value(0).is_falsey();
        if taken {
            if off > len - self.ip {
                return self.fault(Fault::EndOfCode);
            }
            self.ip = self.ip + off;
        }
        Action::Continue
    }

    /// Runs one instruction. What it does, and what it asks of the host, is
    /// `step_spec`.
    pub fn step(&mut self) -> (a: Action<N>)
        requires
            old(self).wf(),
        ensures
            final(self).wf(),
            final(self).code() == old(self).code(),
            final(self).global_slots() == old(self).global_slots(),
            (final(self).state(), a) == step_spec(old(self).code(), old(self).state()),
    {
        if self.ip >= self.chunk.code.len() {
            return self.fault(Fault::EndOfCode);
        }
        let byte = self.chunk.code[self.ip];
        self.ip = self.ip + 1;
        if byte >= OPCODE_COUNT {
            return self.fault(Fault::UnknownOpcode);
        }
        match OpCode::from_byte(byte) {
            OpCode::Constant => self.constant(),
            OpCode::Nil => self.push_checked(Value::Nil),
            OpCode::True => self.push_checked(Value::Bool(true)),
            OpCode::False => self.push_checked(Value::Bool(false)),
            OpCode::Add => self.add(),
            OpCode::Subtract => self.numeric(Arith::Subtract),
            OpCode::Multiply => self.numeric(Arith::Multiply),
            OpCode::Divide => self.numeric(Arith::Divide),
            OpCode::Greater => self.numeric(Arith::Greater),
            OpCode::Less => self.numeric(Arith::Less),
            OpCode::Negate => self.negate(),
            OpCode::Not => self.not(),
            OpCode::Equal => self.equal(),
            OpCode::SwitchEq => self.switch_eq(),
            OpCode::Print => self.pop_or_print(true),
            OpCode::Pop => self.pop_or_print(false),
            OpCode::GetLocal => self.slot_op(OpCode::GetLocal),
            OpCode::SetLocal => self.slot_op(OpCode::SetLocal),
            OpCode::DefineGlobal => self.slot_op(OpCode::DefineGlobal),
            OpCode::SetGlobal => self.slot_op(OpCode::SetGlobal),
            OpCode::GetGlobal => self.slot_op(OpCode::GetGlobal),
            OpCode::JumpIfFalse => self.jump(OpCode::JumpIfFalse),
            OpCode::Jump => self.jump(OpCode::Jump),
            OpCode::Loop => self.jump(OpCode::Loop),
            OpCode::Return => {
                self.stack.truncate(0);
                Action::Done
            },
            _ => self.fault(Fault::Unsupported),
        }
    }
}

/// Whether two values that are not both numbers are equal.
pub fn same_value<N>(a: &Value<N>, b: &Value<N>) -> (r: bool)
    requires
        !(a is Number && b is Number),
    ensures
        r == values_equal(*a, *b),
{
    match (a, b) {
        (Value::Nil, Value::Nil) => true,
        (Value::Bool(x), Value::Bool(y)) => *x == *y,
        (Value::String(x), Value::String(y)) => *x == *y,
        _ => false,
    }
}

/// A step that stops the run with an error leaves the stack empty.
pub proof fn lemma_fault_empties_stack<N>(chunk: Chunk, s: MachineState<N>)
    ensures
        step_spec(chunk, s).1 is Error ==> step_spec(chunk, s).0.1 == 0,
{
}

/// What `DefineGlobal k` stores, a following `GetGlobal k` pushes back: the
/// stack ends as it was before the definition.
pub proof fn lemma_define_then_get_global<N>(chunk: Chunk, s: MachineState<N>, k: u8)
    requires
        0 <= s.0,
        s.0 + 3 < chunk.code@.len(),
        chunk.code@[s.0] == opcode_byte(OpCode::DefineGlobal),
        chunk.code@[s.0 + 1] == k,
        chunk.code@[s.0 + 2] == opcode_byte(OpCode::GetGlobal),
        chunk.code@[s.0 + 3] == k,
        1 <= s.1 <= STACK_MAX,
        s.2.len() == STACK_MAX,
    ensures
        ({
            let (s1, a1) = step_spec(chunk, s);
            let (s2, a2) = step_spec(chunk, s1);
            &&& a1 is Continue
            &&& a2 is Continue
            &&& s2.0 == s.0 + 4
            &&& s2.1 == s.1
            &&& s2.2[s.1 - 1] == s.2[s.1 - 1]
            &&& s2.3[k as int] == Some(s.2[s.1 - 1])
        }),
{
    lemma_opcode_byte_roundtrip(OpCode::DefineGlobal, 0);
    lemma_opcode_byte_roundtrip(OpCode::GetGlobal, 0);
    let (s1, a1) = step_spec(chunk, s);
    assert(s1.3 == define_global(s.3, k as int, s.2[s.1 - 1]));
    assert(s1.3[k as int] == Some(s.2[s.1 - 1]));
}

/// Every string a well-formed machine holds is interned, so a step never
/// stops on a string it does not know.
pub proof fn lemma_strings_always_known<N: Copy>(vm: &VM<N>)
    requires
        vm.wf(),
    ensures
        !(step_spec(vm.code(), vm.state()).1 matches Action::Error(f, _) && f == Fault::UnknownString),
{
    vm.lemma_wf();
    let (ip, len, slots, g, t) = vm.state();
    if len >= 2 {
        assert(value_interned(slots[len - 2], t.len()));
        assert(value_interned(slots[len - 1], t.len()));
    }
}

/// On code the compiler made, a step from the start of an instruction never
/// finds the code cut short, an unknown or unsupported opcode, an unknown
/// constant or an unknown string; and when the run goes on, it goes on from
/// the start of an instruction.
#[verifier::rlimit(60)]
pub proof fn lemma_compiled_code_steps<N: Copy>(vm: &VM<N>)
    requires
        vm.wf(),
        instruction_start(vm.code().code@, vm.state().0),
    ensures
        ({
            let (s2, a) = step_spec(vm.code(), vm.state());
            &&& !(a matches Action::Error(f, _) && (f == Fault::EndOfCode || f == Fault::UnknownOpcode
                || f == Fault::UnknownConstant || f == Fault::UnknownString || f == Fault::Unsupported))
            &&& (a is Continue || a is Print || a is ParseNumber || a is Negate || a is Arithmetic)
                ==> instruction_start(vm.code().code@, s2.0)
        }),
{
    vm.lemma_wf();
    lemma_strings_always_known(vm);
    let chunk = vm.code();
    let code = chunk.code@;
    let n = chunk.constants@.len() as int;
    let k = vm.state().0;
    lemma_start_fits(code, 0, k);
    let b = code[k];
    lemma_opcode_byte_roundtrip(opcode_of(b), b);
    lemma_opcode_byte_roundtrip(OpCode::Return, b);
    lemma_opcode_byte_roundtrip(OpCode::Loop, b);
    lemma_opcode_byte_roundtrip(OpCode::Jump, b);
    lemma_opcode_byte_roundtrip(OpCode::JumpIfFalse, b);
    lemma_opcode_byte_roundtrip(OpCode::Constant, b);
    if b != opcode_byte(OpCode::Return) {
        lemma_next_start(code, n, k);
    }
    if is_branch(b) {
        assert(instruction_start(code, branch_target(code, k)));
    }
    assert(machine_op(b));
}

/// What the host still has to push after a step that asked `a` of it: the
/// number it reads, negates or computes.
pub open spec fn host_owes<N>(a: Action<N>) -> int {
    match a {
        Action::ParseNumber(_) | Action::Negate(_) | Action::Arithmetic(..) => 1,
        _ => 0,
    }
}

/// The run is at the start of an instruction of `code`, and the stack, with
/// the `owed` values the host has yet to push, is as deep as `depths` gives
/// there.
pub open spec fn on_track<N>(code: Seq<u8>, depths: Seq<int>, s: MachineState<N>, owed: int) -> bool {
    instruction_start(code, s.0) && s.1 + owed == depths[s.0]
}

/// A machine holding compiled code, at its first instruction with an empty
/// stack, is on track for depths of its code.
pub proof fn lemma_loaded_on_track<N: Copy>(vm: &VM<N>) -> (depths: Seq<int>)
    requires
        vm.wf(),
        vm.code().code@.len() > 0,
        vm.state().0 == 0,
        vm.state().1 == 0,
    ensures
        depths_fit(vm.code().code@, depths, Set::empty()),
        on_track(vm.code().code@, depths, vm.state(), 0),
{
    vm.lemma_wf();
    let code = vm.code().code@;
    let depths = choose|depths: Seq<int>| #[trigger] depths_fit(code, depths, Set::empty()) && depths[0] == 0;
    assert(instruction_start(code, 0));
    depths
}

/// On track, a step of compiled code never finds the stack too shallow for
/// its instruction, and a stack slot it names holds a value pushed and not
/// popped; and when the run goes on, it is on track again once the host has
/// pushed what it owes.
#[verifier::rlimit(60)]
pub proof fn lemma_on_track_step<N: Copy>(vm: &VM<N>, depths: Seq<int>)
    requires
        vm.wf(),
        depths_fit(vm.code().code@, depths, Set::empty()),
        on_track(vm.code().code@, depths, vm.state(), 0),
    ensures
        ({
            let (s2, a) = step_spec(vm.code(), vm.state());
            &&& !(a matches Action::Error(f, _) && f == Fault::StackUnderflow)
            &&& names_slot(vm.code().code@[vm.state().0]) ==> vm.code().code@[vm.state().0 + 1]
                < vm.state().1
            &&& (a is Continue || a is Print || a is ParseNumber || a is Negate || a is Arithmetic)
                ==> on_track(vm.code().code@, depths, s2, host_owes(a))
        }),
{
    vm.lemma_wf();
    lemma_compiled_code_steps(vm);
    let chunk = vm.code();
    let code = chunk.code@;
    let k = vm.state().0;
    lemma_start_fits(code, 0, k);
    let b = code[k];
    lemma_opcode_byte_roundtrip(opcode_of(b), b);
    lemma_opcode_byte_roundtrip(OpCode::Return, b);
    lemma_opcode_byte_roundtrip(OpCode::Loop, b);
    lemma_opcode_byte_roundtrip(OpCode::Jump, b);
    lemma_opcode_byte_roundtrip(OpCode::JumpIfFalse, b);
    assert(instruction_start(code, k));
    assert(machine_op(b));
}

/// `Equal` on two values that are not both numbers replaces them with
/// whether they are the same value (true == false gives false); two numbers
/// go to the host to compare.
pub proof fn lemma_equal_instruction<N>(chunk: Chunk, s: MachineState<N>)
    requires
        0 <= s.0 < chunk.code@.len(),
        chunk.code@[s.0] == opcode_byte(OpCode::Equal),
        2 <= s.1 <= STACK_MAX,
        s.2.len() == STACK_MAX,
    ensures
        ({
            let (s2, act) = step_spec(chunk, s);
            let (a, b) = (s.2[s.1 - 2], s.2[s.1 - 1]);
            &&& s2.0 == s.0 + 1
            &&& a is Number && b is Number ==> {
                &&& act == Action::Arithmetic(Arith::Equal, a->Number_0, b->Number_0)
                &&& s2.1 == s.1 - 2
            }
            &&& !(a is Number && b is Number) ==> {
                &&& act is Continue
                &&& s2.1 == s.1 - 1
                &&& s2.2[s.1 - 2] == Value::<N>::Bool(a == b)
            }
        }),
{
    lemma_opcode_byte_roundtrip(OpCode::Equal, 0);
    if !(s.2[s.1 - 2] is Number && s.2[s.1 - 1] is Number) {
        lemma_equal_is_sameness(s.2[s.1 - 2], s.2[s.1 - 1]);
    }
}

/// `SwitchEq` compares the case value on top with the switch value under it:
/// for values that are not both numbers the case value is replaced with
/// whether the two are the same value, and the switch value stays.
pub proof fn lemma_switch_eq_instruction<N>(chunk: Chunk, s: MachineState<N>)
    requires
        0 <= s.0 < chunk.code@.len(),
        chunk.code@[s.0] == opcode_byte(OpCode::SwitchEq),
        2 <= s.1 <= STACK_MAX,
        s.2.len() == STACK_MAX,
    ensures
        ({
            let (s2, act) = step_spec(chunk, s);
            let (a, b) = (s.2[s.1 - 2], s.2[s.1 - 1]);
            &&& s2.0 == s.0 + 1
            &&& !(a is Number && b is Number) ==> {
                &&& act is Continue
                &&& s2.1 == s.1
                &&& s2.2[s.1 - 2] == a
                &&& s2.2[s.1 - 1] == Value::<N>::Bool(a == b)
            }
        }),
{
    lemma_opcode_byte_roundtrip(OpCode::SwitchEq, 0);
    if !(s.2[s.1 - 2] is Number && s.2[s.1 - 1] is Number) {
        lemma_equal_is_sameness(s.2[s.1 - 2], s.2[s.1 - 1]);
    }
}

/// `Not` replaces the top value with whether it is nil or false: `!` of any
/// number or string is false.
pub proof fn lemma_not_instruction<N>(chunk: Chunk, s: MachineState<N>)
    requires
        0 <= s.0 < chunk.code@.len(),
        chunk.code@[s.0] == opcode_byte(OpCode::Not),
        1 <= s.1 <= STACK_MAX,
        s.2.len() == STACK_MAX,
    ensures
        ({
            let (s2, act) = step_spec(chunk, s);
            let v = s.2[s.1 - 1];
            &&& act is Continue
            &&& s2.0 == s.0 + 1
            &&& s2.1 == s.1
            &&& s2.2[s.1 - 1] == Value::<N>::Bool(v == Value::<N>::Nil || v == Value::<N>::Bool(false))
        }),
{
    lemma_opcode_byte_roundtrip(OpCode::Not, 0);
    lemma_only_nil_and_false_are_falsey(s.2[s.1 - 1]);
}

/// `JumpIfFalse` jumps exactly when the top value is nil or false, and leaves
/// the stack as it is: a condition that is a number or a string does not jump.
pub proof fn lemma_jump_if_false_instruction<N>(chunk: Chunk, s: MachineState<N>)
    requires
        0 <= s.0,
        s.0 + 2 < chunk.code@.len(),
        chunk.code@[s.0] == opcode_byte(OpCode::JumpIfFalse),
        s.0 + 3 + chunk.code@[s.0 + 1] * 256 + chunk.code@[s.0 + 2] <= chunk.code@.len(),
        1 <= s.1 <= STACK_MAX,
        s.2.len() == STACK_MAX,
    ensures
        ({
            let (s2, act) = step_spec(chunk, s);
            let v = s.2[s.1 - 1];
            let off = chunk.code@[s.0 + 1] * 256 + chunk.code@[s.0 + 2];
            &&& act is Continue
            &&& s2.1 == s.1
            &&& s2.2 == s.2
            &&& s2.0 == if v == Value::<N>::Nil || v == Value::<N>::Bool(false) {
                s.0 + 3 + off
            } else {
                s.0 + 3
            }
        }),
{
    lemma_opcode_byte_roundtrip(OpCode::JumpIfFalse, 0);
    lemma_only_nil_and_false_are_falsey(s.2[s.1 - 1]);
}

/// `Negate` on a number takes it off the stack and hands exactly that number
/// to the host to negate (the host pushes the result); on anything else it
/// stops the run with `OperandNotNumber`.
pub proof fn lemma_negate_instruction<N>(chunk: Chunk, s: MachineState<N>)
    requires
        0 <= s.0 < chunk.code@.len(),
        chunk.code@[s.0] == opcode_byte(OpCode::Negate),
        1 <= s.1 <= STACK_MAX,
        s.2.len() == STACK_MAX,
    ensures
        ({
            let (s2, act) = step_spec(chunk, s);
            let v = s.2[s.1 - 1];
            &&& v is Number ==> {
                &&& act == Action::<N>::Negate(v->Number_0)
                &&& s2.0 == s.0 + 1
                &&& s2.1 == s.1 - 1
                &&& s2.2[s.1 - 1] == Value::<N>::Nil
            }
            &&& !(v is Number) ==> (act matches Action::Error(f, _) && f == Fault::OperandNotNumber)
        }),
{
    lemma_opcode_byte_roundtrip(OpCode::Negate, 0);
}

} // verus!
