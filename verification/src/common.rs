use vstd::prelude::*;

verus! {

/// The instructions of the bytecode. Each is one byte, followed by its operand bytes.
#[derive(Debug, PartialEq, Eq, Copy, Clone, Structural)]
pub enum OpCode {
    Constant,
    Nil,
    True,
    False,
    Add,
    Subtract,
    Multiply,
    Divide,
    Negate,
    Not,
    Equal,
    Greater,
    Less,
    Print,
    Pop,
    Call,
    Invoke,
    Closure,
    CloseUpvalue,
    Return,
    Class,
    Method,
    SetProperty,
    GetProperty,
    DeleteProperty,
    SetIndex,
    GetIndex,
    SetLocal,
    GetLocal,
    DefineGlobal,
    SetGlobal,
    GetGlobal,
    SetUpvalue,
    GetUpvalue,
    JumpIfFalse,
    Jump,
    Loop,
    SwitchEq,
}

/// The byte that encodes each instruction: its position in the list above.
pub open spec fn opcode_byte(op: OpCode) -> u8 {
    match op {
        OpCode::Constant => 0u8,
        OpCode::Nil => 1u8,
        OpCode::True => 2u8,
        OpCode::False => 3u8,
        OpCode::Add => 4u8,
        OpCode::Subtract => 5u8,
        OpCode::Multiply => 6u8,
        OpCode::Divide => 7u8,
        OpCode::Negate => 8u8,
        OpCode::Not => 9u8,
        OpCode::Equal => 10u8,
        OpCode::Greater => 11u8,
        OpCode::Less => 12u8,
        OpCode::Print => 13u8,
        OpCode::Pop => 14u8,
        OpCode::Call => 15u8,
        OpCode::Invoke => 16u8,
        OpCode::Closure => 17u8,
        OpCode::CloseUpvalue => 18u8,
        OpCode::Return => 19u8,
        OpCode::Class => 20u8,
        OpCode::Method => 21u8,
        OpCode::SetProperty => 22u8,
        OpCode::GetProperty => 23u8,
        OpCode::DeleteProperty => 24u8,
        OpCode::SetIndex => 25u8,
        OpCode::GetIndex => 26u8,
        OpCode::SetLocal => 27u8,
        OpCode::GetLocal => 28u8,
        OpCode::DefineGlobal => 29u8,
        OpCode::SetGlobal => 30u8,
        OpCode::GetGlobal => 31u8,
        OpCode::SetUpvalue => 32u8,
        OpCode::GetUpvalue => 33u8,
        OpCode::JumpIfFalse => 34u8,
        OpCode::Jump => 35u8,
        OpCode::Loop => 36u8,
        OpCode::SwitchEq => 37u8,
    }
}

/// The instruction a byte encodes (the last one for bytes past the list).
pub open spec fn opcode_of(b: u8) -> OpCode {
    if b == 0 {
        OpCode::Constant
    } else if b == 1 {
        OpCode::Nil
    } else if b == 2 {
        OpCode::True
    } else if b == 3 {
        OpCode::False
    } else if b == 4 {
        OpCode::Add
    } else if b == 5 {
        OpCode::Subtract
    } else if b == 6 {
        OpCode::Multiply
    } else if b == 7 {
        OpCode::Divide
    } else if b == 8 {
        OpCode::Negate
    } else if b == 9 {
        OpCode::Not
    } else if b == 10 {
        OpCode::Equal
    } else if b == 11 {
        OpCode::Greater
    } else if b == 12 {
        OpCode::Less
    } else if b == 13 {
        OpCode::Print
    } else if b == 14 {
        OpCode::Pop
    } else if b == 15 {
        OpCode::Call
    } else if b == 16 {
        OpCode::Invoke
    } else if b == 17 {
        OpCode::Closure
    } else if b == 18 {
        OpCode::CloseUpvalue
    } else if b == 19 {
        OpCode::Return
    } else if b == 20 {
        OpCode::Class
    } else if b == 21 {
        OpCode::Method
    } else if b == 22 {
        OpCode::SetProperty
    } else if b == 23 {
        OpCode::GetProperty
    } else if b == 24 {
        OpCode::DeleteProperty
    } else if b == 25 {
        OpCode::SetIndex
    } else if b == 26 {
        OpCode::GetIndex
    } else if b == 27 {
        OpCode::SetLocal
    } else if b == 28 {
        OpCode::GetLocal
    } else if b == 29 {
        OpCode::DefineGlobal
    } else if b == 30 {
        OpCode::SetGlobal
    } else if b == 31 {
        OpCode::GetGlobal
    } else if b == 32 {
        OpCode::SetUpvalue
    } else if b == 33 {
        OpCode::GetUpvalue
    } else if b == 34 {
        OpCode::JumpIfFalse
    } else if b == 35 {
        OpCode::Jump
    } else if b == 36 {
        OpCode::Loop
    } else {
        OpCode::SwitchEq
    }
}

/// How many operand bytes follow each instruction.
pub open spec fn operand_count_of(op: OpCode) -> usize {
    match op {
        OpCode::Constant => 1usize,
        OpCode::Nil => 0usize,
        OpCode::True => 0usize,
        OpCode::False => 0usize,
        OpCode::Add => 0usize,
        OpCode::Subtract => 0usize,
        OpCode::Multiply => 0usize,
        OpCode::Divide => 0usize,
        OpCode::Negate => 0usize,
        OpCode::Not => 0usize,
        OpCode::Equal => 0usize,
        OpCode::Greater => 0usize,
        OpCode::Less => 0usize,
        OpCode::Print => 0usize,
        OpCode::Pop => 0usize,
        OpCode::Call => 1usize,
        OpCode::Invoke => 2usize,
        OpCode::Closure => 0usize,
        OpCode::CloseUpvalue => 0usize,
        OpCode::Return => 0usize,
        OpCode::Class => 1usize,
        OpCode::Method => 1usize,
        OpCode::SetProperty => 1usize,
        OpCode::GetProperty => 1usize,
        OpCode::DeleteProperty => 1usize,
        OpCode::SetIndex => 0usize,
        OpCode::GetIndex => 0usize,
        OpCode::SetLocal => 1usize,
        OpCode::GetLocal => 1usize,
        OpCode::DefineGlobal => 1usize,
        OpCode::SetGlobal => 1usize,
        OpCode::GetGlobal => 1usize,
        OpCode::SetUpvalue => 1usize,
        OpCode::GetUpvalue => 1usize,
        OpCode::JumpIfFalse => 2usize,
        OpCode::Jump => 2usize,
        OpCode::Loop => 2usize,
        OpCode::SwitchEq => 0usize,
    }
}

/// The number of instructions; every byte below it encodes one.
pub const OPCODE_COUNT: u8 = 38;

impl OpCode {
    /// The byte that encodes this instruction.
    pub fn to_byte(&self) -> (b: u8)
        ensures
            b == opcode_byte(*self),
            b < OPCODE_COUNT,
    {
        match self {
            OpCode::Constant => 0,
            OpCode::Nil => 1,
            OpCode::True => 2,
            OpCode::False => 3,
            OpCode::Add => 4,
            OpCode::Subtract => 5,
            OpCode::Multiply => 6,
            OpCode::Divide => 7,
            OpCode::Negate => 8,
            OpCode::Not => 9,
            OpCode::Equal => 10,
            OpCode::Greater => 11,
            OpCode::Less => 12,
            OpCode::Print => 13,
            OpCode::Pop => 14,
            OpCode::Call => 15,
            OpCode::Invoke => 16,
            OpCode::Closure => 17,
            OpCode::CloseUpvalue => 18,
            OpCode::Return => 19,
            OpCode::Class => 20,
            OpCode::Method => 21,
            OpCode::SetProperty => 22,
            OpCode::GetProperty => 23,
            OpCode::DeleteProperty => 24,
            OpCode::SetIndex => 25,
            OpCode::GetIndex => 26,
            OpCode::SetLocal => 27,
            OpCode::GetLocal => 28,
            OpCode::DefineGlobal => 29,
            OpCode::SetGlobal => 30,
            OpCode::GetGlobal => 31,
            OpCode::SetUpvalue => 32,
            OpCode::GetUpvalue => 33,
            OpCode::JumpIfFalse => 34,
            OpCode::Jump => 35,
            OpCode::Loop => 36,
            OpCode::SwitchEq => 37,
        }
    }

    /// The instruction a byte encodes. Bytes at or past `OPCODE_COUNT` encode
    /// none, and are not accepted.
    pub fn from_byte(byte: u8) -> (op: OpCode)
        requires
            byte < OPCODE_COUNT,
        ensures
            op == opcode_of(byte),
            opcode_byte(op) == byte,
    {
        if byte == 0 {
            OpCode::Constant
        } else if byte == 1 {
            OpCode::Nil
        } else if byte == 2 {
            OpCode::True
        } else if byte == 3 {
            OpCode::False
        } else if byte == 4 {
            OpCode::Add
        } else if byte == 5 {
            OpCode::Subtract
        } else if byte == 6 {
            OpCode::Multiply
        } else if byte == 7 {
            OpCode::Divide
        } else if byte == 8 {
            OpCode::Negate
        } else if byte == 9 {
            OpCode::Not
        } else if byte == 10 {
            OpCode::Equal
        } else if byte == 11 {
            OpCode::Greater
        } else if byte == 12 {
            OpCode::Less
        } else if byte == 13 {
            OpCode::Print
        } else if byte == 14 {
            OpCode::Pop
        } else if byte == 15 {
            OpCode::Call
        } else if byte == 16 {
            OpCode::Invoke
        } else if byte == 17 {
            OpCode::Closure
        } else if byte == 18 {
            OpCode::CloseUpvalue
        } else if byte == 19 {
            OpCode::Return
        } else if byte == 20 {
            OpCode::Class
        } else if byte == 21 {
            OpCode::Method
        } else if byte == 22 {
            OpCode::SetProperty
        } else if byte == 23 {
            OpCode::GetProperty
        } else if byte == 24 {
            OpCode::DeleteProperty
        } else if byte == 25 {
            OpCode::SetIndex
        } else if byte == 26 {
            OpCode::GetIndex
        } else if byte == 27 {
            OpCode::SetLocal
        } else if byte == 28 {
            OpCode::GetLocal
        } else if byte == 29 {
            OpCode::DefineGlobal
        } else if byte == 30 {
            OpCode::SetGlobal
        } else if byte == 31 {
            OpCode::GetGlobal
        } else if byte == 32 {
            OpCode::SetUpvalue
        } else if byte == 33 {
            OpCode::GetUpvalue
        } else if byte == 34 {
            OpCode::JumpIfFalse
        } else if byte == 35 {
            OpCode::Jump
        } else if byte == 36 {
            OpCode::Loop
        } else {
            OpCode::SwitchEq
        }
    }

    /// How many operand bytes follow this instruction.
    pub fn operand_count(&self) -> (n: usize)
        ensures
            n == operand_count_of(*self),
    {
        match self {
            OpCode::Constant => 1,
            OpCode::Nil => 0,
            OpCode::True => 0,
            OpCode::False => 0,
            OpCode::Add => 0,
            OpCode::Subtract => 0,
            OpCode::Multiply => 0,
            OpCode::Divide => 0,
            OpCode::Negate => 0,
            OpCode::Not => 0,
            OpCode::Equal => 0,
            OpCode::Greater => 0,
            OpCode::Less => 0,
            OpCode::Print => 0,
            OpCode::Pop => 0,
            OpCode::Call => 1,
            OpCode::Invoke => 2,
            OpCode::Closure => 0,
            OpCode::CloseUpvalue => 0,
            OpCode::Return => 0,
            OpCode::Class => 1,
            OpCode::Method => 1,
            OpCode::SetProperty => 1,
            OpCode::GetProperty => 1,
            OpCode::DeleteProperty => 1,
            OpCode::SetIndex => 0,
            OpCode::GetIndex => 0,
            OpCode::SetLocal => 1,
            OpCode::GetLocal => 1,
            OpCode::DefineGlobal => 1,
            OpCode::SetGlobal => 1,
            OpCode::GetGlobal => 1,
            OpCode::SetUpvalue => 1,
            OpCode::GetUpvalue => 1,
            OpCode::JumpIfFalse => 2,
            OpCode::Jump => 2,
            OpCode::Loop => 2,
            OpCode::SwitchEq => 0,
        }
    }
}

/// Decoding the encoding of an instruction gives the instruction back, and
/// every byte below `OPCODE_COUNT` is the encoding of the instruction it decodes to.
pub proof fn lemma_opcode_byte_roundtrip(op: OpCode, b: u8)
    ensures
        opcode_byte(op) < OPCODE_COUNT,
        opcode_of(opcode_byte(op)) == op,
        b < OPCODE_COUNT ==> opcode_byte(opcode_of(b)) == b,
{
}

impl From<OpCode> for u8 {
    fn from(value: OpCode) -> (b: u8) {
        value.to_byte()
    }
}

impl vstd::std_specs::convert::FromSpecImpl<OpCode> for u8 {
    open spec fn obeys_from_spec() -> bool {
        true
    }

    open spec fn from_spec(v: OpCode) -> u8 {
        opcode_byte(v)
    }
}

/// A constant of the constant pool. A number keeps the digits of its literal:
/// turning them into a floating-point value is left to whoever runs the code.
/// A string is the id its text was interned under.
#[derive(Debug, Clone)]
pub enum Constant {
    Number(Vec<u8>),
    String(usize),
}

/// A value of the machine. Numbers are of whatever type `N` the host does
/// its arithmetic in; a string is the id its text was interned under.
#[derive(Debug, Clone, Copy)]
pub enum Value<N> {
    Nil,
    Number(N),
    Bool(bool),
    String(usize),
}

impl<N> Default for Value<N> {
    fn default() -> (v: Self)
        ensures
            v is Nil,
    {
        Value::Nil
    }
}

/// `nil` and `false` are false; every other value is true.
pub open spec fn falsey<N>(v: Value<N>) -> bool {
    match v {
        Value::Nil => true,
        Value::Bool(b) => !b,
        _ => false,
    }
}

/// Equality of two values that are not both numbers: nil equals nil,
/// booleans and strings equal their like, and values of different kinds
/// differ. (Two strings are equal when their texts are, and interning gives
/// equal texts one id.)
pub open spec fn values_equal<N>(a: Value<N>, b: Value<N>) -> bool {
    match (a, b) {
        (Value::Nil, Value::Nil) => true,
        (Value::Bool(x), Value::Bool(y)) => x == y,
        (Value::String(x), Value::String(y)) => x == y,
        _ => false,
    }
}

/// Two values that are not both numbers are equal exactly when they are the
/// same value: nil only equals nil, a boolean only the same boolean, a string
/// only the same string, and values of different kinds never.
pub proof fn lemma_equal_is_sameness<N>(a: Value<N>, b: Value<N>)
    requires
        !(a is Number && b is Number),
    ensures
        values_equal(a, b) <==> a == b,
{
}

/// Only nil and false count as false in a condition: every number, every
/// string and `true` count as true.
pub proof fn lemma_only_nil_and_false_are_falsey<N>(v: Value<N>)
    ensures
        falsey(v) <==> (v == Value::<N>::Nil || v == Value::<N>::Bool(false)),
{
}

impl<N> Value<N> {
    /// Whether the value counts as false in a condition.
    pub fn is_falsey(&self) -> (b: bool)
        ensures
            b == falsey(*self),
    {
        match self {
            Value::Bool(x) => !*x,
            Value::Nil => true,
            _ => false,
        }
    }
}

} // verus!
