use vstd::prelude::*;
use vstd::string::{StringExecFns, StringSliceAdditionalSpecFns};
use std::collections::HashMap;

use crate::common::{opcode_byte, Constant, OpCode};
use crate::compiler::scanner::{Scanner, Token, TokenType, scan, lemma_scan};
use crate::object::{bytes_eq, bytes_to_vec};
use crate::text::{decimal, push_decimal};
use crate::common::{lemma_opcode_byte_roundtrip, OPCODE_COUNT};
use crate::vm::chunk::Chunk;
use crate::vm::shape::{
    boundary, branch_target, branches_land, compiled_shape, decodes, instruction_len,
    instruction_start, instructions_ok, is_branch, lemma_append_branches, lemma_append_instructions_ok,
    lemma_append_instruction, lemma_append_keeps_boundary, lemma_append_keeps_shape,
    lemma_closed_by_return, lemma_decodes_reaches_end, lemma_patch_branches, lemma_patch_instructions_ok,
    lemma_patch_keeps_boundary, lemma_patch_operands, lemma_patch_others, lemma_start_fits,
    machine_op, shape_kept,
};
use crate::vm::depth::{
    depths_fit, extend_depths, falls_through, lemma_append_depths, lemma_need_covers_net, lemma_patch_depths,
    names_slot,
    stack_balanced, stack_need, stack_net,
};
use crate::vm::interner::Interner;
use crate::vm::vm::{GlobalIndices, VMError};

verus! {

broadcast use vstd::std_specs::hash::group_hash_axioms;

/// How tightly an operator binds, loosest first.
#[derive(Debug, Clone, Copy, PartialEq, Eq, Structural)]
pub enum Precedence {
    Lowest,
    Assignment,
    Or,
    And,
    Equality,
    Comparison,
    Term,
    Factor,
    Unary,
    Call,
    Primary,
}

/// The rank of a precedence: higher binds tighter.
pub open spec fn prec_level(p: Precedence) -> u8 {
    match p {
        Precedence::Lowest => 0,
        Precedence::Assignment => 1,
        Precedence::Or => 2,
        Precedence::And => 3,
        Precedence::Equality => 4,
        Precedence::Comparison => 5,
        Precedence::Term => 6,
        Precedence::Factor => 7,
        Precedence::Unary => 8,
        Precedence::Call => 9,
        Precedence::Primary => 10,
    }
}

impl Precedence {
    /// The rank of this precedence: higher binds tighter.
    pub fn level(&self) -> (l: u8)
        ensures
            l == prec_level(*self),
    {
        match self {
            Precedence::Lowest => 0,
            Precedence::Assignment => 1,
            Precedence::Or => 2,
            Precedence::And => 3,
            Precedence::Equality => 4,
            Precedence::Comparison => 5,
            Precedence::Term => 6,
            Precedence::Factor => 7,
            Precedence::Unary => 8,
            Precedence::Call => 9,
            Precedence::Primary => 10,
        }
    }
}

/// The parsing routines a token can start (prefix) or continue (infix).
#[derive(Debug, Clone, Copy, PartialEq, Eq, Structural)]
pub enum ParseFn {
    Grouping,
    Unary,
    Binary,
    Number,
    Literal,
    Variable,
    String,
    And,
    Or,
}

/// An instruction `op` starts at `k` of `code`.
pub open spec fn op_at(code: Seq<u8>, k: int, op: OpCode) -> bool {
    instruction_start(code, k) && code[k] == opcode_byte(op)
}

/// A branch `op` starts at `k` of `code` and goes to `t`.
pub open spec fn branch_at(code: Seq<u8>, k: int, op: OpCode, t: int) -> bool {
    op_at(code, k, op) && branch_target(code, k) == t
}

/// The instructions that apply binary operator `k` to the two values on top
/// of the stack.
pub open spec fn binary_code(k: TokenType) -> Seq<u8> {
    match k {
        TokenType::Plus => seq![opcode_byte(OpCode::Add)],
        TokenType::Minus => seq![opcode_byte(OpCode::Subtract)],
        TokenType::Star => seq![opcode_byte(OpCode::Multiply)],
        TokenType::Slash => seq![opcode_byte(OpCode::Divide)],
        TokenType::BangEqual => seq![opcode_byte(OpCode::Equal), opcode_byte(OpCode::Not)],
        TokenType::EqualEqual => seq![opcode_byte(OpCode::Equal)],
        TokenType::Greater => seq![opcode_byte(OpCode::Greater)],
        TokenType::GreaterEqual => seq![opcode_byte(OpCode::Less), opcode_byte(OpCode::Not)],
        TokenType::Less => seq![opcode_byte(OpCode::Less)],
        _ => seq![opcode_byte(OpCode::Greater), opcode_byte(OpCode::Not)],
    }
}

/// The code of an `if` from offset `n`: after the condition, a `JumpIfFalse`
/// at `j` over the then-branch to the `Pop` that starts the else-branch, and
/// a `Pop` after it; after the then-branch, a `Jump` at `e` over the
/// else-branch to the end of the code.
pub open spec fn if_shape(c: Seq<u8>, n: int, j: int, e: int) -> bool {
    &&& n <= j
    &&& j + 4 <= e
    &&& branch_at(c, j, OpCode::JumpIfFalse, e + 3)
    &&& op_at(c, j + 3, OpCode::Pop)
    &&& branch_at(c, e, OpCode::Jump, c.len() as int)
    &&& op_at(c, e + 3, OpCode::Pop)
}

/// The code of a `while` from offset `n`: after the condition, a
/// `JumpIfFalse` at `j` to the final `Pop` and a `Pop` after it; after the
/// body, a `Loop` back to `n`, then the `Pop` that ends the code.
pub open spec fn while_shape(c: Seq<u8>, n: int, j: int) -> bool {
    &&& n <= j
    &&& j + 4 <= c.len() - 4
    &&& branch_at(c, j, OpCode::JumpIfFalse, c.len() - 1)
    &&& op_at(c, j + 3, OpCode::Pop)
    &&& branch_at(c, c.len() - 4, OpCode::Loop, n)
    &&& op_at(c, c.len() - 1, OpCode::Pop)
}

/// The code of a `for` from offset `n`: its body ends in a `Loop` at `l`
/// back to `t`, the start of its condition or of its increment, within the
/// statement's own code; only `Pop`s follow, of the condition's value and of
/// the loop variable.
pub open spec fn for_shape(c: Seq<u8>, n: int, l: int, t: int) -> bool {
    &&& n <= t <= l
    &&& l + 3 <= c.len()
    &&& branch_at(c, l, OpCode::Loop, t)
    &&& forall|i: int| l + 3 <= i < c.len() ==> c[i] == opcode_byte(OpCode::Pop)
}

/// The tokens that start a statement or declaration, where the compiler
/// resumes after an error.
pub open spec fn starts_statement(k: TokenType) -> bool {
    ||| k == TokenType::Class
    ||| k == TokenType::Fun
    ||| k == TokenType::Var
    ||| k == TokenType::For
    ||| k == TokenType::If
    ||| k == TokenType::While
    ||| k == TokenType::Print
    ||| k == TokenType::Return
}

/// The routines that continue an expression whose left operand is on the
/// stack.
pub open spec fn parse_fn_infix(f: ParseFn) -> bool {
    f == ParseFn::Binary || f == ParseFn::And || f == ParseFn::Or
}

/// How a token is parsed: as the start of an expression, as an operator, and
/// how tightly it binds as an operator.
#[derive(Debug, Clone, Copy)]
pub struct ParseRule {
    pub prefix: Option<ParseFn>,
    pub infix: Option<ParseFn>,
    pub precedence: Precedence,
}

/// The Pratt parsing table.
pub open spec fn rule_of(k: TokenType) -> ParseRule {
    match k {
        TokenType::LeftParen => ParseRule {
            prefix: Some(ParseFn::Grouping),
            infix: None,
            precedence: Precedence::Lowest,
        },
        TokenType::Minus => ParseRule {
            prefix: Some(ParseFn::Unary),
            infix: Some(ParseFn::Binary),
            precedence: Precedence::Term,
        },
        TokenType::Plus => ParseRule {
            prefix: None,
            infix: Some(ParseFn::Binary),
            precedence: Precedence::Term,
        },
        TokenType::Slash | TokenType::Star => ParseRule {
            prefix: None,
            infix: Some(ParseFn::Binary),
            precedence: Precedence::Factor,
        },
        TokenType::Number => ParseRule {
            prefix: Some(ParseFn::Number),
            infix: None,
            precedence: Precedence::Lowest,
        },
        TokenType::False | TokenType::True | TokenType::Nil => ParseRule {
            prefix: Some(ParseFn::Literal),
            infix: None,
            precedence: Precedence::Lowest,
        },
        TokenType::Bang => ParseRule {
            prefix: Some(ParseFn::Unary),
            infix: None,
            precedence: Precedence::Lowest,
        },
        TokenType::BangEqual | TokenType::EqualEqual => ParseRule {
            prefix: None,
            infix: Some(ParseFn::Binary),
            precedence: Precedence::Equality,
        },
        TokenType::Greater | TokenType::GreaterEqual | TokenType::Less | TokenType::LessEqual => {
            ParseRule { prefix: None, infix: Some(ParseFn::Binary), precedence: Precedence::Comparison }
        },
        TokenType::Identifier => ParseRule {
            prefix: Some(ParseFn::Variable),
            infix: None,
            precedence: Precedence::Lowest,
        },
        TokenType::String => ParseRule {
            prefix: Some(ParseFn::String),
            infix: None,
            precedence: Precedence::Lowest,
        },
        TokenType::And => ParseRule {
            prefix: None,
            infix: Some(ParseFn::And),
            precedence: Precedence::And,
        },
        TokenType::Or => ParseRule {
            prefix: None,
            infix: Some(ParseFn::Or),
            precedence: Precedence::Or,
        },
        _ => ParseRule { prefix: None, infix: None, precedence: Precedence::Lowest },
    }
}

/// Every token that binds as an operator has an infix routine, and the end of
/// the source binds as nothing.
pub proof fn lemma_rule_table(k: TokenType)
    ensures
        prec_level(rule_of(k).precedence) >= 1 ==> rule_of(k).infix is Some,
        prec_level(rule_of(TokenType::EOF).precedence) == 0,
        rule_of(k).prefix == Some(ParseFn::Literal) ==> (k == TokenType::False || k
            == TokenType::True || k == TokenType::Nil),
        rule_of(k).prefix == Some(ParseFn::Unary) ==> (k == TokenType::Minus || k
            == TokenType::Bang),
        rule_of(k).infix == Some(ParseFn::Binary) ==> is_binary_operator(k),
        rule_of(k).prefix == Some(ParseFn::String) ==> k == TokenType::String,
        rule_of(k).prefix is Some ==> k != TokenType::EOF,
        rule_of(k).prefix == Some(ParseFn::Grouping) ==> k == TokenType::LeftParen,
        rule_of(k).prefix == Some(ParseFn::Number) ==> k == TokenType::Number,
        rule_of(k).prefix == Some(ParseFn::Variable) ==> k == TokenType::Identifier,
        rule_of(k).infix is Some ==> prec_level(rule_of(k).precedence) <= 7,
        rule_of(k).infix == Some(ParseFn::And) ==> rule_of(k).precedence == Precedence::And,
        rule_of(k).infix == Some(ParseFn::Or) ==> rule_of(k).precedence == Precedence::Or,
{
}

/// A token continues an expression exactly when it binds as an operator:
/// it has an infix routine if and only if its precedence is above `Lowest`,
/// and an operator binds at least as `Or` does.
pub proof fn lemma_rule_table_converse(k: TokenType)
    ensures
        rule_of(k).infix is Some <==> prec_level(rule_of(k).precedence) >= 1,
        rule_of(k).infix is Some ==> prec_level(rule_of(k).precedence) >= prec_level(
            Precedence::Or,
        ),
{
}

/// The operators bind, loosest first: `or`, `and`, equality, comparison,
/// `+` and `-`, `*` and `/`; each group alike.
pub proof fn lemma_precedence_order()
    ensures
        prec_level(rule_of(TokenType::Or).precedence) < prec_level(rule_of(TokenType::And).precedence),
        prec_level(rule_of(TokenType::And).precedence) < prec_level(
            rule_of(TokenType::EqualEqual).precedence,
        ),
        rule_of(TokenType::EqualEqual).precedence == rule_of(TokenType::BangEqual).precedence,
        prec_level(rule_of(TokenType::EqualEqual).precedence) < prec_level(
            rule_of(TokenType::Less).precedence,
        ),
        rule_of(TokenType::Less).precedence == rule_of(TokenType::LessEqual).precedence,
        rule_of(TokenType::Less).precedence == rule_of(TokenType::Greater).precedence,
        rule_of(TokenType::Less).precedence == rule_of(TokenType::GreaterEqual).precedence,
        prec_level(rule_of(TokenType::Less).precedence) < prec_level(
            rule_of(TokenType::Plus).precedence,
        ),
        rule_of(TokenType::Plus).precedence == rule_of(TokenType::Minus).precedence,
        prec_level(rule_of(TokenType::Plus).precedence) < prec_level(
            rule_of(TokenType::Star).precedence,
        ),
        rule_of(TokenType::Star).precedence == rule_of(TokenType::Slash).precedence,
        prec_level(rule_of(TokenType::Star).precedence) < prec_level(Precedence::Unary),
{
}

/// The tokens `binary` compiles.
pub open spec fn is_binary_operator(k: TokenType) -> bool {
    ||| k == TokenType::Plus
    ||| k == TokenType::Minus
    ||| k == TokenType::Star
    ||| k == TokenType::Slash
    ||| k == TokenType::BangEqual
    ||| k == TokenType::EqualEqual
    ||| k == TokenType::Greater
    ||| k == TokenType::GreaterEqual
    ||| k == TokenType::Less
    ||| k == TokenType::LessEqual
}

/// A local variable: its name token and its scope depth (255 while its
/// initializer is being compiled).
#[derive(Debug, Copy, Clone)]
pub struct Local<'src> {
    pub token: Token<'src>,
    pub depth: u8,
}

impl<'src> Default for Local<'src> {
    fn default() -> (l: Self)
        ensures
            l.depth == 255,
            l.token.kind == TokenType::Dummy,
    {
        Local { token: Token::default(), depth: u8::MAX }
    }
}

/// A compile error: what went wrong, on which line, and at which token.
#[derive(Debug)]
pub struct CompileError {
    pub message: String,
    pub line: usize,
    pub location: ErrorLocation,
}

/// Where a compile error was found.
#[derive(Debug)]
pub enum ErrorLocation {
    EndOfFile,
    Lexeme(String),
    Unknown,
}

/// How a compile error names where it was found.
pub open spec fn location_text(l: ErrorLocation) -> Seq<char> {
    match l {
        ErrorLocation::EndOfFile => " at end"@,
        ErrorLocation::Lexeme(s) => " at '"@ + s@ + "'"@,
        ErrorLocation::Unknown => Seq::empty(),
    }
}

/// The report of a compile error: `[line N] Error at 'x': message`.
pub open spec fn compile_error_text(e: CompileError) -> Seq<char> {
    "[line "@ + decimal(e.line as nat) + "] Error"@ + location_text(e.location) + ": "@ + e.message@
}

impl CompileError {
    /// The report of this error, as it is shown to the user.
    pub fn to_text(&self) -> (r: String)
        ensures
            r@ == compile_error_text(*self),
    {
        let mut r = "[line ".to_owned();
        push_decimal(&mut r, self.line);
        r.append("] Error");
        match &self.location {
            ErrorLocation::EndOfFile => r.append(" at end"),
            ErrorLocation::Lexeme(s) => {
                r.append(" at '");
                r.append(s.as_str());
                r.append("'");
            },
            ErrorLocation::Unknown => {},
        }
        r.append(": ");
        r.append(self.message.as_str());
        proof {
            assert(r@ =~= compile_error_text(*self));
        }
        r
    }
}

/// The text that `String::from_utf8_lossy` makes of some bytes.
pub uninterp spec fn utf8_lossy_text(b: Seq<u8>) -> Seq<char>;

/// Calls `String::from_utf8_lossy`: the bytes as text, each ill-formed
/// sequence replaced by U+FFFD. The contract names the text without saying more.
#[verifier::external_body]
fn text_from_utf8_lossy(b: &[u8]) -> (s: String)
    ensures
        s@ == utf8_lossy_text(b@),
{
    String::from_utf8_lossy(b).into_owned()
}

/// The bytes of "unexpected token ".
pub open spec fn unexpected_token_prefix() -> Seq<u8> {
    seq![117u8, 110u8, 101u8, 120u8, 112u8, 101u8, 99u8, 116u8, 101u8, 100u8, 32u8, 116u8, 111u8,
    107u8, 101u8, 110u8, 32u8]
}

/// Every name has a slot of its own, and the slots are the first
/// `m.len()` numbers.
pub open spec fn slots_dense(m: Map<usize, u8>) -> bool {
    &&& forall|a: usize| #[trigger] m.dom().contains(a) ==> (m[a] as int) < m.len()
    &&& forall|a: usize, b: usize|
        #[trigger] m.dom().contains(a) && #[trigger] m.dom().contains(b) && a != b ==> m[a] != m[b]
}

/// Giving a new name the next slot, as `global_slot` does, keeps every name
/// on a slot of its own while there are at most 256 names.
pub proof fn lemma_global_slots_dense(m: Map<usize, u8>, id: usize)
    requires
        m.dom().finite(),
        slots_dense(m),
        m.len() < 256,
        !m.dom().contains(id),
    ensures
        slots_dense(m.insert(id, (m.len() % 256) as u8)),
        m.insert(id, (m.len() % 256) as u8).len() == m.len() + 1,
{
    let m2 = m.insert(id, (m.len() % 256) as u8);
    assert(m2.dom() == m.dom().insert(id));
    assert(m2.len() == m.len() + 1);
}

/// `a` is an initial part of `b`.
pub open spec fn prefix_of<T>(a: Seq<T>, b: Seq<T>) -> bool {
    a.len() <= b.len() && forall|i: int| 0 <= i < a.len() ==> #[trigger] b[i] == a[i]
}

/// Every entry of `a` is in `b` with the same value.
pub open spec fn map_grows(a: Map<usize, u8>, b: Map<usize, u8>) -> bool {
    forall|k: usize| #[trigger] a.contains_key(k) ==> b.contains_key(k) && b[k] == a[k]
}

/// Every string constant names one of the first `n` interned texts.
pub open spec fn constants_interned(consts: Seq<Constant>, n: nat) -> bool {
    forall|k: int|
        0 <= k < consts.len() ==> (#[trigger] consts[k] matches Constant::String(id) ==> id < n)
}

/// A string token spans at least its two quotes.
pub open spec fn token_ok(t: Token) -> bool {
    t.kind == TokenType::String ==> t.lexeme@.len() >= 2
}

/// `x` wrapped into the range of `usize`, as `wrapping_add` does.
pub open spec fn wrap_usize(x: int) -> usize {
    if 0 <= x <= usize::MAX {
        x as usize
    } else {
        (x - (usize::MAX + 1)) as usize
    }
}

/// The high byte of a 16-bit jump distance.
pub open spec fn hi_byte(x: usize) -> u8 {
    ((x / 256) % 256) as u8
}

/// The low byte of a 16-bit jump distance.
pub open spec fn lo_byte(x: usize) -> u8 {
    (x % 256) as u8
}

/// A distance that fits in 16 bits is given back by its two bytes, high
/// byte first: what `Chunk::read_short` reads is what a jump was patched with.
pub proof fn lemma_jump_operand_roundtrip(x: usize)
    requires
        x <= 65535,
    ensures
        hi_byte(x) as int * 256 + lo_byte(x) as int == x,
{
}

/// The operand of a jump instruction, not yet patched, starts at `at`: the
/// jump itself starts an instruction at `at - 1`.
pub open spec fn pending_jump(code: Seq<u8>, at: int) -> bool {
    &&& at >= 1
    &&& instruction_start(code, at - 1)
    &&& instruction_len(code[at - 1]) == 3
    &&& is_branch(code[at - 1])
    &&& code[at - 1] != opcode_byte(OpCode::Loop)
}

/// The branches take three bytes; `Constant` takes two.
proof fn lemma_branch_lengths()
    ensures
        instruction_len(opcode_byte(OpCode::Jump)) == 3,
        instruction_len(opcode_byte(OpCode::JumpIfFalse)) == 3,
        instruction_len(opcode_byte(OpCode::Loop)) == 3,
        instruction_len(opcode_byte(OpCode::Constant)) == 2,
        is_branch(opcode_byte(OpCode::Jump)),
        is_branch(opcode_byte(OpCode::JumpIfFalse)),
        is_branch(opcode_byte(OpCode::Loop)),
        forall|b: u8| #[trigger] is_branch(b) ==> instruction_len(b) == 3,
{
    lemma_opcode_byte_roundtrip(OpCode::Jump, 0);
    lemma_opcode_byte_roundtrip(OpCode::JumpIfFalse, 0);
    lemma_opcode_byte_roundtrip(OpCode::Loop, 0);
    lemma_opcode_byte_roundtrip(OpCode::Constant, 0);
}

/// The pending jumps are those pending before, and the exits `ej` not yet
/// patched from `i` on; the exits grow and none was pending before.
pub open spec fn exits_pending(p: Set<int>, p0: Set<int>, ej: Seq<usize>, i: int) -> bool {
    &&& forall|x: int|
        #[trigger] p.contains(x) <==> (p0.contains(x) || exists|m: int|
            i <= m < ej.len() && ej[m] == x)
    &&& forall|m: int, n: int| 0 <= m < n < ej.len() ==> #[trigger] ej[m] < #[trigger] ej[n]
    &&& forall|m: int| 0 <= m < ej.len() ==> !p0.contains(#[trigger] ej[m] as int)
}

/// A new exit past every earlier one joins the pending exits.
proof fn lemma_exit_pushed(p0: Set<int>, p: Set<int>, ej: Seq<usize>, j: usize, bound: int, p2: Set<int>)
    requires
        exits_pending(p, p0, ej, 0),
        forall|m: int| 0 <= m < ej.len() ==> #[trigger] ej[m] <= bound,
        j > bound,
        !p.contains(j as int),
        p2 == p.insert(j as int),
    ensures
        exits_pending(p2, p0, ej.push(j), 0),
{
    let ej2 = ej.push(j);
    assert forall|x: int| #[trigger] p2.contains(x) <==> (p0.contains(x) || exists|m: int|
        0 <= m < ej2.len() && ej2[m] == x) by {
        if x == j {
            assert(ej2[ej.len() as int] == j);
        }
        if exists|m: int| 0 <= m < ej2.len() && ej2[m] == x {
            let m = choose|m: int| 0 <= m < ej2.len() && ej2[m] == x;
            if m < ej.len() {
                assert(ej[m] == x);
            }
        }
        if exists|m: int| 0 <= m < ej.len() && ej[m] == x {
            let m = choose|m: int| 0 <= m < ej.len() && ej[m] == x;
            assert(ej2[m] == x);
        }
    }
    assert forall|m: int, n: int| 0 <= m < n < ej2.len() implies #[trigger] ej2[m] < #[trigger] ej2[n] by {
        if n == ej.len() {
            assert(ej2[m] == ej[m]);
        } else {
            assert(ej2[m] == ej[m] && ej2[n] == ej[n]);
        }
    }
    assert forall|m: int| 0 <= m < ej2.len() implies !p0.contains(#[trigger] ej2[m] as int) by {
        if m < ej.len() {
            assert(ej2[m] == ej[m]);
        } else {
            assert(p0.subset_of(p));
        }
    }
}

/// Patching exit `i` takes it out of the pending exits.
proof fn lemma_exit_patched(p0: Set<int>, p: Set<int>, ej: Seq<usize>, i: int, p2: Set<int>)
    requires
        exits_pending(p, p0, ej, i),
        0 <= i < ej.len(),
        p2 == p.remove(ej[i] as int),
    ensures
        exits_pending(p2, p0, ej, i + 1),
        p.contains(ej[i] as int),
{
    assert forall|x: int| #[trigger] p2.contains(x) <==> (p0.contains(x) || exists|m: int|
        i + 1 <= m < ej.len() && ej[m] == x) by {
        if exists|m: int| i + 1 <= m < ej.len() && ej[m] == x {
            let m = choose|m: int| i + 1 <= m < ej.len() && ej[m] == x;
            assert(ej[i] < ej[m]);
        }
        if exists|m: int| i <= m < ej.len() && ej[m] == x {
            let m = choose|m: int| i <= m < ej.len() && ej[m] == x;
            if m == i {
                assert(x == ej[i]);
            }
        }
    }
    assert(ej[i] == ej[i]);
}

/// How deep inside parentheses the reading is after the first `n` tokens of
/// `seg`.
pub open spec fn paren_depth(seg: Seq<TokenType>, n: int) -> int
    decreases n,
{
    if n <= 0 || n > seg.len() {
        0
    } else {
        paren_depth(seg, n - 1) + if seg[n - 1] == TokenType::LeftParen {
            1int
        } else if seg[n - 1] == TokenType::RightParen {
            -1int
        } else {
            0int
        }
    }
}

/// `seg` closes every parenthesis it opens, and only those.
pub open spec fn parens_nested(seg: Seq<TokenType>) -> bool {
    &&& forall|n: int| 0 <= n <= seg.len() ==> #[trigger] paren_depth(seg, n) >= 0
    &&& paren_depth(seg, seg.len() as int) == 0
}

/// The tokens that end an operand: a token right after one of them that has
/// an infix rule is read as an infix operator.
pub open spec fn ends_operand(k: TokenType) -> bool {
    ||| k == TokenType::Number
    ||| k == TokenType::String
    ||| k == TokenType::Identifier
    ||| k == TokenType::True
    ||| k == TokenType::False
    ||| k == TokenType::Nil
    ||| k == TokenType::RightParen
}

/// In the tokens `seg` of an operand, every infix operator that follows an
/// operand outside parentheses binds at precedence level `p` or tighter: no
/// operator that binds more loosely is folded into the operand.
pub open spec fn operators_bind_at(seg: Seq<TokenType>, p: int) -> bool {
    forall|i: int|
        0 < i < seg.len() && paren_depth(seg, i) == 0 && ends_operand(seg[i - 1]) && (
        #[trigger] rule_of(seg[i])).infix is Some ==> prec_level(rule_of(seg[i]).precedence) >= p
}

/// An operator that binds more loosely than `p` stands in an operand read at
/// `p` only inside parentheses, or where it cannot be infix (right after
/// another operator or at the start).
pub proof fn lemma_looser_operator_not_folded(seg: Seq<TokenType>, p: int, i: int)
    requires
        operators_bind_at(seg, p),
        0 < i < seg.len(),
        rule_of(seg[i]).infix is Some,
        prec_level(rule_of(seg[i]).precedence) < p,
    ensures
        paren_depth(seg, i) != 0 || !ends_operand(seg[i - 1]),
{
}

proof fn lemma_depth_prefix(a: Seq<TokenType>, b: Seq<TokenType>, n: int)
    requires
        0 <= n <= a.len(),
    ensures
        paren_depth(a + b, n) == paren_depth(a, n),
    decreases n,
{
    if n > 0 {
        lemma_depth_prefix(a, b, n - 1);
        assert((a + b)[n - 1] == a[n - 1]);
    }
}

proof fn lemma_depth_concat(a: Seq<TokenType>, b: Seq<TokenType>, n: int)
    requires
        0 <= n <= b.len(),
    ensures
        paren_depth(a + b, a.len() + n) == paren_depth(a, a.len() as int) + paren_depth(b, n),
    decreases n,
{
    if n > 0 {
        lemma_depth_concat(a, b, n - 1);
        assert((a + b)[a.len() + n - 1] == b[n - 1]);
    } else {
        lemma_depth_prefix(a, b, a.len() as int);
    }
}

/// Joining a read operand `a`, an infix operator binding at least at `p`,
/// and that operator's right operand `r`, read at the operator's own level,
/// gives an operand read at `p`.
proof fn lemma_infix_joined(a: Seq<TokenType>, op: TokenType, r: Seq<TokenType>, p: int)
    requires
        parens_nested(a),
        operators_bind_at(a, p),
        rule_of(op).infix is Some,
        prec_level(rule_of(op).precedence) >= p,
        parens_nested(r),
        operators_bind_at(r, prec_level(rule_of(op).precedence) as int),
    ensures
        parens_nested(a.push(op) + r),
        operators_bind_at(a.push(op) + r, p),
{
    lemma_rule_table(op);
    let ao = a.push(op);
    let s = ao + r;
    assert(ao[a.len() as int] == op);
    assert(paren_depth(ao, ao.len() as int) == 0) by {
        lemma_depth_prefix(a, seq![op], a.len() as int);
        assert(a.push(op) =~= a + seq![op]);
    }
    assert forall|n: int| 0 <= n <= ao.len() implies #[trigger] paren_depth(ao, n) >= 0 by {
        assert(a.push(op) =~= a + seq![op]);
        if n <= a.len() {
            lemma_depth_prefix(a, seq![op], n);
        }
    }
    assert forall|n: int| 0 <= n <= s.len() implies #[trigger] paren_depth(s, n) >= 0 by {
        if n <= ao.len() {
            lemma_depth_prefix(ao, r, n);
        } else {
            lemma_depth_concat(ao, r, n - ao.len());
        }
    }
    lemma_depth_concat(ao, r, r.len() as int);
    assert forall|i: int|
        0 < i < s.len() && paren_depth(s, i) == 0 && ends_operand(s[i - 1]) && (
        #[trigger] rule_of(s[i])).infix is Some implies prec_level(rule_of(s[i]).precedence) >= p by {
        if i < a.len() {
            lemma_depth_prefix(ao, r, i);
            assert(a.push(op) =~= a + seq![op]);
            lemma_depth_prefix(a, seq![op], i);
            assert(s[i] == a[i] && s[i - 1] == a[i - 1]);
        } else if i == a.len() {
            assert(s[i] == op);
        } else if i > ao.len() {
            let j = i - ao.len();
            lemma_depth_concat(ao, r, j);
            assert(s[i] == r[j] && s[i - 1] == r[j - 1]);
        } else {
            assert(s[i - 1] == op);
        }
    }
}

/// A parenthesised operand: every token inside is deeper than the outside,
/// so any operator may stand in it.
proof fn lemma_grouped(e: Seq<TokenType>, p: int)
    requires
        parens_nested(e),
    ensures
        parens_nested(seq![TokenType::LeftParen] + e + seq![TokenType::RightParen]),
        operators_bind_at(seq![TokenType::LeftParen] + e + seq![TokenType::RightParen], p),
{
    let l = seq![TokenType::LeftParen];
    let le = l + e;
    let s = le + seq![TokenType::RightParen];
    assert(paren_depth(l, 0) == 0);
    assert(l[0] == TokenType::LeftParen);
    assert(paren_depth(l, 1) == 1);
    assert forall|n: int| 1 <= n <= le.len() implies paren_depth(le, n) == 1 + paren_depth(e, n - 1) by {
        lemma_depth_concat(l, e, n - 1);
    }
    assert forall|n: int| 0 <= n <= le.len() implies paren_depth(s, n) == paren_depth(le, n) by {
        lemma_depth_prefix(le, seq![TokenType::RightParen], n);
    }
    lemma_depth_concat(le, seq![TokenType::RightParen], 1);
    assert(paren_depth(seq![TokenType::RightParen], 0) == 0);
    assert(seq![TokenType::RightParen][0] == TokenType::RightParen);
    assert(paren_depth(seq![TokenType::RightParen], 1) == -1);
    assert forall|n: int| 0 <= n <= s.len() implies #[trigger] paren_depth(s, n) >= 0 by {
        if n >= 1 && n <= le.len() {
            assert(paren_depth(e, n - 1) >= 0);
        }
    }
    assert forall|i: int|
        0 < i < s.len() && paren_depth(s, i) == 0 && ends_operand(s[i - 1]) && (
        #[trigger] rule_of(s[i])).infix is Some implies prec_level(rule_of(s[i]).precedence) >= p by {
        assert(paren_depth(e, i - 1) >= 0);
    }
}

/// A token that no infix operator can follow (or an operand whose first
/// token is no operator), followed by an operand read at `q`.
proof fn lemma_prefixed(t: TokenType, r: Seq<TokenType>, q: int)
    requires
        t != TokenType::LeftParen && t != TokenType::RightParen,
        !ends_operand(t) || r.len() == 0 || rule_of(r[0]).infix is None,
        parens_nested(r),
        operators_bind_at(r, q),
    ensures
        parens_nested(seq![t] + r),
        operators_bind_at(seq![t] + r, q),
{
    let s = seq![t] + r;
    assert(paren_depth(seq![t], 0) == 0);
    assert(seq![t][0] == t);
    assert(paren_depth(seq![t], 1) == 0);
    assert forall|n: int| 0 <= n <= s.len() implies #[trigger] paren_depth(s, n) >= 0 by {
        if n >= 1 {
            lemma_depth_concat(seq![t], r, n - 1);
        }
    }
    lemma_depth_concat(seq![t], r, r.len() as int);
    assert forall|i: int|
        0 < i < s.len() && paren_depth(s, i) == 0 && ends_operand(s[i - 1]) && (
        #[trigger] rule_of(s[i])).infix is Some implies prec_level(rule_of(s[i]).precedence) >= q by {
        lemma_depth_concat(seq![t], r, i - 1);
        assert(s[i] == r[i - 1]);
        if i > 1 {
            assert(s[i - 1] == r[i - 2]);
        }
    }
}

/// An operand read at a level above every infix operator holds no infix
/// operator outside parentheses after an operand, so it is read at any level;
/// and reading at a level is reading at every lower one.
proof fn lemma_bind_weaken(seg: Seq<TokenType>, q: int, p: int)
    requires
        operators_bind_at(seg, q),
        p <= q || q >= 8,
    ensures
        operators_bind_at(seg, p),
{
    assert forall|i: int|
        0 < i < seg.len() && paren_depth(seg, i) == 0 && ends_operand(seg[i - 1]) && (
        #[trigger] rule_of(seg[i])).infix is Some implies prec_level(rule_of(seg[i]).precedence) >= p by {
        lemma_rule_table(seg[i]);
    }
}

/// `locals` is `base` followed by locals of scope depth `s`.
pub open spec fn extends_in_scope<'a>(base: Seq<Local<'a>>, locals: Seq<Local<'a>>, s: u8) -> bool {
    &&& base.len() <= locals.len()
    &&& locals.subrange(0, base.len() as int) == base
    &&& forall|i: int| base.len() <= i < locals.len() ==> #[trigger] locals[i].depth == s
}

proof fn lemma_extends_refl<'a>(base: Seq<Local<'a>>, s: u8)
    ensures
        extends_in_scope(base, base, s),
{
    assert(base.subrange(0, base.len() as int) =~= base);
}

proof fn lemma_extends_trans<'a>(a: Seq<Local<'a>>, b: Seq<Local<'a>>, c: Seq<Local<'a>>, s: u8)
    requires
        extends_in_scope(a, b, s),
        extends_in_scope(b, c, s),
    ensures
        extends_in_scope(a, c, s),
{
    assert(c.subrange(0, a.len() as int) =~= b.subrange(0, a.len() as int));
    assert forall|i: int| a.len() <= i < c.len() implies #[trigger] c[i].depth == s by {
        if i < b.len() {
            assert(c[i] == c.subrange(0, b.len() as int)[i]);
        }
    }
}

/// Leaving a scope of depth `s + 1` whose own locals follow `base`, and in
/// which every local of `base` was declared at depth `s` or less, pops
/// exactly the scope's own locals.
proof fn lemma_scope_closed<'a>(base: Seq<Local<'a>>, mid: Seq<Local<'a>>, fin: Seq<Local<'a>>, s: u8)
    requires
        s < 255,
        extends_in_scope(base, mid, (s + 1) as u8),
        forall|i: int| 0 <= i < base.len() ==> #[trigger] base[i].depth <= s,
        fin.len() <= mid.len(),
        fin == mid.subrange(0, fin.len() as int),
        forall|i: int| fin.len() <= i < mid.len() ==> #[trigger] mid[i].depth > s,
        fin.len() > 0 ==> fin.last().depth <= s,
    ensures
        fin == base,
{
    if fin.len() < base.len() {
        let i = fin.len() as int;
        assert(mid[i] == mid.subrange(0, base.len() as int)[i]);
        assert(base[i].depth <= s);
        assert(mid[i].depth > s);
    } else if fin.len() > base.len() {
        let i = fin.len() - 1;
        assert(fin.last() == mid[i]);
        assert(mid[i].depth == s + 1);
    }
    assert(fin =~= base);
}

/// Translates Lox source into a chunk of bytecode in one pass, reporting the
/// errors it finds.
pub struct Compiler<'src> {
    chunk: Chunk,
    scanner: Scanner<'src>,
    previous: Token<'src>,
    current: Token<'src>,
    interner: Interner,
    global_indices: GlobalIndices,
    errors: Vec<CompileError>,
    locals: Vec<Local<'src>>,
    scope_depth: u8,
    can_assign: bool,
    had_error: bool,
    panic_mode: bool,
    /// The operand offsets of the jumps emitted and not yet patched.
    pending: Ghost<Set<int>>,
    /// The depth of the stack at each offset of the code and at its end.
    depths: Ghost<Seq<int>>,
    /// The kinds of the tokens read so far, in order.
    read: Ghost<Seq<TokenType>>,
}

impl<'src> Compiler<'src> {
    /// What is left to read: twice the unread bytes, plus one while the
    /// current token is not the end. Every routine that consumes a token
    /// makes it smaller.
    pub closed spec fn measure(&self) -> nat {
        (2 * (self.scanner.source().len() - self.scanner.pos()) + if self.current.kind
            == TokenType::EOF {
            0int
        } else {
            1int
        }) as nat
    }

    /// The compiler's invariant: that of its parts, and the code emitted so
    /// far is a run of whole instructions; while no error was found, its
    /// branches land and its stack depths fit.
    pub closed spec fn wf(&self) -> bool {
        &&& self.wf_base()
        &&& decodes(self.chunk.code@)
        &&& forall|at: int| #[trigger] self.pending@.contains(at) ==> pending_jump(self.chunk.code@, at)
        &&& !self.had_error ==> branches_land(self.chunk.code@, self.pending@)
        &&& instructions_ok(self.chunk.code@, self.chunk.constants@.len() as int)
        &&& self.depths@.len() == self.chunk.code@.len() + 1
        &&& self.depths@[0] == 0
        &&& !self.had_error ==> depths_fit(self.chunk.code@, self.depths@, self.pending@)
        &&& !self.had_error ==> self.depths@.last() >= 0
    }

    /// The depth of the stack where the code emitted so far ends.
    pub closed spec fn depth(&self) -> int {
        self.depths@.last()
    }

    /// Every local whose initializer is compiled is a value on the stack, at
    /// least `slack` values below its top.
    pub closed spec fn locals_fit(&self, slack: int) -> bool {
        !self.had_error ==> forall|i: int|
            0 <= i < self.locals@.len() && #[trigger] self.locals@[i].depth != 255 ==> i + slack
                < self.depth()
    }

    /// Between statements: every local is a value on the stack, declared in
    /// the current scope or an enclosing one.
    pub closed spec fn settled(&self) -> bool {
        !self.had_error ==> {
            &&& self.locals@.len() <= self.depth()
            &&& forall|i: int|
                0 <= i < self.locals@.len() ==> #[trigger] self.locals@[i].depth <= self.scope_depth
        }
    }

    /// The compiler's invariant but for the shape of the code, which holds
    /// between the bytes of one instruction.
    pub closed spec fn wf_base(&self) -> bool {
        &&& self.scanner.wf()
        &&& self.chunk.wf()
        &&& self.interner.wf()
        &&& self.locals@.len() <= 255
        &&& (self.current.kind == TokenType::EOF ==> self.scanner.pos()
            == self.scanner.source().len())
        &&& self.current.kind != TokenType::Error
        &&& token_ok(self.current)
        &&& token_ok(self.previous)
        &&& self.had_error == (self.errors@.len() > 0)
        &&& constants_interned(self.chunk.constants@, self.interner.texts().len())
        &&& self.panic_mode ==> self.had_error
    }

    /// The code emitted so far.
    pub closed spec fn code(&self) -> Seq<u8> {
        self.chunk.code@
    }

    /// The kinds of the tokens read since `prev`.
    pub closed spec fn read_since(&self, prev: &Self) -> Seq<TokenType> {
        self.read@.subrange(prev.read@.len() as int, self.read@.len() as int)
    }

    /// The texts interned so far, by id.
    pub closed spec fn texts(&self) -> Seq<Seq<u8>> {
        self.interner.texts()
    }

    /// What every step keeps: the same source, no more left to read, code,
    /// interned strings, globals and errors only added to.
    pub closed spec fn grows_from(&self, prev: &Self) -> bool {
        &&& self.scanner.source() == prev.scanner.source()
        &&& self.measure() <= prev.measure()
        &&& self.chunk.code@.len() >= prev.chunk.code@.len()
        &&& shape_kept(prev.chunk.code@, self.chunk.code@)
        &&& forall|t: int| #[trigger] boundary(prev.chunk.code@, t) ==> boundary(self.chunk.code@, t)
        &&& self.chunk.constants@.len() >= prev.chunk.constants@.len()
        &&& prefix_of(prev.interner.texts(), self.interner.texts())
        &&& map_grows(prev.global_indices.0@, self.global_indices.0@)
        &&& prefix_of(prev.errors@, self.errors@)
        &&& prefix_of(prev.depths@, self.depths@)
        &&& prefix_of(prev.read@, self.read@)
        &&& prev.had_error ==> self.had_error
        &&& forall|at: int|
            #[trigger] self.pending@.contains(at) && !prev.pending@.contains(at) ==> at
                > prev.chunk.code@.len()
        &&& forall|k: int|
            #[trigger] instruction_start(prev.chunk.code@, k) && is_branch(prev.chunk.code@[k])
                && !prev.pending@.contains(k + 1) && k + 2 < prev.chunk.code@.len() ==> {
                &&& self.chunk.code@[k + 1] == prev.chunk.code@[k + 1]
                &&& self.chunk.code@[k + 2] == prev.chunk.code@[k + 2]
            }
    }

    /// A branch no longer pending keeps its target as the code grows.
    proof fn lemma_branch_kept(a: &Self, b: &Self, k: int, op: OpCode, t: int)
        requires
            a.wf(),
            b.grows_from(a),
            op == OpCode::Jump || op == OpCode::JumpIfFalse || op == OpCode::Loop,
            branch_at(a.chunk.code@, k, op, t),
            !a.pending@.contains(k + 1),
        ensures
            branch_at(b.chunk.code@, k, op, t),
    {
        lemma_opcode_byte_roundtrip(op, 0);
        lemma_start_fits(a.chunk.code@, 0, k);
    }

    proof fn lemma_grows_refl(&self)
        ensures
            self.grows_from(self),
    {
    }

    proof fn lemma_grows_trans(a: &Self, b: &Self, c: &Self)
        requires
            b.grows_from(a),
            c.grows_from(b),
        ensures
            c.grows_from(a),
    {
    }

    /// Compiles `source`. The interner and the global slots are kept across
    /// calls, so that later sources see the names earlier ones defined.
    /// Gives the chunk, ending in a `Return`, when no error was found, and
    /// every error found otherwise.
    pub fn compile(source: &'src str, interner: &mut Interner, global_indices: &mut GlobalIndices)
        -> (r: Result<Chunk, VMError>)
        requires
            old(interner).wf(),
            source.spec_bytes().len() <= isize::MAX,
        ensures
            final(interner).wf(),
            prefix_of(old(interner).texts(), final(interner).texts()),
            map_grows(old(global_indices).0@, final(global_indices).0@),
            match r {
                Ok(chunk) => {
                    &&& chunk.wf()
                    &&& chunk.code@.len() > 0
                    &&& chunk.code@.last() == opcode_byte(OpCode::Return)
                    &&& constants_interned(chunk.constants@, final(interner).texts().len())
                    &&& compiled_shape(chunk.code@, chunk.constants@.len() as int)
                    &&& stack_balanced(chunk.code@)
                },
                Err(VMError::CompileError(errors)) => errors@.len() > 0,
                Err(VMError::RuntimeError(_)) => false,
            },
    {
        let mut own_interner = Interner::new();
        std::mem::swap(&mut own_interner, interner);
        let mut own_globals = GlobalIndices::new();
        std::mem::swap(&mut own_globals, global_indices);
        let mut compiler = Compiler {
            chunk: Chunk::new(),
            scanner: Scanner::new(source),
            previous: Token::default(),
            current: Token::default(),
            interner: own_interner,
            global_indices: own_globals,
            errors: Vec::new(),
            locals: Vec::new(),
            scope_depth: 0,
            can_assign: false,
            had_error: false,
            panic_mode: false,
            pending: Ghost(Set::empty()),
            depths: Ghost(Seq::<int>::empty().push(0int)),
            read: Ghost(Seq::<TokenType>::empty()),
        };
        let ghost start = compiler;
        proof {
            compiler.lemma_grows_refl();
        }
        compiler.advance();
        while !compiler.matches(TokenType::EOF)
            invariant
                compiler.pending@ == Set::<int>::empty(),
                compiler.wf(),
                compiler.settled(),
                compiler.grows_from(&start),
            decreases compiler.measure(),
        {
            let ghost before = compiler;
            compiler.declaration();
            proof {
                Self::lemma_grows_trans(&start, &before, &compiler);
            }
        }
        let ghost before_end = compiler;
        compiler.end_compiler();
        proof {
            if !compiler.had_error {
                assert(before_end.pending@ =~= Set::<int>::empty());
                lemma_closed_by_return(
                    before_end.chunk.code@,
                    before_end.chunk.constants@.len() as int,
                );
                assert(depths_fit(compiler.chunk.code@, compiler.depths@, Set::<int>::empty()));
                assert(compiler.depths@[0] == 0);
            }
        }

        let Compiler { chunk, interner: own_interner, global_indices: own_globals, errors, had_error, .. } = compiler;
        let mut own_interner = own_interner;
        let mut own_globals = own_globals;
        std::mem::swap(&mut own_interner, interner);
        std::mem::swap(&mut own_globals, global_indices);
        if had_error {
            return Err(VMError::CompileError(errors));
        }
        Ok(chunk)
    }

    /// Moves to the next token, reporting (and skipping) the ones the scanner
    /// could not make sense of.
    fn advance(&mut self)
        requires
            old(self).wf(),
        ensures
            final(self).read@ == old(self).read@.push(old(self).current.kind),
            final(self).wf(),
            final(self).grows_from(old(self)),
            final(self).pending == old(self).pending,
            final(self).previous == old(self).current,
            final(self).chunk == old(self).chunk,
            final(self).depths == old(self).depths,
            final(self).locals == old(self).locals,
            final(self).scope_depth == old(self).scope_depth,
            final(self).can_assign == old(self).can_assign,
            final(self).interner == old(self).interner,
            final(self).global_indices == old(self).global_indices,
            old(self).current.kind != TokenType::EOF ==> final(self).measure() < old(self).measure(),
            final(self).panic_mode ==> old(self).panic_mode || final(self).errors@.len() > old(
                self,
            ).errors@.len(),
    {
        proof {
            self.scanner.lemma_wf();
            lemma_scan(self.scanner.source(), self.scanner.pos(), self.scanner.line_no());
        }
        let next = self.scanner.scan_token();
        proof {
            self.scanner.lemma_wf();
        }
        self.previous = self.current;
        proof {
            self.read = Ghost(self.read@.push(self.previous.kind));
        }
        self.current = next;
        while self.current.kind == TokenType::Error
            invariant
                self.pending == old(self).pending,
                self.depths == old(self).depths,
                self.read@ == old(self).read@.push(old(self).current.kind),
                self.panic_mode ==> self.had_error,
                self.panic_mode ==> old(self).panic_mode || self.errors@.len() > old(self).errors@.len(),
                self.scanner.wf(),
                self.scanner.source() == old(self).scanner.source(),
                self.scanner.pos() >= old(self).scanner.pos(),
                old(self).current.kind != TokenType::EOF ==> (self.scanner.pos() > old(
                    self,
                ).scanner.pos() || self.current.kind == TokenType::EOF),
                self.current.kind == TokenType::EOF ==> self.scanner.pos()
                    == self.scanner.source().len(),
                self.current.kind == TokenType::String ==> self.current.lexeme@.len() >= 2,
                self.previous == old(self).current,
                self.chunk == old(self).chunk,
                self.locals == old(self).locals,
                self.scope_depth == old(self).scope_depth,
                self.can_assign == old(self).can_assign,
                self.interner == old(self).interner,
                self.global_indices == old(self).global_indices,
                self.had_error == (self.errors@.len() > 0),
                prefix_of(old(self).errors@, self.errors@),
                old(self).current.kind == TokenType::EOF ==> self.current.kind == TokenType::EOF,
                self.scanner.pos() <= self.scanner.source().len(),
                old(self).scanner.pos() <= old(self).scanner.source().len(),
            decreases 2 * (self.scanner.source().len() - self.scanner.pos()) + if self.current.kind
                == TokenType::Error {
                1int
            } else {
                0int
            },
        {
            let msg = unexpected_token_message(self.current.lexeme);
            self.report_error(msg);
            proof {
                self.scanner.lemma_wf();
                lemma_scan(self.scanner.source(), self.scanner.pos(), self.scanner.line_no());
            }
            self.current = self.scanner.scan_token();
            proof {
                self.scanner.lemma_wf();
            }
        }
        proof {
            self.scanner.lemma_wf();
            old(self).scanner.lemma_wf();
        }
    }

    /// Consumes the current token if it is of `kind`; reports `message` otherwise.
    fn consume(&mut self, kind: TokenType, message: &str)
        requires
            old(self).wf(),
        ensures
            old(self).current.kind == kind ==> final(self).read@ == old(self).read@.push(kind),
            old(self).current.kind != kind ==> final(self).read == old(self).read,
            old(self).current.kind == kind ==> final(self).previous == old(self).current,
            old(self).current.kind == kind && kind != TokenType::EOF ==> final(self).measure() < old(
                self,
            ).measure(),
            old(self).current.kind != kind ==> {
                &&& final(self).current == old(self).current
                &&& final(self).previous == old(self).previous
                &&& final(self).had_error
                &&& !old(self).panic_mode ==> final(self).errors@.len() == old(self).errors@.len() + 1
                    && final(self).errors@.last().message@ == message@
                &&& old(self).panic_mode ==> final(self).errors == old(self).errors
            },
            final(self).wf(),
            final(self).grows_from(old(self)),
            final(self).pending == old(self).pending,
            final(self).chunk == old(self).chunk,
            final(self).depths == old(self).depths,
            final(self).locals == old(self).locals,
            final(self).scope_depth == old(self).scope_depth,
            final(self).can_assign == old(self).can_assign,
            final(self).interner == old(self).interner,
            final(self).global_indices == old(self).global_indices,
    {
        if self.current.kind == kind {
            self.advance();
        } else {
            self.error_at_current(message);
        }
    }

    /// Whether the current token is of `kind`.
    fn check(&self, kind: TokenType) -> (b: bool)
        ensures
            b == (self.current.kind == kind),
    {
        self.current.kind == kind
    }

    /// Consumes the current token if it is of `kind`.
    fn matches(&mut self, kind: TokenType) -> (b: bool)
        requires
            old(self).wf(),
        ensures
            b ==> final(self).read@ == old(self).read@.push(kind),
            final(self).wf(),
            final(self).grows_from(old(self)),
            final(self).pending == old(self).pending,
            b == (old(self).current.kind == kind),
            !b ==> *final(self) == *old(self),
            b ==> final(self).previous == old(self).current,
            b && kind != TokenType::EOF ==> final(self).measure() < old(self).measure(),
            final(self).chunk == old(self).chunk,
            final(self).depths == old(self).depths,
            final(self).locals == old(self).locals,
            final(self).scope_depth == old(self).scope_depth,
            final(self).can_assign == old(self).can_assign,
            final(self).interner == old(self).interner,
            final(self).global_indices == old(self).global_indices,
    {
        if !self.check(kind) {
            proof {
                self.lemma_grows_refl();
            }
            return false;
        }
        self.advance();
        true
    }

    /// Ends the chunk with a return.
    fn end_compiler(&mut self)
        requires
            old(self).wf(),
        ensures
            final(self).wf(),
            final(self).grows_from(old(self)),
            final(self).pending == old(self).pending,
            final(self).chunk.code@ == old(self).chunk.code@.push(opcode_byte(OpCode::Return)),
            final(self).depths@ == old(self).depths@.push(old(self).depth()),
    {
        self.emit_return()
    }

    /// Enters a scope one deeper; reports a scope nested past the deepest
    /// that the scope counter holds.
    fn begin_scope(&mut self)
        requires
            old(self).wf(),
        ensures
            final(self).wf(),
            final(self).grows_from(old(self)),
            final(self).scope_depth == old(self).scope_depth.wrapping_add(1),
            old(self).scope_depth < 255 ==> *final(self) == (Compiler {
                scope_depth: final(self).scope_depth,
                ..*old(self)
            }),
            old(self).scope_depth == 255 ==> final(self).had_error,
            final(self).pending == old(self).pending,
            final(self).chunk == old(self).chunk,
            final(self).depths == old(self).depths,
            final(self).locals == old(self).locals,
            final(self).previous == old(self).previous,
            final(self).current == old(self).current,
            final(self).interner == old(self).interner,
            final(self).global_indices == old(self).global_indices,
    {
        if self.scope_depth == u8::MAX {
            self.error_at_current("Too many nested scopes.");
        } else {
            proof {
                self.lemma_grows_refl();
            }
        }
        self.scope_depth = self.scope_depth.wrapping_add(1);
    }

    /// Leaves a scope: pops, and emits a `Pop` for, each local declared deeper
    /// than the enclosing scope.
    fn end_scope(&mut self)
        requires
            old(self).wf(),
            !old(self).had_error ==> old(self).locals@.len() <= old(self).depth(),
        ensures
            final(self).wf(),
            final(self).grows_from(old(self)),
            final(self).pending == old(self).pending,
            final(self).scope_depth == old(self).scope_depth.wrapping_sub(1),
            final(self).locals@.len() <= old(self).locals@.len(),
            final(self).locals@ == old(self).locals@.subrange(0, final(self).locals@.len() as int),
            forall|i: int|
                final(self).locals@.len() <= i < old(self).locals@.len() ==> #[trigger] old(
                    self,
                ).locals@[i].depth > final(self).scope_depth,
            final(self).locals@.len() > 0 ==> final(self).locals@.last().depth
                <= final(self).scope_depth,
            final(self).chunk.code@ == old(self).chunk.code@ + Seq::new(
                (old(self).locals@.len() - final(self).locals@.len()) as nat,
                |i: int| opcode_byte(OpCode::Pop),
            ),
            final(self).previous == old(self).previous,
            final(self).current == old(self).current,
            final(self).interner == old(self).interner,
            final(self).global_indices == old(self).global_indices,
            final(self).errors == old(self).errors,
            final(self).had_error == old(self).had_error,
            !old(self).had_error ==> final(self).depth() == old(self).depth() - (old(
                self,
            ).locals@.len() - final(self).locals@.len()),
    {
        self.scope_depth = self.scope_depth.wrapping_sub(1);
        let ghost old_code = self.chunk.code@;
        proof {
            assert(old_code + Seq::new(0, |i: int| opcode_byte(OpCode::Pop)) =~= old_code);
        }
        while self.locals.len() > 0 && self.locals[self.locals.len() - 1].depth > self.scope_depth
            invariant
                self.pending == old(self).pending,
                self.wf(),
                self.grows_from(old(self)),
                self.scope_depth == old(self).scope_depth.wrapping_sub(1),
                self.locals@.len() <= old(self).locals@.len(),
                self.locals@ == old(self).locals@.subrange(0, self.locals@.len() as int),
                forall|i: int|
                    self.locals@.len() <= i < old(self).locals@.len() ==> #[trigger] old(
                        self,
                    ).locals@[i].depth > self.scope_depth,
                old_code == old(self).chunk.code@,
                self.chunk.code@ == old_code + Seq::new(
                    (old(self).locals@.len() - self.locals@.len()) as nat,
                    |i: int| opcode_byte(OpCode::Pop),
                ),
                self.previous == old(self).previous,
                self.current == old(self).current,
                self.interner == old(self).interner,
                self.global_indices == old(self).global_indices,
                self.errors == old(self).errors,
                self.had_error == old(self).had_error,
                !self.had_error ==> self.depth() == old(self).depth() - (old(
                    self,
                ).locals@.len() - self.locals@.len()),
                !self.had_error ==> self.locals@.len() <= self.depth(),
            decreases self.locals@.len(),
        {
            self.emit_byte(OpCode::Pop.to_byte());
            self.locals.pop();
            proof {
                assert(self.chunk.code@ =~= old_code + Seq::new(
                    (old(self).locals@.len() - self.locals@.len()) as nat,
                    |i: int| opcode_byte(OpCode::Pop),
                ));
            }
        }
    }

    /// Appends a byte, marked with the line of the previous token; it may be
    /// the middle of an instruction.
    fn write_byte(&mut self, byte: u8)
        requires
            old(self).wf_base(),
        ensures
            final(self).wf_base(),
            final(self).grows_from(old(self)),
            final(self).chunk.code@ == old(self).chunk.code@.push(byte),
            final(self).chunk.constants@ == old(self).chunk.constants@,
            *final(self) == (Compiler { chunk: final(self).chunk, ..*old(self) }),
    {
        let line = self.previous.line;
        self.chunk.write_byte(byte, line);
        proof {
            let a = old(self).chunk.code@;
            lemma_append_keeps_shape(a, seq![byte]);
            assert(a.push(byte) =~= a + seq![byte]);
            assert forall|t: int| #[trigger] boundary(a, t) implies boundary(self.chunk.code@, t) by {
                lemma_append_keeps_boundary(a, seq![byte], t);
            }
        }
    }

    /// Appends an instruction without operands.
    fn emit_byte(&mut self, byte: u8)
        requires
            old(self).wf(),
            byte < OPCODE_COUNT,
            instruction_len(byte) == 1,
            machine_op(byte),
            !old(self).had_error ==> stack_need(byte) <= old(self).depth(),
        ensures
            final(self).wf(),
            final(self).grows_from(old(self)),
            final(self).chunk.code@ == old(self).chunk.code@.push(byte),
            instruction_start(final(self).chunk.code@, old(self).chunk.code@.len() as int),
            final(self).chunk.constants@ == old(self).chunk.constants@,
            final(self).depths@ == old(self).depths@.push(old(self).depth() + stack_net(byte)),
            *final(self) == (Compiler { chunk: final(self).chunk, depths: final(self).depths, ..*old(self) }),
    {
        self.write_byte(byte);
        proof {
            let a = old(self).chunk.code@;
            let ins = seq![byte];
            let d = old(self).depths@;
            let after = old(self).depth() + stack_net(byte);
            lemma_branch_lengths();
            lemma_append_instruction(a, ins);
            if !self.had_error {
                lemma_append_branches(a, ins, self.pending@, self.pending@);
                lemma_append_depths(a, ins, d, self.pending@, self.pending@, after);
                lemma_need_covers_net(ins[0]);
            }
            lemma_append_instructions_ok(a, ins, self.chunk.constants@.len() as int, self.chunk.constants@.len() as int);
            assert(a.push(byte) =~= a + ins);
            assert(extend_depths(d, 1, after) =~= d.push(after));
            self.depths = Ghost(d.push(after));
        }
    }

    /// Appends an instruction with a one-byte operand.
    fn emit_bytes(&mut self, byte1: u8, byte2: u8)
        requires
            old(self).wf(),
            byte1 < OPCODE_COUNT,
            instruction_len(byte1) == 2,
            machine_op(byte1),
            byte1 == opcode_byte(OpCode::Constant) ==> byte2 < old(self).chunk.constants@.len(),
            !old(self).had_error ==> stack_need(byte1) <= old(self).depth(),
            !old(self).had_error && names_slot(byte1) ==> byte2 < old(self).depth(),
        ensures
            final(self).wf(),
            final(self).grows_from(old(self)),
            final(self).chunk.code@ == old(self).chunk.code@.push(byte1).push(byte2),
            final(self).chunk.constants@ == old(self).chunk.constants@,
            final(self).depths@ == old(self).depths@.push(old(self).depth()).push(
                old(self).depth() + stack_net(byte1),
            ),
            *final(self) == (Compiler { chunk: final(self).chunk, depths: final(self).depths, ..*old(self) }),
    {
        self.write_byte(byte1);
        let ghost mid = *self;
        self.write_byte(byte2);
        proof {
            Self::lemma_grows_trans(old(self), &mid, self);
            let a = old(self).chunk.code@;
            let ins = seq![byte1, byte2];
            lemma_branch_lengths();
            lemma_append_instruction(a, ins);
            let d = old(self).depths@;
            let after = old(self).depth() + stack_net(byte1);
            if !self.had_error {
                lemma_append_branches(a, ins, self.pending@, self.pending@);
                lemma_append_depths(a, ins, d, self.pending@, self.pending@, after);
                lemma_need_covers_net(ins[0]);
            }
            lemma_append_instructions_ok(a, ins, self.chunk.constants@.len() as int, self.chunk.constants@.len() as int);
            assert(old(self).chunk.code@.push(byte1).push(byte2) =~= old(self).chunk.code@ + seq![
                byte1,
                byte2,
            ]);
            assert(extend_depths(d, 2, after) =~= d.push(d.last()).push(after));
            self.depths = Ghost(d.push(d.last()).push(after));
        }
    }

    /// Emits a `Loop` back to `loop_start`: its operand is the distance from
    /// the end of the instruction back to `loop_start`. Reports a distance
    /// that does not fit in 16 bits. The stack depth after it is `after`.
    fn emit_loop(&mut self, loop_start: usize, after: Ghost<int>)
        requires
            old(self).wf(),
            loop_start <= old(self).chunk.code@.len(),
            boundary(old(self).chunk.code@, loop_start as int),
            !old(self).had_error ==> old(self).depths@[loop_start as int] == old(self).depth(),
            !old(self).had_error ==> after@ >= 0,
        ensures
            final(self).read == old(self).read,
            final(self).wf(),
            final(self).grows_from(old(self)),
            final(self).pending == old(self).pending,
            final(self).depths@ == old(self).depths@.push(old(self).depth()).push(old(self).depth()).push(
                after@,
            ),
            instruction_start(final(self).chunk.code@, old(self).chunk.code@.len() as int),
            ({
                let offset = wrap_usize(old(self).chunk.code@.len() + 3 - loop_start);
                &&& final(self).chunk.code@ == old(self).chunk.code@.push(opcode_byte(OpCode::Loop)).push(
                    hi_byte(offset),
                ).push(lo_byte(offset))
                &&& old(self).chunk.code@.len() + 3 - loop_start > 65535 && !old(self).panic_mode
                    ==> final(self).errors@.len() == old(self).errors@.len() + 1
                &&& old(self).chunk.code@.len() + 3 - loop_start <= 65535 ==> old(
                    self,
                ).chunk.code@.len() + 3 - (hi_byte(offset) as int
                    * 256 + lo_byte(offset) as int) == loop_start
            }),
            final(self).previous == old(self).previous,
            final(self).current == old(self).current,
            final(self).locals == old(self).locals,
            final(self).scope_depth == old(self).scope_depth,
            final(self).can_assign == old(self).can_assign,
            final(self).interner == old(self).interner,
            final(self).global_indices == old(self).global_indices,
    {
        let distance = self.chunk.code.len() - loop_start;
        let offset = if distance <= usize::MAX - 3 {
            distance + 3
        } else {
            distance - (usize::MAX - 2)
        };
        let ghost start = *self;
        if distance > 65532 {
            self.error_at_current("Loop body too large.");
        }
        let ghost a = *self;
        self.write_byte(OpCode::Loop.to_byte());
        let ghost b = *self;
        self.write_byte(((offset / 256) % 256) as u8);
        let ghost c = *self;
        self.write_byte((offset % 256) as u8);
        proof {
            Self::lemma_grows_trans(&start, &a, &b);
            Self::lemma_grows_trans(&start, &b, &c);
            Self::lemma_grows_trans(&start, &c, self);
            if offset <= 65535 {
                lemma_jump_operand_roundtrip(offset);
            }
            lemma_opcode_byte_roundtrip(OpCode::Loop, 0);
            lemma_branch_lengths();
            let ins = seq![opcode_byte(OpCode::Loop), ((offset / 256) % 256) as u8, (offset % 256) as u8];
            lemma_append_instruction(a.chunk.code@, ins);
            assert(self.chunk.code@ =~= a.chunk.code@ + ins);
            let d = old(self).depths@;
            if !self.had_error {
                lemma_append_keeps_boundary(a.chunk.code@, ins, loop_start as int);
                assert(branch_target(self.chunk.code@, a.chunk.code@.len() as int) == loop_start);
                lemma_append_branches(a.chunk.code@, ins, self.pending@, self.pending@);
                lemma_append_depths(a.chunk.code@, ins, d, self.pending@, self.pending@, after@);
            }
            assert(extend_depths(d, 3, after@) =~= d.push(d.last()).push(d.last()).push(after@));
            self.depths = Ghost(d.push(d.last()).push(d.last()).push(after@));
            lemma_append_instructions_ok(
                a.chunk.code@,
                ins,
                self.chunk.constants@.len() as int,
                self.chunk.constants@.len() as int,
            );
        }
    }

    /// Emits a jump with a placeholder operand, and gives the operand's offset.
    /// The stack depth after it is `after`: where an unconditional jump
    /// leaves off, code is reached only by other branches.
    fn emit_jump(&mut self, op: OpCode, after: Ghost<int>) -> (at: usize)
        requires
            old(self).wf(),
            op == OpCode::Jump || op == OpCode::JumpIfFalse,
            !old(self).had_error && op == OpCode::JumpIfFalse ==> after@ == old(self).depth(),
            !old(self).had_error && op == OpCode::JumpIfFalse ==> old(self).depth() >= 1,
            !old(self).had_error ==> after@ >= 0,
        ensures
            final(self).depths@ == old(self).depths@.push(old(self).depth()).push(old(self).depth()).push(
                after@,
            ),
            final(self).wf(),
            final(self).grows_from(old(self)),
            final(self).chunk.code@ == old(self).chunk.code@.push(opcode_byte(op)).push(255u8).push(
                255u8,
            ),
            at == old(self).chunk.code@.len() + 1,
            pending_jump(final(self).chunk.code@, at as int),
            !old(self).pending@.contains(at as int),
            final(self).pending@ == old(self).pending@.insert(at as int),
            *final(self) == (Compiler {
                chunk: final(self).chunk,
                pending: final(self).pending,
                depths: final(self).depths,
                ..*old(self)
            }),
    {
        assert(!self.pending@.contains(self.chunk.code@.len() + 1int)) by {
            if self.pending@.contains(self.chunk.code@.len() + 1int) {
                assert(pending_jump(self.chunk.code@, self.chunk.code@.len() + 1int));
            }
        }
        self.write_byte(op.to_byte());
        let ghost b = *self;
        self.write_byte(255);
        let ghost c = *self;
        self.write_byte(255);
        proof {
            Self::lemma_grows_trans(old(self), &b, &c);
            Self::lemma_grows_trans(old(self), &c, self);
            lemma_opcode_byte_roundtrip(op, 0);
            lemma_branch_lengths();
            let ins = seq![opcode_byte(op), 255u8, 255u8];
            let a = old(self).chunk.code@;
            lemma_append_instruction(a, ins);
            assert(self.chunk.code@ =~= a + ins);
            let p2 = old(self).pending@.insert(a.len() + 1int);
            let d = old(self).depths@;
            if !self.had_error {
                lemma_append_branches(a, ins, old(self).pending@, p2);
                lemma_append_depths(a, ins, d, old(self).pending@, p2, after@);
            }
            lemma_append_instructions_ok(a, ins, self.chunk.constants@.len() as int, self.chunk.constants@.len() as int);
            self.pending = Ghost(p2);
            assert(extend_depths(d, 3, after@) =~= d.push(d.last()).push(d.last()).push(after@));
            self.depths = Ghost(d.push(d.last()).push(d.last()).push(after@));
        }
        self.chunk.code.len() - 2
    }

    /// Fills in the operand at `offset` with the distance from right after it
    /// to the end of the code. Reports a distance that does not fit in 16 bits.
    fn patch_jump(&mut self, offset: usize)
        requires
            old(self).wf(),
            offset + 2 <= old(self).chunk.code@.len(),
            pending_jump(old(self).chunk.code@, offset as int),
            old(self).pending@.contains(offset as int),
            !old(self).had_error ==> old(self).depths@[offset - 1] == old(self).depth(),
        ensures
            final(self).read == old(self).read,
            final(self).pending@ == old(self).pending@.remove(offset as int),
            final(self).depths == old(self).depths,
            !final(self).had_error ==> branch_target(final(self).chunk.code@, offset - 1) == old(
                self,
            ).chunk.code@.len(),
            final(self).wf(),
            final(self).grows_from(old(self)),
            ({
                let jump = (old(self).chunk.code@.len() - offset - 2) as usize;
                &&& final(self).chunk.code@ == old(self).chunk.code@.update(
                    offset as int,
                    hi_byte(jump),
                ).update(offset + 1, lo_byte(jump))
                &&& jump > 65535 && !old(self).panic_mode ==> final(self).errors@.len()
                    == old(self).errors@.len() + 1
                &&& jump <= 65535 ==> offset + 2 + final(self).chunk.code@[offset as int] as int
                    * 256 + final(self).chunk.code@[offset + 1] as int == old(self).chunk.code@.len()
            }),
            final(self).chunk.constants@ == old(self).chunk.constants@,
            final(self).previous == old(self).previous,
            final(self).current == old(self).current,
            final(self).locals == old(self).locals,
            final(self).scope_depth == old(self).scope_depth,
            final(self).can_assign == old(self).can_assign,
            final(self).interner == old(self).interner,
            final(self).global_indices == old(self).global_indices,
    {
        let jump = self.chunk.code.len() - offset - 2;
        if jump > 65535 {
            self.error_at_current("Too much code to jump over.");
        }
        let ghost a = *self;
        self.chunk.patch(offset, ((jump / 256) % 256) as u8);
        self.chunk.patch(offset + 1, (jump % 256) as u8);
        proof {
            if jump <= 65535 {
                lemma_jump_operand_roundtrip(jump);
            }
            let x = ((jump / 256) % 256) as u8;
            let y = (jump % 256) as u8;
            lemma_patch_operands(a.chunk.code@, offset - 1, x, y);
            assert(self.chunk.code@ =~= a.chunk.code@.update(offset as int, x).update(offset + 1, y));
            lemma_patch_instructions_ok(a.chunk.code@, offset - 1, x, y, self.chunk.constants@.len() as int);
            if !self.had_error {
                lemma_opcode_byte_roundtrip(OpCode::Loop, 0);
                assert(branch_target(self.chunk.code@, offset - 1) == self.chunk.code@.len());
                lemma_decodes_reaches_end(self.chunk.code@, 0);
                lemma_patch_branches(a.chunk.code@, offset - 1, x, y, self.pending@);
                lemma_patch_depths(a.chunk.code@, offset - 1, x, y, self.depths@, self.pending@);
            }
            self.pending = Ghost(self.pending@.remove(offset as int));
            assert forall|t: int| #[trigger] boundary(a.chunk.code@, t) implies boundary(self.chunk.code@, t) by {
                lemma_patch_keeps_boundary(a.chunk.code@, offset - 1, x, y, t);
            }
            assert forall|k: int|
                #[trigger] instruction_start(a.chunk.code@, k) && is_branch(a.chunk.code@[k])
                    && !a.pending@.contains(k + 1) && k + 2 < a.chunk.code@.len() implies {
                &&& self.chunk.code@[k + 1] == a.chunk.code@[k + 1]
                &&& self.chunk.code@[k + 2] == a.chunk.code@[k + 2]
            } by {
                lemma_opcode_byte_roundtrip(OpCode::Jump, 0);
                lemma_opcode_byte_roundtrip(OpCode::JumpIfFalse, 0);
                lemma_opcode_byte_roundtrip(OpCode::Loop, 0);
                lemma_start_fits(a.chunk.code@, 0, k);
                lemma_patch_others(a.chunk.code@, offset - 1, x, y, k);
            }
            Self::lemma_grows_trans(old(self), &a, self);
        }
    }

    /// Adds `value` to the constants and emits the instruction that loads it.
    fn emit_const(&mut self, value: Constant)
        requires
            old(self).wf(),
            value matches Constant::String(id) ==> id < old(self).interner.texts().len(),
        ensures
            final(self).wf(),
            final(self).grows_from(old(self)),
            final(self).chunk.constants@ == old(self).chunk.constants@.push(value),
            final(self).chunk.code@ == old(self).chunk.code@.push(opcode_byte(OpCode::Constant)).push(
                (old(self).chunk.constants@.len() % 256) as u8,
            ),
            final(self).depths@ == old(self).depths@.push(old(self).depth()).push(old(self).depth() + 1),
            *final(self) == (Compiler { chunk: final(self).chunk, depths: final(self).depths, ..*old(self) }),
    {
        let index = self.chunk.add_constant(value);
        self.emit_bytes(OpCode::Constant.to_byte(), index);
    }

    fn emit_return(&mut self)
        requires
            old(self).wf(),
        ensures
            final(self).wf(),
            final(self).grows_from(old(self)),
            final(self).chunk.code@ == old(self).chunk.code@.push(opcode_byte(OpCode::Return)),
            final(self).depths@ == old(self).depths@.push(old(self).depth()),
            *final(self) == (Compiler { chunk: final(self).chunk, depths: final(self).depths, ..*old(self) }),
    {
        self.emit_byte(OpCode::Return.to_byte());
    }

    fn expression(&mut self)
        requires
            old(self).locals_fit(0),
            old(self).wf(),
        ensures
            !final(self).had_error ==> parens_nested(final(self).read_since(old(self))),
            !final(self).had_error ==> operators_bind_at(final(self).read_since(old(self)), 1),
            !final(self).had_error ==> final(self).depth() == old(self).depth() + 1,
            final(self).wf(),
            final(self).grows_from(old(self)),
            final(self).pending == old(self).pending,
            final(self).locals == old(self).locals,
            final(self).scope_depth == old(self).scope_depth,
            old(self).current.kind != TokenType::EOF ==> final(self).measure() < old(self).measure(),
        decreases old(self).measure(), 2nat,
    {
        self.parse_precedence(Precedence::Assignment)
    }

    /// The declarations of a block, up to its closing brace.
    fn block(&mut self)
        requires
            old(self).wf(),
            old(self).settled(),
        ensures
            final(self).wf(),
            final(self).settled(),
            final(self).grows_from(old(self)),
            final(self).pending == old(self).pending,
            final(self).scope_depth == old(self).scope_depth,
            !final(self).had_error ==> {
                &&& extends_in_scope(old(self).locals@, final(self).locals@, old(self).scope_depth)
                &&& final(self).depth() - final(self).locals@.len() == old(self).depth() - old(
                    self,
                ).locals@.len()
            },
        decreases old(self).measure(), 12nat,
    {
        proof {
            lemma_extends_refl(old(self).locals@, old(self).scope_depth);
        }
        while !self.check(TokenType::RightBrace) && !self.check(TokenType::EOF)
            invariant
                self.pending == old(self).pending,
                self.wf(),
                self.settled(),
                self.grows_from(old(self)),
                self.scope_depth == old(self).scope_depth,
                !self.had_error ==> {
                    &&& extends_in_scope(old(self).locals@, self.locals@, old(self).scope_depth)
                    &&& self.depth() - self.locals@.len() == old(self).depth() - old(
                        self,
                    ).locals@.len()
                },
            decreases self.measure(),
        {
            let ghost before = *self;
            self.declaration();
            proof {
                Self::lemma_grows_trans(old(self), &before, self);
                if !self.had_error {
                    lemma_extends_trans(old(self).locals@, before.locals@, self.locals@, old(self).scope_depth);
                }
            }
        }
        let ghost before = *self;
        self.consume(TokenType::RightBrace, "Expected '}' after block.");
        proof {
            Self::lemma_grows_trans(old(self), &before, self);
        }
    }

    /// The slot of the innermost local named `name`, if any; reports a read
    /// of a local inside its own initializer.
    fn resolve_local(&mut self, name: &[u8]) -> (slot: Option<u8>)
        requires
            old(self).wf(),
        ensures
            final(self).read == old(self).read,
            final(self).wf(),
            final(self).grows_from(old(self)),
            final(self).pending == old(self).pending,
            final(self).chunk == old(self).chunk,
            final(self).depths == old(self).depths,
            final(self).locals == old(self).locals,
            final(self).scope_depth == old(self).scope_depth,
            final(self).can_assign == old(self).can_assign,
            final(self).current == old(self).current,
            final(self).previous == old(self).previous,
            final(self).interner == old(self).interner,
            final(self).global_indices == old(self).global_indices,
            match slot {
                Some(i) => {
                    &&& i < old(self).locals@.len()
                    &&& old(self).locals@[i as int].depth == 255 ==> final(self).had_error
                    &&& old(self).locals@[i as int].token.lexeme@ == name@
                    &&& forall|j: int|
                        i < j < old(self).locals@.len() ==> #[trigger] old(
                            self,
                        ).locals@[j].token.lexeme@ != name@
                },
                None => forall|j: int|
                    0 <= j < old(self).locals@.len() ==> #[trigger] old(
                        self,
                    ).locals@[j].token.lexeme@ != name@,
            },
    {
        let mut i = self.locals.len();
        while i > 0
            invariant
                *self == *old(self),
                self.wf(),
                i <= self.locals@.len(),
                forall|j: int|
                    i <= j < self.locals@.len() ==> #[trigger] self.locals@[j].token.lexeme@
                        != name@,
            decreases i,
        {
            let local = self.locals[i - 1];
            if bytes_eq(local.token.lexeme, name) {
                if local.depth == u8::MAX {
                    self.error_at_current("Can't read local variable in its own initializer.");
                }
                return Some((i - 1) as u8);
            }
            i = i - 1;
        }
        proof {
            self.lemma_grows_refl();
        }
        None
    }

    /// The global slot of `name`: the slot it already has, or the next one
    /// (the number of globals, truncated to a byte).
    fn global_slot(&mut self, name: &[u8]) -> (slot: u8)
        requires
            old(self).wf(),
        ensures
            final(self).read == old(self).read,
            final(self).wf(),
            final(self).grows_from(old(self)),
            final(self).pending == old(self).pending,
            final(self).chunk == old(self).chunk,
            final(self).depths == old(self).depths,
            final(self).locals == old(self).locals,
            final(self).scope_depth == old(self).scope_depth,
            final(self).can_assign == old(self).can_assign,
            final(self).current == old(self).current,
            final(self).previous == old(self).previous,
            final(self).errors == old(self).errors,
            exists|id: usize|
                #![trigger final(self).global_indices.0@[id]]
                id < final(self).interner.texts().len() && final(self).interner.texts()[id as int]
                    == name@ && final(self).global_indices.0@.contains_key(id)
                    && final(self).global_indices.0@[id] == slot && (old(
                    self,
                ).global_indices.0@.contains_key(id) ==> final(self).global_indices.0@
                    == old(self).global_indices.0@) && (!old(
                    self,
                ).global_indices.0@.contains_key(id) ==> slot as int == old(
                    self,
                ).global_indices.0@.len() % 256 && final(self).global_indices.0@ == old(
                    self,
                ).global_indices.0@.insert(id, slot)),
    {
        let id = self.interner.intern_bytes(name);
        match self.global_indices.0.get(&id) {
            Some(slot) => {
                let s = *slot;
                proof {
                    assert(self.global_indices.0@[id] == s);
                }
                s
            },
            None => {
                let n = self.global_indices.0.len();
                let slot = (n % 256) as u8;
                self.global_indices.0.insert(id, slot);
                proof {
                    assert(self.global_indices.0@[id] == slot);
                }
                slot
            },
        }
    }

    /// Declares `token` as a local of the current scope, not yet initialized;
    /// reports a function with too many locals.
    fn add_local(&mut self, token: Token<'src>)
        requires
            old(self).wf(),
        ensures
            final(self).wf(),
            final(self).grows_from(old(self)),
            final(self).pending == old(self).pending,
            old(self).locals@.len() < 255 ==> final(self).locals@ == old(self).locals@.push(
                Local { token, depth: 255 },
            ),
            old(self).locals@.len() >= 255 ==> final(self).locals == old(self).locals,
            old(self).locals@.len() >= 255 ==> final(self).had_error,
            final(self).chunk == old(self).chunk,
            final(self).depths == old(self).depths,
            final(self).scope_depth == old(self).scope_depth,
            final(self).can_assign == old(self).can_assign,
            final(self).current == old(self).current,
            final(self).previous == old(self).previous,
            final(self).interner == old(self).interner,
            final(self).global_indices == old(self).global_indices,
    {
        if self.locals.len() == 255 {
            self.error_at_current("Too many variables in function.");
            return;
        }
        self.locals.push(Local { token, depth: u8::MAX });
    }

    /// In a block, declares the name just read as a local, reporting one
    /// already declared in the same scope.
    fn declare_variable(&mut self)
        requires
            old(self).wf(),
        ensures
            final(self).wf(),
            final(self).grows_from(old(self)),
            final(self).pending == old(self).pending,
            old(self).scope_depth == 0 ==> *final(self) == *old(self),
            old(self).scope_depth > 0 ==> final(self).locals@.len() > 0,
            old(self).scope_depth > 0 && !final(self).had_error ==> final(self).locals@ == old(
                self,
            ).locals@.push(Local { token: old(self).previous, depth: 255 }),
            final(self).chunk == old(self).chunk,
            final(self).depths == old(self).depths,
            final(self).scope_depth == old(self).scope_depth,
            final(self).can_assign == old(self).can_assign,
            final(self).current == old(self).current,
            final(self).previous == old(self).previous,
            final(self).interner == old(self).interner,
            final(self).global_indices == old(self).global_indices,
    {
        if self.scope_depth == 0 {
            proof {
                self.lemma_grows_refl();
            }
            return;
        }
        let token = self.previous;
        let mut duplicate = false;
        let mut i = self.locals.len();
        while i > 0
            invariant
                *self == *old(self),
                i <= self.locals@.len(),
            decreases i,
        {
            let local = self.locals[i - 1];
            if local.depth < self.scope_depth {
                break;
            }
            if bytes_eq(local.token.lexeme, token.lexeme) {
                duplicate = true;
                break;
            }
            i = i - 1;
        }
        if duplicate {
            self.error_at_current("Already a variable with this name in this scope.");
        }
        let ghost mid = *self;
        self.add_local(token);
        proof {
            Self::lemma_grows_trans(old(self), &mid, self);
        }
    }

    /// Reads a variable name: its global slot at the top level, 0 in a block.
    fn parse_variable(&mut self, message: &str) -> (slot: u8)
        requires
            old(self).wf(),
        ensures
            final(self).wf(),
            final(self).grows_from(old(self)),
            final(self).pending == old(self).pending,
            final(self).chunk == old(self).chunk,
            final(self).depths == old(self).depths,
            final(self).scope_depth == old(self).scope_depth,
            old(self).scope_depth > 0 ==> final(self).locals@.len() > 0,
            old(self).scope_depth > 0 && !final(self).had_error ==> {
                &&& final(self).locals@.len() == old(self).locals@.len() + 1
                &&& final(self).locals@.last().depth == 255
                &&& final(self).locals@.subrange(0, old(self).locals@.len() as int) == old(
                    self,
                ).locals@
            },
            old(self).scope_depth == 0 ==> final(self).locals == old(self).locals,
    {
        self.consume(TokenType::Identifier, message);
        let ghost mid = *self;
        self.declare_variable();
        proof {
            Self::lemma_grows_trans(old(self), &mid, self);
        }
        if self.scope_depth > 0 {
            proof {
                if !self.had_error {
                    assert(self.locals@.subrange(0, old(self).locals@.len() as int) =~= old(
                        self,
                    ).locals@);
                }
            }
            return 0;
        }
        let name = self.previous.lexeme;
        let ghost mid2 = *self;
        let slot = self.global_slot(name);
        proof {
            Self::lemma_grows_trans(old(self), &mid2, self);
        }
        slot
    }

    /// Marks the newest local initialized, or, at the top level, emits the
    /// definition of global `var`.
    fn define_variable(&mut self, var: u8)
        requires
            old(self).wf(),
            old(self).scope_depth > 0 ==> old(self).locals@.len() > 0,
            !old(self).had_error && old(self).scope_depth == 0 ==> old(self).depth() >= 1,
        ensures
            final(self).wf(),
            final(self).grows_from(old(self)),
            final(self).pending == old(self).pending,
            final(self).scope_depth == old(self).scope_depth,
            final(self).had_error == old(self).had_error,
            !final(self).had_error ==> final(self).depth() == old(self).depth() - if old(
                self,
            ).scope_depth == 0 {
                1int
            } else {
                0int
            },
            old(self).scope_depth > 0 ==> final(self).locals@ == old(self).locals@.update(
                old(self).locals@.len() - 1,
                Local { depth: old(self).scope_depth, ..old(self).locals@.last() },
            ),
            old(self).scope_depth > 0 ==> final(self).chunk == old(self).chunk,
            old(self).scope_depth == 0 ==> final(self).chunk.code@ == old(self).chunk.code@.push(
                opcode_byte(OpCode::DefineGlobal),
            ).push(var),
            old(self).scope_depth == 0 ==> final(self).locals == old(self).locals,
    {
        if self.scope_depth > 0 {
            let n = self.locals.len();
            let mut local = self.locals[n - 1];
            local.depth = self.scope_depth;
            self.locals.set(n - 1, local);
            proof {
                self.lemma_grows_refl();
            }
            return;
        }
        self.emit_bytes(OpCode::DefineGlobal.to_byte(), var);
    }

    fn var_declaration(&mut self)
        requires
            old(self).wf(),
            old(self).settled(),
        ensures
            final(self).wf(),
            final(self).settled(),
            final(self).grows_from(old(self)),
            final(self).pending == old(self).pending,
            final(self).scope_depth == old(self).scope_depth,
            !final(self).had_error ==> {
                &&& extends_in_scope(old(self).locals@, final(self).locals@, old(self).scope_depth)
                &&& final(self).depth() - final(self).locals@.len() == old(self).depth() - old(
                    self,
                ).locals@.len()
            },
        decreases old(self).measure(), 3nat,
    {
        let var = self.parse_variable("Expected variable name.");
        let ghost a = *self;
        if self.matches(TokenType::Equal) {
            let ghost b = *self;
            self.expression();
            proof {
                Self::lemma_grows_trans(&a, &b, self);
            }
        } else {
            let ghost b = *self;
            self.emit_byte(OpCode::Nil.to_byte());
            proof {
                Self::lemma_grows_trans(&a, &b, self);
            }
        }
        proof {
            Self::lemma_grows_trans(old(self), &a, self);
        }
        let ghost c = *self;
        self.consume(TokenType::Semicolon, "Expected ';' after variable declaration.");
        proof {
            Self::lemma_grows_trans(old(self), &c, self);
        }
        let ghost d = *self;
        self.define_variable(var);
        proof {
            Self::lemma_grows_trans(old(self), &d, self);
            if !self.had_error {
                let base = old(self).locals@;
                if old(self).scope_depth > 0 {
                    assert(self.locals@.subrange(0, base.len() as int) =~= d.locals@.subrange(
                        0,
                        base.len() as int,
                    ));
                    assert forall|i: int| 0 <= i < self.locals@.len() implies #[trigger] self.locals@[i].depth
                        <= self.scope_depth by {
                        if i < base.len() {
                            assert(self.locals@[i] == self.locals@.subrange(0, base.len() as int)[i]);
                        }
                    }
                } else {
                    lemma_extends_refl(base, old(self).scope_depth);
                }
            }
        }
    }

    fn expression_statement(&mut self)
        requires
            old(self).wf(),
            old(self).settled(),
        ensures
            final(self).wf(),
            final(self).settled(),
            final(self).grows_from(old(self)),
            final(self).pending == old(self).pending,
            final(self).scope_depth == old(self).scope_depth,
            !final(self).had_error ==> final(self).depth() == old(self).depth() && final(self).locals@ == old(self).locals@,
            old(self).current.kind != TokenType::EOF ==> final(self).measure() < old(self).measure(),
        decreases old(self).measure(), 3nat,
    {
        self.expression();
        let ghost a = *self;
        self.consume(TokenType::Semicolon, "Expected ';' after expression.");
        let ghost b = *self;
        self.emit_byte(OpCode::Pop.to_byte());
        proof {
            Self::lemma_grows_trans(old(self), &a, &b);
            Self::lemma_grows_trans(old(self), &b, self);
        }
    }

    /// `switch (value) { case x: ... default: ... }`: the first case equal to
    /// the value runs, or else the default; cases do not fall through.
    fn switch_statement(&mut self)
        requires
            old(self).wf(),
            old(self).settled(),
        ensures
            !final(self).had_error ==> {
                let c = final(self).chunk.code@;
                &&& c.len() > old(self).chunk.code@.len()
                &&& op_at(c, c.len() - 1, OpCode::Pop)
                &&& final(self).previous.kind == TokenType::RightBrace
            },
            final(self).wf(),
            final(self).settled(),
            final(self).grows_from(old(self)),
            final(self).pending == old(self).pending,
            final(self).scope_depth == old(self).scope_depth,
            !final(self).had_error ==> final(self).depth() == old(self).depth() && final(self).locals@ == old(self).locals@,
        decreases old(self).measure(), 12nat,
    {
        let ghost depth = self.depth();
        self.consume(TokenType::LeftParen, "Expected '(' after switch.");
        let ghost a = *self;
        self.expression();
        proof {
            Self::lemma_grows_trans(old(self), &a, self);
        }
        let ghost b = *self;
        self.consume(TokenType::RightParen, "Expected ')' after expression.");
        proof {
            Self::lemma_grows_trans(old(self), &b, self);
        }
        let ghost c = *self;
        self.consume(TokenType::LeftBrace, "Expected '{' after switch statement.");
        proof {
            Self::lemma_grows_trans(old(self), &c, self);
        }

        let mut exit_jumps: Vec<usize> = Vec::new();
        while !self.check(TokenType::RightBrace)
            invariant
                exits_pending(self.pending@, old(self).pending@, exit_jumps@, 0),
                self.wf(),
                self.grows_from(old(self)),
                self.scope_depth == old(self).scope_depth,
                forall|i: int|
                    0 <= i < exit_jumps@.len() ==> #[trigger] exit_jumps@[i] + 2
                        <= self.chunk.code@.len() && pending_jump(self.chunk.code@, exit_jumps@[i] as int),
                self.settled(),
                !self.had_error ==> {
                    &&& self.depth() == depth + 1
                    &&& self.depth() >= 1
                    &&& self.locals@ == old(self).locals@
                    &&& forall|i: int|
                        0 <= i < exit_jumps@.len() ==> self.depths@[#[trigger] exit_jumps@[i] - 1]
                            == depth + 1
                },
            decreases self.measure(),
        {
            let ghost before = *self;
            let ghost ej = exit_jumps@;
            proof {
                assert forall|m: int| 0 <= m < ej.len() implies #[trigger] ej[m] <= before.chunk.code@.len() by {
                    assert(pending_jump(before.chunk.code@, ej[m] as int));
                }
            }
            if self.matches(TokenType::Case) {
                let ghost mid = *self;
                let j = self.switch_case();
                exit_jumps.push(j);
                proof {
                    Self::lemma_grows_trans(&before, &mid, self);
                    Self::lemma_grows_trans(old(self), &before, self);
                    lemma_exit_pushed(old(self).pending@, before.pending@, ej, j, before.chunk.code@.len() as int, self.pending@);
                }
            } else if self.matches(TokenType::Default) {
                let ghost mid = *self;
                let j = self.switch_default();
                exit_jumps.push(j);
                proof {
                    Self::lemma_grows_trans(&before, &mid, self);
                    Self::lemma_grows_trans(old(self), &before, self);
                    lemma_exit_pushed(old(self).pending@, before.pending@, ej, j, before.chunk.code@.len() as int, self.pending@);
                }
            } else {
                // Neither a case nor a default: the closing brace is reported missing below.
                break;
            }
        }

        let mut i: usize = 0;
        while i < exit_jumps.len()
            invariant
                exits_pending(self.pending@, old(self).pending@, exit_jumps@, i as int),
                self.wf(),
                self.grows_from(old(self)),
                self.scope_depth == old(self).scope_depth,
                i <= exit_jumps@.len(),
                forall|k: int|
                    0 <= k < exit_jumps@.len() ==> #[trigger] exit_jumps@[k] + 2
                        <= self.chunk.code@.len() && pending_jump(self.chunk.code@, exit_jumps@[k] as int),
                self.settled(),
                !self.had_error ==> {
                    &&& self.depth() == depth + 1
                    &&& self.locals@ == old(self).locals@
                    &&& forall|k: int|
                        0 <= k < exit_jumps@.len() ==> self.depths@[#[trigger] exit_jumps@[k] - 1]
                            == depth + 1
                },
            decreases exit_jumps@.len() - i,
        {
            let ghost before = *self;
            proof {
                lemma_exit_patched(old(self).pending@, self.pending@, exit_jumps@, i as int, self.pending@.remove(exit_jumps@[i as int] as int));
            }
            self.patch_jump(exit_jumps[i]);
            proof {
                Self::lemma_grows_trans(old(self), &before, self);
            }
            i = i + 1;
        }
        proof {
            assert(self.pending@ =~= old(self).pending@);
        }
        let ghost d = *self;
        self.emit_byte(OpCode::Pop.to_byte());
        proof {
            Self::lemma_grows_trans(old(self), &d, self);
        }
        let ghost e = *self;
        self.consume(TokenType::RightBrace, "Expected '}' after switch cases.");
        proof {
            Self::lemma_grows_trans(old(self), &e, self);
        }
    }

    /// Statements after a case must not start at the next case, default or brace.
    fn case_body_continues(&self) -> (b: bool)
        ensures
            b == (self.current.kind != TokenType::Case && self.current.kind != TokenType::Default
                && self.current.kind != TokenType::RightBrace && self.current.kind
                != TokenType::EOF),
    {
        !self.check(TokenType::Case) && !self.check(TokenType::Default) && !self.check(
            TokenType::RightBrace,
        ) && !self.check(TokenType::EOF)
    }

    /// One `case value: statements`; gives the offset of its exit jump.
    fn switch_case(&mut self) -> (exit: usize)
        requires
            old(self).wf(),
            old(self).settled(),
            !old(self).had_error ==> old(self).depth() >= 1,
        ensures
            final(self).wf(),
            final(self).settled(),
            final(self).grows_from(old(self)),
            final(self).scope_depth == old(self).scope_depth,
            exit + 2 <= final(self).chunk.code@.len(),
            pending_jump(final(self).chunk.code@, exit as int),
            exit > old(self).chunk.code@.len(),
            !old(self).pending@.contains(exit as int),
            final(self).pending@ == old(self).pending@.insert(exit as int),
            !final(self).had_error ==> {
                &&& final(self).depth() == old(self).depth()
                &&& final(self).locals@ == old(self).locals@
                &&& final(self).depths@[exit - 1] == old(self).depth()
            },
        decreases old(self).measure(), 12nat,
    {
        let ghost depth = self.depth();
        self.expression();
        let ghost a = *self;
        self.consume(TokenType::Colon, "Expected ':' after case.");
        proof {
            Self::lemma_grows_trans(old(self), &a, self);
        }
        let ghost b = *self;
        self.emit_byte(OpCode::SwitchEq.to_byte());
        let next_case = self.emit_jump(OpCode::JumpIfFalse, Ghost(depth + 1));
        self.emit_byte(OpCode::Pop.to_byte());
        proof {
            Self::lemma_grows_trans(old(self), &b, self);
        }
        while self.case_body_continues()
            invariant
                self.pending@ == old(self).pending@.insert(next_case as int),
                !old(self).pending@.contains(next_case as int),
                next_case > old(self).chunk.code@.len(),
                self.wf(),
                self.settled(),
                self.grows_from(old(self)),
                self.scope_depth == old(self).scope_depth,
                next_case + 2 <= self.chunk.code@.len(),
                pending_jump(self.chunk.code@, next_case as int),
                !self.had_error ==> {
                    &&& self.depth() == depth
                    &&& self.locals@ == old(self).locals@
                    &&& self.depths@[next_case - 1] == depth + 1
                },
            decreases self.measure(),
        {
            let ghost before = *self;
            self.statement();
            proof {
                Self::lemma_grows_trans(old(self), &before, self);
            }
        }
        let ghost c = *self;
        let exit_jump = self.emit_jump(OpCode::Jump, Ghost(depth + 1));
        self.patch_jump(next_case);
        self.emit_byte(OpCode::Pop.to_byte());
        proof {
            Self::lemma_grows_trans(old(self), &c, self);
            assert(self.pending@ =~= old(self).pending@.insert(exit_jump as int));
        }
        exit_jump
    }

    /// The `default: statements` of a switch; gives the offset of its exit jump.
    fn switch_default(&mut self) -> (exit: usize)
        requires
            old(self).wf(),
            old(self).settled(),
        ensures
            final(self).wf(),
            final(self).settled(),
            final(self).grows_from(old(self)),
            final(self).scope_depth == old(self).scope_depth,
            exit + 2 <= final(self).chunk.code@.len(),
            pending_jump(final(self).chunk.code@, exit as int),
            exit > old(self).chunk.code@.len(),
            !old(self).pending@.contains(exit as int),
            final(self).pending@ == old(self).pending@.insert(exit as int),
            !final(self).had_error ==> {
                &&& final(self).depth() == old(self).depth()
                &&& final(self).locals@ == old(self).locals@
                &&& final(self).depths@[exit - 1] == old(self).depth()
            },
        decreases old(self).measure(), 12nat,
    {
        let ghost depth = self.depth();
        self.consume(TokenType::Colon, "Expected ':' after default case.");
        let ghost a = *self;
        while self.case_body_continues()
            invariant
                self.pending == old(self).pending,
                self.wf(),
                self.settled(),
                self.grows_from(old(self)),
                self.scope_depth == old(self).scope_depth,
                !self.had_error ==> self.depth() == depth && self.locals@ == old(self).locals@,
            decreases self.measure(),
        {
            let ghost before = *self;
            self.statement();
            proof {
                Self::lemma_grows_trans(old(self), &before, self);
            }
        }
        let ghost c = *self;
        let exit = self.emit_jump(OpCode::Jump, Ghost(depth));
        proof {
            Self::lemma_grows_trans(old(self), &c, self);
        }
        exit
    }

    fn if_statement(&mut self)
        requires
            old(self).wf(),
            old(self).settled(),
        ensures
            !final(self).had_error ==> exists|j: int, e: int|
                #[trigger] if_shape(final(self).chunk.code@, old(self).chunk.code@.len() as int, j, e),
            final(self).wf(),
            final(self).settled(),
            final(self).grows_from(old(self)),
            final(self).pending == old(self).pending,
            final(self).scope_depth == old(self).scope_depth,
            !final(self).had_error ==> final(self).depth() == old(self).depth() && final(self).locals@ == old(self).locals@,
        decreases old(self).measure(), 12nat,
    {
        let ghost depth = self.depth();
        self.consume(TokenType::LeftParen, "Expected '(' after 'if'.");
        let ghost a = *self;
        self.expression();
        proof {
            Self::lemma_grows_trans(old(self), &a, self);
        }
        let ghost b = *self;
        self.consume(TokenType::RightParen, "Expected ')' after condition.");
        let ghost b1 = *self;
        let then_jump = self.emit_jump(OpCode::JumpIfFalse, Ghost(depth + 1));
        let ghost b2 = *self;
        self.emit_byte(OpCode::Pop.to_byte());
        proof {
            Self::lemma_grows_trans(old(self), &b, self);
        }
        let ghost c = *self;
        self.statement();
        proof {
            Self::lemma_grows_trans(old(self), &c, self);
        }
        let ghost d = *self;
        let else_jump = self.emit_jump(OpCode::Jump, Ghost(depth + 1));
        let ghost d1 = *self;
        self.patch_jump(then_jump);
        let ghost d2 = *self;
        self.emit_byte(OpCode::Pop.to_byte());
        proof {
            Self::lemma_grows_trans(old(self), &d, self);
        }
        let ghost e = *self;
        if self.matches(TokenType::Else) {
            let ghost f = *self;
            self.statement();
            proof {
                Self::lemma_grows_trans(&e, &f, self);
            }
        }
        proof {
            Self::lemma_grows_trans(old(self), &e, self);
        }
        let ghost g = *self;
        self.patch_jump(else_jump);
        proof {
            Self::lemma_grows_trans(old(self), &g, self);
            if !self.had_error {
                let j = then_jump - 1;
                let k = else_jump - 1;
                let code = self.chunk.code@;
                Self::lemma_grows_trans(&b2, &c, &d);
                Self::lemma_grows_trans(&b2, &d, &d1);
                assert(op_at(d1.chunk.code@, j + 3, OpCode::Pop));
                Self::lemma_grows_trans(&d2, &e, &g);
                Self::lemma_grows_trans(&d2, &g, self);
                Self::lemma_branch_kept(&d2, self, j, OpCode::JumpIfFalse, k + 3);
                Self::lemma_grows_trans(&d1, &d2, self);
                assert(op_at(code, j + 3, OpCode::Pop));
                assert(op_at(e.chunk.code@, k + 3, OpCode::Pop));
                Self::lemma_grows_trans(&e, &g, self);
                assert(op_at(code, k + 3, OpCode::Pop));
                assert(branch_at(code, k, OpCode::Jump, code.len() as int));
                assert(branch_at(code, j, OpCode::JumpIfFalse, k + 3));
                Self::lemma_grows_trans(old(self), &b, &b1);
                assert(old(self).chunk.code@.len() <= j);
                assert(j + 4 <= k);
                assert(if_shape(code, old(self).chunk.code@.len() as int, j, k));
            }
        }
    }

    fn while_statement(&mut self)
        requires
            old(self).wf(),
            old(self).settled(),
        ensures
            !final(self).had_error ==> exists|j: int|
                #[trigger] while_shape(final(self).chunk.code@, old(self).chunk.code@.len() as int, j),
            final(self).wf(),
            final(self).settled(),
            final(self).grows_from(old(self)),
            final(self).pending == old(self).pending,
            final(self).scope_depth == old(self).scope_depth,
            !final(self).had_error ==> final(self).depth() == old(self).depth() && final(self).locals@ == old(self).locals@,
        decreases old(self).measure(), 12nat,
    {
        let ghost depth = self.depth();
        let loop_start = self.chunk.code.len();
        proof {
            lemma_decodes_reaches_end(self.chunk.code@, 0);
            assert(boundary(self.chunk.code@, loop_start as int));
        }
        self.consume(TokenType::LeftParen, "Expected '(' after 'while'.");
        let ghost a = *self;
        self.expression();
        proof {
            Self::lemma_grows_trans(old(self), &a, self);
        }
        let ghost b = *self;
        self.consume(TokenType::RightParen, "Expected ')' after 'if'.");
        let ghost b1 = *self;
        let exit_jump = self.emit_jump(OpCode::JumpIfFalse, Ghost(depth + 1));
        let ghost b2 = *self;
        self.emit_byte(OpCode::Pop.to_byte());
        proof {
            Self::lemma_grows_trans(old(self), &b, self);
        }
        let ghost c = *self;
        self.statement();
        proof {
            Self::lemma_grows_trans(old(self), &c, self);
        }
        let ghost d = *self;
        self.emit_loop(loop_start, Ghost(depth + 1));
        let ghost d1 = *self;
        self.patch_jump(exit_jump);
        let ghost d2 = *self;
        self.emit_byte(OpCode::Pop.to_byte());
        proof {
            Self::lemma_grows_trans(old(self), &d, self);
            if !self.had_error {
                let j = exit_jump - 1;
                let l = d.chunk.code@.len() as int;
                let code = self.chunk.code@;
                lemma_opcode_byte_roundtrip(OpCode::Loop, 0);
                assert(branch_at(d1.chunk.code@, l, OpCode::Loop, loop_start as int));
                Self::lemma_grows_trans(&d1, &d2, self);
                Self::lemma_branch_kept(&d1, self, l, OpCode::Loop, loop_start as int);
                Self::lemma_grows_trans(&b2, &c, &d);
                Self::lemma_grows_trans(&b2, &d, &d1);
                Self::lemma_grows_trans(&b2, &d1, self);
                assert(op_at(code, j + 3, OpCode::Pop));
                Self::lemma_branch_kept(&d2, self, j, OpCode::JumpIfFalse, l + 3);
                Self::lemma_grows_trans(old(self), &b, &b1);
                assert(while_shape(code, loop_start as int, j));
            }
        }
    }

    /// The condition clause of a `for`, up to its `;`: gives the exit jump
    /// when there is a condition.
    fn for_condition(&mut self) -> (exit: Option<usize>)
        requires
            old(self).settled(),
            old(self).wf(),
        ensures
            exit is None <==> old(self).current.kind == TokenType::Semicolon,
            exit is None ==> final(self).chunk == old(self).chunk,
            exit matches Some(j) ==> (!final(self).had_error ==> {
                let c = final(self).chunk.code@;
                &&& op_at(c, j - 1, OpCode::JumpIfFalse)
                &&& op_at(c, j + 2, OpCode::Pop)
                &&& c.len() == j + 3
            }),
            final(self).wf(),
            final(self).grows_from(old(self)),
            final(self).scope_depth == old(self).scope_depth,
            final(self).locals == old(self).locals,
            !final(self).had_error ==> final(self).depth() == old(self).depth(),
            match exit {
                Some(j) => {
                    &&& pending_jump(final(self).chunk.code@, j as int)
                    &&& j + 2 <= final(self).chunk.code@.len()
                    &&& !old(self).pending@.contains(j as int)
                    &&& final(self).pending@ == old(self).pending@.insert(j as int)
                    &&& !final(self).had_error ==> final(self).depths@[j - 1] == old(self).depth() + 1
                },
                None => final(self).pending == old(self).pending,
            },
    {
        if self.matches(TokenType::Semicolon) {
            return None;
        }
        let ghost depth = self.depth();
        let ghost c1 = *self;
        self.expression();
        let ghost c2 = *self;
        self.consume(TokenType::Semicolon, "Expected ';' after loop condition.");
        let ghost c3 = *self;
        let j = self.emit_jump(OpCode::JumpIfFalse, Ghost(depth + 1));
        let ghost c4 = *self;
        self.emit_byte(OpCode::Pop.to_byte());
        proof {
            Self::lemma_grows_trans(old(self), &c1, &c2);
            Self::lemma_grows_trans(old(self), &c2, &c3);
            Self::lemma_grows_trans(old(self), &c3, &c4);
            Self::lemma_grows_trans(old(self), &c4, self);
            lemma_opcode_byte_roundtrip(OpCode::JumpIfFalse, 0);
            assert(op_at(c4.chunk.code@, j - 1, OpCode::JumpIfFalse));
        }
        Some(j)
    }

    /// The increment clause of a `for`, up to its `)`: when there is one it
    /// runs after the body, which then loops back to it; gives where the body
    /// loops back to.
    fn for_increment(&mut self, loop_start: usize) -> (next_start: usize)
        requires
            old(self).settled(),
            old(self).wf(),
            loop_start <= old(self).chunk.code@.len(),
            boundary(old(self).chunk.code@, loop_start as int),
            !old(self).had_error ==> old(self).depths@[loop_start as int] == old(self).depth(),
        ensures
            old(self).current.kind == TokenType::RightParen ==> next_start == loop_start && final(self).chunk == old(self).chunk,
            old(self).current.kind != TokenType::RightParen ==> {
                &&& next_start == old(self).chunk.code@.len() + 3
                &&& !final(self).had_error ==> {
                    let (c, n) = (final(self).chunk.code@, old(self).chunk.code@.len() as int);
                    &&& c.len() >= n + 7
                    &&& branch_at(c, n, OpCode::Jump, c.len() as int)
                    &&& op_at(c, c.len() - 4, OpCode::Pop)
                    &&& branch_at(c, c.len() - 3, OpCode::Loop, loop_start as int)
                }
            },
            final(self).wf(),
            final(self).grows_from(old(self)),
            final(self).pending == old(self).pending,
            final(self).scope_depth == old(self).scope_depth,
            final(self).locals == old(self).locals,
            next_start <= final(self).chunk.code@.len(),
            boundary(final(self).chunk.code@, next_start as int),
            !final(self).had_error ==> final(self).depth() == old(self).depth(),
            !final(self).had_error ==> final(self).depths@[next_start as int] == old(self).depth(),
    {
        if self.matches(TokenType::RightParen) {
            return loop_start;
        }
        let ghost depth = self.depth();
        let ghost d0 = *self;
        let body_jump = self.emit_jump(OpCode::Jump, Ghost(depth));
        let increment_start = self.chunk.code.len();
        proof {
            lemma_decodes_reaches_end(self.chunk.code@, 0);
            assert(boundary(self.chunk.code@, increment_start as int));
        }
        let ghost d1 = *self;
        self.expression();
        let ghost d2 = *self;
        self.emit_byte(OpCode::Pop.to_byte());
        let ghost d3 = *self;
        self.consume(TokenType::RightParen, "Expected ')' after 'for' clauses.");
        proof {
            Self::lemma_grows_trans(old(self), &d0, &d1);
            Self::lemma_grows_trans(old(self), &d1, &d2);
            Self::lemma_grows_trans(old(self), &d2, &d3);
            Self::lemma_grows_trans(old(self), &d3, self);
            Self::lemma_grows_trans(&d1, &d2, &d3);
            Self::lemma_grows_trans(&d1, &d3, self);
        }
        let ghost d4 = *self;
        self.emit_loop(loop_start, Ghost(depth));
        let ghost d5 = *self;
        self.patch_jump(body_jump);
        proof {
            Self::lemma_grows_trans(old(self), &d4, &d5);
            Self::lemma_grows_trans(old(self), &d5, self);
            Self::lemma_grows_trans(&d1, &d4, &d5);
            Self::lemma_grows_trans(&d1, &d5, self);
            assert(self.pending@ =~= old(self).pending@);
            if !self.had_error {
                let l = d4.chunk.code@.len() as int;
                lemma_opcode_byte_roundtrip(OpCode::Loop, 0);
                lemma_opcode_byte_roundtrip(OpCode::Jump, 0);
                assert(branch_at(d5.chunk.code@, l, OpCode::Loop, loop_start as int));
                Self::lemma_branch_kept(&d5, self, l, OpCode::Loop, loop_start as int);
                Self::lemma_grows_trans(&d2, &d3, self);
                assert(op_at(self.chunk.code@, l - 1, OpCode::Pop));
                Self::lemma_grows_trans(&d0, &d1, self);
                assert(op_at(self.chunk.code@, body_jump - 1, OpCode::Jump));
            }
        }
        increment_start
    }

    #[verifier::rlimit(40)]
    fn for_statement(&mut self)
        requires
            old(self).wf(),
            old(self).settled(),
        ensures
            !final(self).had_error ==> exists|l: int, t: int|
                #[trigger] for_shape(final(self).chunk.code@, old(self).chunk.code@.len() as int, l, t),
            final(self).wf(),
            final(self).settled(),
            final(self).grows_from(old(self)),
            final(self).pending == old(self).pending,
            final(self).scope_depth == old(self).scope_depth,
            !final(self).had_error ==> final(self).depth() == old(self).depth() && final(self).locals@ == old(self).locals@,
        decreases old(self).measure(), 12nat,
    {
        self.begin_scope();
        let ghost a = *self;
        self.consume(TokenType::LeftParen, "Expected '(' after 'for'.");
        let ghost b = *self;
        if self.matches(TokenType::Var) {
            let ghost b1 = *self;
            self.var_declaration();
            proof {
                Self::lemma_grows_trans(&b, &b1, self);
            }
        } else if self.matches(TokenType::Semicolon) {
            proof {
                lemma_extends_refl(b.locals@, b.scope_depth);
            }
        } else {
            self.expression_statement();
            proof {
                lemma_extends_refl(b.locals@, b.scope_depth);
            }
        }
        proof {
            Self::lemma_grows_trans(&a, &b, self);
            lemma_decodes_reaches_end(self.chunk.code@, 0);
            assert(boundary(self.chunk.code@, self.chunk.code@.len() as int));
        }
        let ghost inner = self.depth();
        let loop_start = self.chunk.code.len();
        let ghost c = *self;
        let exit_jump = self.for_condition();
        let ghost d = *self;
        let loop_start = self.for_increment(loop_start);
        proof {
            Self::lemma_grows_trans(&a, &c, &d);
            Self::lemma_grows_trans(&a, &d, self);
        }
        let ghost e = *self;
        self.statement();
        let ghost e1 = *self;
        self.emit_loop(loop_start, Ghost(if exit_jump is Some { inner + 1 } else { inner }));
        let ghost e2 = *self;
        match exit_jump {
            Some(j) => {
                self.patch_jump(j);
                let ghost e3 = *self;
                self.emit_byte(OpCode::Pop.to_byte());
                proof {
                    Self::lemma_grows_trans(&e2, &e3, self);
                }
            },
            None => {},
        }
        proof {
            Self::lemma_grows_trans(&e, &e1, &e2);
            Self::lemma_grows_trans(&e, &e2, self);
            Self::lemma_grows_trans(&a, &e, self);
            assert(self.pending@ =~= a.pending@);
        }
        let ghost f = *self;
        self.end_scope();
        proof {
            Self::lemma_grows_trans(&a, &f, self);
            Self::lemma_grows_trans(old(self), &a, self);
            if !self.had_error {
                let l = e1.chunk.code@.len() as int;
                let t = loop_start as int;
                let code = self.chunk.code@;
                lemma_opcode_byte_roundtrip(OpCode::Loop, 0);
                assert(branch_at(e2.chunk.code@, l, OpCode::Loop, t));
                Self::lemma_grows_trans(&e2, &f, self);
                Self::lemma_branch_kept(&e2, self, l, OpCode::Loop, t);
                Self::lemma_grows_trans(old(self), &a, &c);
                assert(old(self).chunk.code@.len() <= t);
                assert forall|i: int| l + 3 <= i < code.len() implies code[i] == opcode_byte(OpCode::Pop) by {
                    if i < f.chunk.code@.len() {
                        assert(code[i] == f.chunk.code@[i]);
                    }
                }
                assert(for_shape(code, old(self).chunk.code@.len() as int, l, t));
            }
            if !self.had_error {
                lemma_scope_closed(old(self).locals@, f.locals@, self.locals@, old(self).scope_depth);
            }
        }
    }

    fn and(&mut self)
        requires
            old(self).locals_fit(1),
            old(self).wf(),
            !old(self).had_error ==> old(self).depth() >= 1,
        ensures
            old(self).previous.kind == TokenType::And && !final(self).had_error ==> {
                let s = final(self).read_since(old(self));
                &&& parens_nested(s)
                &&& operators_bind_at(s, prec_level(rule_of(old(self).previous.kind).precedence) as int)
            },
            !final(self).had_error ==> {
                let (c, n) = (final(self).chunk.code@, old(self).chunk.code@.len() as int);
                &&& branch_at(c, n, OpCode::JumpIfFalse, c.len() as int)
                &&& op_at(c, n + 3, OpCode::Pop)
            },
            !final(self).had_error ==> final(self).depth() == old(self).depth(),
            final(self).wf(),
            final(self).grows_from(old(self)),
            final(self).pending == old(self).pending,
            final(self).locals == old(self).locals,
            final(self).scope_depth == old(self).scope_depth,
        decreases old(self).measure(), 2nat,
    {
        let ghost d = self.depth();
        let end_jump = self.emit_jump(OpCode::JumpIfFalse, Ghost(d));
        self.emit_byte(OpCode::Pop.to_byte());
        let ghost a = *self;
        self.parse_precedence(Precedence::And);
        self.patch_jump(end_jump);
        proof {
            Self::lemma_grows_trans(old(self), &a, self);
        }
    }

    fn or(&mut self)
        requires
            old(self).locals_fit(1),
            old(self).wf(),
            !old(self).had_error ==> old(self).depth() >= 1,
        ensures
            old(self).previous.kind == TokenType::Or && !final(self).had_error ==> {
                let s = final(self).read_since(old(self));
                &&& parens_nested(s)
                &&& operators_bind_at(s, prec_level(rule_of(old(self).previous.kind).precedence) as int)
            },
            !final(self).had_error ==> {
                let (c, n) = (final(self).chunk.code@, old(self).chunk.code@.len() as int);
                &&& branch_at(c, n, OpCode::JumpIfFalse, n + 6)
                &&& branch_at(c, n + 3, OpCode::Jump, c.len() as int)
                &&& op_at(c, n + 6, OpCode::Pop)
            },
            !final(self).had_error ==> final(self).depth() == old(self).depth(),
            final(self).wf(),
            final(self).grows_from(old(self)),
            final(self).pending == old(self).pending,
            final(self).locals == old(self).locals,
            final(self).scope_depth == old(self).scope_depth,
        decreases old(self).measure(), 2nat,
    {
        let ghost d = self.depth();
        let else_jump = self.emit_jump(OpCode::JumpIfFalse, Ghost(d));
        let end_jump = self.emit_jump(OpCode::Jump, Ghost(d));
        self.patch_jump(else_jump);
        self.emit_byte(OpCode::Pop.to_byte());
        let ghost a = *self;
        self.parse_precedence(Precedence::Or);
        self.patch_jump(end_jump);
        proof {
            Self::lemma_grows_trans(old(self), &a, self);
        }
    }

    fn print_statement(&mut self)
        requires
            old(self).wf(),
            old(self).settled(),
        ensures
            !final(self).had_error ==> {
                let c = final(self).chunk.code@;
                &&& c.len() > old(self).chunk.code@.len()
                &&& op_at(c, c.len() - 1, OpCode::Print)
            },
            final(self).wf(),
            final(self).settled(),
            final(self).grows_from(old(self)),
            final(self).pending == old(self).pending,
            final(self).scope_depth == old(self).scope_depth,
            !final(self).had_error ==> final(self).depth() == old(self).depth() && final(self).locals@ == old(self).locals@,
        decreases old(self).measure(), 3nat,
    {
        self.expression();
        let ghost a = *self;
        self.consume(TokenType::Semicolon, "Expected ';' after value.");
        self.emit_byte(OpCode::Print.to_byte());
        proof {
            Self::lemma_grows_trans(old(self), &a, self);
        }
    }

    /// After an error, skips tokens up to a likely statement boundary.
    fn synchronize(&mut self)
        requires
            old(self).wf(),
            old(self).had_error,
        ensures
            final(self).wf(),
            final(self).had_error,
            final(self).grows_from(old(self)),
            final(self).pending == old(self).pending,
            final(self).scope_depth == old(self).scope_depth,
            final(self).chunk == old(self).chunk,
            final(self).depths == old(self).depths,
            final(self).locals == old(self).locals,
            final(self).current.kind == TokenType::EOF || final(self).previous.kind
                == TokenType::Semicolon || starts_statement(final(self).current.kind),
            final(self).panic_mode ==> final(self).errors@.len() > old(self).errors@.len(),
    {
        self.panic_mode = false;
        proof {
            self.lemma_grows_refl();
        }
        while self.current.kind != TokenType::EOF
            invariant
                self.pending == old(self).pending,
                self.wf(),
                self.had_error,
                self.grows_from(old(self)),
                self.scope_depth == old(self).scope_depth,
                self.chunk == old(self).chunk,
                self.depths == old(self).depths,
                self.locals == old(self).locals,
                self.panic_mode ==> self.errors@.len() > old(self).errors@.len(),
            decreases self.measure(),
        {
            if self.previous.kind == TokenType::Semicolon {
                return;
            }
            let k = self.current.kind;
            if k == TokenType::Class || k == TokenType::Fun || k == TokenType::Var || k
                == TokenType::For || k == TokenType::If || k == TokenType::While || k
                == TokenType::Print || k == TokenType::Return {
                return;
            }
            let ghost before = *self;
            self.advance();
            proof {
                Self::lemma_grows_trans(old(self), &before, self);
            }
        }
    }

    fn declaration(&mut self)
        requires
            old(self).wf(),
            old(self).settled(),
        ensures
            final(self).wf(),
            final(self).settled(),
            final(self).grows_from(old(self)),
            final(self).pending == old(self).pending,
            final(self).scope_depth == old(self).scope_depth,
            !final(self).had_error ==> {
                &&& extends_in_scope(old(self).locals@, final(self).locals@, old(self).scope_depth)
                &&& final(self).depth() - final(self).locals@.len() == old(self).depth() - old(
                    self,
                ).locals@.len()
            },
            old(self).current.kind != TokenType::EOF ==> final(self).measure() < old(self).measure(),
        decreases old(self).measure(), 11nat,
    {
        if self.matches(TokenType::Var) {
            let ghost a = *self;
            self.var_declaration();
            proof {
                Self::lemma_grows_trans(old(self), &a, self);
            }
        } else {
            self.statement();
            proof {
                lemma_extends_refl(old(self).locals@, old(self).scope_depth);
            }
        }
        if self.panic_mode {
            let ghost b = *self;
            self.synchronize();
            proof {
                Self::lemma_grows_trans(old(self), &b, self);
            }
        }
    }

    fn statement(&mut self)
        requires
            old(self).wf(),
            old(self).settled(),
        ensures
            final(self).wf(),
            final(self).settled(),
            final(self).grows_from(old(self)),
            final(self).pending == old(self).pending,
            final(self).scope_depth == old(self).scope_depth,
            !final(self).had_error ==> final(self).depth() == old(self).depth() && final(self).locals@ == old(self).locals@,
            old(self).current.kind != TokenType::EOF ==> final(self).measure() < old(self).measure(),
        decreases old(self).measure(), 10nat,
    {
        let ghost a = *self;
        if self.matches(TokenType::Print) {
            let ghost b = *self;
            self.print_statement();
            proof {
                Self::lemma_grows_trans(&a, &b, self);
            }
        } else if self.matches(TokenType::LeftBrace) {
            let ghost b = *self;
            self.begin_scope();
            let ghost b1 = *self;
            self.block();
            let ghost c = *self;
            self.end_scope();
            proof {
                Self::lemma_grows_trans(&b1, &c, self);
                Self::lemma_grows_trans(&b, &b1, self);
                Self::lemma_grows_trans(&a, &b, self);
                if !self.had_error {
                    lemma_scope_closed(b.locals@, c.locals@, self.locals@, b.scope_depth);
                }
            }
        } else if self.matches(TokenType::If) {
            let ghost b = *self;
            self.if_statement();
            proof {
                Self::lemma_grows_trans(&a, &b, self);
            }
        } else if self.matches(TokenType::Switch) {
            let ghost b = *self;
            self.switch_statement();
            proof {
                Self::lemma_grows_trans(&a, &b, self);
            }
        } else if self.matches(TokenType::While) {
            let ghost b = *self;
            self.while_statement();
            proof {
                Self::lemma_grows_trans(&a, &b, self);
            }
        } else if self.matches(TokenType::For) {
            let ghost b = *self;
            self.for_statement();
            proof {
                Self::lemma_grows_trans(&a, &b, self);
            }
        } else {
            self.expression_statement();
        }
    }

    fn grouping(&mut self)
        requires
            old(self).locals_fit(0),
            old(self).wf(),
        ensures
            old(self).previous.kind == TokenType::LeftParen && !final(self).had_error ==> {
                let s = seq![old(self).previous.kind] + final(self).read_since(old(self));
                &&& parens_nested(s)
                &&& operators_bind_at(s, if old(self).can_assign { 1int } else { 9int })
            },
            !final(self).had_error ==> final(self).depth() == old(self).depth() + 1,
            final(self).wf(),
            final(self).grows_from(old(self)),
            final(self).pending == old(self).pending,
            final(self).locals == old(self).locals,
            final(self).scope_depth == old(self).scope_depth,
        decreases old(self).measure(), 3nat,
    {
        self.expression();
        let ghost a = *self;
        self.consume(TokenType::RightParen, "Expected ')' after expression.");
        proof {
            Self::lemma_grows_trans(old(self), &a, self);
        }
        proof {
            if !self.had_error {
                let e = a.read_since(old(self));
                assert(a.read_since(old(self)) =~= a.read@.subrange(old(self).read@.len() as int, a.read@.len() as int));
                assert(self.read_since(old(self)) =~= e.push(TokenType::RightParen));
                assert(seq![TokenType::LeftParen] + self.read_since(old(self)) =~= seq![TokenType::LeftParen] + e
                    + seq![TokenType::RightParen]);
                lemma_grouped(e, if old(self).can_assign { 1int } else { 9int });
            }
        }
    }

    /// A number literal becomes a constant holding its digits.
    fn number(&mut self)
        requires
            old(self).wf(),
        ensures
            old(self).previous.kind == TokenType::Number && !final(self).had_error ==> {
                let s = seq![old(self).previous.kind] + final(self).read_since(old(self));
                &&& parens_nested(s)
                &&& operators_bind_at(s, if old(self).can_assign { 1int } else { 9int })
            },
            !final(self).had_error ==> final(self).depth() == old(self).depth() + 1,
            final(self).wf(),
            final(self).grows_from(old(self)),
            final(self).pending == old(self).pending,
            final(self).locals == old(self).locals,
            final(self).scope_depth == old(self).scope_depth,
            final(self).chunk.constants@.len() == old(self).chunk.constants@.len() + 1,
            final(self).chunk.constants@.last() matches Constant::Number(d) && d@ == old(
                self,
            ).previous.lexeme@,
    {
        let digits = bytes_to_vec(self.previous.lexeme);
        self.emit_const(Constant::Number(digits));
        proof {
            let q = if old(self).can_assign { 1int } else { 9int };
            assert(self.read_since(old(self)) =~= Seq::<TokenType>::empty());
            if old(self).previous.kind == TokenType::Number {
                lemma_prefixed(old(self).previous.kind, Seq::<TokenType>::empty(), q);
            }
        }
    }

    fn literal(&mut self)
        requires
            old(self).wf(),
            old(self).previous.kind == TokenType::False || old(self).previous.kind
                == TokenType::True || old(self).previous.kind == TokenType::Nil,
        ensures
            !final(self).had_error ==> {
                let s = seq![old(self).previous.kind] + final(self).read_since(old(self));
                &&& parens_nested(s)
                &&& operators_bind_at(s, if old(self).can_assign { 1int } else { 9int })
            },
            !final(self).had_error ==> final(self).depth() == old(self).depth() + 1,
            final(self).wf(),
            final(self).grows_from(old(self)),
            final(self).pending == old(self).pending,
            final(self).locals == old(self).locals,
            final(self).scope_depth == old(self).scope_depth,
            final(self).chunk.code@ == old(self).chunk.code@.push(
                if old(self).previous.kind == TokenType::False {
                    opcode_byte(OpCode::False)
                } else if old(self).previous.kind == TokenType::True {
                    opcode_byte(OpCode::True)
                } else {
                    opcode_byte(OpCode::Nil)
                },
            ),
    {
        if self.previous.kind == TokenType::False {
            self.emit_byte(OpCode::False.to_byte());
        } else if self.previous.kind == TokenType::True {
            self.emit_byte(OpCode::True.to_byte());
        } else {
            self.emit_byte(OpCode::Nil.to_byte());
        }
        proof {
            let q = if old(self).can_assign { 1int } else { 9int };
            assert(self.read_since(old(self)) =~= Seq::<TokenType>::empty());
            lemma_prefixed(old(self).previous.kind, Seq::<TokenType>::empty(), q);
        }
    }

    fn unary(&mut self)
        requires
            old(self).locals_fit(0),
            old(self).wf(),
            old(self).previous.kind == TokenType::Minus || old(self).previous.kind
                == TokenType::Bang,
        ensures
            !final(self).had_error ==> {
                let s = seq![old(self).previous.kind] + final(self).read_since(old(self));
                &&& parens_nested(s)
                &&& operators_bind_at(s, if old(self).can_assign { 1int } else { 9int })
            },
            !final(self).had_error ==> {
                let c = final(self).chunk.code@;
                &&& c.len() > old(self).chunk.code@.len()
                &&& op_at(
                    c,
                    c.len() - 1,
                    if old(self).previous.kind == TokenType::Minus {
                        OpCode::Negate
                    } else {
                        OpCode::Not
                    },
                )
            },
            !final(self).had_error ==> final(self).depth() == old(self).depth() + 1,
            final(self).wf(),
            final(self).grows_from(old(self)),
            final(self).pending == old(self).pending,
            final(self).locals == old(self).locals,
            final(self).scope_depth == old(self).scope_depth,
        decreases old(self).measure(), 2nat,
    {
        let kind = self.previous.kind;
        self.parse_precedence(Precedence::Unary);
        let ghost a = *self;
        proof {
            if !a.had_error {
                let r = a.read_since(old(self));
                lemma_prefixed(kind, r, 8);
                lemma_bind_weaken(seq![kind] + r, 8, if old(self).can_assign { 1int } else { 9int });
            }
        }
        if kind == TokenType::Minus {
            self.emit_byte(OpCode::Negate.to_byte());
        } else {
            self.emit_byte(OpCode::Not.to_byte());
        }
        proof {
            Self::lemma_grows_trans(old(self), &a, self);
        }
    }

    fn binary(&mut self)
        requires
            old(self).locals_fit(1),
            !old(self).had_error ==> old(self).depth() >= 1,
            old(self).wf(),
            is_binary_operator(old(self).previous.kind),
        ensures
            !final(self).had_error ==> {
                let s = final(self).read_since(old(self));
                &&& parens_nested(s)
                &&& operators_bind_at(s, prec_level(rule_of(old(self).previous.kind).precedence) as int)
            },
            !final(self).had_error ==> {
                let (c, ops) = (final(self).chunk.code@, binary_code(old(self).previous.kind));
                &&& c.len() >= old(self).chunk.code@.len() + ops.len()
                &&& c.subrange(c.len() - ops.len(), c.len() as int) == ops
                &&& instruction_start(c, c.len() - ops.len())
            },
            !final(self).had_error ==> final(self).depth() == old(self).depth(),
            final(self).wf(),
            final(self).grows_from(old(self)),
            final(self).pending == old(self).pending,
            final(self).locals == old(self).locals,
            final(self).scope_depth == old(self).scope_depth,
        decreases old(self).measure(), 2nat,
    {
        let kind = self.previous.kind;
        let rule = Self::get_rule(kind);
        self.parse_precedence(rule.precedence);
        let ghost a = *self;
        if kind == TokenType::Plus {
            self.emit_byte(OpCode::Add.to_byte());
        } else if kind == TokenType::Minus {
            self.emit_byte(OpCode::Subtract.to_byte());
        } else if kind == TokenType::Star {
            self.emit_byte(OpCode::Multiply.to_byte());
        } else if kind == TokenType::Slash {
            self.emit_byte(OpCode::Divide.to_byte());
        } else if kind == TokenType::BangEqual {
            {
                self.emit_byte(OpCode::Equal.to_byte());
                self.emit_byte(OpCode::Not.to_byte());
            }
        } else if kind == TokenType::EqualEqual {
            self.emit_byte(OpCode::Equal.to_byte());
        } else if kind == TokenType::Greater {
            self.emit_byte(OpCode::Greater.to_byte());
        } else if kind == TokenType::GreaterEqual {
            {
                self.emit_byte(OpCode::Less.to_byte());
                self.emit_byte(OpCode::Not.to_byte());
            }
        } else if kind == TokenType::Less {
            self.emit_byte(OpCode::Less.to_byte());
        } else {
            {
                self.emit_byte(OpCode::Greater.to_byte());
                self.emit_byte(OpCode::Not.to_byte());
            }
        }
        proof {
            Self::lemma_grows_trans(old(self), &a, self);
        }
    }

    /// A name: a read of it, or, where an assignment may stand, a write.
    fn variable(&mut self)
        requires
            old(self).locals_fit(0),
            old(self).wf(),
        ensures
            old(self).previous.kind == TokenType::Identifier && !final(self).had_error ==> {
                let s = seq![old(self).previous.kind] + final(self).read_since(old(self));
                &&& parens_nested(s)
                &&& operators_bind_at(s, if old(self).can_assign { 1int } else { 9int })
            },
            !final(self).had_error ==> final(self).depth() == old(self).depth() + 1,
            final(self).wf(),
            final(self).grows_from(old(self)),
            final(self).pending == old(self).pending,
            final(self).locals == old(self).locals,
            final(self).scope_depth == old(self).scope_depth,
        decreases old(self).measure(), 3nat,
    {
        let name = self.previous.lexeme;
        let get_op;
        let set_op;
        let arg;
        match self.resolve_local(name) {
            Some(local_slot) => {
                get_op = OpCode::GetLocal;
                set_op = OpCode::SetLocal;
                arg = local_slot;
            },
            None => {
                get_op = OpCode::GetGlobal;
                set_op = OpCode::SetGlobal;
                let ghost a = *self;
                arg = self.global_slot(name);
                proof {
                    Self::lemma_grows_trans(old(self), &a, self);
                }
            },
        }
        let ghost b = *self;
        if self.can_assign && self.matches(TokenType::Equal) {
            let ghost c = *self;
            self.expression();
            let ghost d = *self;
            self.emit_bytes(set_op.to_byte(), arg);
            proof {
                Self::lemma_grows_trans(&b, &c, self);
                if !self.had_error {
                    let e = d.read_since(&c);
                    assert(e =~= d.read@.subrange(c.read@.len() as int, d.read@.len() as int));
                    assert(self.read_since(old(self)) =~= seq![TokenType::Equal] + e);
                    lemma_rule_table(TokenType::Equal);
                    lemma_prefixed(TokenType::Equal, e, 1);
                    lemma_prefixed(TokenType::Identifier, seq![TokenType::Equal] + e, 1);
                }
            }
        } else {
            self.emit_bytes(get_op.to_byte(), arg);
            proof {
                assert(self.read_since(old(self)) =~= Seq::<TokenType>::empty());
                lemma_prefixed(
                    TokenType::Identifier,
                    Seq::<TokenType>::empty(),
                    if old(self).can_assign { 1int } else { 9int },
                );
            }
        }
        proof {
            Self::lemma_grows_trans(old(self), &b, self);
        }
    }

    /// A string literal becomes a constant holding the id of its text,
    /// without the quotes.
    fn string(&mut self)
        requires
            old(self).wf(),
            old(self).previous.kind == TokenType::String,
        ensures
            !final(self).had_error ==> {
                let s = seq![old(self).previous.kind] + final(self).read_since(old(self));
                &&& parens_nested(s)
                &&& operators_bind_at(s, if old(self).can_assign { 1int } else { 9int })
            },
            !final(self).had_error ==> final(self).depth() == old(self).depth() + 1,
            final(self).wf(),
            final(self).grows_from(old(self)),
            final(self).pending == old(self).pending,
            final(self).locals == old(self).locals,
            final(self).scope_depth == old(self).scope_depth,
            final(self).chunk.constants@.last() matches Constant::String(id) && id
                < final(self).interner.texts().len() && final(self).interner.texts()[id as int]
                == old(self).previous.lexeme@.subrange(1, old(self).previous.lexeme@.len() - 1),
    {
        let lex = self.previous.lexeme;
        let text = slice_range(lex, 1, lex.len() - 1);
        let id = self.interner.intern_bytes(text);
        self.emit_const(Constant::String(id));
        proof {
            let q = if old(self).can_assign { 1int } else { 9int };
            assert(self.read_since(old(self)) =~= Seq::<TokenType>::empty());
            lemma_prefixed(old(self).previous.kind, Seq::<TokenType>::empty(), q);
        }
    }

    /// Parses an expression of at least the given precedence.
    fn parse_precedence(&mut self, precedence: Precedence)
        requires
            old(self).locals_fit(0),
            old(self).wf(),
            prec_level(precedence) >= 1,
        ensures
            !final(self).had_error ==> {
                let s = final(self).read_since(old(self));
                &&& parens_nested(s)
                &&& operators_bind_at(s, prec_level(precedence) as int)
            },
            !final(self).had_error ==> final(self).depth() == old(self).depth() + 1,
            final(self).wf(),
            final(self).grows_from(old(self)),
            final(self).pending == old(self).pending,
            final(self).locals == old(self).locals,
            final(self).scope_depth == old(self).scope_depth,
            old(self).current.kind != TokenType::EOF ==> final(self).measure() < old(self).measure(),
        decreases old(self).measure(), 1nat,
    {
        self.advance();
        let prefix_rule = Self::get_rule(self.previous.kind).prefix;
        self.can_assign = precedence.level() <= 1;
        let ghost a = *self;
        proof {
            lemma_rule_table(self.previous.kind);
        }
        match prefix_rule {
            Some(prefix) => {
                self.call_parse_fn(prefix);
            },
            None => {
                self.error_at_current("Expected expression.");
            },
        }
        proof {
            Self::lemma_grows_trans(old(self), &a, self);
            if !self.had_error {
                let t0 = old(self).current.kind;
                let pre = seq![t0] + self.read_since(&a);
                assert(self.read_since(old(self)) =~= pre);
                lemma_bind_weaken(pre, if a.can_assign { 1int } else { 9int }, prec_level(precedence) as int);
            }
        }
        while precedence.level() <= Self::get_rule(self.current.kind).precedence.level()
            invariant
                self.pending == old(self).pending,
                self.wf(),
                self.grows_from(old(self)),
                self.locals == old(self).locals,
                self.scope_depth == old(self).scope_depth,
                old(self).current.kind != TokenType::EOF ==> self.measure() < old(self).measure(),
                prec_level(precedence) >= 1,
                !self.had_error ==> self.depth() == old(self).depth() + 1,
                !self.had_error ==> self.depth() >= 1,
                self.locals_fit(1),
                !self.had_error ==> parens_nested(self.read_since(old(self))),
                !self.had_error ==> operators_bind_at(self.read_since(old(self)), prec_level(precedence) as int),
            decreases self.measure(),
        {
            proof {
                lemma_rule_table(self.current.kind);
            }
            let ghost b = *self;
            self.advance();
            let ghost b2 = *self;
            let infix_rule = Self::get_rule(self.previous.kind).infix;
            proof {
                lemma_rule_table(self.previous.kind);
            }
            match infix_rule {
                Some(infix) => {
                    self.call_parse_fn(infix);
                },
                None => {},
            }
            proof {
                Self::lemma_grows_trans(old(self), &b, self);
                if !self.had_error {
                    let op = b.current.kind;
                    let acc = b.read_since(old(self));
                    let r = self.read_since(&b2);
                    assert(self.read_since(old(self)) =~= acc.push(op) + r);
                    lemma_infix_joined(acc, op, r, prec_level(precedence) as int);
                }
            }
        }
        if self.can_assign && self.matches(TokenType::Equal) {
            self.error_at_current("Invalid assignment target.");
        }
    }

    /// Runs the parsing routine `f` for the token just read.
    fn call_parse_fn(&mut self, f: ParseFn)
        requires
            old(self).locals_fit(if parse_fn_infix(f) { 1int } else { 0int }),
            !old(self).had_error && parse_fn_infix(f) ==> old(self).depth() >= 1,
            old(self).wf(),
            rule_of(old(self).previous.kind).prefix == Some(f) || rule_of(
                old(self).previous.kind,
            ).infix == Some(f),
        ensures
            !final(self).had_error && !parse_fn_infix(f) ==> {
                let s = seq![old(self).previous.kind] + final(self).read_since(old(self));
                &&& parens_nested(s)
                &&& operators_bind_at(s, if old(self).can_assign { 1int } else { 9int })
            },
            !final(self).had_error && parse_fn_infix(f) ==> {
                let s = final(self).read_since(old(self));
                &&& parens_nested(s)
                &&& operators_bind_at(s, prec_level(rule_of(old(self).previous.kind).precedence) as int)
            },
            !final(self).had_error ==> final(self).depth() == old(self).depth() + if parse_fn_infix(f) { 0int } else { 1int },
            final(self).wf(),
            final(self).grows_from(old(self)),
            final(self).pending == old(self).pending,
            final(self).locals == old(self).locals,
            final(self).scope_depth == old(self).scope_depth,
        decreases old(self).measure(), 4nat,
    {
        proof {
            lemma_rule_table(self.previous.kind);
        }
        match f {
            ParseFn::Grouping => self.grouping(),
            ParseFn::Unary => self.unary(),
            ParseFn::Binary => self.binary(),
            ParseFn::Number => self.number(),
            ParseFn::Literal => self.literal(),
            ParseFn::Variable => self.variable(),
            ParseFn::String => self.string(),
            ParseFn::And => self.and(),
            ParseFn::Or => self.or(),
        }
    }

    /// Records an error at the previous token, unless one is already being
    /// reported; then the compiler is in panic mode until it resynchronizes.
    fn error_at_current(&mut self, message: &str)
        requires
            old(self).wf(),
        ensures
            final(self).read == old(self).read,
            final(self).wf(),
            final(self).grows_from(old(self)),
            final(self).pending == old(self).pending,
            old(self).panic_mode ==> *final(self) == *old(self),
            !old(self).panic_mode ==> {
                &&& final(self).panic_mode
                &&& final(self).had_error
                &&& final(self).errors@.len() == old(self).errors@.len() + 1
                &&& final(self).errors@.last().message@ == message@
                &&& final(self).errors@.last().line == old(self).previous.line
                &&& final(self).errors@.last().location == (match old(self).previous.kind {
                    TokenType::EOF => ErrorLocation::EndOfFile,
                    TokenType::Error => ErrorLocation::Unknown,
                    _ => ErrorLocation::Lexeme(final(self).errors@.last().location->Lexeme_0),
                })
                &&& (old(self).previous.kind != TokenType::EOF && old(self).previous.kind
                    != TokenType::Error ==> final(self).errors@.last().location->Lexeme_0@
                    == utf8_lossy_text(old(self).previous.lexeme@))
            },
            final(self).chunk == old(self).chunk,
            final(self).depths == old(self).depths,
            final(self).locals == old(self).locals,
            final(self).scope_depth == old(self).scope_depth,
            final(self).can_assign == old(self).can_assign,
            final(self).current == old(self).current,
            final(self).previous == old(self).previous,
            final(self).interner == old(self).interner,
            final(self).global_indices == old(self).global_indices,
    {
        let msg = message.to_owned();
        self.report_error(msg);
    }

    /// Records `message` at the previous token, unless already in panic mode.
    fn report_error(&mut self, message: String)
        requires
            old(self).had_error == (old(self).errors@.len() > 0),
        ensures
            final(self).had_error == (final(self).errors@.len() > 0),
            prefix_of(old(self).errors@, final(self).errors@),
            *final(self) == (Compiler {
                errors: final(self).errors,
                panic_mode: final(self).panic_mode,
                had_error: final(self).had_error,
                ..*old(self)
            }),
            old(self).panic_mode ==> *final(self) == *old(self),
            !old(self).panic_mode ==> {
                &&& final(self).panic_mode
                &&& final(self).errors@.len() == old(self).errors@.len() + 1
                &&& final(self).errors@.last().message == message
                &&& final(self).errors@.last().line == old(self).previous.line
                &&& final(self).errors@.last().location == (match old(self).previous.kind {
                    TokenType::EOF => ErrorLocation::EndOfFile,
                    TokenType::Error => ErrorLocation::Unknown,
                    _ => ErrorLocation::Lexeme(final(self).errors@.last().location->Lexeme_0),
                })
                &&& (old(self).previous.kind != TokenType::EOF && old(self).previous.kind
                    != TokenType::Error ==> final(self).errors@.last().location->Lexeme_0@
                    == utf8_lossy_text(old(self).previous.lexeme@))
            },
    {
        if self.panic_mode {
            return;
        }
        self.panic_mode = true;
        self.had_error = true;
        let token = self.previous;
        let location = if token.kind == TokenType::EOF {
            ErrorLocation::EndOfFile
        } else if token.kind == TokenType::Error {
            ErrorLocation::Unknown
        } else {
            ErrorLocation::Lexeme(text_from_utf8_lossy(token.lexeme))
        };
        self.errors.push(CompileError { message, line: token.line, location });
    }

    /// The parsing rule of a token kind.
    fn get_rule(token_type: TokenType) -> (r: ParseRule)
        ensures
            r == rule_of(token_type),
    {
        match token_type {
            TokenType::LeftParen => ParseRule {
                prefix: Some(ParseFn::Grouping),
                infix: None,
                precedence: Precedence::Lowest,
            },
            TokenType::Minus => ParseRule {
                prefix: Some(ParseFn::Unary),
                infix: Some(ParseFn::Binary),
                precedence: Precedence::Term,
            },
            TokenType::Plus => ParseRule {
                prefix: None,
                infix: Some(ParseFn::Binary),
                precedence: Precedence::Term,
            },
            TokenType::Slash | TokenType::Star => ParseRule {
                prefix: None,
                infix: Some(ParseFn::Binary),
                precedence: Precedence::Factor,
            },
            TokenType::Number => ParseRule {
                prefix: Some(ParseFn::Number),
                infix: None,
                precedence: Precedence::Lowest,
            },
            TokenType::False | TokenType::True | TokenType::Nil => ParseRule {
                prefix: Some(ParseFn::Literal),
                infix: None,
                precedence: Precedence::Lowest,
            },
            TokenType::Bang => ParseRule {
                prefix: Some(ParseFn::Unary),
                infix: None,
                precedence: Precedence::Lowest,
            },
            TokenType::BangEqual | TokenType::EqualEqual => ParseRule {
                prefix: None,
                infix: Some(ParseFn::Binary),
                precedence: Precedence::Equality,
            },
            TokenType::Greater | TokenType::GreaterEqual | TokenType::Less | TokenType::LessEqual => {
                ParseRule { prefix: None, infix: Some(ParseFn::Binary), precedence: Precedence::Comparison }
            },
            TokenType::Identifier => ParseRule {
                prefix: Some(ParseFn::Variable),
                infix: None,
                precedence: Precedence::Lowest,
            },
            TokenType::String => ParseRule {
                prefix: Some(ParseFn::String),
                infix: None,
                precedence: Precedence::Lowest,
            },
            TokenType::And => ParseRule {
                prefix: None,
                infix: Some(ParseFn::And),
                precedence: Precedence::And,
            },
            TokenType::Or => ParseRule {
                prefix: None,
                infix: Some(ParseFn::Or),
                precedence: Precedence::Or,
            },
            _ => ParseRule { prefix: None, infix: None, precedence: Precedence::Lowest },
        }
    }

    /// The id of `e`'s text in the compiler's interner.
    pub fn intern(&mut self, e: &str) -> (id: usize)
        requires
            old(self).wf(),
        ensures
            final(self).wf(),
            final(self).grows_from(old(self)),
            id < final(self).texts().len(),
            final(self).texts()[id as int] == e.spec_bytes(),
            old(self).texts().contains(e.spec_bytes()) ==> final(self).texts() == old(self).texts(),
            !old(self).texts().contains(e.spec_bytes()) ==> final(self).texts() == old(
                self,
            ).texts().push(e.spec_bytes()),
            final(self).code() == old(self).code(),
    {
        self.interner.intern(e)
    }
}

/// The message for a token the scanner could not make sense of.
fn unexpected_token_message(lexeme: &[u8]) -> (m: String)
    ensures
        m@ == utf8_lossy_text(unexpected_token_prefix() + lexeme@),
{
    let prefix: [u8; 17] = [117u8, 110u8, 101u8, 120u8, 112u8, 101u8, 99u8, 116u8, 101u8, 100u8, 32u8,
    116u8, 111u8, 107u8, 101u8, 110u8, 32u8];
    let mut bytes = bytes_to_vec(&prefix);
    let mut i: usize = 0;
    proof {
        assert(prefix@ =~= unexpected_token_prefix());
    }
    while i < lexeme.len()
        invariant
            0 <= i <= lexeme@.len(),
            bytes@ == unexpected_token_prefix() + lexeme@.subrange(0, i as int),
        decreases lexeme@.len() - i,
    {
        bytes.push(lexeme[i]);
        i = i + 1;
        proof {
            assert(bytes@ =~= unexpected_token_prefix() + lexeme@.subrange(0, i as int));
        }
    }
    proof {
        assert(lexeme@.subrange(0, lexeme@.len() as int) =~= lexeme@);
    }
    text_from_utf8_lossy(bytes.as_slice())
}

/// The bytes of `s` from `i` up to `j`.
fn slice_range<'a>(s: &'a [u8], i: usize, j: usize) -> (r: &'a [u8])
    requires
        i <= j <= s@.len(),
    ensures
        r@ == s@.subrange(i as int, j as int),
{
    &s[i..j]
}

} // verus!
