use vstd::prelude::*;
use vstd::string::StringExecFns;

use crate::common::{opcode_byte, opcode_of, operand_count_of, Constant, OpCode, OPCODE_COUNT};
use crate::text::{decimal, decimal4, push_decimal, push_decimal4};
use crate::vm::shape::{decodes, decodes_from, instruction_len};

verus! {

/// The first byte offset of a run of bytes that came from one source line.
#[derive(Debug, Clone, Copy)]
pub struct LineStart {
    pub offset: usize,
    pub line: usize,
}

/// A unit of bytecode: the code, its constants, and where its lines start.
#[derive(Debug)]
pub struct Chunk {
    pub code: Vec<u8>,
    pub constants: Vec<Constant>,
    pub line_starts: Vec<LineStart>,
}

/// The line of the last run that starts at or before `offset`; 0 when there is none.
pub open spec fn line_for(starts: Seq<LineStart>, offset: int) -> usize
    decreases starts.len(),
{
    if starts.len() == 0 {
        0
    } else if starts.last().offset <= offset {
        starts.last().line
    } else {
        line_for(starts.drop_last(), offset)
    }
}

/// How a byte line-table is laid out: runs start at increasing offsets inside the code.
pub open spec fn line_starts_wf(starts: Seq<LineStart>, code_len: int) -> bool {
    &&& forall|i: int, j: int| 0 <= i < j < starts.len() ==> starts[i].offset < starts[j].offset
    &&& forall|i: int| 0 <= i < starts.len() ==> starts[i].offset < code_len
}

/// What `instruction_size` gives for the instruction at `offset`.
pub open spec fn spec_instruction_size(code: Seq<u8>, offset: int) -> usize {
    let op = opcode_of(code[offset]);
    if op == OpCode::Closure {
        1
    } else {
        operand_count_of(op)
    }
}

/// What the disassembler shows of one instruction.
#[derive(Debug, Clone, Copy)]
pub struct InstructionInfo {
    pub offset: usize,
    pub line: usize,
    /// Whether the instruction is on the same line as the byte before it.
    pub same_line: bool,
    pub opcode: OpCode,
    pub operand_count: usize,
}

/// The listing of `code` from the start: a header line, then one line per
/// byte with its offset and value.
pub open spec fn listing(code: Seq<u8>) -> Seq<char>
    decreases code.len(),
{
    if code.len() == 0 {
        "=== Chunk ===\n"@
    } else {
        listing(code.drop_last()) + decimal4((code.len() - 1) as nat) + " "@ + decimal(
            code.last() as nat,
        ) + "\n"@
    }
}

/// Writing bytes one at a time, each with its line, as `write_byte` does:
/// in the end every byte written has its own line, and earlier bytes keep
/// theirs.
pub proof fn lemma_lines_of_writes(cs: Seq<Chunk>, lines: Seq<usize>)
    requires
        cs.len() == lines.len() + 1,
        forall|i: int|
            0 <= i < lines.len() ==> {
                &&& (#[trigger] cs[i + 1]).code@.len() == cs[i].code@.len() + 1
                &&& cs[i + 1].line_of(cs[i].code@.len() as int) == lines[i]
                &&& forall|j: int| 0 <= j < cs[i].code@.len() ==> cs[i + 1].line_of(j) == cs[i].line_of(j)
            },
    ensures
        cs.last().code@.len() == cs[0].code@.len() + lines.len(),
        forall|i: int|
            0 <= i < lines.len() ==> cs.last().line_of(cs[0].code@.len() + i) == lines[i],
        forall|j: int| 0 <= j < cs[0].code@.len() ==> cs.last().line_of(j) == cs[0].line_of(j),
    decreases lines.len(),
{
    if lines.len() > 0 {
        let n = lines.len() - 1;
        let front = cs.subrange(0, n + 1);
        assert forall|i: int| 0 <= i < n implies {
            &&& (#[trigger] front[i + 1]).code@.len() == front[i].code@.len() + 1
            &&& front[i + 1].line_of(front[i].code@.len() as int) == lines.subrange(0, n)[i]
            &&& forall|j: int| 0 <= j < front[i].code@.len() ==> front[i + 1].line_of(j) == front[i].line_of(j)
        } by {
            assert(front[i + 1] == cs[i + 1]);
            assert(front[i] == cs[i]);
        }
        lemma_lines_of_writes(front, lines.subrange(0, n));
        assert(front.last() == cs[n]);
        assert(cs.last() == cs[n + 1]);
        assert(cs[n + 1].code@.len() == cs[n].code@.len() + 1);
        assert forall|j: int| 0 <= j < cs[0].code@.len() implies cs.last().line_of(j)
            == cs[0].line_of(j) by {
            assert(front[0] == cs[0]);
            assert(cs[n + 1].line_of(j) == cs[n].line_of(j));
        }
        assert forall|i: int| 0 <= i < lines.len() implies cs.last().line_of(cs[0].code@.len() + i)
            == lines[i] by {
            if i < n {
                assert(lines.subrange(0, n)[i] == lines[i]);
                assert(front[0] == cs[0]);
            }
        }
    }
}

impl Chunk {
    /// The listing of the code: every byte with its offset.
    pub fn to_text(&self) -> (r: String)
        ensures
            r@ == listing(self.code@),
    {
        let mut r = "=== Chunk ===\n".to_owned();
        let mut i: usize = 0;
        while i < self.code.len()
            invariant
                0 <= i <= self.code@.len(),
                r@ == listing(self.code@.take(i as int)),
            decreases self.code@.len() - i,
        {
            push_decimal4(&mut r, i);
            r.append(" ");
            push_decimal(&mut r, self.code[i] as usize);
            r.append("\n");
            proof {
                assert(self.code@.take(i + 1).drop_last() == self.code@.take(i as int));
                assert(self.code@.take(i + 1).last() == self.code@[i as int]);
            }
            i = i + 1;
        }
        proof {
            assert(self.code@.take(i as int) == self.code@);
        }
        r
    }

    /// The line each byte offset maps to.
    pub closed spec fn line_of(&self, offset: int) -> usize {
        line_for(self.line_starts@, offset)
    }

    /// The line table fits the code.
    pub closed spec fn wf(&self) -> bool {
        line_starts_wf(self.line_starts@, self.code@.len() as int)
    }

    /// An empty chunk.
    pub fn new() -> (c: Chunk)
        ensures
            c.wf(),
            c.code@.len() == 0,
            c.constants@.len() == 0,
            forall|i: int| #[trigger] c.line_of(i) == 0,
    {
        Chunk { code: Vec::new(), constants: Vec::new(), line_starts: Vec::new() }
    }

    /// Appends a byte that came from source line `line`. Every earlier byte
    /// keeps its line, and the new byte gets `line`.
    pub fn write_byte(&mut self, byte: u8, line: usize)
        requires
            old(self).wf(),
        ensures
            final(self).wf(),
            final(self).code@ == old(self).code@.push(byte),
            final(self).constants@ == old(self).constants@,
            final(self).line_of(old(self).code@.len() as int) == line,
            forall|i: int|
                0 <= i < old(self).code@.len() ==> #[trigger] final(self).line_of(i) == old(
                    self,
                ).line_of(i),
    {
        let ghost old_starts = self.line_starts@;
        self.code.push(byte);
        let n = self.code.len() - 1;
        let len = self.line_starts.len();
        let needs_start = if len == 0 {
            true
        } else {
            self.line_starts[len - 1].line != line
        };
        if needs_start {
            self.line_starts.push(LineStart { offset: n, line });
            proof {
                assert(self.line_starts@.drop_last() =~= old_starts);
                assert forall|i: int| 0 <= i < n implies #[trigger] line_for(self.line_starts@, i)
                    == line_for(old_starts, i) by {}
            }
        } else {
            proof {
                assert forall|i: int| 0 <= i < n implies #[trigger] line_for(self.line_starts@, i)
                    == line_for(old_starts, i) by {}
            }
        }
    }

    /// Appends a constant, and gives its index, truncated to a byte.
    pub fn add_constant(&mut self, value: Constant) -> (idx: u8)
        requires
            old(self).wf(),
        ensures
            final(self).wf(),
            final(self).code@ == old(self).code@,
            final(self).constants@ == old(self).constants@.push(value),
            idx as int == old(self).constants@.len() % 256,
            forall|i: int| #[trigger] final(self).line_of(i) == old(self).line_of(i),
    {
        self.constants.push(value);
        let n = self.constants.len() - 1;
        let idx = (n % 256) as u8;
        idx
    }

    /// The source line of the byte at `offset`: the line of the last run that
    /// starts at or before it, or 0 when no run does.
    pub fn get_line(&self, offset: usize) -> (line: usize)
        ensures
            line == self.line_of(offset as int),
    {
        let mut i = self.line_starts.len();
        proof {
            assert(self.line_starts@.subrange(0, i as int) =~= self.line_starts@);
        }
        while i > 0
            invariant
                i <= self.line_starts@.len(),
                line_for(self.line_starts@, offset as int) == line_for(
                    self.line_starts@.subrange(0, i as int),
                    offset as int,
                ),
            decreases i,
        {
            let ls = self.line_starts[i - 1];
            proof {
                assert(self.line_starts@.subrange(0, i as int).drop_last() =~= self.line_starts@.subrange(
                    0,
                    i - 1,
                ));
            }
            if offset >= ls.offset {
                return ls.line;
            }
            i = i - 1;
        }
        0
    }

    /// The number of operand bytes of the instruction at `offset`.
    pub fn instruction_size(&self, offset: usize) -> (n: usize)
        requires
            offset < self.code@.len(),
            self.code@[offset as int] < OPCODE_COUNT,
        ensures
            n == spec_instruction_size(self.code@, offset as int),
    {
        let opcode = OpCode::from_byte(self.code[offset]);
        match opcode {
            OpCode::Closure => 1,
            other => other.operand_count(),
        }
    }

    /// What the disassembler shows of the instruction at `offset`; the next
    /// instruction starts `operand_count + 1` bytes further on.
    pub fn instruction_info(&self, offset: usize) -> (info: InstructionInfo)
        requires
            offset < self.code@.len(),
            self.code@[offset as int] < OPCODE_COUNT,
        ensures
            info.offset == offset,
            info.line == self.line_of(offset as int),
            info.same_line == (offset > 0 && self.line_of(offset - 1) == self.line_of(
                offset as int,
            )),
            info.opcode == opcode_of(self.code@[offset as int]),
            info.operand_count == spec_instruction_size(self.code@, offset as int),
    {
        let line = self.get_line(offset);
        let same_line = offset > 0 && line == self.get_line(offset - 1);
        let opcode = OpCode::from_byte(self.code[offset]);
        let operand_count = self.instruction_size(offset);
        InstructionInfo { offset, line, same_line, opcode, operand_count }
    }

    /// Whether the code is a run of whole instructions.
    pub fn is_decodable(&self) -> (b: bool)
        ensures
            b == decodes(self.code@),
    {
        let mut offset: usize = 0;
        while offset < self.code.len()
            invariant
                offset <= self.code@.len(),
                decodes(self.code@) == decodes_from(self.code@, offset as int),
            decreases self.code@.len() - offset,
        {
            let b = self.code[offset];
            if b >= OPCODE_COUNT {
                return false;
            }
            let n = self.instruction_size(offset);
            if n >= self.code.len() - offset {
                proof {
                    assert(!decodes_from(self.code@, offset + instruction_len(b)));
                }
                return false;
            }
            offset = offset + 1 + n;
        }
        true
    }

    /// What the disassembler shows of each instruction, in order. The code
    /// must be a run of whole instructions, as the compiler makes it.
    pub fn disassembly(&self) -> (infos: Vec<InstructionInfo>)
        requires
            decodes(self.code@),
        ensures
            infos@.len() == 0 <==> self.code@.len() == 0,
            infos@.len() > 0 ==> infos@[0].offset == 0,
            infos@.len() > 0 ==> infos@.last().offset + 1 + infos@.last().operand_count
                == self.code@.len(),
            forall|i: int|
                0 <= i < infos@.len() - 1 ==> #[trigger] infos@[i + 1].offset == infos@[i].offset + 1
                    + infos@[i].operand_count,
            forall|i: int|
                0 <= i < infos@.len() ==> {
                    let info = #[trigger] infos@[i];
                    &&& info.offset < self.code@.len()
                    &&& info.line == self.line_of(info.offset as int)
                    &&& info.same_line == (info.offset > 0 && self.line_of(info.offset - 1)
                        == self.line_of(info.offset as int))
                    &&& info.opcode == opcode_of(self.code@[info.offset as int])
                    &&& info.operand_count == spec_instruction_size(self.code@, info.offset as int)
                },
    {
        let mut infos: Vec<InstructionInfo> = Vec::new();
        let mut offset: usize = 0;
        while offset < self.code.len()
            invariant
                decodes_from(self.code@, offset as int),
                offset <= self.code@.len(),
                infos@.len() == 0 <==> offset == 0,
                infos@.len() > 0 ==> infos@[0].offset == 0,
                infos@.len() > 0 ==> infos@.last().offset + 1 + infos@.last().operand_count == offset,
                forall|i: int|
                    0 <= i < infos@.len() - 1 ==> #[trigger] infos@[i + 1].offset == infos@[i].offset
                        + 1 + infos@[i].operand_count,
                forall|i: int|
                    0 <= i < infos@.len() ==> {
                        let info = #[trigger] infos@[i];
                        &&& info.offset < self.code@.len()
                        &&& info.line == self.line_of(info.offset as int)
                        &&& info.same_line == (info.offset > 0 && self.line_of(info.offset - 1)
                            == self.line_of(info.offset as int))
                        &&& info.opcode == opcode_of(self.code@[info.offset as int])
                        &&& info.operand_count == spec_instruction_size(self.code@, info.offset as int)
                    },
            decreases self.code@.len() - offset,
        {
            proof {
                let j = offset + instruction_len(self.code@[offset as int]);
                assert(decodes_from(self.code@, j));
                if j > self.code@.len() {
                    assert(!decodes_from(self.code@, j));
                }
            }
            let info = self.instruction_info(offset);
            let ghost before = infos@;
            infos.push(info);
            proof {
                assert(infos@[infos@.len() - 1] == info);
                assert forall|i: int| 0 <= i < infos@.len() - 1 implies #[trigger] infos@[i + 1].offset
                    == infos@[i].offset + 1 + infos@[i].operand_count by {
                    if i < before.len() - 1 {
                        assert(infos@[i] == before[i] && infos@[i + 1] == before[i + 1]);
                    } else {
                        assert(infos@[i] == before.last());
                    }
                }
            }
            offset = offset + 1 + info.operand_count;
        }
        infos
    }

    /// Overwrites the byte at `offset`; lines and constants stay as they are.
    pub fn patch(&mut self, offset: usize, byte: u8)
        requires
            old(self).wf(),
            offset < old(self).code@.len(),
        ensures
            final(self).wf(),
            final(self).code@ == old(self).code@.update(offset as int, byte),
            final(self).constants@ == old(self).constants@,
            final(self).line_starts@ == old(self).line_starts@,
    {
        self.code.set(offset, byte);
    }

    /// Reads the big-endian 16-bit operand at `offset`.
    pub fn read_short(&self, offset: usize) -> (v: u16)
        requires
            offset < self.code@.len(),
            offset + 1 < self.code@.len(),
        ensures
            v as int == self.code@[offset as int] * 256 + self.code@[offset + 1],
    {
        let _len = self.code.len();
        let hi = self.code[offset] as u16;
        let lo = self.code[offset + 1] as u16;
        let v = (hi << 8) | lo;
        proof {
            assert((hi << 8) | lo == hi * 256 + lo) by (bit_vector)
                requires
                    hi < 256,
                    lo < 256,
            ;
        }
        v
    }
}

} // verus!
