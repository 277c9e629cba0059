use vstd::prelude::*;
use vstd::string::StringSliceAdditionalSpecFns;

verus! {

/// The byte of a double quote.
pub const QUOTE: u8 = 34;

/// The byte of an opening brace.
pub const OPEN_BRACE: u8 = 123;

/// The byte of a closing brace.
pub const CLOSE_BRACE: u8 = 125;

/// Whether `s` ends inside a string literal: it holds an odd number of
/// double quotes.
pub open spec fn ends_in_string(s: Seq<u8>) -> bool
    decreases s.len(),
{
    if s.len() == 0 {
        false
    } else if s.last() == QUOTE {
        !ends_in_string(s.drop_last())
    } else {
        ends_in_string(s.drop_last())
    }
}

/// How many more braces `s` opens than it closes, counting only those outside
/// string literals.
pub open spec fn brace_depth(s: Seq<u8>) -> int
    decreases s.len(),
{
    if s.len() == 0 {
        0
    } else {
        let rest = s.drop_last();
        if s.last() == OPEN_BRACE && !ends_in_string(rest) {
            brace_depth(rest) + 1
        } else if s.last() == CLOSE_BRACE && !ends_in_string(rest) {
            brace_depth(rest) - 1
        } else {
            brace_depth(rest)
        }
    }
}

/// The depth of `s` lies within its length either way.
proof fn lemma_brace_depth_bounded(s: Seq<u8>)
    ensures
        -s.len() <= brace_depth(s) <= s.len(),
    decreases s.len(),
{
    if s.len() > 0 {
        lemma_brace_depth_bounded(s.drop_last());
    }
}

/// Whether a line read at the prompt is a whole input: every brace opened
/// outside a string literal has been closed. A prompt reads more lines while
/// this is false.
pub fn is_complete(source: &str) -> (b: bool)
    requires
        source.spec_bytes().len() <= isize::MAX,
    ensures
        b == (brace_depth(source.spec_bytes()) == 0),
{
    let bytes = source.as_bytes();
    let mut depth: i64 = 0;
    let mut in_string = false;
    let mut i: usize = 0;
    while i < bytes.len()
        invariant
            bytes@ == source.spec_bytes(),
            bytes@.len() <= isize::MAX,
            0 <= i <= bytes@.len(),
            depth == brace_depth(bytes@.take(i as int)),
            in_string == ends_in_string(bytes@.take(i as int)),
        decreases bytes@.len() - i,
    {
        let c = bytes[i];
        proof {
            assert(bytes@.take(i + 1).drop_last() == bytes@.take(i as int));
            assert(bytes@.take(i + 1).last() == c);
            lemma_brace_depth_bounded(bytes@.take(i as int));
        }
        if c == QUOTE {
            in_string = !in_string;
        } else if c == OPEN_BRACE && !in_string {
            depth = depth + 1;
        } else if c == CLOSE_BRACE && !in_string {
            depth = depth - 1;
        }
        i = i + 1;
    }
    proof {
        assert(bytes@.take(i as int) == bytes@);
    }
    depth == 0
}

} // verus!
