use vstd::prelude::*;

use crate::gc::Trace;

verus! {

/// The text of a Lox string, as UTF-8 bytes.
#[derive(Debug, Clone)]
pub struct ObjString {
    pub str: Vec<u8>,
}

impl ObjString {
    /// Whether two strings hold the same text.
    pub fn same_text(&self, other: &ObjString) -> (b: bool)
        ensures
            b == (self.str@ == other.str@),
    {
        bytes_eq(self.str.as_slice(), other.str.as_slice())
    }
}

impl Trace for ObjString {
    open spec fn spec_trace(&self) -> Seq<usize> {
        Seq::empty()
    }

    fn trace(&self) -> (refs: Vec<usize>) {
        Vec::new()
    }
}

/// Whether two byte strings are equal.
pub fn bytes_eq(a: &[u8], b: &[u8]) -> (r: bool)
    ensures
        r == (a@ == b@),
{
    if a.len() != b.len() {
        return false;
    }
    let mut i: usize = 0;
    while i < a.len()
        invariant
            a@.len() == b@.len(),
            0 <= i <= a@.len(),
            forall|j: int| 0 <= j < i ==> a@[j] == b@[j],
        decreases a@.len() - i,
    {
        if a[i] != b[i] {
            return false;
        }
        i = i + 1;
    }
    proof {
        assert(a@ =~= b@);
    }
    true
}

/// A copy of a byte string.
pub fn bytes_to_vec(a: &[u8]) -> (v: Vec<u8>)
    ensures
        v@ == a@,
{
    let mut v: Vec<u8> = Vec::new();
    let mut i: usize = 0;
    while i < a.len()
        invariant
            0 <= i <= a@.len(),
            v@ == a@.subrange(0, i as int),
        decreases a@.len() - i,
    {
        v.push(a[i]);
        i = i + 1;
        proof {
            assert(v@ =~= a@.subrange(0, i as int));
        }
    }
    proof {
        assert(a@.subrange(0, a@.len() as int) =~= a@);
    }
    v
}

} // verus!
