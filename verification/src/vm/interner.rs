use vstd::prelude::*;
use vstd::string::StringSliceAdditionalSpecFns;

use crate::object::{bytes_eq, bytes_to_vec, ObjString};

verus! {

/// Keeps one copy of each string text and hands out a stable id for it.
#[derive(Debug)]
pub struct Interner {
    set: Vec<ObjString>,
}

/// No text occurs twice.
pub open spec fn distinct_texts(s: Seq<Seq<u8>>) -> bool {
    forall|i: int, j: int| 0 <= i < s.len() && 0 <= j < s.len() && i != j ==> s[i] != s[j]
}

impl Interner {
    /// The interned texts, by id.
    pub closed spec fn texts(&self) -> Seq<Seq<u8>> {
        self.set@.map_values(|o: ObjString| o.str@)
    }

    /// Each text is interned once.
    pub closed spec fn wf(&self) -> bool {
        distinct_texts(self.texts())
    }

    /// What well-formedness gives a caller.
    pub proof fn lemma_wf(&self)
        requires
            self.wf(),
        ensures
            distinct_texts(self.texts()),
    {
    }

    /// An interner with no strings.
    pub fn new() -> (i: Interner)
        ensures
            i.wf(),
            i.texts() == Seq::<Seq<u8>>::empty(),
    {
        let i = Interner { set: Vec::new() };
        proof {
            assert(i.texts() =~= Seq::<Seq<u8>>::empty());
        }
        i
    }

    /// The id of `e`'s text: the id it already has, or a new one at the end.
    pub fn intern(&mut self, e: &str) -> (id: usize)
        requires
            old(self).wf(),
        ensures
            final(self).wf(),
            id < final(self).texts().len(),
            final(self).texts()[id as int] == e.spec_bytes(),
            old(self).texts().contains(e.spec_bytes()) ==> final(self).texts() == old(self).texts(),
            !old(self).texts().contains(e.spec_bytes()) ==> final(self).texts() == old(
                self,
            ).texts().push(e.spec_bytes()),
    {
        self.intern_bytes(e.as_bytes())
    }

    /// The id of the text `e`: the id it already has, or a new one at the end.
    pub fn intern_bytes(&mut self, e: &[u8]) -> (id: usize)
        requires
            old(self).wf(),
        ensures
            final(self).wf(),
            id < final(self).texts().len(),
            final(self).texts()[id as int] == e@,
            old(self).texts().contains(e@) ==> final(self).texts() == old(self).texts(),
            !old(self).texts().contains(e@) ==> final(self).texts() == old(self).texts().push(e@),
    {
        let mut i: usize = 0;
        while i < self.set.len()
            invariant
                self.wf(),
                self.set@ == old(self).set@,
                0 <= i <= self.set@.len(),
                forall|j: int| 0 <= j < i ==> self.texts()[j] != e@,
            decreases self.set@.len() - i,
        {
            if bytes_eq(self.set[i].str.as_slice(), e) {
                proof {
                    assert(self.texts()[i as int] == e@);
                }
                return i;
            }
            i = i + 1;
        }
        let ghost old_texts = self.texts();
        proof {
            assert(!old_texts.contains(e@)) by {
                if old_texts.contains(e@) {
                    let j = choose|j: int| 0 <= j < old_texts.len() && old_texts[j] == e@;
                    assert(self.texts()[j] == e@);
                }
            }
        }
        let obj = ObjString { str: bytes_to_vec(e) };
        self.set.push(obj);
        proof {
            assert(self.texts() =~= old_texts.push(e@));
        }
        self.set.len() - 1
    }

    /// The string interned under `id`.
    pub fn get(&self, id: usize) -> (s: &ObjString)
        requires
            id < self.texts().len(),
        ensures
            s.str@ == self.texts()[id as int],
    {
        &self.set[id]
    }

    /// How many strings are interned.
    pub fn len(&self) -> (n: usize)
        ensures
            n == self.texts().len(),
    {
        self.set.len()
    }
}

/// Interning a text twice gives the same id both times, and two texts that
/// differ never share an id.
pub proof fn lemma_intern_ids_identify_texts(texts: Seq<Seq<u8>>, i: int, j: int)
    requires
        distinct_texts(texts),
        0 <= i < texts.len(),
        0 <= j < texts.len(),
    ensures
        (i == j) <==> (texts[i] == texts[j]),
{
}

} // verus!
