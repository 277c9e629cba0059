use vstd::prelude::*;
use vstd::string::StringSliceAdditionalSpecFns;

use crate::gc::{Gc, GcObject, Heap, Trace};
use crate::object::{bytes_eq, bytes_to_vec, ObjString};

verus! {

/// The text of string slot `i` of `strings`.
pub open spec fn text_of(strings: Heap<ObjString>, i: int) -> Seq<u8> {
    strings.value(i).str@
}

/// No two of the `interned` strings hold the same text.
pub open spec fn texts_distinct(strings: Heap<ObjString>, interned: Seq<Gc<ObjString>>) -> bool {
    forall|k: int, l: int|
        0 <= k < interned.len() && 0 <= l < interned.len() && k != l
            ==> #[trigger] text_of(strings, interned[k].spec_index() as int)
            != #[trigger] text_of(strings, interned[l].spec_index() as int)
}

/// The heap of the Lox machine: a collected heap of objects, and one of
/// strings in which each text is kept once (interned). The table of interned
/// strings does not keep them alive: a collection drops the entries of the
/// strings it frees.
#[derive(Debug)]
pub struct LoxHeap<T> {
    heap: Heap<T>,
    strings: Heap<ObjString>,
    interned_strings: Vec<Gc<ObjString>>,
}

impl<T: Trace> LoxHeap<T> {
    /// The heap of objects.
    pub closed spec fn objects(&self) -> Heap<T> {
        self.heap
    }

    /// The heap of strings.
    pub closed spec fn strings(&self) -> Heap<ObjString> {
        self.strings
    }

    /// The interned strings, as slots of the string heap.
    pub closed spec fn interned(&self) -> Seq<Gc<ObjString>> {
        self.interned_strings@
    }

    /// The text of string slot `i`.
    pub open spec fn text(&self, i: int) -> Seq<u8> {
        text_of(self.strings(), i)
    }

    /// Both heaps are well formed; every interned string is live, and no two
    /// interned strings hold the same text.
    pub closed spec fn wf(&self) -> bool {
        &&& self.heap.wf()
        &&& self.strings.wf()
        &&& forall|k: int|
            0 <= k < self.interned_strings@.len() ==> self.strings.live(
                #[trigger] self.interned_strings@[k].spec_index() as int,
            )
        &&& texts_distinct(self.strings, self.interned_strings@)
    }

    /// What well-formedness gives a caller.
    pub proof fn lemma_wf(&self)
        requires
            self.wf(),
        ensures
            self.objects().wf(),
            self.strings().wf(),
            forall|k: int|
                0 <= k < self.interned().len() ==> self.strings().live(
                    #[trigger] self.interned()[k].spec_index() as int,
                ),
    {
    }

    /// Empty heaps.
    pub fn new() -> (h: Self)
        ensures
            h.wf(),
            h.objects().slot_count() == 0,
            h.strings().slot_count() == 0,
            h.interned().len() == 0,
    {
        LoxHeap { heap: Heap::new(), strings: Heap::new(), interned_strings: Vec::new() }
    }

    /// Puts `value` on the heap of objects.
    pub fn allocate(&mut self, value: T) -> (g: Gc<T>)
        requires
            old(self).wf(),
            old(self).objects().bytes() + vstd::layout::size_of::<GcObject<T>>() <= usize::MAX,
        ensures
            final(self).wf(),
            g.spec_index() == old(self).objects().slot_count(),
            final(self).objects().objects() == old(self).objects().objects().push(Some(value)),
            final(self).objects().bytes() == old(self).objects().bytes() + vstd::layout::size_of::<
                GcObject<T>,
            >(),
            final(self).strings() == old(self).strings(),
            final(self).interned() == old(self).interned(),
    {
        let g = self.heap.allocate(value);
        proof {
            assert(self.strings == old(self).strings);
            assert(self.interned_strings == old(self).interned_strings);
        }
        g
    }

    /// The string of `s`'s text: the interned one if there is one, else a new
    /// string, which is then interned.
    pub fn intern(&mut self, s: &str) -> (g: Gc<ObjString>)
        requires
            old(self).wf(),
            old(self).strings().bytes() + vstd::layout::size_of::<GcObject<ObjString>>()
                <= usize::MAX,
        ensures
            final(self).wf(),
            final(self).strings().live(g.spec_index() as int),
            final(self).text(g.spec_index() as int) == s.spec_bytes(),
            final(self).interned().contains(g),
            final(self).objects() == old(self).objects(),
            (exists|k: int|
                0 <= k < old(self).interned().len() && old(self).text(
                    #[trigger] old(self).interned()[k].spec_index() as int,
                ) == s.spec_bytes()) ==> *final(self) == *old(self),
            !(exists|k: int|
                0 <= k < old(self).interned().len() && old(self).text(
                    #[trigger] old(self).interned()[k].spec_index() as int,
                ) == s.spec_bytes()) ==> {
                &&& g.spec_index() == old(self).strings().slot_count()
                &&& final(self).interned() == old(self).interned().push(g)
                &&& final(self).strings().slot_count() == old(self).strings().slot_count() + 1
                &&& final(self).strings().bytes() == old(self).strings().bytes()
                    + vstd::layout::size_of::<GcObject<ObjString>>()
            },
    {
        self.intern_bytes(s.as_bytes())
    }

    /// The string of the text `b`: the interned one if there is one, else a
    /// new string, which is then interned.
    pub fn intern_bytes(&mut self, b: &[u8]) -> (g: Gc<ObjString>)
        requires
            old(self).wf(),
            old(self).strings().bytes() + vstd::layout::size_of::<GcObject<ObjString>>()
                <= usize::MAX,
        ensures
            final(self).wf(),
            final(self).strings().live(g.spec_index() as int),
            final(self).text(g.spec_index() as int) == b@,
            final(self).interned().contains(g),
            final(self).objects() == old(self).objects(),
            (exists|k: int|
                0 <= k < old(self).interned().len() && old(self).text(
                    #[trigger] old(self).interned()[k].spec_index() as int,
                ) == b@) ==> *final(self) == *old(self),
            !(exists|k: int|
                0 <= k < old(self).interned().len() && old(self).text(
                    #[trigger] old(self).interned()[k].spec_index() as int,
                ) == b@) ==> {
                &&& g.spec_index() == old(self).strings().slot_count()
                &&& final(self).interned() == old(self).interned().push(g)
                &&& final(self).strings().slot_count() == old(self).strings().slot_count() + 1
                &&& final(self).strings().bytes() == old(self).strings().bytes()
                    + vstd::layout::size_of::<GcObject<ObjString>>()
            },
    {
        let mut k: usize = 0;
        while k < self.interned_strings.len()
            invariant
                self.wf(),
                *self == *old(self),
                0 <= k <= self.interned_strings@.len(),
                forall|l: int|
                    0 <= l < k ==> self.text(#[trigger] self.interned_strings@[l].spec_index() as int)
                        != b@,
            decreases self.interned_strings@.len() - k,
        {
            let g = self.interned_strings[k];
            let existing = self.strings.get(g);
            if bytes_eq(existing.str.as_slice(), b) {
                proof {
                    assert(self.interned()[k as int] == g);
                }
                return g;
            }
            k = k + 1;
        }
        let ghost old_interned = self.interned_strings@;
        let ghost old_strings = self.strings;
        let g = self.strings.allocate(ObjString { str: bytes_to_vec(b) });
        self.interned_strings.push(g);
        proof {
            assert(self.interned_strings@ == old_interned.push(g));
            assert forall|l: int| 0 <= l < old_interned.len() implies #[trigger] old_interned[l].spec_index()
                < old_strings.slot_count() by {
                assert(old_strings.live(old_interned[l].spec_index() as int));
            }
            assert forall|l: int| 0 <= l < old_interned.len() implies self.text(
                #[trigger] old_interned[l].spec_index() as int,
            ) == old(self).text(old_interned[l].spec_index() as int) by {
                assert(old_strings.live(old_interned[l].spec_index() as int));
            }
            assert(self.interned_strings@[old_interned.len() as int] == g);
        }
        g
    }

    /// The string `g` names.
    pub fn string(&self, g: Gc<ObjString>) -> (s: &ObjString)
        requires
            self.wf(),
            self.strings().live(g.spec_index() as int),
        ensures
            s.str@ == self.text(g.spec_index() as int),
    {
        self.strings.get(g)
    }

    /// The object `g` names.
    pub fn get(&self, g: Gc<T>) -> (v: &T)
        requires
            self.wf(),
            self.objects().live(g.spec_index() as int),
        ensures
            *v == self.objects().value(g.spec_index() as int),
    {
        self.heap.get(g)
    }

    /// Whether either heap holds more than its threshold.
    pub fn should_collect(&self) -> (b: bool)
        ensures
            b == (self.objects().bytes() > self.objects().threshold_bytes() || self.strings().bytes()
                > self.strings().threshold_bytes()),
    {
        self.heap.should_collect() || self.strings.should_collect()
    }

    /// Collects both heaps: marks what `roots` and `string_roots` reach, drops
    /// the interned entries of the strings left unmarked, and frees every
    /// unmarked object and string.
    pub fn collect<R: Trace, S: Trace>(&mut self, roots: &R, string_roots: &S)
        requires
            old(self).wf(),
        ensures
            final(self).wf(),
            final(self).objects().slot_count() == old(self).objects().slot_count(),
            final(self).strings().slot_count() == old(self).strings().slot_count(),
            forall|k: int|
                0 <= k < final(self).interned().len() ==> old(self).interned().contains(
                    #[trigger] final(self).interned()[k],
                ),
            forall|k: int|
                0 <= k < old(self).interned().len() ==> (final(self).interned().contains(
                    #[trigger] old(self).interned()[k],
                ) <==> final(self).strings().live(old(self).interned()[k].spec_index() as int)),
            forall|i: int|
                #![trigger final(self).strings().objects()[i]]
                0 <= i < old(self).strings().slot_count() && final(self).strings().live(i)
                    ==> final(self).strings().objects()[i] == old(self).strings().objects()[i],
            forall|i: int|
                #![trigger final(self).objects().objects()[i]]
                0 <= i < old(self).objects().slot_count() && final(self).objects().live(i)
                    ==> final(self).objects().objects()[i] == old(self).objects().objects()[i],
            (forall|i: int| 0 <= i < old(self).objects().slot_count() ==> !#[trigger] old(self).objects().marked(i))
                ==> forall|i: int|
                0 <= i < old(self).objects().slot_count() ==> (#[trigger] final(self).objects().live(i)
                <==> old(self).objects().reachable(roots.spec_trace(), i)),
            (forall|i: int| 0 <= i < old(self).strings().slot_count() ==> !#[trigger] old(self).strings().marked(i))
                ==> forall|i: int|
                0 <= i < old(self).strings().slot_count() ==> (#[trigger] final(self).strings().live(i)
                <==> old(self).strings().reachable(string_roots.spec_trace(), i)),
    {
        self.heap.mark(roots);
        self.strings.mark(string_roots);
        let ghost marked_strings = self.strings;
        let ghost interned0 = self.interned_strings@;
        assert(interned0 == old(self).interned());
        assert(marked_strings.objects() == old(self).strings.objects());
        let mut kept: Vec<Gc<ObjString>> = Vec::new();
        let ghost mut idx: Seq<int> = Seq::empty();
        let mut k: usize = 0;
        while k < self.interned_strings.len()
            invariant
                self.strings == marked_strings,
                self.strings.wf(),
                self.interned_strings@ == interned0,
                0 <= k <= interned0.len(),
                forall|l: int|
                    0 <= l < interned0.len() ==> marked_strings.live(
                        #[trigger] interned0[l].spec_index() as int,
                    ),
                idx.len() == kept@.len(),
                forall|l: int|
                    0 <= l < idx.len() ==> 0 <= #[trigger] idx[l] < k && interned0[idx[l]]
                        == kept@[l] && marked_strings.marked(kept@[l].spec_index() as int),
                forall|l: int, m: int| 0 <= l < m < idx.len() ==> #[trigger] idx[l] < #[trigger] idx[m],
                forall|m: int|
                    0 <= m < k && marked_strings.marked(#[trigger] interned0[m].spec_index() as int)
                        ==> kept@.contains(interned0[m]),
            decreases interned0.len() - k,
        {
            let g = self.interned_strings[k];
            if self.strings.is_marked(g) {
                let ghost before = kept@;
                kept.push(g);
                proof {
                    idx = idx.push(k as int);
                    assert forall|m: int|
                        0 <= m < k + 1 && marked_strings.marked(#[trigger] interned0[m].spec_index() as int)
                        implies kept@.contains(interned0[m]) by {
                        if m < k {
                            let l = choose|l: int| 0 <= l < before.len() && before[l] == interned0[m];
                            assert(kept@[l] == interned0[m]);
                        } else {
                            assert(kept@[before.len() as int] == interned0[m]);
                        }
                    }
                }
            }
            k = k + 1;
        }
        self.interned_strings = kept;
        self.heap.sweep();
        self.strings.sweep();
        proof {
            let kept_s = self.interned_strings@;
            assert forall|l: int| 0 <= l < kept_s.len() implies self.strings.live(
                #[trigger] kept_s[l].spec_index() as int,
            ) && old(self).interned().contains(kept_s[l]) by {
                assert(interned0[idx[l]] == kept_s[l]);
                assert(old(self).interned()[idx[l]] == kept_s[l]);
                assert(marked_strings.live(interned0[idx[l]].spec_index() as int));
            }
            assert forall|l: int, m: int|
                0 <= l < kept_s.len() && 0 <= m < kept_s.len() && l != m
                implies #[trigger] text_of(self.strings, kept_s[l].spec_index() as int)
                != #[trigger] text_of(self.strings, kept_s[m].spec_index() as int) by {
                let i = kept_s[l].spec_index() as int;
                let j = kept_s[m].spec_index() as int;
                assert(interned0[idx[l]] == kept_s[l]);
                assert(interned0[idx[m]] == kept_s[m]);
                assert(marked_strings.live(i));
                assert(marked_strings.live(j));
                assert(self.strings.live(i) && self.strings.live(j));
                assert(self.strings.objects()[i] == marked_strings.objects()[i]);
                assert(self.strings.objects()[j] == marked_strings.objects()[j]);
                if l < m {
                    assert(idx[l] < idx[m]);
                } else {
                    assert(idx[m] < idx[l]);
                }
                assert(text_of(old(self).strings, interned0[idx[l]].spec_index() as int) != text_of(
                    old(self).strings,
                    interned0[idx[m]].spec_index() as int,
                ));
            }
            assert(texts_distinct(self.strings, kept_s));
            assert forall|l: int| 0 <= l < self.interned().len() implies old(self).interned().contains(
                #[trigger] self.interned()[l],
            ) by {
                assert(old(self).interned()[idx[l]] == kept_s[l]);
            }
            assert forall|m: int| 0 <= m < interned0.len() implies (kept_s.contains(
                #[trigger] interned0[m],
            ) <==> self.strings.live(interned0[m].spec_index() as int)) by {
                assert(marked_strings.live(interned0[m].spec_index() as int));
                if kept_s.contains(interned0[m]) {
                    let l = choose|l: int| 0 <= l < kept_s.len() && kept_s[l] == interned0[m];
                    assert(interned0[idx[l]] == kept_s[l]);
                }
            }
        }
    }
}

/// Interning a text, then interning it again with no collection between,
/// gives the same string both times.
pub proof fn lemma_intern_twice_same<T: Trace>(
    h1: LoxHeap<T>,
    g1: Gc<ObjString>,
    h2: LoxHeap<T>,
    g2: Gc<ObjString>,
    text: Seq<u8>,
)
    requires
        h1.wf(),
        h1.interned().contains(g1),
        h1.strings().live(g1.spec_index() as int),
        h1.text(g1.spec_index() as int) == text,
        (exists|k: int|
            0 <= k < h1.interned().len() && h1.text(#[trigger] h1.interned()[k].spec_index() as int)
                == text) ==> h2 == h1,
        h2.interned().contains(g2),
        h2.text(g2.spec_index() as int) == text,
    ensures
        g2 == g1,
{
    let k1 = choose|k: int| 0 <= k < h1.interned().len() && h1.interned()[k] == g1;
    assert(h1.text(h1.interned()[k1].spec_index() as int) == text);
    let k2 = choose|k: int| 0 <= k < h2.interned().len() && h2.interned()[k] == g2;
    if k1 != k2 {
        assert(h1.text(h1.interned()[k1].spec_index() as int) != h1.text(h1.interned()[k2].spec_index() as int));
    }
}

} // verus!
