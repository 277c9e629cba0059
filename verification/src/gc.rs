use vstd::prelude::*;
use core::marker::PhantomData;

verus! {

/// Something that can hold handles to heap objects. `trace` lists the heap
/// indices of the objects it holds, so that the collector can keep them.
pub trait Trace {
    /// The indices of the objects this value holds; none unless an
    /// implementation says otherwise.
    open spec fn spec_trace(&self) -> Seq<usize> {
        Seq::empty()
    }

    fn trace(&self) -> (refs: Vec<usize>)
        ensures
            refs@ == self.spec_trace(),
    ;
}

/// A handle to an object of a `Heap`: the index of its slot.
#[derive(Debug)]
pub struct Gc<T> {
    index: usize,
    marker: PhantomData<T>,
}

impl<T> Clone for Gc<T> {
    fn clone(&self) -> (g: Self)
        ensures
            g == *self,
    {
        Gc { index: self.index, marker: PhantomData }
    }
}

impl<T> Copy for Gc<T> {

}

impl<T> Gc<T> {
    /// The slot this handle names.
    pub closed spec fn spec_index(&self) -> usize {
        self.index
    }

    /// The slot this handle names.
    pub fn index(&self) -> (i: usize)
        ensures
            i == self.spec_index(),
    {
        self.index
    }

    /// Whether two handles name the same object.
    pub fn same(&self, other: &Gc<T>) -> (b: bool)
        ensures
            b == (self.spec_index() == other.spec_index()),
    {
        self.index == other.index
    }
}

impl<T> Trace for Gc<T> {
    open spec fn spec_trace(&self) -> Seq<usize> {
        seq![self.spec_index()]
    }

    fn trace(&self) -> (refs: Vec<usize>) {
        let mut v = Vec::new();
        v.push(self.index);
        proof {
            assert(v@ =~= seq![self.spec_index()]);
        }
        v
    }
}

impl<T: Trace> Trace for Option<T> {
    open spec fn spec_trace(&self) -> Seq<usize> {
        match self {
            Some(v) => v.spec_trace(),
            None => Seq::empty(),
        }
    }

    fn trace(&self) -> (refs: Vec<usize>) {
        match self {
            Some(v) => v.trace(),
            None => Vec::new(),
        }
    }
}

/// The handles held by a list of values, in order.
pub open spec fn trace_all<T: Trace>(items: Seq<T>) -> Seq<usize> {
    items.map_values(|t: T| t.spec_trace()).flatten()
}

/// The handles held by the first `n` of `items`, in order.
pub fn trace_prefix<T: Trace>(items: &[T], n: usize) -> (refs: Vec<usize>)
    requires
        n <= items@.len(),
    ensures
        refs@ == trace_all(items@.take(n as int)),
{
    let mut refs: Vec<usize> = Vec::new();
    let mut i: usize = 0;
    while i < n
        invariant
            0 <= i <= n <= items@.len(),
            refs@ == trace_all(items@.take(i as int)),
        decreases n - i,
    {
        let mut r = items[i].trace();
        refs.append(&mut r);
        proof {
            let m = items@.take(i + 1).map_values(|t: T| t.spec_trace());
            assert(m =~= items@.take(i as int).map_values(|t: T| t.spec_trace()).push(
                items@[i as int].spec_trace(),
            ));
            items@.take(i as int).map_values(|t: T| t.spec_trace()).lemma_flatten_push(
                items@[i as int].spec_trace(),
            );
        }
        i = i + 1;
    }
    refs
}

/// The handles held by `items`, in order.
pub fn trace_slice<T: Trace>(items: &[T]) -> (refs: Vec<usize>)
    ensures
        refs@ == trace_all(items@),
{
    let refs = trace_prefix(items, items.len());
    proof {
        assert(items@.take(items@.len() as int) =~= items@);
    }
    refs
}

/// The handles of items with one more at the end: those of the items, then
/// those of the new one.
pub proof fn lemma_trace_all_push<T: Trace>(items: Seq<T>, x: T)
    ensures
        trace_all(items.push(x)) == trace_all(items) + x.spec_trace(),
{
    let f = |t: T| t.spec_trace();
    assert(items.push(x).map_values(f) =~= items.map_values(f).push(x.spec_trace()));
    items.map_values(f).lemma_flatten_push(x.spec_trace());
}

/// Every handle that one of the items holds is among the items' handles.
pub proof fn lemma_trace_all_holds<T: Trace>(items: Seq<T>, i: int, j: int)
    requires
        0 <= i < items.len(),
        0 <= j < items[i].spec_trace().len(),
    ensures
        trace_all(items).contains(items[i].spec_trace()[j]),
    decreases items.len(),
{
    let last = items.len() - 1;
    let front = items.drop_last();
    assert(items =~= front.push(items[last]));
    lemma_trace_all_push(front, items[last]);
    let h = items[i].spec_trace()[j];
    if i == last {
        let k = trace_all(front).len() + j;
        assert(trace_all(items)[k] == h);
    } else {
        assert(front[i] == items[i]);
        lemma_trace_all_holds(front, i, j);
        let k = choose|k: int| 0 <= k < trace_all(front).len() && trace_all(front)[k] == h;
        assert(trace_all(items)[k] == h);
    }
}

/// A vector holds every handle that any of its elements holds: marking from
/// a vector of roots reaches the objects held by every element.
pub proof fn lemma_vec_holds_element_handles<T: Trace>(v: Vec<T>, i: int, j: int)
    requires
        0 <= i < v@.len(),
        0 <= j < v@[i].spec_trace().len(),
    ensures
        v.spec_trace().contains(v@[i].spec_trace()[j]),
{
    lemma_trace_all_holds(v@, i, j);
}

/// A vector with one more element holds the handles of the shorter one, in
/// order, followed by those of the new element.
pub proof fn lemma_vec_trace_push<T: Trace>(v: Vec<T>, w: Vec<T>, x: T)
    requires
        w@ == v@.push(x),
    ensures
        w.spec_trace() == v.spec_trace() + x.spec_trace(),
{
    lemma_trace_all_push(v@, x);
}

impl<T: Trace> Trace for Vec<T> {
    open spec fn spec_trace(&self) -> Seq<usize> {
        trace_all(self@)
    }

    fn trace(&self) -> (refs: Vec<usize>) {
        trace_slice(self.as_slice())
    }
}

impl<T: Trace, const N: usize> Trace for [T; N] {
    open spec fn spec_trace(&self) -> Seq<usize> {
        trace_all(self@)
    }

    fn trace(&self) -> (refs: Vec<usize>) {
        trace_slice(self.as_slice())
    }
}

impl Trace for String {
    open spec fn spec_trace(&self) -> Seq<usize> {
        Seq::empty()
    }

    fn trace(&self) -> (refs: Vec<usize>) {
        Vec::new()
    }
}

impl Trace for usize {
    open spec fn spec_trace(&self) -> Seq<usize> {
        Seq::empty()
    }

    fn trace(&self) -> (refs: Vec<usize>) {
        Vec::new()
    }
}

impl Trace for u64 {
    open spec fn spec_trace(&self) -> Seq<usize> {
        Seq::empty()
    }

    fn trace(&self) -> (refs: Vec<usize>) {
        Vec::new()
    }
}

impl Trace for u8 {
    open spec fn spec_trace(&self) -> Seq<usize> {
        Seq::empty()
    }

    fn trace(&self) -> (refs: Vec<usize>) {
        Vec::new()
    }
}

impl Trace for bool {
    open spec fn spec_trace(&self) -> Seq<usize> {
        Seq::empty()
    }

    fn trace(&self) -> (refs: Vec<usize>) {
        Vec::new()
    }
}

impl Trace for () {
    open spec fn spec_trace(&self) -> Seq<usize> {
        Seq::empty()
    }

    fn trace(&self) -> (refs: Vec<usize>) {
        Vec::new()
    }
}

/// The bookkeeping of one heap slot.
#[derive(Debug, Clone, Copy)]
pub struct GcHeader {
    marked: bool,
    size: usize,
}

impl GcHeader {
    pub closed spec fn spec_marked(&self) -> bool {
        self.marked
    }

    /// The size counted for the object.
    pub closed spec fn spec_size(&self) -> usize {
        self.size
    }

    pub fn is_marked(&self) -> (b: bool)
        ensures
            b == self.spec_marked(),
    {
        self.marked
    }

    pub fn set_marked(&mut self, val: bool)
        ensures
            final(self).spec_marked() == val,
            final(self).spec_size() == old(self).spec_size(),
    {
        self.marked = val;
    }
}

/// The unit the heap counts in: one object with its header.
pub struct GcObject<T> {
    pub header: GcHeader,
    pub value: T,
}

impl<T: Trace> Trace for GcObject<T> {
    open spec fn spec_trace(&self) -> Seq<usize> {
        self.value.spec_trace()
    }

    fn trace(&self) -> (refs: Vec<usize>) {
        self.value.trace()
    }
}

/// The bytes of live objects among the first `n` slots.
spec fn live_bytes<T>(hs: Seq<GcHeader>, vs: Seq<Option<T>>, n: int) -> int
    decreases n,
{
    if n <= 0 {
        0
    } else {
        live_bytes(hs, vs, n - 1) + if vs[n - 1] is Some {
            hs[n - 1].size as int
        } else {
            0
        }
    }
}

/// The number of live objects among the first `n` slots.
pub open spec fn live_count<T>(vs: Seq<Option<T>>, n: int) -> nat
    decreases n,
{
    if n <= 0 {
        0
    } else {
        live_count(vs, n - 1) + if vs[n - 1] is Some {
            1nat
        } else {
            0nat
        }
    }
}

/// When every object has size `size`, the live bytes are the live objects
/// times that size.
proof fn lemma_live_bytes_uniform<T>(hs: Seq<GcHeader>, vs: Seq<Option<T>>, n: int, size: nat)
    requires
        0 <= n <= hs.len(),
        forall|j: int| 0 <= j < n ==> #[trigger] hs[j].size as nat == size,
    ensures
        live_bytes(hs, vs, n) == live_count(vs, n) * size,
    decreases n,
{
    if n > 0 {
        lemma_live_bytes_uniform(hs, vs, n - 1, size);
        assert(hs[n - 1].size as nat == size);
        let c = live_count(vs, n - 1);
        assert((c + 1) * size == c * size + size) by (nonlinear_arith);
        if vs[n - 1] is Some {
            assert(live_count(vs, n) == c + 1);
            assert(live_bytes(hs, vs, n) == c * size + size);
        } else {
            assert(live_count(vs, n) == c);
        }
    } else {
        assert(0 * size == 0) by (nonlinear_arith);
    }
}

/// The number of live, unmarked objects among the first `n` slots.
spec fn unmarked_count<T>(hs: Seq<GcHeader>, vs: Seq<Option<T>>, n: int) -> nat
    decreases n,
{
    if n <= 0 {
        0
    } else {
        unmarked_count(hs, vs, n - 1) + if vs[n - 1] is Some && !hs[n - 1].marked {
            1nat
        } else {
            0nat
        }
    }
}

/// A chain of live objects from a root, each holding the next.
pub open spec fn is_path<T: Trace>(vs: Seq<Option<T>>, roots: Seq<usize>, p: Seq<usize>) -> bool {
    &&& p.len() > 0
    &&& roots.contains(p[0])
    &&& forall|k: int| 0 <= k < p.len() ==> #[trigger] p[k] < vs.len() && vs[p[k] as int] is Some
    &&& forall|k: int|
        0 <= k < p.len() - 1 ==> vs[#[trigger] p[k] as int].unwrap().spec_trace().contains(p[k + 1])
}

/// Object `i` is live and some chain of live objects leads to it from a root.
pub open spec fn reaches<T: Trace>(vs: Seq<Option<T>>, roots: Seq<usize>, i: int) -> bool {
    exists|p: Seq<usize>| #[trigger] is_path(vs, roots, p) && p.last() == i
}

/// A mark-and-sweep heap of objects of one type. Objects live in slots that a
/// handle names; a collection frees every object no root reaches.
#[derive(Debug)]
pub struct Heap<T> {
    headers: Vec<GcHeader>,
    values: Vec<Option<T>>,
    bytes_alloc: usize,
    threshold: usize,
}

impl<T: Trace> Heap<T> {
    /// How many slots there are, live or freed.
    pub open spec fn slot_count(&self) -> nat {
        self.objects().len()
    }

    /// The objects, by slot; `None` once freed.
    pub closed spec fn objects(&self) -> Seq<Option<T>> {
        self.values@
    }

    /// Slot `i` holds a live object.
    pub open spec fn live(&self, i: int) -> bool {
        0 <= i < self.slot_count() && self.objects()[i] is Some
    }

    /// The object in slot `i`.
    pub open spec fn value(&self, i: int) -> T {
        self.objects()[i].unwrap()
    }

    /// Whether slot `i` is marked.
    pub closed spec fn marked(&self, i: int) -> bool {
        self.headers@[i].marked
    }

    /// The size counted for slot `i`.
    pub closed spec fn obj_size(&self, i: int) -> usize {
        self.headers@[i].size
    }

    /// The bytes counted as allocated.
    pub closed spec fn bytes(&self) -> usize {
        self.bytes_alloc
    }

    /// The count past which a collection is due.
    pub closed spec fn threshold_bytes(&self) -> usize {
        self.threshold
    }

    /// The bytes of the live objects.
    pub closed spec fn live_bytes(&self) -> int {
        live_bytes(self.headers@, self.values@, self.values@.len() as int)
    }

    /// Object `i` is reached from `roots`.
    pub open spec fn reachable(&self, roots: Seq<usize>, i: int) -> bool {
        reaches(self.objects(), roots, i)
    }

    /// The heap's invariant: one header per slot, and the byte count is the
    /// size of the live objects.
    pub closed spec fn wf(&self) -> bool {
        &&& self.headers@.len() == self.values@.len()
        &&& self.bytes_alloc == live_bytes(self.headers@, self.values@, self.values@.len() as int)
        &&& forall|j: int|
            0 <= j < self.headers@.len() ==> #[trigger] self.headers@[j].size as nat
                == vstd::layout::size_of::<GcObject<T>>()
    }

    /// What well-formedness gives a caller.
    pub proof fn lemma_wf(&self)
        requires
            self.wf(),
        ensures
            self.bytes() == self.live_bytes(),
    {
    }

    /// The bytes counted are the live objects times the size of one.
    pub proof fn lemma_bytes_count(&self)
        requires
            self.wf(),
        ensures
            self.bytes() == live_count(self.objects(), self.slot_count() as int)
                * vstd::layout::size_of::<GcObject<T>>(),
    {
        lemma_live_bytes_uniform(
            self.headers@,
            self.values@,
            self.values@.len() as int,
            vstd::layout::size_of::<GcObject<T>>(),
        );
    }

    /// An empty heap that asks for a collection past one mebibyte.
    pub fn new() -> (h: Self)
        ensures
            h.wf(),
            h.slot_count() == 0,
            h.bytes() == 0,
            h.threshold_bytes() == 1024 * 1024,
    {
        Heap { headers: Vec::new(), values: Vec::new(), bytes_alloc: 0, threshold: 1024 * 1024 }
    }

    /// The bytes counted as allocated.
    pub fn get_bytes_alloc(&self) -> (n: usize)
        ensures
            n == self.bytes(),
    {
        self.bytes_alloc
    }

    /// The size counted for each object.
    pub fn object_size() -> (n: usize)
        ensures
            n as nat == vstd::layout::size_of::<GcObject<T>>(),
    {
        core::mem::size_of::<GcObject<T>>()
    }

    /// Puts `value` in a new, unmarked slot, and counts its size.
    pub fn allocate(&mut self, value: T) -> (g: Gc<T>)
        requires
            old(self).wf(),
            old(self).bytes() + vstd::layout::size_of::<GcObject<T>>() <= usize::MAX,
        ensures
            final(self).wf(),
            g.spec_index() == old(self).slot_count(),
            final(self).slot_count() == old(self).slot_count() + 1,
            final(self).objects() == old(self).objects().push(Some(value)),
            !final(self).marked(g.spec_index() as int),
            final(self).obj_size(g.spec_index() as int) as nat == vstd::layout::size_of::<GcObject<T>>(),
            final(self).bytes() == old(self).bytes() + vstd::layout::size_of::<GcObject<T>>(),
            final(self).threshold_bytes() == old(self).threshold_bytes(),
            forall|i: int|
                0 <= i < old(self).slot_count() ==> #[trigger] final(self).marked(i) == old(
                    self,
                ).marked(i) && final(self).obj_size(i) == old(self).obj_size(i),
    {
        let size = core::mem::size_of::<GcObject<T>>();
        let ghost hs = self.headers@;
        let ghost vs = self.values@;
        self.bytes_alloc = self.bytes_alloc + size;
        let index = self.values.len();
        self.headers.push(GcHeader { marked: false, size });
        self.values.push(Some(value));
        proof {
            lemma_live_bytes_prefix(hs, vs, self.headers@, self.values@, vs.len() as int);
        }
        Gc { index, marker: PhantomData }
    }

    /// Whether `g`'s object is marked.
    pub fn is_marked(&self, g: Gc<T>) -> (b: bool)
        requires
            self.wf(),
            g.spec_index() < self.slot_count(),
        ensures
            b == self.marked(g.spec_index() as int),
    {
        self.headers[g.index].marked
    }

    /// The object `g` names.
    pub fn get(&self, g: Gc<T>) -> (v: &T)
        requires
            self.wf(),
            self.live(g.spec_index() as int),
        ensures
            *v == self.value(g.spec_index() as int),
    {
        self.values[g.index].as_ref().unwrap()
    }

    /// Replaces the object `g` names.
    pub fn set(&mut self, g: Gc<T>, value: T)
        requires
            old(self).wf(),
            old(self).live(g.spec_index() as int),
        ensures
            final(self).wf(),
            final(self).objects() == old(self).objects().update(g.spec_index() as int, Some(value)),
            final(self).bytes() == old(self).bytes(),
            final(self).threshold_bytes() == old(self).threshold_bytes(),
            forall|i: int| #[trigger] final(self).marked(i) == old(self).marked(i),
    {
        let ghost hs = self.headers@;
        let ghost vs = self.values@;
        self.values.set(g.index, Some(value));
        proof {
            lemma_live_bytes_same_liveness(hs, vs, self.headers@, self.values@, vs.len() as int);
        }
    }

    /// The handles held by the object in slot `i`.
    fn trace_at(&self, i: usize) -> (refs: Vec<usize>)
        requires
            self.wf(),
            self.live(i as int),
        ensures
            refs@ == self.value(i as int).spec_trace(),
    {
        self.values[i].as_ref().unwrap().trace()
    }

    /// Marks every object reached from `roots` that is not marked yet. Marks
    /// are only added; the objects are left as they are. From a heap with no
    /// marks, the marked objects are then exactly the ones reached from `roots`.
    pub fn mark<R: Trace>(&mut self, roots: &R)
        requires
            old(self).wf(),
        ensures
            final(self).wf(),
            final(self).objects() == old(self).objects(),
            final(self).bytes() == old(self).bytes(),
            final(self).threshold_bytes() == old(self).threshold_bytes(),
            forall|i: int|
                0 <= i < old(self).slot_count() && #[trigger] old(self).marked(i)
                    ==> final(self).marked(i),
            forall|i: int|
                #![trigger final(self).marked(i)]
                0 <= i < old(self).slot_count() && final(self).marked(i) && !old(self).marked(i)
                    ==> old(self).reachable(roots.spec_trace(), i),
            forall|r: int|
                0 <= r < roots.spec_trace().len() && old(self).live(roots.spec_trace()[r] as int)
                    ==> #[trigger] final(self).marked(roots.spec_trace()[r] as int),
            forall|i: int, c: int|
                #![trigger final(self).marked(i), old(self).value(i).spec_trace()[c]]
                0 <= i < old(self).slot_count() && final(self).marked(i) && !old(self).marked(i)
                    && 0 <= c < old(self).value(i).spec_trace().len() && old(self).live(
                    old(self).value(i).spec_trace()[c] as int,
                ) ==> final(self).marked(old(self).value(i).spec_trace()[c] as int),
            (forall|i: int| 0 <= i < old(self).slot_count() ==> !#[trigger] old(self).marked(i))
                ==> (forall|i: int|
                0 <= i < old(self).slot_count() ==> (#[trigger] final(self).marked(i) <==> old(
                    self,
                ).reachable(roots.spec_trace(), i))),
    {
        let ghost roots_seq = roots.spec_trace();
        let ghost vs = self.values@;
        let ghost hs0 = self.headers@;
        let ghost n = vs.len();
        let mut work = roots.trace();
        proof {
            assert forall|r: int| 0 <= r < roots_seq.len() implies #[trigger] work@.contains(
                roots_seq[r],
            ) by {
                assert(work@[r] == roots_seq[r]);
            }
        }
        while work.len() > 0
            invariant
                self.wf(),
                self.values@ == vs,
                n == vs.len(),
                hs0 == old(self).headers@,
                hs0.len() == n,
                self.bytes_alloc == old(self).bytes_alloc,
                self.threshold == old(self).threshold,
                self.headers@.len() == n,
                forall|i: int|
                    #![trigger self.headers@[i]]
                    0 <= i < n ==> (hs0[i].marked ==> self.headers@[i].marked) && self.headers@[i].size
                        == hs0[i].size,
                forall|i: int|
                    #![trigger self.headers@[i]]
                    0 <= i < n && self.headers@[i].marked && !hs0[i].marked ==> reaches(
                        vs,
                        roots_seq,
                        i,
                    ),
                forall|k: int|
                    #![trigger work@[k]]
                    0 <= k < work@.len() ==> roots_seq.contains(work@[k]) || exists|j: int|
                        #![trigger self.headers@[j]]
                        0 <= j < n && self.headers@[j].marked && !hs0[j].marked
                            && vs[j].unwrap().spec_trace().contains(work@[k]),
                forall|r: int|
                    0 <= r < roots_seq.len() && 0 <= roots_seq[r] < n && vs[roots_seq[r] as int] is Some
                        ==> self.headers@[#[trigger] roots_seq[r] as int].marked || work@.contains(
                        roots_seq[r],
                    ),
                forall|i: int, c: int|
                    #![trigger self.headers@[i], vs[i].unwrap().spec_trace()[c]]
                    0 <= i < n && self.headers@[i].marked && !hs0[i].marked && 0 <= c
                        < vs[i].unwrap().spec_trace().len() && 0 <= vs[i].unwrap().spec_trace()[c] < n
                        && vs[vs[i].unwrap().spec_trace()[c] as int] is Some ==> self.headers@[vs[i].unwrap().spec_trace()[c] as int].marked
                        || work@.contains(vs[i].unwrap().spec_trace()[c]),
            decreases unmarked_count(self.headers@, self.values@, n as int), work@.len(),
        {
            let ghost before_work = work@;
            let ghost hs = self.headers@;
            let i = work.pop().unwrap();
            proof {
                assert(before_work =~= work@.push(i));
            }
            if i < self.headers.len() && self.values[i].is_some() && !self.headers[i].marked {
                proof {
                    // i is reached: from a root directly, or through the marked object holding it.
                    assert(before_work[before_work.len() - 1] == i);
                    if roots_seq.contains(i) {
                        let p = seq![i];
                        assert(is_path(vs, roots_seq, p));
                    } else {
                        let j = choose|j: int|
                            #![trigger hs[j]]
                            0 <= j < n && hs[j].marked && !hs0[j].marked && vs[j].unwrap().spec_trace().contains(i);
                        assert(reaches(vs, roots_seq, j));
                        let p = choose|p: Seq<usize>| #[trigger] is_path(vs, roots_seq, p) && p.last() == j;
                        let q = p.push(i);
                        assert(q[q.len() - 2] == j);
                        assert(is_path(vs, roots_seq, q));
                        assert(q.last() == i);
                    }
                    assert(reaches(vs, roots_seq, i as int));
                }
                let mut h = self.headers[i];
                h.marked = true;
                self.headers.set(i, h);
                proof {
                    lemma_live_bytes_same_sizes(hs, vs, self.headers@, vs, n as int);
                    lemma_unmarked_count_mark(hs, vs, i as int, n as int);
                    assert(self.headers@ == hs.update(i as int, h));
                }
                let children = self.trace_at(i);
                let mut k: usize = 0;
                let ghost base = work@;
                while k < children.len()
                    invariant
                        0 <= k <= children@.len(),
                        children@ == vs[i as int].unwrap().spec_trace(),
                        work@ == base + children@.take(k as int),
                    decreases children@.len() - k,
                {
                    work.push(children[k]);
                    k = k + 1;
                    proof {
                        assert(work@ =~= base + children@.take(k as int));
                    }
                }
                proof {
                    let hn = self.headers@;
                    assert(children@.take(children@.len() as int) =~= children@);
                    assert forall|c: int| 0 <= c < children@.len() implies #[trigger] work@.contains(
                        children@[c],
                    ) by {
                        assert(work@[base.len() + c] == children@[c]);
                    }
                    assert forall|x: usize| #[trigger] base.contains(x) implies work@.contains(x) by {
                        let t = choose|t: int| 0 <= t < base.len() && base[t] == x;
                        assert(work@[t] == base[t]);
                    }
                    assert forall|j: int| #![trigger hn[j]] 0 <= j < n implies (hs0[j].marked ==> hn[j].marked)
                        && hn[j].size == hs0[j].size by {
                        assert(hs[j].size == hs0[j].size);
                    }
                    assert forall|j: int| #![trigger hn[j]] 0 <= j < n && hn[j].marked && !hs0[j].marked
                        implies reaches(vs, roots_seq, j) by {
                        if j != i {
                            assert(hn[j] == hs[j]);
                        }
                    }
                    assert forall|k2: int| 0 <= k2 < work@.len() implies (roots_seq.contains(
                        #[trigger] work@[k2],
                    ) || exists|j: int|
                        #![trigger hn[j]]
                        0 <= j < n && hn[j].marked && !hs0[j].marked && vs[j].unwrap().spec_trace().contains(
                            work@[k2],
                        )) by {
                        if k2 < base.len() {
                            assert(work@[k2] == base[k2]);
                            assert(before_work[k2] == base[k2]);
                            if !roots_seq.contains(work@[k2]) {
                                let j = choose|j: int|
                                    #![trigger hs[j]]
                                    0 <= j < n && hs[j].marked && !hs0[j].marked && vs[j].unwrap().spec_trace().contains(
                                        before_work[k2],
                                    );
                                assert(hn[j].marked);
                            }
                        } else {
                            let c = k2 - base.len();
                            assert(work@[k2] == children@[c]);
                            assert(hn[i as int].marked);
                        }
                    }
                    assert forall|r: int|
                        0 <= r < roots_seq.len() && 0 <= roots_seq[r] < n && vs[roots_seq[r] as int] is Some
                        implies hn[#[trigger] roots_seq[r] as int].marked || work@.contains(roots_seq[r]) by {
                        if roots_seq[r] != i {
                            assert(hn[roots_seq[r] as int] == hs[roots_seq[r] as int]);
                            if before_work.contains(roots_seq[r]) {
                                let t = choose|t: int| 0 <= t < before_work.len() && before_work[t] == roots_seq[r];
                                assert(t < base.len());
                                assert(base[t] == roots_seq[r]);
                                assert(base.contains(roots_seq[r]));
                                assert(work@.contains(roots_seq[r]));
                            }
                        } else {
                            assert(hn[i as int].marked);
                        }
                    }
                    assert forall|i2: int, c: int|
                        #![trigger hn[i2], vs[i2].unwrap().spec_trace()[c]]
                        0 <= i2 < n && hn[i2].marked && !hs0[i2].marked && 0 <= c
                            < vs[i2].unwrap().spec_trace().len() && 0 <= vs[i2].unwrap().spec_trace()[c] < n
                            && vs[vs[i2].unwrap().spec_trace()[c] as int] is Some
                        implies hn[vs[i2].unwrap().spec_trace()[c] as int].marked
                            || work@.contains(vs[i2].unwrap().spec_trace()[c]) by {
                        let x = vs[i2].unwrap().spec_trace()[c];
                        if i2 == i {
                            assert(children@[c] == x);
                            assert(work@.contains(children@[c]));
                        } else {
                            assert(hn[i2] == hs[i2]);
                            if x != i {
                                assert(hn[x as int] == hs[x as int]);
                                if before_work.contains(x) {
                                    let t = choose|t: int| 0 <= t < before_work.len() && before_work[t] == x;
                                    assert(t < base.len());
                                    assert(base[t] == x);
                                    assert(base.contains(x));
                                    assert(work@.contains(x));
                                }
                            } else {
                                assert(hn[i as int].marked);
                            }
                        }
                    }
                }
            } else {
                proof {
                    assert forall|k2: int| 0 <= k2 < work@.len() implies (roots_seq.contains(
                        #[trigger] work@[k2],
                    ) || exists|j: int|
                        #![trigger hs[j]]
                        0 <= j < n && hs[j].marked && !hs0[j].marked && vs[j].unwrap().spec_trace().contains(
                            work@[k2],
                        )) by {
                        assert(work@[k2] == before_work[k2]);
                    }
                    assert forall|r: int|
                        0 <= r < roots_seq.len() && 0 <= roots_seq[r] < n && vs[roots_seq[r] as int] is Some
                        implies hs[#[trigger] roots_seq[r] as int].marked || work@.contains(roots_seq[r]) by {
                        if roots_seq[r] != i && before_work.contains(roots_seq[r]) {
                            let t = choose|t: int| 0 <= t < before_work.len() && before_work[t] == roots_seq[r];
                            assert(t < work@.len());
                            assert(work@[t] == roots_seq[r]);
                        }
                    }
                    assert forall|i2: int, c: int|
                        #![trigger hs[i2], vs[i2].unwrap().spec_trace()[c]]
                        0 <= i2 < n && hs[i2].marked && !hs0[i2].marked && 0 <= c
                            < vs[i2].unwrap().spec_trace().len() && 0 <= vs[i2].unwrap().spec_trace()[c] < n
                            && vs[vs[i2].unwrap().spec_trace()[c] as int] is Some
                        implies hs[vs[i2].unwrap().spec_trace()[c] as int].marked
                            || work@.contains(vs[i2].unwrap().spec_trace()[c]) by {
                        let x = vs[i2].unwrap().spec_trace()[c];
                        if x != i && before_work.contains(x) {
                            let t = choose|t: int| 0 <= t < before_work.len() && before_work[t] == x;
                            assert(t < work@.len());
                            assert(work@[t] == x);
                        }
                    }
                }
            }
        }
        proof {
            let hn = self.headers@;
            assert forall|i: int| 0 <= i < n && #[trigger] old(self).marked(i) implies self.marked(i) by {
                assert(hn[i].marked);
            }
            assert forall|i: int| #![trigger self.marked(i)] 0 <= i < n && self.marked(i) && !old(self).marked(i)
                implies old(self).reachable(roots_seq, i) by {
                assert(hn[i].marked);
            }
            assert forall|r: int| 0 <= r < roots_seq.len() && old(self).live(roots_seq[r] as int)
                implies #[trigger] self.marked(roots_seq[r] as int) by {
                assert(hn[roots_seq[r] as int].marked);
            }
            assert forall|i: int, c: int|
                #![trigger self.marked(i), old(self).value(i).spec_trace()[c]]
                0 <= i < n && self.marked(i) && !old(self).marked(i)
                    && 0 <= c < old(self).value(i).spec_trace().len() && old(self).live(
                    old(self).value(i).spec_trace()[c] as int,
                ) implies self.marked(old(self).value(i).spec_trace()[c] as int) by {
                assert(hn[i].marked);
                assert(vs[i].unwrap().spec_trace()[c] == old(self).value(i).spec_trace()[c]);
            }
            if forall|i: int| 0 <= i < n ==> !#[trigger] old(self).marked(i) {
                assert forall|i: int| 0 <= i < n && reaches(vs, roots_seq, i) implies #[trigger] self.marked(i) by {
                    let p = choose|p: Seq<usize>| #[trigger] is_path(vs, roots_seq, p) && p.last() == i;
                    lemma_path_marked(self, old(self), roots_seq, p);
                }
            }
        }
    }

    /// Frees every unmarked object, subtracting its size from the count, and
    /// clears the marks of the objects that stay.
    pub fn sweep(&mut self)
        requires
            old(self).wf(),
        ensures
            final(self).wf(),
            final(self).slot_count() == old(self).slot_count(),
            forall|i: int|
                0 <= i < old(self).slot_count() ==> (#[trigger] final(self).live(i) <==> old(
                    self,
                ).live(i) && old(self).marked(i)),
            forall|i: int|
                #![trigger final(self).objects()[i]]
                0 <= i < old(self).slot_count() && final(self).live(i) ==> final(self).objects()[i]
                    == old(self).objects()[i],
            forall|i: int| 0 <= i < old(self).slot_count() ==> !#[trigger] final(self).marked(i),
            final(self).threshold_bytes() == old(self).threshold_bytes(),
            final(self).bytes() == live_count(final(self).objects(), final(self).slot_count() as int)
                * vstd::layout::size_of::<GcObject<T>>(),
    {
        let n = self.values.len();
        let mut i: usize = 0;
        let ghost hs0 = self.headers@;
        let ghost vs0 = self.values@;
        while i < n
            invariant
                self.wf(),
                n == self.values@.len(),
                n == vs0.len(),
                0 <= i <= n,
                self.threshold == old(self).threshold,
                self.headers@.len() == n,
                forall|j: int| #![trigger hs0[j]] 0 <= j < n ==> self.headers@[j].size == hs0[j].size,
                forall|j: int|
                    #![trigger vs0[j]]
                    #![trigger self.values@[j]]
                    #![trigger self.headers@[j]]
                    i <= j < n ==> self.values@[j] == vs0[j] && self.headers@[j].marked == hs0[j].marked,
                forall|j: int|
                    #![trigger vs0[j]]
                    #![trigger self.values@[j]]
                    #![trigger self.headers@[j]]
                    0 <= j < i ==> (self.values@[j] is Some <==> vs0[j] is Some && hs0[j].marked)
                        && (self.values@[j] is Some ==> self.values@[j] == vs0[j])
                        && !self.headers@[j].marked,
                hs0 == old(self).headers@,
                vs0 == old(self).values@,
                hs0.len() == n,
            decreases n - i,
        {
            let h = self.headers[i];
            let ghost hs = self.headers@;
            let ghost vs = self.values@;
            if self.values[i].is_some() {
                if h.marked {
                    self.headers.set(i, GcHeader { marked: false, size: h.size });
                    proof {
                        lemma_live_bytes_same_sizes(hs, vs, self.headers@, vs, n as int);
                    }
                } else {
                    proof {
                        lemma_live_bytes_free(hs, vs, i as int, n as int);
                        lemma_live_bytes_nonneg_parts(hs, vs, i as int, n as int);
                    }
                    self.bytes_alloc = self.bytes_alloc - h.size;
                    self.values.set(i, None);
                }
            } else if h.marked {
                self.headers.set(i, GcHeader { marked: false, size: h.size });
                proof {
                    lemma_live_bytes_same_sizes(hs, vs, self.headers@, vs, n as int);
                }
            }
            proof {
                assert forall|j: int| #![trigger vs0[j]] i < j < n implies self.values@[j] == vs0[j]
                    && self.headers@[j].marked == hs0[j].marked by {
                    assert(self.values@[j] == vs[j]);
                    assert(self.headers@[j] == hs[j]);
                    assert(vs[j] == vs0[j]);
                    assert(hs[j].marked == hs0[j].marked);
                }
                assert forall|j: int| #![trigger vs0[j]] 0 <= j < i implies (self.values@[j] is Some <==> vs0[j] is Some && hs0[j].marked)
                        && (self.values@[j] is Some ==> self.values@[j] == vs0[j])
                        && !self.headers@[j].marked by {
                    assert(self.values@[j] == vs[j]);
                    assert(self.headers@[j] == hs[j]);
                    assert(vs[j] is Some <==> vs0[j] is Some && hs0[j].marked);
                }
                assert forall|j: int| #![trigger hs0[j]] 0 <= j < n implies self.headers@[j].size == hs0[j].size by {
                    if j != i {
                        assert(self.headers@[j] == hs[j]);
                    }
                }
                assert(!self.headers@[i as int].marked);
                assert(self.values@[i as int] is Some <==> vs0[i as int] is Some && hs0[i as int].marked);
            }
            i = i + 1;
        }
        proof {
            self.lemma_bytes_count();
        }
    }

    /// Whether a collection is due: more bytes are counted than the threshold.
    pub fn should_collect(&self) -> (b: bool)
        ensures
            b == (self.bytes() > self.threshold_bytes()),
    {
        self.bytes_alloc > self.threshold
    }

    /// Sets the threshold to twice the bytes now counted.
    pub fn update_threshold(&mut self)
        requires
            old(self).bytes() * 2 <= usize::MAX,
        ensures
            final(self).threshold_bytes() == old(self).bytes() * 2,
            final(self).bytes() == old(self).bytes(),
            final(self).objects() == old(self).objects(),
            final(self).wf() == old(self).wf(),
            forall|i: int| #[trigger] final(self).marked(i) == old(self).marked(i),
    {
        self.threshold = self.bytes_alloc * 2;
    }
}

/// Along a chain from a root, in a heap where marking started with no marks,
/// every object is marked.
proof fn lemma_path_marked<T: Trace>(h: &Heap<T>, h0: &Heap<T>, roots: Seq<usize>, p: Seq<usize>)
    requires
        is_path(h.values@, roots, p),
        h.values@ == h0.values@,
        h.headers@.len() == h.values@.len(),
        forall|i: int| 0 <= i < h.values@.len() ==> !#[trigger] h0.marked(i),
        forall|r: int|
            0 <= r < roots.len() && 0 <= roots[r] < h.values@.len() && h.values@[roots[r] as int] is Some
                ==> h.marked(#[trigger] roots[r] as int),
        forall|i: int, c: int|
            #![trigger h.marked(i), h.values@[i].unwrap().spec_trace()[c]]
            0 <= i < h.values@.len() && h.marked(i) && !h0.marked(i) && 0 <= c
                < h.values@[i].unwrap().spec_trace().len() && 0 <= h.values@[i].unwrap().spec_trace()[c]
                < h.values@.len() && h.values@[h.values@[i].unwrap().spec_trace()[c] as int] is Some
                ==> h.marked(h.values@[i].unwrap().spec_trace()[c] as int),
    ensures
        h.marked(p.last() as int),
    decreases p.len(),
{
    let vs = h.values@;
    if p.len() == 1 {
        let r = choose|r: int| 0 <= r < roots.len() && roots[r] == p[0];
        assert(p[0] < vs.len());
        assert(h.marked(roots[r] as int));
    } else {
        let q = p.drop_last();
        assert(is_path(vs, roots, q)) by {
            assert forall|k: int| 0 <= k < q.len() implies #[trigger] q[k] < vs.len() && vs[q[k] as int] is Some by {
                assert(q[k] == p[k]);
            }
            assert forall|k: int| 0 <= k < q.len() - 1 implies vs[#[trigger] q[k] as int].unwrap().spec_trace().contains(q[k + 1]) by {
                assert(q[k] == p[k]);
                assert(q[k + 1] == p[k + 1]);
            }
        }
        lemma_path_marked(h, h0, roots, q);
        let j = q.last();
        assert(j == p[p.len() - 2]);
        assert(vs[j as int].unwrap().spec_trace().contains(p.last()));
        let c = choose|c: int| 0 <= c < vs[j as int].unwrap().spec_trace().len() && vs[j as int].unwrap().spec_trace()[c] == p.last();
        assert(p.last() < vs.len() && vs[p.last() as int] is Some) by {
            assert(p[p.len() - 1] == p.last());
        }
        assert(h.marked(j as int));
        assert(!h0.marked(j as int));
        assert(h.marked(vs[j as int].unwrap().spec_trace()[c] as int));
    }
}

/// Appending a slot leaves the count of the earlier slots as it was.
proof fn lemma_live_bytes_prefix<T>(
    hs: Seq<GcHeader>,
    vs: Seq<Option<T>>,
    hs2: Seq<GcHeader>,
    vs2: Seq<Option<T>>,
    n: int,
)
    requires
        0 <= n <= hs.len(),
        n <= vs.len(),
        n <= hs2.len(),
        n <= vs2.len(),
        forall|j: int| 0 <= j < n ==> hs2[j] == hs[j] && vs2[j] == vs[j],
    ensures
        live_bytes(hs2, vs2, n) == live_bytes(hs, vs, n),
    decreases n,
{
    if n > 0 {
        lemma_live_bytes_prefix(hs, vs, hs2, vs2, n - 1);
    }
}

/// Changing marks or objects but not sizes nor which slots are live leaves the count as it was.
proof fn lemma_live_bytes_same_sizes<T>(
    hs: Seq<GcHeader>,
    vs: Seq<Option<T>>,
    hs2: Seq<GcHeader>,
    vs2: Seq<Option<T>>,
    n: int,
)
    requires
        0 <= n <= hs.len(),
        n <= vs.len(),
        n <= hs2.len(),
        n <= vs2.len(),
        forall|j: int|
            0 <= j < n ==> #[trigger] hs2[j].size == hs[j].size && (vs2[j] is Some <==> vs[j] is Some),
    ensures
        live_bytes(hs2, vs2, n) == live_bytes(hs, vs, n),
    decreases n,
{
    if n > 0 {
        assert(hs2[n - 1].size == hs[n - 1].size);
        lemma_live_bytes_same_sizes(hs, vs, hs2, vs2, n - 1);
    }
}

proof fn lemma_live_bytes_same_liveness<T>(
    hs: Seq<GcHeader>,
    vs: Seq<Option<T>>,
    hs2: Seq<GcHeader>,
    vs2: Seq<Option<T>>,
    n: int,
)
    requires
        0 <= n <= hs.len(),
        n <= vs.len(),
        hs2 == hs,
        vs2.len() == vs.len(),
        forall|j: int| 0 <= j < n ==> (#[trigger] vs2[j] is Some <==> vs[j] is Some),
    ensures
        live_bytes(hs2, vs2, n) == live_bytes(hs, vs, n),
{
    lemma_live_bytes_same_sizes(hs, vs, hs2, vs2, n);
}

/// Freeing live slot `i` takes its size off the count.
proof fn lemma_live_bytes_free<T>(hs: Seq<GcHeader>, vs: Seq<Option<T>>, i: int, n: int)
    requires
        0 <= i < n,
        n <= hs.len(),
        n <= vs.len(),
        vs[i] is Some,
    ensures
        live_bytes(hs, vs.update(i, None), n) == live_bytes(hs, vs, n) - hs[i].size,
    decreases n,
{
    if n - 1 > i {
        lemma_live_bytes_free(hs, vs, i, n - 1);
    } else {
        lemma_live_bytes_prefix(hs, vs, hs, vs.update(i, None), n - 1);
    }
}

/// The size of a live slot is part of the count.
proof fn lemma_live_bytes_nonneg_parts<T>(hs: Seq<GcHeader>, vs: Seq<Option<T>>, i: int, n: int)
    requires
        0 <= i < n,
        n <= hs.len(),
        n <= vs.len(),
        vs[i] is Some,
    ensures
        live_bytes(hs, vs, n) >= hs[i].size,
        live_bytes(hs, vs, n) >= 0,
    decreases n,
{
    lemma_live_bytes_nonneg(hs, vs, n - 1);
    if n - 1 > i {
        lemma_live_bytes_nonneg_parts(hs, vs, i, n - 1);
    }
}

proof fn lemma_live_bytes_nonneg<T>(hs: Seq<GcHeader>, vs: Seq<Option<T>>, n: int)
    ensures
        live_bytes(hs, vs, n) >= 0,
    decreases n,
{
    if n > 0 {
        lemma_live_bytes_nonneg(hs, vs, n - 1);
    }
}

/// Marking a live, unmarked slot takes one off the count of unmarked objects.
proof fn lemma_unmarked_count_mark<T>(hs: Seq<GcHeader>, vs: Seq<Option<T>>, i: int, n: int)
    requires
        0 <= i < n,
        n <= hs.len(),
        n <= vs.len(),
        vs[i] is Some,
        !hs[i].marked,
    ensures
        unmarked_count(hs.update(i, GcHeader { marked: true, size: hs[i].size }), vs, n) + 1
            == unmarked_count(hs, vs, n),
    decreases n,
{
    let hs2 = hs.update(i, GcHeader { marked: true, size: hs[i].size });
    if n - 1 > i {
        lemma_unmarked_count_mark(hs, vs, i, n - 1);
    } else {
        lemma_unmarked_count_prefix(hs, hs2, vs, n - 1);
    }
}

proof fn lemma_unmarked_count_prefix<T>(hs: Seq<GcHeader>, hs2: Seq<GcHeader>, vs: Seq<Option<T>>, n: int)
    requires
        0 <= n <= hs.len(),
        n <= hs2.len(),
        n <= vs.len(),
        forall|j: int| 0 <= j < n ==> hs2[j] == hs[j],
    ensures
        unmarked_count(hs2, vs, n) == unmarked_count(hs, vs, n),
    decreases n,
{
    if n > 0 {
        lemma_unmarked_count_prefix(hs, hs2, vs, n - 1);
    }
}

} // verus!
