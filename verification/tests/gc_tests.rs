use rlox::gc::{Gc, Heap, Trace};

struct NoRoots;

impl Trace for NoRoots {
    fn trace(&self) -> Vec<usize> {
        Vec::new()
    }
}

struct TestObj {
    value: f64,
}

impl Trace for TestObj {
    fn trace(&self) -> Vec<usize> {
        Vec::new()
    }
}

struct Node {
    next: Option<Gc<Node>>,
    value: f64,
}

impl Trace for Node {
    fn trace(&self) -> Vec<usize> {
        self.next.trace()
    }
}

struct Inner {
    value: Gc<Obj>,
}

/// The objects of the nested-struct test share one heap, so they are one type.
enum Obj {
    Node { value: f64 },
    Outer { inner: Inner, direct: Gc<Obj> },
}

impl Trace for Obj {
    fn trace(&self) -> Vec<usize> {
        match self {
            Obj::Node { .. } => Vec::new(),
            Obj::Outer { inner, direct } => vec![inner.value.index(), direct.index()],
        }
    }
}

fn node_value(heap: &Heap<Obj>, g: Gc<Obj>) -> f64 {
    match heap.get(g) {
        Obj::Node { value } => *value,
        Obj::Outer { .. } => panic!("not a node"),
    }
}

#[test]
fn test_gc_collects_unreachable() {
    let mut heap = Heap::new();
    let _gc = heap.allocate(TestObj { value: 42.0 });

    heap.mark(&NoRoots);
    heap.sweep();

    assert_eq!(heap.get_bytes_alloc(), 0);
}

#[test]
fn test_gc_keeps_reachable() {
    let mut heap = Heap::new();
    let gc = heap.allocate(TestObj { value: 42.0 });
    heap.mark(&[gc]);

    heap.sweep();
    assert!(heap.get_bytes_alloc() > 0);
    assert_eq!(heap.get(gc).value, 42.0);
}

#[test]
fn test_gc_traces_object_graph() {
    let mut heap = Heap::new();
    let leaf = heap.allocate(Node { next: None, value: 2.0 });
    let root = heap.allocate(Node { next: Some(leaf), value: 1.0 });

    heap.mark(&root);
    assert_eq!(heap.get_bytes_alloc(), Heap::<Node>::object_size() * 2);
    assert_eq!(heap.get(root).value, 1.0);
    assert_eq!(heap.get(heap.get(root).next.unwrap()).value, 2.0);
}

#[test]
fn test_gc_collects_cycles() {
    let mut heap = Heap::new();
    let a = heap.allocate(Node { next: None, value: 1.0 });
    let b = heap.allocate(Node { next: Some(a), value: 2.0 });

    // make a cyclical reference
    heap.set(a, Node { next: Some(b), value: 1.0 });

    heap.mark(&NoRoots);
    heap.sweep();

    assert_eq!(heap.get_bytes_alloc(), 0);
}

#[test]
fn test_gc_collects_cycles_rooted() {
    let mut heap = Heap::new();
    let a = heap.allocate(Node { next: None, value: 1.0 });
    let b = heap.allocate(Node { next: Some(a), value: 2.0 });

    // make a cyclical reference
    heap.set(a, Node { next: Some(b), value: 1.0 });

    // root one of them
    heap.mark(&a);
    heap.sweep();

    assert_eq!(heap.get_bytes_alloc(), Heap::<Node>::object_size() * 2);
}

#[test]
fn test_gc_traces_nested_struct() {
    let mut heap = Heap::new();
    let node1 = heap.allocate(Obj::Node { value: 1.0 });
    let node2 = heap.allocate(Obj::Node { value: 2.0 });

    let outer = heap.allocate(Obj::Outer { inner: Inner { value: node1 }, direct: node2 });

    heap.mark(&outer);
    heap.sweep();

    assert_eq!(heap.get_bytes_alloc(), Heap::<Obj>::object_size() * 3);
    match heap.get(outer) {
        Obj::Outer { inner, direct } => {
            assert_eq!(node_value(&heap, inner.value), 1.0);
            assert_eq!(node_value(&heap, *direct), 2.0);
        }
        Obj::Node { .. } => panic!("not the outer object"),
    }
}

#[test]
fn sweep_frees_only_what_the_roots_miss() {
    let mut heap = Heap::new();
    let kept = heap.allocate(TestObj { value: 1.0 });
    let _dropped = heap.allocate(TestObj { value: 2.0 });
    heap.mark(&Some(kept));
    assert!(heap.is_marked(kept));
    heap.sweep();
    assert_eq!(heap.get_bytes_alloc(), Heap::<TestObj>::object_size());
    assert!(!heap.is_marked(kept));
    assert_eq!(heap.get(kept).value, 1.0);
}

#[test]
fn mark_follows_a_chain_to_its_end() {
    let mut heap = Heap::new();
    let c = heap.allocate(Node { next: None, value: 3.0 });
    let b = heap.allocate(Node { next: Some(c), value: 2.0 });
    let a = heap.allocate(Node { next: Some(b), value: 1.0 });
    let stray = heap.allocate(Node { next: Some(a), value: 0.0 });
    heap.mark(&vec![a]);
    assert!(heap.is_marked(a));
    assert!(heap.is_marked(b));
    assert!(heap.is_marked(c));
    assert!(!heap.is_marked(stray));
}

#[test]
fn threshold_doubles_what_is_live() {
    let mut heap = Heap::new();
    assert!(!heap.should_collect());
    let g = heap.allocate(TestObj { value: 1.0 });
    heap.update_threshold();
    assert!(!heap.should_collect());
    let _h = heap.allocate(TestObj { value: 2.0 });
    assert!(!heap.should_collect());
    let _i = heap.allocate(TestObj { value: 3.0 });
    assert!(heap.should_collect());
    assert_eq!(heap.get(g).value, 1.0);
}

#[test]
fn handles_compare_by_slot() {
    let mut heap = Heap::new();
    let a = heap.allocate(TestObj { value: 1.0 });
    let b = heap.allocate(TestObj { value: 2.0 });
    assert!(a.same(&a));
    assert!(!a.same(&b));
    assert_eq!(a.index(), 0);
    assert_eq!(b.index(), 1);
    assert_eq!(b.trace(), vec![1]);
}
