use lox::gc::{Gc, GcHeap, Trace};
use std::rc::Rc;
use vstd::seq::Seq;

#[test]
fn test_linear_drop() {
    let counter = Rc::new(());
    let mut heap: GcHeap<Rc<()>> = GcHeap::new();
    {
        let obj = heap.allocate(Rc::clone(&counter));
        assert_eq!(Rc::strong_count(&counter), 2); // counter + spy
        assert_eq!(heap.len(), 1);
        assert_eq!(heap.dropped_count(), 0);
        heap.release(obj);
    }
    assert_eq!(Rc::strong_count(&counter), 1); // spy is still on heap but zombie
    assert_eq!(heap.dropped_count(), 1);
    assert_eq!(heap.len(), 1);
    heap.sweep();
    assert!(heap.is_empty());
}

#[test]
fn test_shared_ownership() {
    let counter = Rc::new(());
    let mut heap: GcHeap<Rc<()>> = GcHeap::new();
    {
        let gc1 = heap.allocate(Rc::clone(&counter));
        let gc2 = heap.clone_gc(&gc1);
        assert!(std::ptr::eq(heap.get(&gc1), heap.get(&gc2))); // same inner value
        assert_eq!(Rc::strong_count(&counter), 2); // counter + spy
        heap.release(gc2);
        heap.release(gc1);
    }
    assert_eq!(Rc::strong_count(&counter), 1);
    heap.sweep();
    assert!(heap.is_empty());
}

struct Node {
    _rc: Rc<()>,
    links: Vec<Gc<Node>>,
}

impl Node {
    fn new(counter: &Rc<()>) -> Self {
        Node {
            _rc: Rc::clone(counter),
            links: vec![],
        }
    }
}

impl Trace for Node {
    // The handles a node holds, as the heap's specification reads them; code never
    // calls it.
    fn handles(&self) -> Seq<usize> {
        unreachable!()
    }

    fn trace(&self) -> Vec<usize> {
        self.links.iter().map(|link| link.index()).collect()
    }
}

// Gives the node `from` refers to a new handle to the node `to` refers to, by putting
// in its place a copy with one more link.
fn link(heap: &mut GcHeap<Node>, from: &Gc<Node>, to: &Gc<Node>) {
    let handle = heap.clone_gc(to);
    let stand_in = Node::new(&heap.get(from)._rc);
    let mut node = heap.replace(from, stand_in);
    node.links.push(handle);
    let stand_in = heap.replace(from, node);
    drop(stand_in);
}

#[test]
fn test_cascading_drop() {
    let counter = Rc::new(());
    let mut heap: GcHeap<Node> = GcHeap::new();

    let node1 = heap.allocate(Node::new(&counter));
    {
        let node2 = heap.allocate(Node::new(&counter));
        let node3 = heap.allocate(Node::new(&counter));
        link(&mut heap, &node1, &node2);
        link(&mut heap, &node2, &node3);
        heap.release(node3);
        heap.release(node2);
    }
    assert_eq!(Rc::strong_count(&counter), 4);
    heap.release(node1);
    assert_eq!(Rc::strong_count(&counter), 1);
}

#[test]
fn test_isolated_cycle_pair() {
    let counter = Rc::new(());
    let mut heap: GcHeap<Node> = GcHeap::new();
    {
        let node1 = heap.allocate(Node::new(&counter));
        let node2 = heap.allocate(Node::new(&counter));
        link(&mut heap, &node1, &node2);
        link(&mut heap, &node2, &node1);
        assert_eq!(Rc::strong_count(&counter), 3);
        heap.release(node2);
        heap.release(node1);
    }
    assert_eq!(heap.dropped_count(), 0);
    assert_eq!(Rc::strong_count(&counter), 3); // cycled nodes persist in heap until sweep;
    assert_eq!(heap.len(), 2);
    heap.sweep();
    assert_eq!(Rc::strong_count(&counter), 1);
    assert!(heap.is_empty());
}

#[test]
fn test_self_reference() {
    let counter = Rc::new(());
    let mut heap: GcHeap<Node> = GcHeap::new();

    {
        let node = heap.allocate(Node::new(&counter));
        link(&mut heap, &node, &node);
        assert_eq!(Rc::strong_count(&counter), 2);
        heap.release(node);
    }
    assert_eq!(heap.dropped_count(), 0);
    assert_eq!(Rc::strong_count(&counter), 2);
    assert_eq!(heap.len(), 1);

    heap.sweep();
    assert_eq!(Rc::strong_count(&counter), 1);
    assert!(heap.is_empty());
}

#[test]
fn test_live_cycle_and_diamond() {
    let counter = Rc::new(());
    let mut heap: GcHeap<Node> = GcHeap::new();

    let root = heap.allocate(Node::new(&counter));
    {
        let node_a = heap.allocate(Node::new(&counter));
        let node_b = heap.allocate(Node::new(&counter));
        let node_c = heap.allocate(Node::new(&counter));

        link(&mut heap, &root, &node_a);
        link(&mut heap, &root, &node_b);
        link(&mut heap, &node_a, &node_c);
        link(&mut heap, &node_b, &node_c);
        link(&mut heap, &node_c, &root);

        assert_eq!(Rc::strong_count(&counter), 5);
        heap.release(node_c);
        heap.release(node_b);
        heap.release(node_a);
    }
    assert_eq!(Rc::strong_count(&counter), 5);

    // Mark graph from root
    heap.mark(&root);
    heap.sweep();

    // all objects are still accessed from root
    assert_eq!(Rc::strong_count(&counter), 5);
    assert_eq!(heap.len(), 4);

    // Do not mark as accessed now
    heap.sweep();
    assert_eq!(Rc::strong_count(&counter), 1);
    assert!(heap.is_empty());
}

#[test]
fn gc_clone_then_release_keeps_the_value() {
    let counter = Rc::new(());
    let mut heap: GcHeap<Rc<()>> = GcHeap::default();
    let gc = heap.allocate(Rc::clone(&counter));
    let copy = heap.clone_gc(&gc);
    heap.release(copy);
    assert_eq!(heap.dropped_count(), 0);
    assert_eq!(Rc::strong_count(&counter), 2);
    assert_eq!(gc.index(), 0);
    heap.release(gc);
    assert_eq!(heap.dropped_count(), 1);
    assert_eq!(Rc::strong_count(&counter), 1);
}

#[test]
fn gc_mark_keeps_the_root_and_clears_marks() {
    let counter = Rc::new(());
    let mut heap: GcHeap<Node> = GcHeap::new();
    let root = heap.allocate(Node::new(&counter));
    let other = heap.allocate(Node::new(&counter));
    heap.mark(&root);
    heap.sweep();
    assert_eq!(heap.len(), 1);
    assert_eq!(Rc::strong_count(&counter), 2);
    assert_eq!(heap.get(&root).links.len(), 0);
    heap.sweep();
    assert!(heap.is_empty());
    let _ = other;
}

#[test]
fn gc_vec_and_handle_trace_their_slots() {
    let mut heap: GcHeap<usize> = GcHeap::new();
    let a = heap.allocate(1);
    let b = heap.allocate(2);
    let handles = vec![a, b];
    assert_eq!(handles.trace(), vec![0, 1]);
    assert_eq!(handles[1].trace(), vec![1]);
    assert!(7usize.trace().is_empty());
}

#[test]
fn gc_replace_reads_back() {
    let mut heap: GcHeap<usize> = GcHeap::new();
    let a = heap.allocate(1);
    let b = heap.allocate(2);
    assert_eq!(heap.replace(&a, 5), 1);
    assert_eq!(*heap.get(&a), 5);
    assert_eq!(*heap.get(&b), 2);
    assert_eq!(heap.len(), 2);
    assert_eq!(heap.dropped_count(), 0);
}

#[test]
fn gc_replace_links_a_cycle_that_sweep_frees() {
    let counter = Rc::new(());
    let mut heap: GcHeap<Node> = GcHeap::new();
    let node1 = heap.allocate(Node::new(&counter));
    let node2 = heap.allocate(Node::new(&counter));
    link(&mut heap, &node1, &node2);
    link(&mut heap, &node2, &node1);
    assert_eq!(heap.get(&node1).links[0].index(), node2.index());
    assert_eq!(heap.get(&node2).links[0].index(), node1.index());
    assert_eq!(Rc::strong_count(&counter), 3);
    heap.release(node1);
    heap.release(node2);
    assert_eq!(heap.dropped_count(), 0);
    heap.sweep();
    assert!(heap.is_empty());
    assert_eq!(Rc::strong_count(&counter), 1);
}
