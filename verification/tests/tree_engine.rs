use calltree::profile::tree::{CallKey, CallStackTree, TreeArena, TreeNode};
use calltree::thread::{Thread, ThreadId};

fn thread(id: u64, name: &str) -> Thread {
    Thread {
        id: ThreadId { native_id: id },
        name: name.to_string(),
        priority: 5,
        is_daemon: false,
    }
}

#[test]
fn fresh_tree_has_only_the_root() {
    let tree = CallStackTree::new(7, "worker");
    let root = tree.get_root_node();
    assert_eq!(root.data.name, "worker");
    assert_eq!(root.data.depth, 0);
    assert_eq!(root.data.call_count, 0);
    assert_eq!(root.data.call_duration, 0);
    assert_eq!(root.data.children_size, 0);
    assert_eq!(tree.get_total_duration(), 0);
    assert_eq!(tree.get_thread_id(), 7);
}

#[test]
fn well_paired_calls_return_cursor_to_root() {
    // Two nested calls, closed in order: the cursor walks back to the
    // root and each close is counted at its own node.
    let mut tree = CallStackTree::new(1, "main");
    tree.begin_call(&"X".to_string(), &"f".to_string());
    tree.begin_call(&"X".to_string(), &"g".to_string());
    assert_eq!(tree.get_top_node().data.name, "X.g");
    assert_eq!(tree.get_top_node().data.depth, 2);
    tree.end_call(&"X".to_string(), &"g".to_string(), 5);
    assert_eq!(tree.get_top_node().data.name, "X.f");
    tree.end_call(&"X".to_string(), &"f".to_string(), 7);
    assert_eq!(tree.get_top_node().data.depth, 0);
    assert_eq!(tree.get_top_node().data.name, "main");

    let root = tree.get_root_node();
    assert_eq!(root.data.children_size, 1);
    let f_id = root.children[0].1;
    let f = tree.get_node(&f_id);
    assert_eq!(f.data.name, "X.f");
    assert_eq!(f.data.call_count, 1);
    assert_eq!(f.data.call_duration, 7);
    let g_id = f.children[0].1;
    let g = tree.get_node(&g_id);
    assert_eq!(g.data.name, "X.g");
    assert_eq!(g.data.call_count, 1);
    assert_eq!(g.data.call_duration, 5);
}

#[test]
fn repeated_begin_reuses_the_same_child() {
    let mut tree = CallStackTree::new(1, "main");
    tree.begin_call(&"X".to_string(), &"f".to_string());
    tree.end_call(&"X".to_string(), &"f".to_string(), 1);
    tree.begin_call(&"X".to_string(), &"f".to_string());
    tree.end_call(&"X".to_string(), &"f".to_string(), 2);
    let root = tree.get_root_node();
    assert_eq!(root.data.children_size, 1);
    let f = tree.get_node(&root.children[0].1);
    assert_eq!(f.data.call_count, 2);
    assert_eq!(f.data.call_duration, 3);
}

#[test]
fn mismatched_end_call_changes_nothing() {
    // An exit naming a different method than the open call is a
    // protocol violation: the cursor stays put and the duration is
    // dropped.
    let mut tree = CallStackTree::new(1, "main");
    tree.begin_call(&"X".to_string(), &"f".to_string());
    tree.begin_call(&"X".to_string(), &"g".to_string());
    tree.end_call(&"X".to_string(), &"h".to_string(), 10);
    let top = tree.get_top_node();
    assert_eq!(top.data.name, "X.g");
    assert_eq!(top.data.call_count, 0);
    assert_eq!(top.data.call_duration, 0);
    let root = tree.get_root_node();
    let f = tree.get_node(&root.children[0].1);
    assert_eq!(f.data.call_duration, 0);
}

#[test]
fn end_call_at_root_keeps_cursor_at_root() {
    // A matching exit while no call is open still cannot pop past the
    // root: the cursor stays there.
    let mut tree = CallStackTree::new(1, "main");
    tree.end_call(&"X".to_string(), &"f".to_string(), 10);
    assert_eq!(tree.get_top_node().data.depth, 0);
}

#[test]
fn sample_walk_builds_path_and_defers_names() {
    // Frames arrive innermost first; the walk descends outermost
    // first, keys fresh nodes by their raw handles and reports them
    // for later naming.
    let mut tree = CallStackTree::new(1, "main");
    let frames = vec![22u64, 11u64]; // innermost 22, outermost 11
    let naming = tree.merge_stack_sample(&frames);
    assert_eq!(naming.len(), 2);
    assert_eq!(naming[0].1, 11);
    assert_eq!(naming[1].1, 22);
    let root = tree.get_root_node();
    assert_eq!(root.data.children_size, 1);
    match &root.children[0].0 {
        CallKey::Handle(h) => assert_eq!(*h, 11),
        CallKey::Name(_) => panic!("outer frame should be keyed by its handle"),
    }
    let outer = tree.get_node(&root.children[0].1);
    assert_eq!(outer.data.name, "11");
    assert_eq!(outer.data.depth, 1);
    let inner = tree.get_node(&outer.children[0].1);
    assert_eq!(inner.data.name, "22");
    assert_eq!(inner.data.depth, 2);
}

#[test]
fn first_reading_is_not_credited() {
    let mut tree = CallStackTree::new(1, "main");
    let frames = vec![22u64, 11u64];
    tree.merge_stack_sample(&frames);
    tree.end_last_call(1000);
    assert_eq!(tree.get_total_duration(), 1000);
    let top = tree.get_top_node();
    assert_eq!(top.data.name, "22");
    assert_eq!(top.data.call_count, 1);
    assert_eq!(top.data.call_duration, 0);
}

#[test]
fn second_reading_credits_the_delta_to_the_leaf() {
    let mut tree = CallStackTree::new(1, "main");
    let frames = vec![22u64, 11u64];
    tree.merge_stack_sample(&frames);
    tree.end_last_call(1000);
    tree.reset_top_call_stack_node();
    let naming = tree.merge_stack_sample(&frames);
    assert_eq!(naming.len(), 0, "an identical sample must reuse the path");
    tree.end_last_call(1500);
    assert_eq!(tree.get_total_duration(), 1500);
    let top = tree.get_top_node();
    assert_eq!(top.data.call_count, 2);
    assert_eq!(top.data.call_duration, 500);
    // no duplicate children anywhere
    assert_eq!(tree.get_root_node().data.children_size, 1);
    let outer = tree.get_node(&tree.get_root_node().children[0].1);
    assert_eq!(outer.data.children_size, 1);
}

#[test]
fn monotone_readings_sum_to_last_minus_first() {
    // Over a run of samples with growing readings, the durations
    // accumulated across the tree add up to the span between the
    // first credited reading and the last one.
    let mut tree = CallStackTree::new(1, "main");
    let frames = vec![22u64, 11u64];
    let readings = [100i64, 250, 400, 1000];
    for r in readings {
        tree.reset_top_call_stack_node();
        tree.merge_stack_sample(&frames);
        tree.end_last_call(r);
    }
    assert_eq!(tree.get_total_duration(), 1000);
    let root = tree.get_root_node();
    let outer = tree.get_node(&root.children[0].1);
    let inner = tree.get_node(&outer.children[0].1);
    let sum = root.data.call_duration + outer.data.call_duration + inner.data.call_duration;
    assert_eq!(sum, 1000 - 100);
}

#[test]
fn divergent_sample_adds_a_sibling_branch() {
    let mut tree = CallStackTree::new(1, "main");
    tree.merge_stack_sample(&vec![22u64, 11u64]);
    tree.end_last_call(100);
    tree.reset_top_call_stack_node();
    let naming = tree.merge_stack_sample(&vec![33u64, 11u64]);
    assert_eq!(naming.len(), 1);
    assert_eq!(naming[0].1, 33);
    tree.end_last_call(200);
    let root = tree.get_root_node();
    assert_eq!(root.data.children_size, 1);
    let outer = tree.get_node(&root.children[0].1);
    assert_eq!(outer.data.children_size, 2);
}

#[test]
fn set_node_name_resolves_a_placeholder() {
    let mut tree = CallStackTree::new(1, "main");
    let naming = tree.merge_stack_sample(&vec![11u64]);
    tree.set_node_name(&naming[0].0, "Cls.m()".to_string());
    let node = tree.get_node(&naming[0].0);
    assert_eq!(node.data.name, "Cls.m()");
    // the child stays keyed by its handle, so a later identical
    // sample still finds it without resolving again
    tree.reset_top_call_stack_node();
    let again = tree.merge_stack_sample(&vec![11u64]);
    assert_eq!(again.len(), 0);
}

#[test]
fn node_key_is_class_dot_method() {
    let key = TreeNode::get_node_key(&"pkg.Cls".to_string(), &"run".to_string());
    assert_eq!(key, "pkg.Cls.run");
}

#[test]
fn arena_creates_one_tree_per_thread() {
    let mut arena = TreeArena::new();
    let t1 = thread(1, "one");
    let t2 = thread(2, "two");
    arena.begin_call(&t1, &"X".to_string(), &"f".to_string());
    arena.begin_call(&t2, &"X".to_string(), &"f".to_string());
    arena.begin_call(&t1, &"X".to_string(), &"g".to_string());
    assert_eq!(arena.get_all_call_trees().len(), 2);
    let tree1 = arena.get_call_tree(&t1);
    assert_eq!(tree1.get_top_node().data.name, "X.g");
    assert_eq!(tree1.get_thread_id(), 1);
}

#[test]
fn arena_end_call_for_unknown_thread_does_nothing() {
    let mut arena = TreeArena::new();
    let t1 = thread(1, "one");
    arena.end_call(&t1, &"X".to_string(), &"f".to_string(), 10);
    assert_eq!(arena.get_all_call_trees().len(), 0);
}

#[test]
fn arena_clear_discards_all_trees() {
    let mut arena = TreeArena::new();
    let t1 = thread(1, "one");
    arena.begin_call(&t1, &"X".to_string(), &"f".to_string());
    arena.clear();
    assert_eq!(arena.get_all_call_trees().len(), 0);
    assert!(arena.get(1).is_none());
}

#[test]
fn arena_get_is_non_creating() {
    let mut arena = TreeArena::new();
    assert!(arena.get(1).is_none());
    let t1 = thread(1, "one");
    arena.get_call_tree(&t1);
    assert!(arena.get(1).is_some());
    assert_eq!(arena.get_all_call_trees().len(), 1);
}
