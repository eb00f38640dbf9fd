use calltree::trace::tree::{ThreadData, TreeArena, TreeNode};
use calltree::thread::{Thread, ThreadId};

fn thread(id: u64, name: &str) -> Thread {
    Thread {
        id: ThreadId { native_id: id },
        name: name.to_string(),
        priority: 5,
        is_daemon: false,
    }
}

#[test]
fn trace_key_includes_the_package_when_present() {
    let key = TreeNode::get_node_key(&"pkg".to_string(), &"Cls".to_string(), &"m".to_string());
    assert_eq!(key, "pkg.Cls.m");
    let bare = TreeNode::get_node_key(&String::new(), &"Cls".to_string(), &"m".to_string());
    assert_eq!(bare, "Cls.m");
}

#[test]
fn trace_nodes_record_their_call_path() {
    let mut data = ThreadData::new(&"main".to_string());
    data.begin_call(&"pkg".to_string(), &"Cls".to_string(), &"m".to_string());
    data.begin_call(&"pkg".to_string(), &"Cls".to_string(), &"n".to_string());
    let top = data.get_top_node();
    assert_eq!(top.data.name, "pkg.Cls.n");
    assert_eq!(top.data.path, "main;pkg.Cls.m;pkg.Cls.n");
    assert_eq!(top.data.depth, 2);
}

#[test]
fn trace_paired_calls_pop_back_to_the_root() {
    let mut data = ThreadData::new(&"main".to_string());
    data.begin_call(&"p".to_string(), &"C".to_string(), &"f".to_string());
    data.end_call(&"p".to_string(), &"C".to_string(), &"f".to_string(), 40);
    let top = data.get_top_node();
    assert_eq!(top.data.depth, 0);
    let root = data.get_top_node();
    let f = data.get_node(&root.children[0].1);
    assert_eq!(f.data.call_count, 1);
    assert_eq!(f.data.call_duration, 40);
}

#[test]
fn trace_mismatched_end_is_ignored() {
    let mut data = ThreadData::new(&"main".to_string());
    data.begin_call(&"p".to_string(), &"C".to_string(), &"f".to_string());
    data.end_call(&"p".to_string(), &"C".to_string(), &"g".to_string(), 40);
    let top = data.get_top_node();
    assert_eq!(top.data.name, "p.C.f");
    assert_eq!(top.data.call_count, 0);
    assert_eq!(top.data.call_duration, 0);
}

#[test]
fn trace_render_shows_raw_durations() {
    let mut data = ThreadData::new(&"main".to_string());
    data.begin_call(&"p".to_string(), &"C".to_string(), &"f".to_string());
    data.end_call(&"p".to_string(), &"C".to_string(), &"f".to_string(), 1234);
    assert_eq!(
        data.format_call_tree(),
        "main[calls=0, duration=1234]\n\
         \x20\x20p.C.f[calls=1, duration=1234]\n"
    );
}

#[test]
fn trace_arena_tracks_threads_independently() {
    let mut arena = TreeArena::new();
    let t1 = thread(1, "one");
    let t2 = thread(2, "two");
    arena.begin_call(&t1, &"p".to_string(), &"C".to_string(), &"f".to_string());
    arena.begin_call(&t2, &"p".to_string(), &"C".to_string(), &"g".to_string());
    arena.end_call(&t1, &"p".to_string(), &"C".to_string(), &"f".to_string(), 7);
    assert_eq!(
        arena.format_call_tree(&t1),
        "one[calls=0, duration=7]\n\
         \x20\x20p.C.f[calls=1, duration=7]\n"
    );
    assert_eq!(
        arena.format_all(),
        "call tree of thread: [1]\n\
         one[calls=0, duration=7]\n\
         \x20\x20p.C.f[calls=1, duration=7]\n\n\
         call tree of thread: [2]\n\
         two[calls=0, duration=0]\n\
         \x20\x20p.C.g[calls=0, duration=0]\n\n"
    );
}

#[test]
fn trace_arena_reports_a_missing_tree() {
    let arena = TreeArena::new();
    let t = thread(9, "ghost");
    assert_eq!(arena.format_call_tree(&t), "[call tree not found]");
}

#[test]
fn trace_arena_clear_discards_everything() {
    let mut arena = TreeArena::new();
    let t = thread(1, "one");
    arena.begin_call(&t, &"p".to_string(), &"C".to_string(), &"f".to_string());
    arena.clear();
    assert_eq!(arena.format_call_tree(&t), "[call tree not found]");
    assert_eq!(arena.format_all(), "");
}

#[test]
fn trace_negative_durations_accumulate() {
    // the caller accounts in whatever unit (and sign convention) its
    // time source uses; the tree just adds
    let mut data = ThreadData::new(&"main".to_string());
    data.begin_call(&"p".to_string(), &"C".to_string(), &"f".to_string());
    data.end_call(&"p".to_string(), &"C".to_string(), &"f".to_string(), -5);
    let root = data.get_top_node();
    let f = data.get_node(&root.children[0].1);
    assert_eq!(f.data.call_duration, -5);
    assert!(data.format_call_tree().contains("duration=-5"));
}
