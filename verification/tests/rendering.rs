use calltree::config::Config;
use calltree::profile::stack_trace::format_stack_trace;
use calltree::profile::tree::{CallStackTree, TreeArena};
use calltree::text::{duration_to_display, i64_to_dec, u128_to_dec, u64_to_dec, u64_to_fixed_dec};
use calltree::thread::{Thread, ThreadId};

fn thread(id: u64, name: &str) -> Thread {
    Thread {
        id: ThreadId { native_id: id },
        name: name.to_string(),
        priority: 5,
        is_daemon: false,
    }
}

#[test]
fn decimal_rendering() {
    assert_eq!(u64_to_dec(0), "0");
    assert_eq!(u64_to_dec(7), "7");
    assert_eq!(u64_to_dec(1234567890), "1234567890");
    assert_eq!(u64_to_dec(u64::MAX), "18446744073709551615");
    assert_eq!(u128_to_dec(340282366920938463463374607431768211455), "340282366920938463463374607431768211455");
    assert_eq!(i64_to_dec(-42), "-42");
    assert_eq!(i64_to_dec(0), "0");
    assert_eq!(i64_to_dec(i64::MIN), "-9223372036854775808");
    assert_eq!(u64_to_fixed_dec(7, 6), "000007");
    assert_eq!(u64_to_fixed_dec(123456, 6), "123456");
}

#[test]
fn duration_display_has_six_fraction_digits() {
    assert_eq!(duration_to_display(0), "0.000000");
    assert_eq!(duration_to_display(1500000), "1.500000");
    assert_eq!(duration_to_display(10), "0.000010");
    assert_eq!(duration_to_display(-1), "-0.000001");
    assert_eq!(duration_to_display(-2500000), "-2.500000");
    assert_eq!(duration_to_display(i64::MIN), "-9223372036854.775808");
}

#[test]
fn tree_renders_indented_and_compact() {
    let mut tree = CallStackTree::new(1, "main");
    tree.begin_call(&"X".to_string(), &"f".to_string());
    tree.begin_call(&"X".to_string(), &"g".to_string());
    tree.end_call(&"X".to_string(), &"g".to_string(), 250);
    tree.end_call(&"X".to_string(), &"f".to_string(), 1000);
    assert_eq!(
        tree.format_call_tree(false),
        "main[calls=0, duration=0.001000]\n\
         \x20\x20X.f[calls=1, duration=0.001000]\n\
         \x20\x20\x20\x20X.g[calls=1, duration=0.000250]\n"
    );
    assert_eq!(
        tree.format_call_tree(true),
        "0,main[calls=0, duration=0.001000]\n\
         1,X.f[calls=1, duration=0.001000]\n\
         2,X.g[calls=1, duration=0.000250]\n"
    );
}

#[test]
fn root_duration_sums_direct_children_only() {
    let mut tree = CallStackTree::new(1, "main");
    tree.begin_call(&"A".to_string(), &"a".to_string());
    tree.end_call(&"A".to_string(), &"a".to_string(), 300);
    tree.begin_call(&"B".to_string(), &"b".to_string());
    tree.end_call(&"B".to_string(), &"b".to_string(), 700);
    let text = tree.format_call_tree(false);
    assert!(text.starts_with("main[calls=0, duration=0.001000]\n"));
}

#[test]
fn arena_reports_a_missing_tree() {
    let mut arena = TreeArena::new();
    let t = thread(1, "main");
    assert_eq!(arena.format_call_tree(&t, false), "[call tree not found]");
    arena.begin_call(&t, &"X".to_string(), &"f".to_string());
    let text = arena.format_call_tree(&t, false);
    assert!(text.starts_with("main[calls=0, duration="));
}

#[test]
fn arena_format_all_emits_one_block_per_thread() {
    let mut arena = TreeArena::new();
    let t = thread(3, "main");
    arena.begin_call(&t, &"X".to_string(), &"f".to_string());
    arena.end_call(&t, &"X".to_string(), &"f".to_string(), 10);
    assert_eq!(
        arena.format_all(),
        "call tree of thread: [3]\n\
         main[calls=0, duration=0.000010]\n\
         \x20\x20X.f[calls=1, duration=0.000010]\n\n"
    );
}

#[test]
fn rendering_is_idempotent_without_mutation() {
    let mut tree = CallStackTree::new(1, "main");
    tree.begin_call(&"X".to_string(), &"f".to_string());
    tree.end_call(&"X".to_string(), &"f".to_string(), 10);
    assert_eq!(tree.format_call_tree(false), tree.format_call_tree(false));
    assert_eq!(tree.format_call_tree(true), tree.format_call_tree(true));
}

#[test]
fn stack_trace_block_for_a_known_thread() {
    let t = thread(4, "worker");
    let frames = vec![("Cls".to_string(), "m".to_string()), ("Cls".to_string(), "n".to_string())];
    let text = format_stack_trace(
        1,
        &"0x1234".to_string(),
        &"RUNNABLE".to_string(),
        Some(2500000),
        &None,
        Some(&t),
        &frames,
    );
    assert_eq!(
        text,
        "\nstack_info: 1, thread: 0x1234, state: RUNNABLE\n\
         Thread worker: (id = 4, priority = 5, daemon = false, state = RUNNABLE, cpu_time = 2.500000) \n\
         Cls.m()\nCls.n()\n"
    );
}

#[test]
fn stack_trace_block_for_an_unknown_thread() {
    let text = format_stack_trace(
        2,
        &"0xdead".to_string(),
        &"BLOCKED".to_string(),
        None,
        &Some("NotAvailable".to_string()),
        None,
        &vec![],
    );
    assert_eq!(
        text,
        "\nstack_info: 2, thread: 0xdead, state: BLOCKED\n\
         get_thread_cpu_time error: NotAvailable\n\
         Thread UNKNOWN [0xdead]: (cpu_time = -1) \n"
    );
}

#[test]
fn entry_points_decide_recording() {
    let config = Config::new(vec!["X.f".to_string(), "Y.g".to_string()]);
    assert!(config.is_entry_point(&"X.f".to_string()));
    assert!(config.is_entry_point(&"Y.g".to_string()));
    assert!(!config.is_entry_point(&"X.g".to_string()));
    let empty = Config::new(vec![]);
    assert!(!empty.is_entry_point(&"X.f".to_string()));
}
