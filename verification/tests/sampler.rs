use calltree::class::ClassSignature;
use calltree::method::MethodSignature;
use calltree::profile::sample::Sampler;
use calltree::thread::{Thread, ThreadId};

fn thread(id: u64, name: &str) -> Thread {
    Thread {
        id: ThreadId { native_id: id },
        name: name.to_string(),
        priority: 5,
        is_daemon: false,
    }
}

fn resolution(class: &str, method: &str) -> Option<(MethodSignature, ClassSignature)> {
    Some((
        MethodSignature::new(method.to_string(), "()V".to_string(), String::new()),
        ClassSignature::new(class.to_string()),
    ))
}

#[test]
fn sampler_starts_disabled() {
    let mut sampler = Sampler::new();
    assert!(!sampler.is_enable());
    sampler.set_enable(true);
    assert!(sampler.is_enable());
    sampler.set_enable(false);
    assert!(!sampler.is_enable());
}

#[test]
fn zero_reading_is_skipped_outright() {
    let mut sampler = Sampler::new();
    let t = thread(1, "main");
    let naming = sampler.add_stack_trace(&t, 0, &vec![11u64]);
    assert!(naming.is_empty());
    // no tree was created: nothing to render
    assert_eq!(sampler.format_all_call_trees(false), "");
}

#[test]
fn non_advancing_reading_changes_no_numbers() {
    let mut sampler = Sampler::new();
    let t = thread(1, "main");
    sampler.add_stack_trace(&t, 1000, &vec![11u64]);
    let before = sampler.format_all_call_trees(false);
    let naming = sampler.add_stack_trace(&t, 1000, &vec![11u64, 22u64]);
    assert!(naming.is_empty());
    assert_eq!(sampler.format_all_call_trees(false), before);
}

#[test]
fn backward_reading_changes_no_numbers() {
    // the raw counter never goes backward; a reading that would
    // decrease the total is treated as degenerate and skipped
    let mut sampler = Sampler::new();
    let t = thread(1, "main");
    sampler.add_stack_trace(&t, 1000, &vec![11u64]);
    let before = sampler.format_all_call_trees(false);
    let naming = sampler.add_stack_trace(&t, 400, &vec![11u64, 22u64]);
    assert!(naming.is_empty());
    assert_eq!(sampler.format_all_call_trees(false), before);
}

#[test]
fn three_samples_build_and_credit_one_path() {
    // A skipped degenerate sample, a first (uncredited) reading, then
    // an advancing one crediting the leaf.
    let mut sampler = Sampler::new();
    let t = thread(1, "main");
    let frames = vec![22u64, 11u64]; // innermost 22

    let naming = sampler.add_stack_trace(&t, 0, &vec![]);
    assert!(naming.is_empty());
    assert_eq!(sampler.format_all_call_trees(false), "");

    let naming = sampler.add_stack_trace(&t, 1000, &frames);
    assert_eq!(naming.len(), 2);

    let naming = sampler.add_stack_trace(&t, 1500, &frames);
    assert!(naming.is_empty());

    let text = sampler.format_all_call_trees(false);
    assert_eq!(
        text,
        "Thread: 1, main, 0.001500\n\
         main[calls=0, duration=0.000000]\n\
         \x20\x2011[calls=0, duration=0.000000]\n\
         \x20\x20\x20\x2022[calls=2, duration=0.000500]\n\n"
    );
}

#[test]
fn failed_resolution_keeps_the_placeholder() {
    let mut sampler = Sampler::new();
    let t = thread(1, "main");
    let naming = sampler.add_stack_trace(&t, 1000, &vec![11u64]);
    assert_eq!(naming.len(), 1);
    assert!(sampler.needs_resolution(11));
    // the collaborator failed: nothing is memoized, the node keeps its
    // handle-derived name
    sampler.apply_resolution(&t, &naming[0].0, 11, None);
    assert!(sampler.needs_resolution(11));
    let text = sampler.format_all_call_trees(false);
    assert!(text.contains("  11[calls=1"));
}

#[test]
fn resolution_is_memoized_once() {
    let mut sampler = Sampler::new();
    let t = thread(1, "main");
    let naming = sampler.add_stack_trace(&t, 1000, &vec![11u64]);
    sampler.apply_resolution(&t, &naming[0].0, 11, None);

    // a later sample puts the same handle at a new tree position; the
    // now-succeeding resolver is consulted once and memoized
    let naming = sampler.add_stack_trace(&t, 1500, &vec![11u64, 33u64]);
    assert_eq!(naming.len(), 2);
    let (inner_node, inner_handle) = (naming[1].0, naming[1].1);
    assert_eq!(inner_handle, 11);
    assert!(sampler.needs_resolution(11));
    sampler.apply_resolution(&t, &inner_node, 11, resolution("Cls", "m"));
    assert!(!sampler.needs_resolution(11));
    // subsequent occurrences of the handle resolve from the cache,
    // with no fetched resolution needed
    sampler.apply_resolution(&t, &naming[0].0, naming[0].1, None);
    let text = sampler.format_all_call_trees(false);
    assert!(text.contains("Cls.m()[calls="));
}

#[test]
fn cached_resolution_wins_over_a_fetched_one() {
    let mut sampler = Sampler::new();
    let t = thread(1, "main");
    let naming = sampler.add_stack_trace(&t, 1000, &vec![11u64]);
    sampler.apply_resolution(&t, &naming[0].0, 11, resolution("First", "m"));
    let naming = sampler.add_stack_trace(&t, 1500, &vec![11u64, 33u64]);
    sampler.apply_resolution(&t, &naming[1].0, 11, resolution("Second", "m"));
    let text = sampler.format_all_call_trees(false);
    assert!(text.contains("First.m()"));
    assert!(!text.contains("Second.m()"));
}

#[test]
fn sample_fits_accepts_ordinary_samples() {
    let mut sampler = Sampler::new();
    let t = thread(1, "main");
    assert!(sampler.sample_fits(&t, 1000, &vec![11u64, 22u64]));
    sampler.add_stack_trace(&t, 1000, &vec![11u64, 22u64]);
    assert!(sampler.sample_fits(&t, 2000, &vec![11u64, 22u64]));
}

#[test]
fn compact_mode_renders_depth_as_a_number() {
    let mut sampler = Sampler::new();
    let t = thread(1, "main");
    sampler.add_stack_trace(&t, 1000, &vec![11u64]);
    let text = sampler.format_all_call_trees(true);
    assert_eq!(
        text,
        "Thread: 1, main, 0.001000\n\
         0,main[calls=0, duration=0.000000]\n\
         1,11[calls=1, duration=0.000000]\n\n"
    );
}

#[test]
fn rendering_twice_yields_identical_text() {
    let mut sampler = Sampler::new();
    let t = thread(1, "main");
    sampler.add_stack_trace(&t, 1000, &vec![11u64, 22u64]);
    sampler.add_stack_trace(&t, 1800, &vec![11u64, 22u64]);
    let first = sampler.format_all_call_trees(false);
    let second = sampler.format_all_call_trees(false);
    assert_eq!(first, second);
    let c1 = sampler.format_all_call_trees(true);
    let c2 = sampler.format_all_call_trees(true);
    assert_eq!(c1, c2);
}

#[test]
fn thread_callbacks_are_inert() {
    let mut sampler = Sampler::new();
    sampler.on_thread_start(ThreadId { native_id: 9 });
    sampler.on_thread_end(&ThreadId { native_id: 9 });
    assert_eq!(sampler.format_all_call_trees(false), "");
}
