//! The engine's global guarantees, stated and proved over the tree
//! views: what sequences of samples do to the accounting, how repeated
//! samples reuse structure, and what the event-driven stack discipline
//! guarantees.

use vstd::prelude::*;
use crate::profile::sample::sample_step_v;
use crate::profile::tree::{
    arena_find, begin_handle_v, begin_with_key_v, end_call_v, end_last_call_v, find_child_from,
    find_child_v, lemma_begin_props, lemma_begin_wf, lemma_end_last_call_wf, lemma_walk_props,
    new_tree_v, node_wf, tree_wf, walk_v, KeyV, NodeV, TreeV,
};

verus! {

// ---------------------------------------------------------------------
// Sums over the arena
// ---------------------------------------------------------------------
/// The sum of `call_duration` over the nodes from position `k` on.
pub open spec fn sum_dur_from(nodes: Seq<NodeV>, k: int) -> int
    decreases nodes.len() - k,
{
    if k < 0 || k >= nodes.len() {
        0
    } else {
        nodes[k].duration + sum_dur_from(nodes, k + 1)
    }
}

/// The sum of `call_duration` over all nodes of a tree.
pub open spec fn sum_durations(t: TreeV) -> int {
    sum_dur_from(t.nodes, 0)
}

/// The sum of `call_count` over the nodes from position `k` on.
pub open spec fn sum_count_from(nodes: Seq<NodeV>, k: int) -> int
    decreases nodes.len() - k,
{
    if k < 0 || k >= nodes.len() {
        0
    } else {
        nodes[k].count + sum_count_from(nodes, k + 1)
    }
}

/// The sum of `call_count` over all nodes of a tree.
pub open spec fn total_count(t: TreeV) -> int {
    sum_count_from(t.nodes, 0)
}

proof fn lemma_sum_dur_update(nodes: Seq<NodeV>, i: int, n2: NodeV, k: int)
    requires
        0 <= i < nodes.len(),
        0 <= k <= nodes.len(),
    ensures
        sum_dur_from(nodes.update(i, n2), k) == sum_dur_from(nodes, k) + if k <= i {
            n2.duration - nodes[i].duration
        } else {
            0
        },
    decreases nodes.len() - k,
{
    if k < nodes.len() {
        lemma_sum_dur_update(nodes, i, n2, k + 1);
    }
}

proof fn lemma_sum_dur_push(nodes: Seq<NodeV>, n2: NodeV, k: int)
    requires
        0 <= k <= nodes.len(),
    ensures
        sum_dur_from(nodes.push(n2), k) == sum_dur_from(nodes, k) + n2.duration,
    decreases nodes.len() - k,
{
    if k < nodes.len() {
        lemma_sum_dur_push(nodes, n2, k + 1);
    } else {
        assert(sum_dur_from(nodes.push(n2), k + 1) == 0);
    }
}

proof fn lemma_sum_count_update(nodes: Seq<NodeV>, i: int, n2: NodeV, k: int)
    requires
        0 <= i < nodes.len(),
        0 <= k <= nodes.len(),
    ensures
        sum_count_from(nodes.update(i, n2), k) == sum_count_from(nodes, k) + if k <= i {
            n2.count - nodes[i].count
        } else {
            0
        },
    decreases nodes.len() - k,
{
    if k < nodes.len() {
        lemma_sum_count_update(nodes, i, n2, k + 1);
    }
}

proof fn lemma_sum_count_push(nodes: Seq<NodeV>, n2: NodeV, k: int)
    requires
        0 <= k <= nodes.len(),
    ensures
        sum_count_from(nodes.push(n2), k) == sum_count_from(nodes, k) + n2.count,
    decreases nodes.len() - k,
{
    if k < nodes.len() {
        lemma_sum_count_push(nodes, n2, k + 1);
    } else {
        assert(sum_count_from(nodes.push(n2), k + 1) == 0);
    }
}

/// A single descent changes no duration: the duration sum is preserved.
proof fn lemma_begin_sum_dur(t: TreeV, key: KeyV, name: Seq<char>)
    requires
        tree_wf(t),
    ensures
        sum_durations(begin_with_key_v(t, key, name)) == sum_durations(t),
        total_count(begin_with_key_v(t, key, name)) == total_count(t),
{
    let t2 = begin_with_key_v(t, key, name);
    match find_child_v(t, t.top, key) {
        Some(c) => {},
        None => {
            let parent0 = t.nodes[t.top];
            let parent1 = NodeV {
                children: parent0.children.push((key, t.nodes.len() as int)),
                children_size: parent0.children_size + 1,
                ..parent0
            };
            let child = t2.nodes[t.nodes.len() as int];
            lemma_sum_dur_update(t.nodes, t.top, parent1, 0);
            lemma_sum_dur_push(t.nodes.update(t.top, parent1), child, 0);
            lemma_sum_count_update(t.nodes, t.top, parent1, 0);
            lemma_sum_count_push(t.nodes.update(t.top, parent1), child, 0);
        },
    }
}

/// A whole frame walk changes no duration and no count.
proof fn lemma_walk_sum_dur(t: TreeV, rs: Seq<u64>)
    requires
        tree_wf(t),
    ensures
        sum_durations(walk_v(t, rs)) == sum_durations(t),
        total_count(walk_v(t, rs)) == total_count(t),
    decreases rs.len(),
{
    if rs.len() > 0 {
        lemma_begin_sum_dur(t, KeyV::Handle(rs[0]), crate::text::dec_digits(rs[0] as nat));
        lemma_begin_wf(t, KeyV::Handle(rs[0]), crate::text::dec_digits(rs[0] as nat));
        lemma_walk_sum_dur(begin_handle_v(t, rs[0]), rs.subrange(1, rs.len() as int));
    }
}

/// What closing out a sample does to the accounting sums: the duration
/// sum grows by the credited delta (nothing on the first-ever reading),
/// the count sum by one, and the reading becomes the new total.
proof fn lemma_end_last_sums(t: TreeV, total: int)
    requires
        tree_wf(t),
    ensures
        sum_durations(end_last_call_v(t, total)) == sum_durations(t) + if t.total > 0 {
            total - t.total
        } else {
            0
        },
        total_count(end_last_call_v(t, total)) == total_count(t) + 1,
        end_last_call_v(t, total).total == total,
{
    let top = t.nodes[t.top];
    let credit: int = if t.total > 0 {
        total - t.total
    } else {
        0
    };
    let top1 = NodeV { count: top.count + 1, duration: top.duration + credit, ..top };
    lemma_sum_dur_update(t.nodes, t.top, top1, 0);
    lemma_sum_count_update(t.nodes, t.top, top1, 0);
}

// ---------------------------------------------------------------------
// Sample accounting over whole sample sequences
// ---------------------------------------------------------------------
/// What one sample does to one thread's tree, skip policy included: a
/// zero reading is discarded outright; otherwise the cursor is reset,
/// and a non-advancing reading is discarded; otherwise the frames are
/// walked and the reading accounted.
pub open spec fn tree_sample_v(t: TreeV, cpu: int, frames: Seq<u64>) -> TreeV {
    if cpu == 0 {
        t
    } else {
        let t1 = TreeV { top: t.root, ..t };
        if t1.total >= cpu {
            t1
        } else {
            end_last_call_v(walk_v(t1, frames.reverse()), cpu)
        }
    }
}

/// A run of samples applied in order, oldest first.
pub open spec fn apply_samples_v(t: TreeV, ss: Seq<(int, Seq<u64>)>) -> TreeV
    decreases ss.len(),
{
    if ss.len() == 0 {
        t
    } else {
        apply_samples_v(tree_sample_v(t, ss[0].0, ss[0].1), ss.subrange(1, ss.len() as int))
    }
}

/// Readings that are positive and never decrease, sample to sample.
pub open spec fn readings_monotonic(ss: Seq<(int, Seq<u64>)>) -> bool {
    &&& forall|j: int| 0 <= j < ss.len() ==> (#[trigger] ss[j]).0 > 0
    &&& forall|j: int| 0 <= j < ss.len() - 1 ==> (#[trigger] ss[j]).0 <= ss[j + 1].0
}

/// Resetting the cursor keeps the tree well formed.
proof fn lemma_reset_wf(t: TreeV)
    requires
        tree_wf(t),
    ensures
        tree_wf(TreeV { top: t.root, ..t }),
{
    let t1 = TreeV { top: t.root, ..t };
    assert forall|j: int| 0 <= j < t1.nodes.len() implies #[trigger] node_wf(t1, j) by {
        assert(node_wf(t, j));
    }
}

/// One sample keeps the tree well formed.
proof fn lemma_tree_sample_wf(t: TreeV, cpu: int, frames: Seq<u64>)
    requires
        tree_wf(t),
    ensures
        tree_wf(tree_sample_v(t, cpu, frames)),
{
    if cpu != 0 {
        let t1 = TreeV { top: t.root, ..t };
        lemma_reset_wf(t);
        if t1.total < cpu {
            lemma_walk_props(t1, frames.reverse());
            lemma_end_last_call_wf(walk_v(t1, frames.reverse()), cpu);
        }
    }
}

proof fn lemma_apply_samples_aux(t: TreeV, ss: Seq<(int, Seq<u64>)>)
    requires
        tree_wf(t),
        t.total > 0,
        readings_monotonic(ss),
        ss.len() > 0 ==> t.total <= ss[0].0,
    ensures
        ({
            let tf = apply_samples_v(t, ss);
            &&& tree_wf(tf)
            &&& tf.total == if ss.len() == 0 {
                t.total
            } else {
                ss[ss.len() - 1].0
            }
            &&& sum_durations(tf) == sum_durations(t) + (tf.total - t.total)
        }),
    decreases ss.len(),
{
    if ss.len() > 0 {
        let cpu = ss[0].0;
        let frames = ss[0].1;
        let t2 = tree_sample_v(t, cpu, frames);
        let rest = ss.subrange(1, ss.len() as int);
        lemma_tree_sample_wf(t, cpu, frames);
        let t1 = TreeV { top: t.root, ..t };
        if t1.total >= cpu {
            assert(sum_durations(t2) == sum_durations(t));
        } else {
            lemma_reset_wf(t);
            lemma_walk_props(t1, frames.reverse());
            lemma_walk_sum_dur(t1, frames.reverse());
            lemma_end_last_sums(walk_v(t1, frames.reverse()), cpu);
        }
        assert(t2.total == cpu);
        assert(sum_durations(t2) == sum_durations(t) + (cpu - t.total));
        assert forall|j: int| 0 <= j < rest.len() implies (#[trigger] rest[j]).0 > 0 by {
            assert(rest[j] == ss[j + 1]);
        }
        assert forall|j: int| 0 <= j < rest.len() - 1 implies (#[trigger] rest[j]).0 <= rest[j
            + 1].0 by {
            assert(rest[j] == ss[j + 1]);
            assert(rest[j + 1] == ss[j + 2]);
        }
        if rest.len() > 0 {
            assert(rest[0] == ss[1]);
            assert(ss[0].0 <= ss[1].0);
        }
        lemma_apply_samples_aux(t2, rest);
    }
}

/// For every run of stack samples whose CPU-time readings are positive
/// and monotonically non-decreasing, reconciled into a fresh tree:
/// the tree's `total_duration` ends up equal to the last reading, and
/// the durations accumulated over all nodes add up to the last reading
/// minus the first — the first reading is observed but never credited.
pub proof fn lemma_sample_run_accounting(tid: u64, tname: Seq<char>, ss: Seq<(int, Seq<u64>)>)
    requires
        readings_monotonic(ss),
        ss.len() > 0,
    ensures
        ({
            let tf = apply_samples_v(new_tree_v(tid, tname), ss);
            &&& tree_wf(tf)
            &&& tf.total == ss[ss.len() - 1].0
            &&& sum_durations(tf) == ss[ss.len() - 1].0 - ss[0].0
        }),
{
    let t0 = new_tree_v(tid, tname);
    let cpu = ss[0].0;
    let frames = ss[0].1;
    assert(tree_wf(t0)) by {
        assert(node_wf(t0, 0));
    }
    let t1 = TreeV { top: t0.root, ..t0 };
    assert(t1 =~= t0);
    lemma_tree_sample_wf(t0, cpu, frames);
    let t2 = tree_sample_v(t0, cpu, frames);
    lemma_walk_props(t1, frames.reverse());
    lemma_walk_sum_dur(t1, frames.reverse());
    lemma_end_last_sums(walk_v(t1, frames.reverse()), cpu);
    assert(sum_dur_from(t0.nodes, 1) == 0);
    assert(sum_durations(t0) == 0);
    assert(sum_durations(t2) == 0);
    assert(t2.total == cpu);
    let rest = ss.subrange(1, ss.len() as int);
    assert forall|j: int| 0 <= j < rest.len() implies (#[trigger] rest[j]).0 > 0 by {
        assert(rest[j] == ss[j + 1]);
    }
    assert forall|j: int| 0 <= j < rest.len() - 1 implies (#[trigger] rest[j]).0 <= rest[j + 1].0
        by {
        assert(rest[j] == ss[j + 1]);
        assert(rest[j + 1] == ss[j + 2]);
    }
    if rest.len() > 0 {
        assert(rest[0] == ss[1]);
        assert(ss[0].0 <= ss[1].0);
    }
    lemma_apply_samples_aux(t2, rest);
}

// ---------------------------------------------------------------------
// Repeated identical samples reuse the tree
// ---------------------------------------------------------------------
/// A child registered under `key` is still found after a new entry is
/// appended to the list.
proof fn lemma_find_from_after_push(cs: Seq<(KeyV, int)>, key: KeyV, k: int, e: (KeyV, int))
    requires
        0 <= k,
        find_child_from(cs, key, k) is Some,
    ensures
        find_child_from(cs.push(e), key, k) == find_child_from(cs, key, k),
    decreases cs.len() - k,
{
    if k < cs.len() && cs[k].0 != key {
        lemma_find_from_after_push(cs, key, k + 1, e);
    }
}

/// Appending an entry for a key that is absent makes it found.
proof fn lemma_find_from_push_new(cs: Seq<(KeyV, int)>, key: KeyV, k: int, e: (KeyV, int))
    requires
        0 <= k <= cs.len(),
        find_child_from(cs, key, k) is None,
        e.0 == key,
    ensures
        find_child_from(cs.push(e), key, k) == Some(e.1),
    decreases cs.len() - k,
{
    if k < cs.len() {
        lemma_find_from_push_new(cs, key, k + 1, e);
    }
}

/// A descent never unregisters a child: what was found before a
/// `begin` is found after it.
proof fn lemma_begin_preserves_found(
    t: TreeV,
    key2: KeyV,
    name2: Seq<char>,
    n: int,
    key: KeyV,
    c: int,
)
    requires
        tree_wf(t),
        0 <= n < t.nodes.len(),
        find_child_v(t, n, key) == Some(c),
    ensures
        find_child_v(begin_with_key_v(t, key2, name2), n, key) == Some(c),
{
    match find_child_v(t, t.top, key2) {
        Some(_) => {},
        None => {
            if n == t.top {
                lemma_find_from_after_push(
                    t.nodes[n].children,
                    key,
                    0,
                    (key2, t.nodes.len() as int),
                );
            }
        },
    }
}

/// A whole walk never unregisters a child.
proof fn lemma_walk_preserves_found(t: TreeV, rs: Seq<u64>, n: int, key: KeyV, c: int)
    requires
        tree_wf(t),
        0 <= n < t.nodes.len(),
        find_child_v(t, n, key) == Some(c),
    ensures
        find_child_v(walk_v(t, rs), n, key) == Some(c),
    decreases rs.len(),
{
    if rs.len() > 0 {
        let key2 = KeyV::Handle(rs[0]);
        let name2 = crate::text::dec_digits(rs[0] as nat);
        lemma_begin_preserves_found(t, key2, name2, n, key, c);
        lemma_begin_wf(t, key2, name2);
        lemma_walk_preserves_found(begin_handle_v(t, rs[0]), rs.subrange(1, rs.len() as int), n, key, c);
    }
}

/// The node path that a run of frames descends through exists: from
/// node `n`, each frame in turn is registered as a child.
pub open spec fn path_exists(t: TreeV, n: int, rs: Seq<u64>) -> bool
    decreases rs.len(),
{
    rs.len() == 0 || {
        let f = find_child_v(t, n, KeyV::Handle(rs[0]));
        f is Some && path_exists(t, f->Some_0, rs.subrange(1, rs.len() as int))
    }
}

/// After a walk, the whole walked path exists from the walk's starting
/// cursor.
proof fn lemma_walk_builds_path(t: TreeV, rs: Seq<u64>)
    requires
        tree_wf(t),
    ensures
        path_exists(walk_v(t, rs), t.top, rs),
    decreases rs.len(),
{
    if rs.len() > 0 {
        let key = KeyV::Handle(rs[0]);
        let name = crate::text::dec_digits(rs[0] as nat);
        let t1 = begin_with_key_v(t, key, name);
        let rest = rs.subrange(1, rs.len() as int);
        lemma_begin_wf(t, key, name);
        lemma_walk_builds_path(t1, rest);
        match find_child_v(t, t.top, key) {
            Some(c) => {
                assert(find_child_v(t1, t.top, key) == Some(c));
            },
            None => {
                lemma_find_from_push_new(
                    t.nodes[t.top].children,
                    key,
                    0,
                    (key, t.nodes.len() as int),
                );
                assert(find_child_v(t1, t.top, key) == Some(t.nodes.len() as int));
            },
        }
        lemma_walk_preserves_found(t1, rest, t.top, key, t1.top);
    }
}

/// Whether a path exists depends only on the child lists, so trees
/// with identical child lists agree on it.
proof fn lemma_path_exists_congruence(t1: TreeV, t2: TreeV, n: int, rs: Seq<u64>)
    requires
        tree_wf(t1),
        0 <= n < t1.nodes.len(),
        t2.nodes.len() == t1.nodes.len(),
        forall|i: int|
            0 <= i < t1.nodes.len() ==> (#[trigger] t2.nodes[i]).children == t1.nodes[i].children,
        path_exists(t1, n, rs),
    ensures
        path_exists(t2, n, rs),
    decreases rs.len(),
{
    if rs.len() > 0 {
        let key = KeyV::Handle(rs[0]);
        let c = find_child_v(t1, n, key)->Some_0;
        crate::profile::tree::lemma_find_child_some(t1.nodes[n].children, key, 0, c);
        assert(node_wf(t1, n));
        lemma_path_exists_congruence(t1, t2, c, rs.subrange(1, rs.len() as int));
    }
}

/// A walk along a path that already exists allocates nothing: only the
/// cursor moves.
proof fn lemma_walk_existing(t: TreeV, rs: Seq<u64>)
    requires
        tree_wf(t),
        path_exists(t, t.top, rs),
    ensures
        walk_v(t, rs).nodes == t.nodes,
        walk_v(t, rs).total == t.total,
        walk_v(t, rs).root == t.root,
        walk_v(t, rs).thread_id == t.thread_id,
    decreases rs.len(),
{
    if rs.len() > 0 {
        let key = KeyV::Handle(rs[0]);
        let c = find_child_v(t, t.top, key)->Some_0;
        crate::profile::tree::lemma_find_child_some(t.nodes[t.top].children, key, 0, c);
        assert(node_wf(t, t.top));
        let t1 = TreeV { top: c, ..t };
        assert forall|j: int| 0 <= j < t1.nodes.len() implies #[trigger] node_wf(t1, j) by {
            assert(node_wf(t, j));
        }
        lemma_path_exists_congruence(t, t1, c, rs.subrange(1, rs.len() as int));
        lemma_walk_existing(t1, rs.subrange(1, rs.len() as int));
    }
}

/// Two samples with identical frame sequences reuse the same node
/// path: the repeated sample allocates no node, and no node's child
/// list — so no `children_size` — grows.
pub proof fn lemma_repeated_sample_reuses_path(t: TreeV, rs: Seq<u64>, c1: int, c2: int)
    requires
        tree_wf(t),
        t.top == 0,
    ensures
        ({
            let s1 = end_last_call_v(walk_v(t, rs), c1);
            let s2 = end_last_call_v(walk_v((TreeV { top: 0, ..s1 }), rs), c2);
            &&& s2.nodes.len() == s1.nodes.len()
            &&& forall|i: int|
                0 <= i < s1.nodes.len() ==> (#[trigger] s2.nodes[i]).children_size
                    == s1.nodes[i].children_size && s2.nodes[i].children == s1.nodes[i].children
        }),
{
    let w1 = walk_v(t, rs);
    lemma_walk_props(t, rs);
    lemma_walk_builds_path(t, rs);
    let s1 = end_last_call_v(w1, c1);
    lemma_end_last_call_wf(w1, c1);
    assert forall|i: int|
        0 <= i < w1.nodes.len() implies (#[trigger] s1.nodes[i]).children == w1.nodes[i].children by {}
    lemma_path_exists_congruence(w1, s1, 0, rs);
    let r1 = TreeV { top: 0, ..s1 };
    assert(r1 == (TreeV { top: s1.root, ..s1 }));
    lemma_reset_wf(s1);
    assert(path_exists(r1, 0, rs)) by {
        lemma_path_exists_congruence(s1, r1, 0, rs);
    }
    lemma_walk_existing(r1, rs);
    lemma_walk_props(r1, rs);
    let w2 = walk_v(r1, rs);
    let s2 = end_last_call_v(w2, c2);
    assert forall|i: int|
        0 <= i < s1.nodes.len() implies (#[trigger] s2.nodes[i]).children_size
            == s1.nodes[i].children_size && s2.nodes[i].children == s1.nodes[i].children by {
        assert(0 <= w2.top < w2.nodes.len());
        assert(w2.nodes[i] == s1.nodes[i]);
    }
}

// ---------------------------------------------------------------------
// The event-driven stack discipline
// ---------------------------------------------------------------------
/// One event-driven observation: a method entry with its qualified call
/// name, or a method exit with the name and the measured duration.
pub ghost enum EventV {
    Begin(Seq<char>),
    End(Seq<char>, int),
}

/// What one event does to a tree.
pub open spec fn event_step_v(t: TreeV, e: EventV) -> TreeV {
    match e {
        EventV::Begin(n) => begin_with_key_v(t, KeyV::Name(n), n),
        EventV::End(n, d) => end_call_v(t, n, d),
    }
}

/// A run of events applied in order, oldest first.
pub open spec fn apply_events_v(t: TreeV, es: Seq<EventV>) -> TreeV
    decreases es.len(),
{
    if es.len() == 0 {
        t
    } else {
        apply_events_v(event_step_v(t, es[0]), es.subrange(1, es.len() as int))
    }
}

/// Replaying the events against a stack of open call names: an entry
/// pushes its name, an exit must name the top and pops it.
pub open spec fn replay_v(st: Seq<Seq<char>>, es: Seq<EventV>) -> Option<Seq<Seq<char>>>
    decreases es.len(),
{
    if es.len() == 0 {
        Some(st)
    } else {
        match es[0] {
            EventV::Begin(n) => replay_v(st.push(n), es.subrange(1, es.len() as int)),
            EventV::End(n, d) => if st.len() > 0 && st.last() == n {
                replay_v(st.drop_last(), es.subrange(1, es.len() as int))
            } else {
                None
            },
        }
    }
}

/// Well-paired events: replayed from an empty stack, every exit matches
/// the innermost open entry and the stack ends empty.
pub open spec fn well_paired(es: Seq<EventV>) -> bool {
    replay_v(Seq::empty(), es) == Some(Seq::<Seq<char>>::empty())
}

/// The number of exit events in a run.
pub open spec fn num_ends(es: Seq<EventV>) -> int
    decreases es.len(),
{
    if es.len() == 0 {
        0
    } else {
        (match es[0] {
            EventV::End(n, d) => 1int,
            EventV::Begin(n) => 0int,
        }) + num_ends(es.subrange(1, es.len() as int))
    }
}

/// Name-keyed children display the key they are registered under.
/// Event-driven trees have this by construction; it is what lets an
/// exit event recognize the call it closes.
pub open spec fn names_match_keys(t: TreeV) -> bool {
    forall|i: int, k: int|
        0 <= i < t.nodes.len() && 0 <= k < t.nodes[i].children.len() ==> match (
        #[trigger] t.nodes[i].children[k]).0 {
            KeyV::Name(s) => 0 <= t.nodes[i].children[k].1 < t.nodes.len()
                && t.nodes[t.nodes[i].children[k].1].name == s,
            KeyV::Handle(h) => true,
        }
}

/// A fresh tree agrees trivially: it has no children at all.
pub proof fn lemma_new_tree_agreement(tid: u64, tname: Seq<char>)
    ensures
        names_match_keys(new_tree_v(tid, tname)),
{
}

/// An event-driven descent preserves name-key agreement.
pub proof fn lemma_begin_preserves_agreement(t: TreeV, n: Seq<char>)
    requires
        tree_wf(t),
        names_match_keys(t),
    ensures
        names_match_keys(begin_with_key_v(t, KeyV::Name(n), n)),
{
    let key = KeyV::Name(n);
    let t2 = begin_with_key_v(t, key, n);
    match find_child_v(t, t.top, key) {
        Some(c) => {},
        None => {
            let idx = t.nodes.len() as int;
            assert(node_wf(t, t.top));
            assert forall|i: int, k: int|
                0 <= i < t2.nodes.len() && 0 <= k < t2.nodes[i].children.len() implies match (
                #[trigger] t2.nodes[i].children[k]).0 {
                    KeyV::Name(s) => 0 <= t2.nodes[i].children[k].1 < t2.nodes.len()
                        && t2.nodes[t2.nodes[i].children[k].1].name == s,
                    KeyV::Handle(h) => true,
                } by {
                if i < idx {
                    if i == t.top && k == t.nodes[i].children.len() {
                        assert(t2.nodes[i].children[k] == (key, idx));
                        assert(t2.nodes[idx].name == n);
                    } else {
                        assert(t2.nodes[i].children[k] == t.nodes[i].children[k]);
                        match t.nodes[i].children[k].0 {
                            KeyV::Name(s) => {
                                assert(0 <= t.nodes[i].children[k].1 < t.nodes.len());
                                assert(t2.nodes[t.nodes[i].children[k].1].name == t.nodes[t.nodes[i].children[k].1].name);
                            },
                            KeyV::Handle(h) => {},
                        }
                    }
                } else {
                    assert(t2.nodes[i].children.len() == 0);
                }
            }
        },
    }
}

/// An event-driven exit preserves name-key agreement.
pub proof fn lemma_end_preserves_agreement(t: TreeV, n: Seq<char>, d: int)
    requires
        tree_wf(t),
        names_match_keys(t),
    ensures
        names_match_keys(end_call_v(t, n, d)),
{
    let t2 = end_call_v(t, n, d);
    assert forall|i: int, k: int|
        0 <= i < t2.nodes.len() && 0 <= k < t2.nodes[i].children.len() implies match (
        #[trigger] t2.nodes[i].children[k]).0 {
            KeyV::Name(s) => 0 <= t2.nodes[i].children[k].1 < t2.nodes.len()
                && t2.nodes[t2.nodes[i].children[k].1].name == s,
            KeyV::Handle(h) => true,
        } by {
        assert(t2.nodes[i].children == t.nodes[i].children);
        match t.nodes[i].children[k].0 {
            KeyV::Name(s) => {
                assert(0 <= t.nodes[i].children[k].1 < t.nodes.len());
            },
            KeyV::Handle(h) => {},
        }
    }
}

/// The names along the open-call path: from node `n` upward, the last
/// `st.len()` names on the root path match the replay stack, innermost
/// last.
pub open spec fn stack_ok(nodes: Seq<NodeV>, n: int, st: Seq<Seq<char>>) -> bool
    decreases st.len(),
{
    if st.len() == 0 {
        true
    } else {
        &&& 0 <= n < nodes.len()
        &&& nodes[n].name == st.last()
        &&& nodes[n].parent is Some
        &&& stack_ok(nodes, nodes[n].parent->Some_0, st.drop_last())
    }
}

/// The ancestor of node `n` reached by `k` parent steps.
pub open spec fn anc(nodes: Seq<NodeV>, n: int, k: int) -> int
    decreases k,
{
    if k <= 0 {
        n
    } else {
        anc(
            nodes,
            if 0 <= n < nodes.len() && nodes[n].parent is Some {
                nodes[n].parent->Some_0
            } else {
                n
            },
            k - 1,
        )
    }
}

/// `stack_ok` survives any change that keeps names and parents of the
/// existing nodes.
proof fn lemma_stack_ok_extend(nodes1: Seq<NodeV>, nodes2: Seq<NodeV>, n: int, st: Seq<Seq<char>>)
    requires
        nodes2.len() >= nodes1.len(),
        forall|j: int|
            0 <= j < nodes1.len() ==> (#[trigger] nodes2[j]).name == nodes1[j].name
                && nodes2[j].parent == nodes1[j].parent,
        stack_ok(nodes1, n, st),
    ensures
        stack_ok(nodes2, n, st),
    decreases st.len(),
{
    if st.len() > 0 {
        lemma_stack_ok_extend(nodes1, nodes2, nodes1[n].parent->Some_0, st.drop_last());
    }
}

/// So does the ancestor `st.len()` steps up the open-call path.
proof fn lemma_anc_extend(nodes1: Seq<NodeV>, nodes2: Seq<NodeV>, n: int, st: Seq<Seq<char>>)
    requires
        nodes2.len() >= nodes1.len(),
        forall|j: int|
            0 <= j < nodes1.len() ==> (#[trigger] nodes2[j]).name == nodes1[j].name
                && nodes2[j].parent == nodes1[j].parent,
        stack_ok(nodes1, n, st),
    ensures
        anc(nodes2, n, st.len() as int) == anc(nodes1, n, st.len() as int),
    decreases st.len(),
{
    if st.len() > 0 {
        lemma_anc_extend(nodes1, nodes2, nodes1[n].parent->Some_0, st.drop_last());
    }
}

/// Every exit event in the run names the node the cursor rests on at
/// that moment, with a parent to pop to: no exit is dropped as a
/// protocol violation.
pub open spec fn all_ends_matched(t: TreeV, es: Seq<EventV>) -> bool
    decreases es.len(),
{
    es.len() == 0 || {
        let ok = match es[0] {
            EventV::Begin(n) => true,
            EventV::End(n, d) => t.nodes[t.top].name == n && t.nodes[t.top].parent is Some,
        };
        ok && all_ends_matched(event_step_v(t, es[0]), es.subrange(1, es.len() as int))
    }
}

proof fn lemma_events_aux(t: TreeV, es: Seq<EventV>, st: Seq<Seq<char>>)
    requires
        tree_wf(t),
        names_match_keys(t),
        replay_v(st, es) is Some,
        stack_ok(t.nodes, t.top, st),
    ensures
        ({
            let t2 = apply_events_v(t, es);
            let st2 = replay_v(st, es)->Some_0;
            &&& tree_wf(t2)
            &&& names_match_keys(t2)
            &&& stack_ok(t2.nodes, t2.top, st2)
            &&& anc(t2.nodes, t2.top, st2.len() as int) == anc(t.nodes, t.top, st.len() as int)
            &&& total_count(t2) == total_count(t) + num_ends(es)
            &&& all_ends_matched(t, es)
        }),
    decreases es.len(),
{
    if es.len() > 0 {
        let rest = es.subrange(1, es.len() as int);
        match es[0] {
            EventV::Begin(n) => {
                let key = KeyV::Name(n);
                let t1 = begin_with_key_v(t, key, n);
                let st1 = st.push(n);
                lemma_begin_wf(t, key, n);
                lemma_begin_props(t, key, n);
                lemma_begin_preserves_agreement(t, n);
                lemma_begin_sum_dur(t, key, n);
                assert(st1.drop_last() =~= st);
                assert(st1.last() == n);
                match find_child_v(t, t.top, key) {
                    Some(c) => {
                        crate::profile::tree::lemma_find_child_some(
                            t.nodes[t.top].children,
                            key,
                            0,
                            c,
                        );
                        assert(node_wf(t, t.top));
                        let cs = t.nodes[t.top].children;
                        let j = choose|j: int| 0 <= j < cs.len() && cs[j] == (key, c);
                        assert(cs[j] == (key, c));
                        assert(t.nodes[c].name == n);
                        assert(t.nodes[c].parent == Some(t.top));
                        assert(stack_ok(t1.nodes, t1.top, st1));
                    },
                    None => {
                        let idx = t.nodes.len() as int;
                        assert(node_wf(t, t.top));
                        assert(t1.nodes[idx].name == n);
                        assert(t1.nodes[idx].parent == Some(t.top));
                        lemma_stack_ok_extend(t.nodes, t1.nodes, t.top, st);
                        assert(stack_ok(t1.nodes, t1.top, st1));
                    },
                }
                lemma_anc_extend(t.nodes, t1.nodes, t.top, st);
                assert(anc(t1.nodes, t1.top, st1.len() as int) == anc(
                    t1.nodes,
                    t.top,
                    st.len() as int,
                ));
                lemma_events_aux(t1, rest, st1);
            },
            EventV::End(n, d) => {
                assert(st.len() > 0 && st.last() == n);
                assert(t.nodes[t.top].name == n);
                assert(t.nodes[t.top].parent is Some);
                let p = t.nodes[t.top].parent->Some_0;
                let t1 = end_call_v(t, n, d);
                crate::profile::tree::lemma_end_call_wf(t, n, d);
                lemma_end_preserves_agreement(t, n, d);
                let top0 = t.nodes[t.top];
                let top1 = NodeV {
                    count: top0.count + 1,
                    duration: top0.duration + d,
                    ..top0
                };
                lemma_sum_count_update(t.nodes, t.top, top1, 0);
                assert(total_count(t1) == total_count(t) + 1);
                lemma_stack_ok_extend(t.nodes, t1.nodes, p, st.drop_last());
                assert(stack_ok(t1.nodes, t1.top, st.drop_last()));
                lemma_anc_extend(t.nodes, t1.nodes, p, st.drop_last());
                assert(anc(t.nodes, t.top, st.len() as int) == anc(
                    t.nodes,
                    p,
                    st.len() - 1,
                ));
                lemma_events_aux(t1, rest, st.drop_last());
            },
        }
    }
}

/// For every run of well-paired entry/exit events: the cursor returns
/// to where it started — to the root, when the run starts quiescent —
/// every exit matches the call it closes, and the calls counted across
/// the tree grow by exactly the number of exit events.
pub proof fn lemma_event_stack_discipline(t: TreeV, es: Seq<EventV>)
    requires
        tree_wf(t),
        names_match_keys(t),
        well_paired(es),
    ensures
        ({
            let t2 = apply_events_v(t, es);
            &&& tree_wf(t2)
            &&& t2.top == t.top
            &&& all_ends_matched(t, es)
            &&& total_count(t2) == total_count(t) + num_ends(es)
        }),
{
    lemma_events_aux(t, es, Seq::empty());
}

// ---------------------------------------------------------------------
// Degenerate samples
// ---------------------------------------------------------------------
/// A degenerate sample leaves every tree structurally and numerically
/// unchanged: a zero CPU-time reading changes nothing at all, and a
/// non-advancing (or backward) reading at most parks the cursor back
/// at the root of the thread's tree.
pub proof fn lemma_degenerate_sample_unchanged(
    a: Seq<TreeV>,
    tid: u64,
    tname: Seq<char>,
    cpu: int,
    frames: Seq<u64>,
)
    ensures
        cpu == 0 ==> sample_step_v(a, tid, tname, cpu, frames) == a,
        (cpu != 0 && arena_find(a, tid) is Some && a[arena_find(a, tid)->Some_0].total >= cpu)
            ==> sample_step_v(a, tid, tname, cpu, frames) == a.update(
            arena_find(a, tid)->Some_0,
            (TreeV { top: a[arena_find(a, tid)->Some_0].root, ..a[arena_find(a, tid)->Some_0] }),
        ),
{
}

} // verus!
