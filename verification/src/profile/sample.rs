//! The sampler: reconciles periodic stack snapshots into per-thread call
//! trees and memoizes resolved method names.
//!
//! A snapshot arrives as a thread, one cumulative CPU-time reading and a
//! raw frame list.  Degenerate snapshots (no CPU time, or no progress
//! since the last reading) are skipped.  Fresh tree nodes are keyed by
//! raw method handles and named later: `add_stack_trace` returns the
//! nodes awaiting names, and `apply_resolution` writes a resolved name
//! into such a node, memoizing the resolution so that a handle is
//! resolved at most once.

use vstd::prelude::*;
use vstd::string::StringExecFns;
use crate::class::ClassSignature;
use crate::method::{MethodId, MethodSignature};
use crate::text;
use crate::thread::{Thread, ThreadId};
use crate::profile::tree::{
    arena_find, arena_wf, end_last_call_v, lemma_arena_find_none, lemma_arena_find_push,
    lemma_arena_find_some, lemma_arena_find_update, lemma_end_last_call_wf, lemma_walk_props,
    new_tree_v, node_wf, rename_node_v, render_node_v, sample_fits_v, tree_wf, walk_v,
    CallStackTree, NodeId, TreeArena, TreeV,
};

verus! {

/// One memoized resolution: a raw method handle with the class and
/// method names the collaborator reported for it.
pub struct MethodInfo {
    method_id: MethodId,
    method: MethodSignature,
    class: ClassSignature,
}

/// The mathematical form of a `MethodInfo`.
pub ghost struct MethodInfoV {
    pub handle: u64,
    pub class_name: Seq<char>,
    pub method_name: Seq<char>,
}

impl View for MethodInfo {
    type V = MethodInfoV;

    closed spec fn view(&self) -> MethodInfoV {
        MethodInfoV {
            handle: self.method_id.native_id,
            class_name: self.class.name@,
            method_name: self.method.name@,
        }
    }
}

/// The sampler: the resolution cache and the registry of trees it
/// feeds.
pub struct Sampler {
    method_cache: Vec<MethodInfo>,
    threads: Vec<ThreadId>,
    enabled: bool,
    tree_arena: TreeArena,
}

/// The mathematical form of a `Sampler`.
#[verifier::ext_equal]
pub ghost struct SamplerV {
    pub cache: Seq<MethodInfoV>,
    pub threads: Seq<ThreadId>,
    pub enabled: bool,
    pub arena: Seq<TreeV>,
}

impl View for Sampler {
    type V = SamplerV;

    closed spec fn view(&self) -> SamplerV {
        SamplerV {
            cache: self.method_cache@.map_values(|m: MethodInfo| m@),
            threads: self.threads@,
            enabled: self.enabled,
            arena: self.tree_arena@,
        }
    }
}

/// The first cache position at or after `k` memoizing `handle`.
pub open spec fn cache_find_from(c: Seq<MethodInfoV>, handle: u64, k: int) -> Option<int>
    decreases c.len() - k,
{
    if k < 0 || k >= c.len() {
        None
    } else if c[k].handle == handle {
        Some(k)
    } else {
        cache_find_from(c, handle, k + 1)
    }
}

/// The cache position memoizing `handle`, if any.
pub open spec fn cache_find(c: Seq<MethodInfoV>, handle: u64) -> Option<int> {
    cache_find_from(c, handle, 0)
}

/// The qualified call name a resolution produces: `"Class.method()"`.
pub open spec fn call_name_v(class_name: Seq<char>, method_name: Seq<char>) -> Seq<char> {
    class_name + "."@ + method_name + "()"@
}

/// What reconciling one snapshot does to the registry.  A reading of
/// zero means the thread was never scheduled: the snapshot is skipped
/// outright.  Otherwise the thread's tree is found or created and its
/// cursor reset; a reading that does not advance past the tree's total
/// means no progress since the last sample (the raw counter never goes
/// backward, so a smaller reading is equally degenerate), and the
/// snapshot is skipped with no further change.  Otherwise the frames
/// (innermost first) are walked from the root and the reading is
/// accounted at the resulting top node.
pub open spec fn sample_step_v(
    a: Seq<TreeV>,
    tid: u64,
    tname: Seq<char>,
    cpu: int,
    frames: Seq<u64>,
) -> Seq<TreeV> {
    if cpu == 0 {
        a
    } else {
        match arena_find(a, tid) {
            Some(i) => {
                let t = TreeV { top: a[i].root, ..a[i] };
                if t.total >= cpu {
                    a.update(i, t)
                } else {
                    a.update(i, end_last_call_v(walk_v(t, frames.reverse()), cpu))
                }
            },
            None => {
                let t = new_tree_v(tid, tname);
                if t.total >= cpu {
                    a.push(t)
                } else {
                    a.push(end_last_call_v(walk_v(t, frames.reverse()), cpu))
                }
            },
        }
    }
}

/// Builds the qualified call name `"Class.method()"`.
fn make_call_name(class_name: &String, method_name: &String) -> (r: String)
    ensures
        r@ == call_name_v(class_name@, method_name@),
{
    let mut r = class_name.clone();
    r.append(".");
    r.append(method_name.as_str());
    r.append("()");
    r
}

impl Sampler {
    /// A fresh sampler: empty cache, empty registry, disabled.
    pub fn new() -> (r: Sampler)
        ensures
            r@.cache == Seq::<MethodInfoV>::empty(),
            r@.threads == Seq::<ThreadId>::empty(),
            r@.enabled == false,
            r@.arena == Seq::<TreeV>::empty(),
            arena_wf(r@.arena),
    {
        let r = Sampler {
            method_cache: Vec::new(),
            threads: Vec::new(),
            enabled: false,
            tree_arena: TreeArena::new(),
        };
        proof {
            assert(r@.cache =~= Seq::<MethodInfoV>::empty());
        }
        r
    }

    pub fn set_enable(&mut self, val: bool)
        ensures
            final(self)@ == (SamplerV { enabled: val, ..old(self)@ }),
    {
        self.enabled = val;
    }

    pub fn is_enable(&self) -> (r: bool)
        ensures
            r == self@.enabled,
    {
        self.enabled
    }

    pub fn on_thread_start(&mut self, thread: ThreadId)
        ensures
            *final(self) == *old(self),
    {
    }

    pub fn on_thread_end(&mut self, thread: &ThreadId)
        ensures
            *final(self) == *old(self),
    {
    }

    /// Whether the resolution cache has no entry for `method` yet — the
    /// caller should consult the collaborator before `apply_resolution`
    /// exactly when this holds.
    pub fn needs_resolution(&self, method: u64) -> (r: bool)
        ensures
            r == (cache_find(self@.cache, method) is None),
    {
        match self.cached_index(method) {
            Some(_) => false,
            None => true,
        }
    }

    /// The cache position memoizing `method`, if any.
    fn cached_index(&self, method: u64) -> (r: Option<usize>)
        ensures
            match r {
                Some(i) => i < self@.cache.len() && cache_find(self@.cache, method) == Some(
                    i as int,
                ),
                None => cache_find(self@.cache, method) is None,
            },
    {
        let mut k: usize = 0;
        while k < self.method_cache.len()
            invariant
                0 <= k <= self@.cache.len(),
                cache_find(self@.cache, method) == cache_find_from(self@.cache, method, k as int),
            decreases self@.cache.len() - k,
        {
            proof {
                assert(self@.cache[k as int] == self.method_cache@[k as int]@);
            }
            if self.method_cache[k].method_id.native_id == method {
                return Some(k);
            }
            k += 1;
        }
        None
    }

    /// Whether machine-integer limits leave room to reconcile a sample
    /// of `frames` with reading `cpu_time` for `thread`.  Callers check
    /// this before `add_stack_trace`.
    pub fn sample_fits(&self, thread: &Thread, cpu_time: i64, frames: &Vec<u64>) -> (r: bool)
        ensures
            r == match arena_find(self@.arena, thread.id.native_id) {
                Some(i) => sample_fits_v(self@.arena[i], cpu_time as int, frames@.len()),
                None => 1 + frames@.len() < u32::MAX,
            },
    {
        match self.tree_arena.get(thread.id.native_id) {
            Some(tree) => tree.sample_fits(cpu_time, frames.len()),
            None => frames.len() < (u32::MAX - 1) as usize,
        }
    }

    /// Reconciles one stack snapshot into the owning thread's tree and
    /// returns the freshly created nodes paired with the raw handles
    /// that must still be resolved to names.
    pub fn add_stack_trace(&mut self, thread: &Thread, cpu_time: i64, frames: &Vec<u64>) -> (naming:
        Vec<(NodeId, u64)>)
        requires
            arena_wf(old(self)@.arena),
            match arena_find(old(self)@.arena, thread.id.native_id) {
                Some(i) => sample_fits_v(old(self)@.arena[i], cpu_time as int, frames@.len()),
                None => 1 + frames@.len() < u32::MAX,
            },
        ensures
            arena_wf(final(self)@.arena),
            final(self)@.cache == old(self)@.cache,
            final(self)@.threads == old(self)@.threads,
            final(self)@.enabled == old(self)@.enabled,
            final(self)@.arena == sample_step_v(
                old(self)@.arena,
                thread.id.native_id,
                thread.name@,
                cpu_time as int,
                frames@,
            ),
            cpu_time == 0 ==> *final(self) == *old(self) && naming@.len() == 0,
            arena_find(old(self)@.arena, thread.id.native_id) matches Some(i) && old(
                self,
            )@.arena[i].total >= cpu_time ==> naming@.len() == 0,
            ({
                let a2 = final(self)@.arena;
                let f = arena_find(a2, thread.id.native_id);
                cpu_time != 0 ==> f is Some && forall|j: int|
                    0 <= j < naming@.len() ==> 0 <= (#[trigger] naming@[j]).0@
                        < a2[f->Some_0].nodes.len()
            }),
    {
        if cpu_time == 0 {
            return Vec::new();
        }
        let ghost a0 = self@.arena;
        let ghost tid = thread.id.native_id;
        let ghost tname = thread.name@;
        let ghost rs = frames@.reverse();
        proof {
            if arena_find(a0, tid) is Some {
                lemma_arena_find_some(a0, tid, 0, arena_find(a0, tid)->Some_0);
            }
        }
        let call_tree = self.tree_arena.get_call_tree(thread);
        call_tree.reset_top_call_stack_node();
        let ghost t1 = call_tree@;
        proof {
            // resetting the cursor leaves every node, hence
            // well-formedness, untouched
            assert forall|j: int| 0 <= j < t1.nodes.len() implies #[trigger] node_wf(t1, j) by {
                match arena_find(a0, tid) {
                    Some(i) => {
                        assert(node_wf(a0[i], j));
                    },
                    None => {
                        assert(node_wf(new_tree_v(tid, tname), j));
                    },
                }
            }
            assert(tree_wf(t1));
        }
        if call_tree.get_total_duration() >= cpu_time {
            proof {
                match arena_find(a0, tid) {
                    Some(i) => {
                        assert(self@.arena =~= sample_step_v(
                            a0,
                            tid,
                            tname,
                            cpu_time as int,
                            frames@,
                        ));
                        lemma_arena_find_update(a0, tid, i, t1);
                        assert(arena_wf(self@.arena));
                    },
                    None => {
                        // a fresh tree has total 0: only a negative
                        // reading is degenerate here
                        assert(t1 =~= new_tree_v(tid, tname));
                        assert(self@.arena =~= sample_step_v(
                            a0,
                            tid,
                            tname,
                            cpu_time as int,
                            frames@,
                        ));
                        lemma_arena_find_none(a0, tid, 0);
                        assert(arena_wf(self@.arena));
                        lemma_arena_find_push(a0, tid, t1);
                    },
                }
            }
            return Vec::new();
        }
        proof {
            lemma_walk_props(t1, rs);
            let t2 = walk_v(t1, rs);
            match arena_find(a0, tid) {
                Some(i) => {
                    assert(t1.nodes == a0[i].nodes);
                    assert(t1.total == a0[i].total);
                    if t2.top < t1.nodes.len() {
                        assert(t2.nodes[t2.top].count == t1.nodes[t2.top].count);
                        assert(a0[i].nodes[t2.top].count + 1 <= u32::MAX);
                        if t1.total > 0 {
                            assert(i64::MIN <= a0[i].nodes[t2.top].duration + (cpu_time
                                - t1.total) <= i64::MAX);
                        }
                    } else {
                        assert(t2.nodes[t2.top].count == 0 && t2.nodes[t2.top].duration == 0);
                    }
                },
                None => {
                    assert(t1 =~= new_tree_v(tid, tname));
                    assert(t1.total == 0);
                    if t2.top < t1.nodes.len() {
                        assert(t1.nodes[0].count == 0);
                        assert(t2.nodes[t2.top].count == t1.nodes[t2.top].count);
                    } else {
                        assert(t2.nodes[t2.top].count == 0);
                    }
                },
            }
        }
        let naming = call_tree.merge_stack_sample(frames);
        call_tree.end_last_call(cpu_time);
        proof {
            let t3 = end_last_call_v(walk_v(t1, rs), cpu_time as int);
            lemma_end_last_call_wf(walk_v(t1, rs), cpu_time as int);
            match arena_find(a0, tid) {
                Some(i) => {
                    assert(self@.arena =~= a0.update(i, t3));
                    assert(self@.arena =~= sample_step_v(a0, tid, tname, cpu_time as int, frames@));
                    lemma_arena_find_update(a0, tid, i, t3);
                    assert(arena_wf(self@.arena));
                },
                None => {
                    assert(t1 =~= new_tree_v(tid, tname));
                    assert(self@.arena =~= a0.push(t3));
                    assert(self@.arena =~= sample_step_v(a0, tid, tname, cpu_time as int, frames@));
                    lemma_arena_find_none(a0, tid, 0);
                    lemma_arena_find_push(a0, tid, t3);
                    assert(arena_wf(self@.arena));
                },
            }
        }
        naming
    }

    /// Writes a resolved name into the node `node_id` of `thread`'s
    /// tree.  A memoized resolution for `method` takes precedence and
    /// costs no collaborator call; otherwise a freshly fetched
    /// resolution (`fetched`) is memoized and applied; with neither, the
    /// node keeps its placeholder name and nothing changes — a failed
    /// resolution never aborts reconciliation.
    pub fn apply_resolution(
        &mut self,
        thread: &Thread,
        node_id: &NodeId,
        method: u64,
        fetched: Option<(MethodSignature, ClassSignature)>,
    )
        requires
            arena_wf(old(self)@.arena),
            arena_find(old(self)@.arena, thread.id.native_id) is Some,
            0 <= node_id@ < old(self)@.arena[arena_find(
                old(self)@.arena,
                thread.id.native_id,
            )->Some_0].nodes.len(),
        ensures
            arena_wf(final(self)@.arena),
            final(self)@.threads == old(self)@.threads,
            final(self)@.enabled == old(self)@.enabled,
            ({
                let i = arena_find(old(self)@.arena, thread.id.native_id)->Some_0;
                match cache_find(old(self)@.cache, method) {
                    Some(ci) => final(self)@.cache == old(self)@.cache && final(self)@.arena
                        == old(self)@.arena.update(
                        i,
                        rename_node_v(
                            old(self)@.arena[i],
                            node_id@,
                            call_name_v(
                                old(self)@.cache[ci].class_name,
                                old(self)@.cache[ci].method_name,
                            ),
                        ),
                    ),
                    None => match fetched {
                        Some(p) => final(self)@.cache == old(self)@.cache.push(
                            MethodInfoV {
                                handle: method,
                                class_name: p.1.name@,
                                method_name: p.0.name@,
                            },
                        ) && final(self)@.arena == old(self)@.arena.update(
                            i,
                            rename_node_v(
                                old(self)@.arena[i],
                                node_id@,
                                call_name_v(p.1.name@, p.0.name@),
                            ),
                        ),
                        None => *final(self) == *old(self),
                    },
                }
            }),
    {
        let ghost a0 = self@.arena;
        let ghost i = arena_find(a0, thread.id.native_id)->Some_0;
        let name_opt: Option<String> = match self.cached_index(method) {
            Some(ci) => {
                let info = &self.method_cache[ci];
                proof {
                    assert(self@.cache[ci as int] == self.method_cache@[ci as int]@);
                }
                Some(make_call_name(&info.class.name, &info.method.name))
            },
            None => match fetched {
                Some(p) => {
                    let (ms, cs) = p;
                    let nm = make_call_name(&cs.name, &ms.name);
                    self.method_cache.push(
                        MethodInfo { method_id: MethodId { native_id: method }, method: ms, class: cs },
                    );
                    proof {
                        assert(self@.cache =~= old(self)@.cache.push(
                            MethodInfoV {
                                handle: method,
                                class_name: fetched->Some_0.1.name@,
                                method_name: fetched->Some_0.0.name@,
                            },
                        ));
                    }
                    Some(nm)
                },
                None => None,
            },
        };
        proof {
            lemma_arena_find_some(a0, thread.id.native_id, 0, i);
            assert(tree_wf(a0[i]));
        }
        match name_opt {
            Some(nm) => {
                let ghost nm_view = nm@;
                let tree = self.tree_arena.get_call_tree(thread);
                tree.set_node_name(node_id, nm);
                proof {
                    let t2 = rename_node_v(a0[i], node_id@, nm_view);
                    assert(self@.arena =~= a0.update(i, t2));
                    lemma_arena_find_update(a0, thread.id.native_id, i, t2);
                    assert(arena_wf(self@.arena));
                }
            },
            None => {},
        }
    }

    /// One rendered block per thread: a `Thread:` header with the
    /// thread's id, its tree's root name and its total duration in
    /// display units, then the rendered tree, then a blank line.
    #[verifier::rlimit(50)]
    pub fn format_all_call_trees(&self, compact: bool) -> (r: String)
        requires
            arena_wf(self@.arena),
        ensures
            r@ == sampler_blocks_v(self@.arena, 0, compact),
    {
        let trees = self.tree_arena.get_all_call_trees();
        let mut result = String::new();
        proof {
            assert(result@ + sampler_blocks_v(self@.arena, 0, compact) =~= sampler_blocks_v(
                self@.arena,
                0,
                compact,
            ));
        }
        let mut k: usize = 0;
        while k < trees.len()
            invariant
                arena_wf(self@.arena),
                trees@.map_values(|t: CallStackTree| t@) == self@.arena,
                0 <= k <= self@.arena.len(),
                result@ + sampler_blocks_v(self@.arena, k as int, compact) == sampler_blocks_v(
                    self@.arena,
                    0,
                    compact,
                ),
            decreases self@.arena.len() - k,
        {
            let tree = &trees[k];
            proof {
                assert(tree@ == self@.arena[k as int]);
            }
            result.append("Thread: ");
            result.append(text::u64_to_dec(tree.get_thread_id()).as_str());
            result.append(", ");
            let root_name = &tree.get_root_node().data.name;
            result.append(root_name.as_str());
            result.append(", ");
            result.append(text::duration_to_display(tree.get_total_duration()).as_str());
            result.append("\n");
            let body = tree.format_call_tree(compact);
            result.append(body.as_str());
            result.append("\n");
            k += 1;
            proof {
                assert(result@ + sampler_blocks_v(self@.arena, k as int, compact)
                    =~= sampler_blocks_v(self@.arena, 0, compact));
            }
        }
        proof {
            assert(result@ =~= sampler_blocks_v(self@.arena, 0, compact));
        }
        result
    }
}

/// One sampler-rendered block for tree `t`.
pub open spec fn sampler_block_v(t: TreeV, compact: bool) -> Seq<char> {
    "Thread: "@ + text::dec_digits(t.thread_id as nat) + ", "@ + t.nodes[0].name + ", "@
        + text::duration_display(t.total) + "\n"@ + render_node_v(t, 0, compact) + "\n"@
}

/// The sampler-rendered blocks of all trees from position `k` on.
pub open spec fn sampler_blocks_v(a: Seq<TreeV>, k: int, compact: bool) -> Seq<char>
    decreases a.len() - k,
{
    if k < 0 || k >= a.len() {
        Seq::empty()
    } else {
        sampler_block_v(a[k], compact) + sampler_blocks_v(a, k + 1, compact)
    }
}

} // verus!
