//! Per-thread call trees and their registry.
//!
//! A `CallStackTree` is an append-only arena of nodes: index 0 is a
//! synthetic root named after the thread, every other node represents one
//! distinct call path position.  A cursor (`top_call_stack_node`) tracks
//! the currently active frame.  Two reconciliation modes mutate a tree:
//! event-driven `begin_call`/`end_call` with resolved names, and
//! sample-driven `begin_call_handle`/`end_last_call` keyed by raw method
//! handles with deferred name resolution.  The `TreeArena` maps thread
//! identities to their trees.

use vstd::prelude::*;
use vstd::string::StringExecFns;
use crate::text;
use crate::thread::Thread;

verus! {

/// An index into one tree's node arena.  Valid only within the tree that
/// produced it; the arena never removes entries, so it never dangles.
#[derive(Clone, Copy)]
pub struct NodeId {
    index: usize,
}

impl View for NodeId {
    type V = int;

    closed spec fn view(&self) -> int {
        self.index as int
    }
}

/// The key under which a child hangs off its parent: a resolved
/// qualified call name, or a raw method handle awaiting resolution.
pub enum CallKey {
    Name(String),
    Handle(u64),
}

/// The mathematical form of a `CallKey`.
pub ghost enum KeyV {
    Name(Seq<char>),
    Handle(u64),
}

impl View for CallKey {
    type V = KeyV;

    open spec fn view(&self) -> KeyV {
        match self {
            CallKey::Name(s) => KeyV::Name(s@),
            CallKey::Handle(h) => KeyV::Handle(*h),
        }
    }
}

/// Whether two keys are the same key.
fn key_eq(a: &CallKey, b: &CallKey) -> (r: bool)
    ensures
        r == (a@ == b@),
{
    match (a, b) {
        (CallKey::Name(x), CallKey::Name(y)) => *x == *y,
        (CallKey::Handle(x), CallKey::Handle(y)) => *x == *y,
        (CallKey::Name(_), CallKey::Handle(_)) => false,
        (CallKey::Handle(_), CallKey::Name(_)) => false,
    }
}

/// The per-node payload: identity, position, display name and the
/// accumulated accounting.
pub struct NodeData {
    pub node_id: NodeId,
    pub depth: u32,
    pub name: String,
    pub call_count: u32,
    pub call_duration: i64,
    pub children_size: u32,
}

/// One node of a call tree.
pub struct TreeNode {
    pub data: NodeData,
    pub parent: Option<NodeId>,
    pub children: Vec<(CallKey, NodeId)>,
}

/// The mathematical form of a `TreeNode`.
#[verifier::ext_equal]
pub ghost struct NodeV {
    pub id: int,
    pub depth: int,
    pub name: Seq<char>,
    pub count: int,
    pub duration: int,
    pub children_size: int,
    pub parent: Option<int>,
    pub children: Seq<(KeyV, int)>,
}

impl View for TreeNode {
    type V = NodeV;

    open spec fn view(&self) -> NodeV {
        NodeV {
            id: self.data.node_id@,
            depth: self.data.depth as int,
            name: self.data.name@,
            count: self.data.call_count as int,
            duration: self.data.call_duration as int,
            children_size: self.data.children_size as int,
            parent: match self.parent {
                Some(p) => Some(p@),
                None => None,
            },
            children: self.children@.map_values(|e: (CallKey, NodeId)| (e.0@, e.1@)),
        }
    }
}

/// One thread's call tree.
pub struct CallStackTree {
    nodes: Vec<TreeNode>,
    root_node: NodeId,
    top_call_stack_node: NodeId,
    pub total_duration: i64,
    pub thread_id: u64,
}

/// The mathematical form of a `CallStackTree`.
#[verifier::ext_equal]
pub ghost struct TreeV {
    pub nodes: Seq<NodeV>,
    pub root: int,
    pub top: int,
    pub total: int,
    pub thread_id: u64,
}

impl View for CallStackTree {
    type V = TreeV;

    closed spec fn view(&self) -> TreeV {
        TreeV {
            nodes: self.nodes@.map_values(|n: TreeNode| n@),
            root: self.root_node@,
            top: self.top_call_stack_node@,
            total: self.total_duration as int,
            thread_id: self.thread_id,
        }
    }
}

/// Well-formedness of the node at index `i` within tree `t`: its recorded
/// identity matches its index, its parent lies strictly before it and its
/// depth is one more than the parent's, its children lie strictly after
/// it, point back to it and carry pairwise distinct keys, and its recorded
/// child count matches.
pub open spec fn node_wf(t: TreeV, i: int) -> bool {
    let n = t.nodes[i];
    &&& n.id == i
    &&& 0 <= n.depth <= i
    &&& (i == 0 ==> n.parent is None && n.depth == 0)
    &&& (i > 0 ==> n.parent is Some && 0 <= n.parent->Some_0 < i && n.depth == t.nodes[n.parent->Some_0].depth + 1)
    &&& n.children_size == n.children.len()
    &&& forall|k: int|
        0 <= k < n.children.len() ==> i < (#[trigger] n.children[k]).1 < t.nodes.len()
            && t.nodes[n.children[k].1].parent == Some(i)
    &&& forall|k1: int, k2: int|
        0 <= k1 < k2 < n.children.len() ==> (#[trigger] n.children[k1]).0 != (
        #[trigger] n.children[k2]).0
    &&& forall|k1: int, k2: int|
        0 <= k1 < k2 < n.children.len() ==> (#[trigger] n.children[k1]).1 < (
        #[trigger] n.children[k2]).1
}

/// In a child list whose indices are strictly increasing and all greater
/// than `i`, the entry at position `k` has index at least `i + 1 + k`.
proof fn lemma_child_index_lower_bound(cs: Seq<(KeyV, int)>, i: int, k: int)
    requires
        0 <= k < cs.len(),
        forall|j: int| 0 <= j < cs.len() ==> i < (#[trigger] cs[j]).1,
        forall|k1: int, k2: int|
            0 <= k1 < k2 < cs.len() ==> (#[trigger] cs[k1]).1 < (#[trigger] cs[k2]).1,
    ensures
        cs[k].1 >= i + 1 + k,
    decreases k,
{
    if k > 0 {
        lemma_child_index_lower_bound(cs, i, k - 1);
    }
}

/// Well-formedness of a whole tree: the root exists, the cursor is in
/// range, and every node is well formed.
pub open spec fn tree_wf(t: TreeV) -> bool {
    &&& t.nodes.len() >= 1
    &&& t.root == 0
    &&& 0 <= t.top < t.nodes.len()
    &&& forall|i: int| 0 <= i < t.nodes.len() ==> #[trigger] node_wf(t, i)
}

/// The first child of node `i` keyed `key`, if any.  Keys within one
/// node's child list are pairwise distinct, so the first match is the
/// only one.
pub open spec fn find_child_v(t: TreeV, i: int, key: KeyV) -> Option<int>
    decreases t.nodes[i].children.len(),
{
    find_child_from(t.nodes[i].children, key, 0)
}

/// The first entry of `cs` at or after position `k` whose key is `key`.
pub open spec fn find_child_from(cs: Seq<(KeyV, int)>, key: KeyV, k: int) -> Option<int>
    decreases cs.len() - k,
{
    if k < 0 || k >= cs.len() {
        None
    } else if cs[k].0 == key {
        Some(cs[k].1)
    } else {
        find_child_from(cs, key, k + 1)
    }
}

/// Every entry at or after position `k` whose key is `key` yields the
/// value that `find_child_from` returns; a `None` means no such entry.
pub proof fn lemma_find_child_some(cs: Seq<(KeyV, int)>, key: KeyV, k: int, c: int)
    requires
        0 <= k,
        find_child_from(cs, key, k) == Some(c),
    ensures
        exists|j: int| k <= j < cs.len() && cs[j] == (key, c),
    decreases cs.len() - k,
{
    if k < cs.len() {
        if cs[k].0 == key {
            assert(cs[k] == (key, c));
        } else {
            lemma_find_child_some(cs, key, k + 1, c);
        }
    }
}

proof fn lemma_find_child_none(cs: Seq<(KeyV, int)>, key: KeyV, k: int)
    requires
        0 <= k,
        find_child_from(cs, key, k) is None,
    ensures
        forall|j: int| k <= j < cs.len() ==> (#[trigger] cs[j]).0 != key,
    decreases cs.len() - k,
{
    if k < cs.len() {
        lemma_find_child_none(cs, key, k + 1);
    }
}

impl TreeNode {
    /// The qualified call key `"Class.method"` for a resolved name.
    pub fn get_node_key(class_name: &String, method_name: &String) -> (r: String)
        ensures
            r@ == class_name@ + "."@ + method_name@,
    {
        let mut r = class_name.clone();
        r.append(".");
        r.append(method_name.as_str());
        r
    }

    /// A fresh root node: depth 0, no parent, named after the thread.
    pub fn newRootNode(name: &str) -> (r: TreeNode)
        ensures
            r@ == root_node_v(name@),
    {
        let r = TreeNode {
            data: NodeData {
                node_id: NodeId { index: 0 },
                depth: 0,
                name: name.to_owned(),
                call_count: 0,
                call_duration: 0,
                children_size: 0,
            },
            parent: None,
            children: Vec::new(),
        };
        proof {
            assert(r@.children =~= Seq::<(KeyV, int)>::empty());
            assert(r@ =~= root_node_v(name@));
        }
        r
    }

    /// Allocates the node for a fresh call position: child number
    /// `next_index` of `parentNode` under `key`, displayed as `name`.
    /// The child is registered in the parent's child list.
    fn new_call_node_keyed(parentNode: &mut TreeNode, next_index: usize, key: CallKey, name: String) -> (r: TreeNode)
        requires
            old(parentNode)@.children_size < u32::MAX,
            old(parentNode)@.depth < u32::MAX,
            old(parentNode)@.children_size == old(parentNode)@.children.len(),
        ensures
            final(parentNode)@ == (NodeV {
                children: old(parentNode)@.children.push((key@, next_index as int)),
                children_size: old(parentNode)@.children_size + 1,
                ..old(parentNode)@
            }),
            r@ == new_child_v(old(parentNode)@, next_index as int, name@),
    {
        let node_id = NodeId { index: next_index };
        let new_depth = parentNode.data.depth + 1;
        let parent_id = parentNode.data.node_id;
        parentNode.children.push((key, node_id));
        parentNode.data.children_size = parentNode.data.children_size + 1;
        let r = TreeNode {
            data: NodeData {
                node_id: node_id,
                depth: new_depth,
                name: name,
                call_count: 0,
                call_duration: 0,
                children_size: 0,
            },
            parent: Some(parent_id),
            children: Vec::new(),
        };
        proof {
            assert(parentNode@.children =~= old(parentNode)@.children.push((
                key@,
                next_index as int,
            )));
            assert(parentNode@ =~= (NodeV {
                children: old(parentNode)@.children.push((key@, next_index as int)),
                children_size: old(parentNode)@.children_size + 1,
                ..old(parentNode)@
            }));
            assert(r@.children =~= Seq::<(KeyV, int)>::empty());
            assert(r@ =~= new_child_v(old(parentNode)@, next_index as int, name@));
        }
        r
    }

    /// Allocates the node for a fresh call position under a resolved
    /// qualified name.
    pub fn newCallNode(parentNode: &mut TreeNode, next_index: usize, class_name: &String, method_name: &String) -> (r: TreeNode)
        requires
            old(parentNode)@.children_size < u32::MAX,
            old(parentNode)@.depth < u32::MAX,
            old(parentNode)@.children_size == old(parentNode)@.children.len(),
        ensures
            final(parentNode)@ == (NodeV {
                children: old(parentNode)@.children.push((
                    KeyV::Name(class_name@ + "."@ + method_name@),
                    next_index as int,
                )),
                children_size: old(parentNode)@.children_size + 1,
                ..old(parentNode)@
            }),
            r@ == new_child_v(old(parentNode)@, next_index as int, class_name@ + "."@ + method_name@),
    {
        let call_name = TreeNode::get_node_key(class_name, method_name);
        let key_name = call_name.clone();
        TreeNode::new_call_node_keyed(parentNode, next_index, CallKey::Name(key_name), call_name)
    }

    /// The first child of this node registered under `key`, if any.
    fn find_child(&self, key: &CallKey) -> (r: Option<NodeId>)
        ensures
            match r {
                Some(id) => find_child_v_node(self@, key@) == Some(id@),
                None => find_child_v_node(self@, key@) is None,
            },
    {
        let mut k: usize = 0;
        while k < self.children.len()
            invariant
                0 <= k <= self.children@.len(),
                find_child_from(self@.children, key@, 0) == find_child_from(
                    self@.children,
                    key@,
                    k as int,
                ),
            decreases self.children@.len() - k,
        {
            if key_eq(&self.children[k].0, key) {
                return Some(self.children[k].1);
            }
            k += 1;
        }
        None
    }
}

/// The first child of a single node's view under `key`.
pub open spec fn find_child_v_node(n: NodeV, key: KeyV) -> Option<int> {
    find_child_from(n.children, key, 0)
}

/// The view of a fresh root node named `name`.
pub open spec fn root_node_v(name: Seq<char>) -> NodeV {
    NodeV {
        id: 0,
        depth: 0,
        name: name,
        count: 0,
        duration: 0,
        children_size: 0,
        parent: None,
        children: Seq::empty(),
    }
}

/// A tree with the display name of node `n` overwritten.
pub open spec fn rename_node_v(t: TreeV, n: int, name: Seq<char>) -> TreeV {
    TreeV { nodes: t.nodes.update(n, NodeV { name: name, ..t.nodes[n] }), ..t }
}

/// The view of a fresh tree for thread `thread_id` named `name`.
pub open spec fn new_tree_v(thread_id: u64, name: Seq<char>) -> TreeV {
    TreeV { nodes: seq![root_node_v(name)], root: 0, top: 0, total: 0, thread_id: thread_id }
}

/// The view of the node a `begin_call` allocates: child number
/// `idx` of `parent`, one level deeper, with zeroed accounting.
pub open spec fn new_child_v(parent: NodeV, idx: int, name: Seq<char>) -> NodeV {
    NodeV {
        id: idx,
        depth: parent.depth + 1,
        name: name,
        count: 0,
        duration: 0,
        children_size: 0,
        parent: Some(parent.id),
        children: Seq::empty(),
    }
}

/// What `begin_call` does to a tree: move the cursor to the child of the
/// current top keyed `key` if one exists, else allocate such a child at
/// the next arena index (named `name`), register it with the parent, and
/// move the cursor there.
pub open spec fn begin_with_key_v(t: TreeV, key: KeyV, name: Seq<char>) -> TreeV {
    match find_child_v(t, t.top, key) {
        Some(c) => TreeV { top: c, ..t },
        None => {
            let idx = t.nodes.len() as int;
            let parent0 = t.nodes[t.top];
            let parent1 = NodeV {
                children: parent0.children.push((key, idx)),
                children_size: parent0.children_size + 1,
                ..parent0
            };
            TreeV { nodes: t.nodes.update(t.top, parent1).push(new_child_v(parent0, idx, name)), top: idx, ..t }
        },
    }
}

/// What `end_call` does to a tree: if the given call key names the
/// current top node, credit the duration, count the completed call and
/// pop the cursor to the parent (a mismatch, or a match on the rootless
/// root, is a protocol violation that leaves the cursor in place and, on
/// mismatch, drops the duration).
pub open spec fn end_call_v(t: TreeV, key_name: Seq<char>, duration: int) -> TreeV {
    let top = t.nodes[t.top];
    if top.name == key_name {
        let top1 = NodeV { count: top.count + 1, duration: top.duration + duration, ..top };
        let t1 = TreeV { nodes: t.nodes.update(t.top, top1), ..t };
        match top.parent {
            Some(p) => TreeV { top: p, ..t1 },
            None => t1,
        }
    } else {
        t
    }
}

/// What `end_last_call` does to a tree: count one completed sample at
/// the current top and, unless this is the first-ever reading, credit
/// the CPU-time delta there; the reading becomes the new total.
pub open spec fn end_last_call_v(t: TreeV, total: int) -> TreeV {
    let top = t.nodes[t.top];
    let credit: int = if t.total > 0 { total - t.total } else { 0 };
    let top1 = NodeV { count: top.count + 1, duration: top.duration + credit, ..top };
    TreeV { nodes: t.nodes.update(t.top, top1), total: total, ..t }
}

/// `begin_with_key_v` preserves well-formedness.
pub proof fn lemma_begin_wf(t: TreeV, key: KeyV, name: Seq<char>)
    requires
        tree_wf(t),
    ensures
        tree_wf(begin_with_key_v(t, key, name)),
{
    let t2 = begin_with_key_v(t, key, name);
    match find_child_v(t, t.top, key) {
        Some(c) => {
            lemma_find_child_some(t.nodes[t.top].children, key, 0, c);
            assert(node_wf(t, t.top));
            assert(forall|i: int| 0 <= i < t2.nodes.len() ==> #[trigger] node_wf(t2, i)) by {
                assert forall|i: int| 0 <= i < t2.nodes.len() implies #[trigger] node_wf(t2, i) by {
                    assert(node_wf(t, i));
                }
            }
        },
        None => {
            lemma_find_child_none(t.nodes[t.top].children, key, 0);
            let idx = t.nodes.len() as int;
            assert(node_wf(t, t.top));
            assert forall|i: int| 0 <= i < t2.nodes.len() implies #[trigger] node_wf(t2, i) by {
                if i < idx {
                    assert(node_wf(t, i));
                    if i == t.top {
                        let n0 = t.nodes[i];
                        let n2 = t2.nodes[i];
                        assert forall|k: int|
                            0 <= k < n2.children.len() implies i < (#[trigger] n2.children[k]).1
                            < t2.nodes.len() && t2.nodes[n2.children[k].1].parent == Some(i) by {
                            if k < n0.children.len() {
                                assert(n0.children[k] == n2.children[k]);
                                assert(i < n0.children[k].1 < t.nodes.len());
                            }
                        }
                        assert(node_wf(t2, i));
                    } else {
                        assert forall|k: int|
                            0 <= k < t2.nodes[i].children.len() implies i < (
                            #[trigger] t2.nodes[i].children[k]).1 < t2.nodes.len()
                            && t2.nodes[t2.nodes[i].children[k].1].parent == Some(i) by {
                            assert(t2.nodes[i].children[k] == t.nodes[i].children[k]);
                            assert(i < t.nodes[i].children[k].1 < t.nodes.len());
                        }
                        assert(node_wf(t2, i));
                    }
                } else {
                    assert(i == idx);
                    assert(t2.nodes[i] == new_child_v(t.nodes[t.top], idx, name));
                    assert(node_wf(t2, i));
                }
            }
        },
    }
}

/// `end_call_v` preserves well-formedness.
pub proof fn lemma_end_call_wf(t: TreeV, key_name: Seq<char>, duration: int)
    requires
        tree_wf(t),
    ensures
        tree_wf(end_call_v(t, key_name, duration)),
{
    let t2 = end_call_v(t, key_name, duration);
    assert(node_wf(t, t.top));
    assert forall|i: int| 0 <= i < t2.nodes.len() implies #[trigger] node_wf(t2, i) by {
        assert(node_wf(t, i));
        assert(t2.nodes[i].children =~= t.nodes[i].children);
    }
}

/// `end_last_call_v` preserves well-formedness.
pub proof fn lemma_end_last_call_wf(t: TreeV, total: int)
    requires
        tree_wf(t),
    ensures
        tree_wf(end_last_call_v(t, total)),
{
    let t2 = end_last_call_v(t, total);
    assert forall|i: int| 0 <= i < t2.nodes.len() implies #[trigger] node_wf(t2, i) by {
        assert(node_wf(t, i));
        assert(t2.nodes[i].children =~= t.nodes[i].children);
    }
}

impl CallStackTree {
    /// A fresh tree: just the synthetic root, cursor at the root, no
    /// CPU time observed yet.
    pub fn new(thread_id: u64, thread_name: &str) -> (r: CallStackTree)
        ensures
            r@ == new_tree_v(thread_id, thread_name@),
            tree_wf(r@),
    {
        let r = CallStackTree {
            nodes: vec![TreeNode::newRootNode(thread_name)],
            root_node: NodeId { index: 0 },
            top_call_stack_node: NodeId { index: 0 },
            total_duration: 0,
            thread_id: thread_id,
        };
        proof {
            assert(r@.nodes =~= seq![root_node_v(thread_name@)]);
            assert(r@ =~= new_tree_v(thread_id, thread_name@));
        }
        r
    }

    /// The last observed cumulative CPU-time reading for this thread.
    pub fn get_total_duration(&self) -> (r: i64)
        ensures
            r as int == self@.total,
    {
        self.total_duration
    }

    /// The identity of the thread this tree belongs to.
    pub fn get_thread_id(&self) -> (r: u64)
        ensures
            r == self@.thread_id,
    {
        self.thread_id
    }

    /// Moves the cursor back to the root, where reconciliation of a new
    /// snapshot starts.
    pub fn reset_top_call_stack_node(&mut self)
        ensures
            final(self)@ == (TreeV { top: old(self)@.root, ..old(self)@ }),
    {
        self.top_call_stack_node = self.root_node;
    }

    /// Moves the cursor to the child of the current top under `key`,
    /// allocating the child (named `name`) if it is not there yet.
    /// Returns whether an existing child was reused.
    fn begin_with_key(&mut self, key: CallKey, name: String) -> (found: bool)
        requires
            tree_wf(old(self)@),
            old(self)@.nodes.len() < u32::MAX,
        ensures
            tree_wf(final(self)@),
            final(self)@ == begin_with_key_v(old(self)@, key@, name@),
            found == (find_child_v(old(self)@, old(self)@.top, key@) is Some),
    {
        proof {
            lemma_begin_wf(old(self)@, key@, name@);
        }
        let ghost t0 = self@;
        let found = self.get_top_node().find_child(&key);
        match found {
            Some(child_id) => {
                proof {
                    lemma_find_child_some(t0.nodes[t0.top].children, key@, 0, child_id@);
                    assert(node_wf(t0, t0.top));
                    let cs = t0.nodes[t0.top].children;
                    let j = choose|j: int| 0 <= j < cs.len() && cs[j] == (key@, child_id@);
                    assert(t0.top < cs[j].1 < t0.nodes.len());
                    assert(node_wf(t0, child_id@));
                }
                let node = self.get_node(&child_id);
                self.top_call_stack_node = node.data.node_id;
                proof {
                    assert(self@ =~= begin_with_key_v(t0, key@, name@));
                }
                true
            },
            None => {
                let next_index = self.nodes.len();
                proof {
                    assert(node_wf(t0, t0.top));
                    let cs = t0.nodes[t0.top].children;
                    if cs.len() > 0 {
                        lemma_child_index_lower_bound(cs, t0.top, cs.len() - 1);
                    }
                }
                let top_node = self.get_mut_top_node();
                let node_data = TreeNode::new_call_node_keyed(top_node, next_index, key, name);
                self.top_call_stack_node = node_data.data.node_id;
                self.nodes.push(node_data);
                proof {
                    assert(self@.nodes =~= begin_with_key_v(t0, key@, name@).nodes);
                    assert(self@ =~= begin_with_key_v(t0, key@, name@));
                }
                false
            },
        }
    }

    /// Event-driven method entry: descend into (or create) the child of
    /// the current top named `"Class.method"`.
    pub fn begin_call(&mut self, class_name: &String, method_name: &String)
        requires
            tree_wf(old(self)@),
            old(self)@.nodes.len() < u32::MAX,
        ensures
            tree_wf(final(self)@),
            final(self)@ == begin_with_key_v(
                old(self)@,
                KeyV::Name(class_name@ + "."@ + method_name@),
                class_name@ + "."@ + method_name@,
            ),
    {
        let call_name = TreeNode::get_node_key(class_name, method_name);
        let key_name = call_name.clone();
        self.begin_with_key(CallKey::Name(key_name), call_name);
    }

    /// Sample-driven descent by raw method handle: descend into (or
    /// create) the child of the current top keyed by `method`.  A fresh
    /// node is temporarily named by the decimal form of the handle, to be
    /// overwritten once the name is resolved.  Returns whether an
    /// existing child was reused (`false` means the caller must arrange
    /// name resolution for the new node).
    pub fn begin_call_handle(&mut self, method: u64) -> (found: bool)
        requires
            tree_wf(old(self)@),
            old(self)@.nodes.len() < u32::MAX,
        ensures
            tree_wf(final(self)@),
            final(self)@ == begin_with_key_v(
                old(self)@,
                KeyV::Handle(method),
                text::dec_digits(method as nat),
            ),
            found == (find_child_v(old(self)@, old(self)@.top, KeyV::Handle(method)) is Some),
    {
        let name = text::u64_to_dec(method);
        self.begin_with_key(CallKey::Handle(method), name)
    }

    /// Event-driven method exit: if `"Class.method"` names the current
    /// top node, credit `duration` there, count the completed call and
    /// pop the cursor to the parent.  A name mismatch, or a match while
    /// the cursor is at the parentless root, is a protocol violation:
    /// the cursor stays put and, on mismatch, nothing is recorded.
    pub fn end_call(&mut self, class_name: &String, method_name: &String, duration: i64)
        requires
            tree_wf(old(self)@),
            old(self)@.nodes[old(self)@.top].name == class_name@ + "."@ + method_name@ ==> ({
                let top = old(self)@.nodes[old(self)@.top];
                &&& top.count + 1 <= u32::MAX
                &&& i64::MIN <= top.duration + duration <= i64::MAX
            }),
        ensures
            tree_wf(final(self)@),
            final(self)@ == end_call_v(old(self)@, class_name@ + "."@ + method_name@, duration as int),
    {
        proof {
            lemma_end_call_wf(old(self)@, class_name@ + "."@ + method_name@, duration as int);
            assert(node_wf(old(self)@, old(self)@.top));
        }
        let ghost t0 = self@;
        let call_name = TreeNode::get_node_key(class_name, method_name);
        let matches = {
            let top = self.get_top_node();
            top.data.name == call_name
        };
        if matches {
            let parent_opt = self.get_top_node().parent;
            let top_node = self.get_mut_top_node();
            top_node.data.call_duration = top_node.data.call_duration + duration;
            top_node.data.call_count = top_node.data.call_count + 1;
            match parent_opt {
                Some(nodeid) => {
                    self.top_call_stack_node = nodeid;
                },
                None => {
                    // protocol violation: an exit with the cursor at the
                    // root; the cursor stays at the root
                },
            }
            proof {
                assert(self@.nodes =~= end_call_v(t0, class_name@ + "."@ + method_name@, duration as int).nodes);
                assert(self@ =~= end_call_v(t0, class_name@ + "."@ + method_name@, duration as int));
            }
        } else {
            // protocol violation: the exit does not name the open call;
            // the duration is dropped and the cursor stays put
        }
    }

    /// Sample-driven accounting: count one completed sample at the
    /// current top and, unless `total_duration` is the first-ever
    /// reading for this thread, credit the CPU-time delta there.  The
    /// reading becomes the tree's new total.
    pub fn end_last_call(&mut self, total_duration: i64)
        requires
            tree_wf(old(self)@),
            old(self)@.nodes[old(self)@.top].count + 1 <= u32::MAX,
            old(self)@.total > 0 ==> ({
                let top = old(self)@.nodes[old(self)@.top];
                &&& i64::MIN <= total_duration - old(self)@.total <= i64::MAX
                &&& i64::MIN <= top.duration + (total_duration - old(self)@.total) <= i64::MAX
            }),
        ensures
            tree_wf(final(self)@),
            final(self)@ == end_last_call_v(old(self)@, total_duration as int),
    {
        proof {
            lemma_end_last_call_wf(old(self)@, total_duration as int);
            assert(node_wf(old(self)@, old(self)@.top));
        }
        let ghost t0 = self@;
        let last_duration = self.total_duration;
        let top_node = self.get_mut_top_node();
        if last_duration > 0 {
            // the first-ever reading is not credited: no previous
            // reading exists to delimit the interval
            top_node.data.call_duration = top_node.data.call_duration + (total_duration
                - last_duration);
        }
        top_node.data.call_count = top_node.data.call_count + 1;
        self.total_duration = total_duration;
        proof {
            assert(self@.nodes =~= end_last_call_v(t0, total_duration as int).nodes);
            assert(self@ =~= end_last_call_v(t0, total_duration as int));
        }
    }

    /// Overwrites the display name of the node at `node_id` — how a
    /// deferred symbol resolution reaches its node.
    pub fn set_node_name(&mut self, node_id: &NodeId, name: String)
        requires
            tree_wf(old(self)@),
            0 <= node_id@ < old(self)@.nodes.len(),
        ensures
            tree_wf(final(self)@),
            final(self)@ == rename_node_v(old(self)@, node_id@, name@),
    {
        let ghost t0 = self@;
        let node = self.get_mut_node(node_id);
        node.data.name = name;
        proof {
            assert(self@ =~= rename_node_v(t0, node_id@, name@));
            let t2 = self@;
            assert forall|i: int| 0 <= i < t2.nodes.len() implies #[trigger] node_wf(t2, i) by {
                assert(node_wf(t0, i));
                assert(t2.nodes[i].children =~= t0.nodes[i].children);
            }
        }
    }

    /// The node the cursor rests on.
    pub fn get_top_node(&self) -> (r: &TreeNode)
        requires
            tree_wf(self@),
        ensures
            r@ == self@.nodes[self@.top],
    {
        &self.nodes[self.top_call_stack_node.index]
    }

    /// The node the cursor rests on, for mutation.
    pub fn get_mut_top_node(&mut self) -> (r: &mut TreeNode)
        requires
            tree_wf(old(self)@),
        ensures
            r@ == old(self)@.nodes[old(self)@.top],
            final(self)@ == (TreeV {
                nodes: old(self)@.nodes.update(old(self)@.top, final(r)@),
                ..old(self)@
            }),
    {
        &mut self.nodes[self.top_call_stack_node.index]
    }

    /// The node at `node_id`.
    pub fn get_node(&self, node_id: &NodeId) -> (r: &TreeNode)
        requires
            tree_wf(self@),
            0 <= node_id@ < self@.nodes.len(),
        ensures
            r@ == self@.nodes[node_id@],
    {
        &self.nodes[node_id.index]
    }

    /// The node at `node_id`, for mutation.
    pub fn get_mut_node(&mut self, node_id: &NodeId) -> (r: &mut TreeNode)
        requires
            tree_wf(old(self)@),
            0 <= node_id@ < old(self)@.nodes.len(),
        ensures
            r@ == old(self)@.nodes[node_id@],
            final(self)@ == (TreeV {
                nodes: old(self)@.nodes.update(node_id@, final(r)@),
                ..old(self)@
            }),
    {
        &mut self.nodes[node_id.index]
    }

    /// The synthetic root node.
    pub fn get_root_node(&self) -> (r: &TreeNode)
        requires
            tree_wf(self@),
        ensures
            r@ == self@.nodes[0],
    {
        &self.nodes[self.root_node.index]
    }
}

// ---------------------------------------------------------------------
// Sample reconciliation
// ---------------------------------------------------------------------
/// The descent a raw frame handle causes: `begin_with_key_v` keyed by
/// the handle, a fresh node temporarily named by the handle's decimal
/// form.
pub open spec fn begin_handle_v(t: TreeV, method: u64) -> TreeV {
    begin_with_key_v(t, KeyV::Handle(method), text::dec_digits(method as nat))
}

/// Reconciling one snapshot's frame walk: the frames of `rs` (already
/// ordered outermost first) are descended into one after the other.
pub open spec fn walk_v(t: TreeV, rs: Seq<u64>) -> TreeV
    decreases rs.len(),
{
    if rs.len() == 0 {
        t
    } else {
        walk_v(begin_handle_v(t, rs[0]), rs.subrange(1, rs.len() as int))
    }
}

/// What `begin_with_key_v` leaves untouched: everything but the cursor,
/// the top node's child list and the arena's tail.
pub proof fn lemma_begin_props(t: TreeV, key: KeyV, name: Seq<char>)
    requires
        tree_wf(t),
    ensures
        ({
            let t2 = begin_with_key_v(t, key, name);
            &&& tree_wf(t2)
            &&& t2.total == t.total
            &&& t2.thread_id == t.thread_id
            &&& t2.root == t.root
            &&& t.nodes.len() <= t2.nodes.len() <= t.nodes.len() + 1
            &&& forall|j: int|
                0 <= j < t.nodes.len() ==> {
                    let n0 = #[trigger] t.nodes[j];
                    let n2 = t2.nodes[j];
                    &&& n2.count == n0.count
                    &&& n2.duration == n0.duration
                    &&& n2.name == n0.name
                    &&& n2.depth == n0.depth
                    &&& n2.parent == n0.parent
                }
            &&& forall|j: int|
                t.nodes.len() <= j < t2.nodes.len() ==> {
                    let n2 = #[trigger] t2.nodes[j];
                    &&& n2.count == 0
                    &&& n2.duration == 0
                }
        }),
{
    lemma_begin_wf(t, key, name);
}

/// What a whole frame walk leaves untouched: counts, durations and
/// names of pre-existing nodes, the running total, and the identity
/// fields; at most one node is allocated per frame, each with zeroed
/// accounting.
pub proof fn lemma_walk_props(t: TreeV, rs: Seq<u64>)
    requires
        tree_wf(t),
    ensures
        ({
            let t2 = walk_v(t, rs);
            &&& tree_wf(t2)
            &&& t2.total == t.total
            &&& t2.thread_id == t.thread_id
            &&& t2.root == t.root
            &&& t.nodes.len() <= t2.nodes.len() <= t.nodes.len() + rs.len()
            &&& forall|j: int|
                0 <= j < t.nodes.len() ==> {
                    let n0 = #[trigger] t.nodes[j];
                    let n2 = t2.nodes[j];
                    &&& n2.count == n0.count
                    &&& n2.duration == n0.duration
                    &&& n2.name == n0.name
                    &&& n2.depth == n0.depth
                    &&& n2.parent == n0.parent
                }
            &&& forall|j: int|
                t.nodes.len() <= j < t2.nodes.len() ==> {
                    let n2 = #[trigger] t2.nodes[j];
                    &&& n2.count == 0
                    &&& n2.duration == 0
                }
        }),
    decreases rs.len(),
{
    if rs.len() > 0 {
        lemma_begin_props(t, KeyV::Handle(rs[0]), text::dec_digits(rs[0] as nat));
        lemma_walk_props(begin_handle_v(t, rs[0]), rs.subrange(1, rs.len() as int));
    }
}

/// Whether machine-integer limits leave room to reconcile one sample of
/// `nframes` frames carrying reading `cpu` into tree `t`: the arena can
/// take the new nodes, every call count can still be bumped, and — when
/// a delta would be credited — the delta and every possible crediting
/// stay within the i64 range.
pub open spec fn sample_fits_v(t: TreeV, cpu: int, nframes: nat) -> bool {
    &&& t.nodes.len() + nframes < u32::MAX
    &&& forall|j: int| 0 <= j < t.nodes.len() ==> (#[trigger] t.nodes[j]).count + 1 <= u32::MAX
    &&& (t.total > 0 && t.total < cpu ==> i64::MIN <= cpu - t.total <= i64::MAX && forall|j: int|
        0 <= j < t.nodes.len() ==> i64::MIN <= (#[trigger] t.nodes[j]).duration + (cpu - t.total)
            <= i64::MAX)
}

impl CallStackTree {
    /// Whether machine-integer limits leave room to reconcile a sample
    /// of `nframes` frames with reading `cpu_time` into this tree.
    /// Callers check this before `merge_stack_sample`/`end_last_call`.
    pub fn sample_fits(&self, cpu_time: i64, nframes: usize) -> (r: bool)
        ensures
            r == sample_fits_v(self@, cpu_time as int, nframes as nat),
    {
        if !(nframes < u32::MAX as usize && self.nodes.len() < u32::MAX as usize - nframes) {
            return false;
        }
        if self.total_duration > 0 && self.total_duration < cpu_time {
            let delta: i128 = cpu_time as i128 - self.total_duration as i128;
            if delta < i64::MIN as i128 || delta > i64::MAX as i128 {
                return false;
            }
        }
        let mut j: usize = 0;
        while j < self.nodes.len()
            invariant
                0 <= j <= self@.nodes.len(),
                self@.nodes.len() + nframes < u32::MAX,
                forall|x: int| 0 <= x < j ==> (#[trigger] self@.nodes[x]).count + 1 <= u32::MAX,
                self@.total > 0 && self@.total < cpu_time ==> i64::MIN <= cpu_time - self@.total
                    <= i64::MAX,
                self@.total > 0 && self@.total < cpu_time ==> forall|x: int|
                    0 <= x < j ==> i64::MIN <= (#[trigger] self@.nodes[x]).duration + (cpu_time
                        - self@.total) <= i64::MAX,
            decreases self@.nodes.len() - j,
        {
            let n = &self.nodes[j];
            proof {
                assert(self@.nodes[j as int] == self.nodes@[j as int]@);
            }
            if n.data.call_count == u32::MAX {
                proof {
                    assert(self@.nodes[j as int].count + 1 > u32::MAX);
                }
                return false;
            }
            if self.total_duration > 0 && self.total_duration < cpu_time {
                let credited: i128 = n.data.call_duration as i128 + (cpu_time as i128
                    - self.total_duration as i128);
                if credited < i64::MIN as i128 || credited > i64::MAX as i128 {
                    proof {
                        assert(!(i64::MIN <= self@.nodes[j as int].duration + (cpu_time
                            - self@.total) <= i64::MAX));
                    }
                    return false;
                }
            }
            j += 1;
        }
        true
    }

    /// Reconciles one snapshot's frames (delivered innermost first) into
    /// the tree, walking outermost first from the current cursor.  Each
    /// frame whose node is not there yet is allocated keyed by its raw
    /// handle; the returned list pairs each such fresh node with the
    /// handle, so that the caller can resolve names afterwards — the
    /// walk itself never blocks on symbol lookup.
    pub fn merge_stack_sample(&mut self, frames: &Vec<u64>) -> (naming: Vec<(NodeId, u64)>)
        requires
            tree_wf(old(self)@),
            old(self)@.nodes.len() + frames@.len() < u32::MAX,
        ensures
            tree_wf(final(self)@),
            final(self)@ == walk_v(old(self)@, frames@.reverse()),
            final(self)@.nodes.len() == old(self)@.nodes.len() + naming@.len(),
            forall|j: int|
                0 <= j < naming@.len() ==> (#[trigger] naming@[j]).0@ == old(self)@.nodes.len()
                    + j,
    {
        let ghost t0 = self@;
        let ghost rs = frames@.reverse();
        proof {
            lemma_walk_props(t0, rs);
        }
        let mut naming: Vec<(NodeId, u64)> = Vec::new();
        proof {
            assert(rs.subrange(0, rs.len() as int) =~= rs);
        }
        let mut k: usize = frames.len();
        while k > 0
            invariant
                tree_wf(self@),
                tree_wf(t0),
                0 <= k <= frames@.len(),
                rs == frames@.reverse(),
                t0.nodes.len() + frames@.len() < u32::MAX,
                t0.nodes.len() <= self@.nodes.len() <= t0.nodes.len() + (frames@.len() - k),
                walk_v(self@, rs.subrange(frames@.len() - k, rs.len() as int)) == walk_v(t0, rs),
                self@.nodes.len() == t0.nodes.len() + naming@.len(),
                forall|j: int|
                    0 <= j < naming@.len() ==> (#[trigger] naming@[j]).0@ == t0.nodes.len() + j,
            decreases k,
        {
            k -= 1;
            let ghost jj = frames@.len() - 1 - k;
            proof {
                assert(rs[jj] == frames@[k as int]);
                assert(rs.subrange(jj, rs.len() as int).subrange(
                    1,
                    rs.len() - jj,
                ) =~= rs.subrange(jj + 1, rs.len() as int));
                assert(rs.subrange(jj, rs.len() as int)[0] == rs[jj]);
            }
            let method = frames[k];
            let found = self.begin_call_handle(method);
            if !found {
                let top = self.get_top_node();
                naming.push((top.data.node_id, method));
            }
        }
        proof {
            assert(rs.subrange(frames@.len() - 0, rs.len() as int) =~= Seq::<u64>::empty());
        }
        naming
    }
}

// ---------------------------------------------------------------------
// Rendering
// ---------------------------------------------------------------------
/// Two spaces of indentation per level of depth.
pub open spec fn indent_v(depth: int) -> Seq<char>
    decreases depth,
{
    if depth <= 0 {
        Seq::empty()
    } else {
        indent_v(depth - 1) + "  "@
    }
}

/// The line prefix showing a node's depth: the depth as a decimal number
/// and a comma in compact mode, else indentation.
pub open spec fn prefix_v(depth: int, compact: bool) -> Seq<char> {
    if compact {
        text::dec_digits(if depth >= 0 {
            depth as nat
        } else {
            0
        }) + ","@
    } else {
        indent_v(depth)
    }
}

/// The sum of the durations of the nodes the child entries of `cs` at or
/// after position `k` point at.
pub open spec fn sum_child_dur_from(t: TreeV, cs: Seq<(KeyV, int)>, k: int) -> int
    decreases cs.len() - k,
{
    if k < 0 || k >= cs.len() {
        0
    } else {
        t.nodes[cs[k].1].duration + sum_child_dur_from(t, cs, k + 1)
    }
}

/// The duration a node displays: its own, plus — for the synthetic root,
/// which never accumulates call time of its own — the sum of its direct
/// children's durations.
pub open spec fn displayed_duration_v(t: TreeV, i: int) -> int {
    if i == 0 {
        t.nodes[i].duration + sum_child_dur_from(t, t.nodes[i].children, 0)
    } else {
        t.nodes[i].duration
    }
}

/// One rendered line: prefix, name, then the call count and the duration
/// in display units.
pub open spec fn line_v(t: TreeV, i: int, compact: bool) -> Seq<char> {
    prefix_v(t.nodes[i].depth, compact) + t.nodes[i].name + "[calls="@ + text::dec_digits(
        if t.nodes[i].count >= 0 {
            t.nodes[i].count as nat
        } else {
            0
        },
    ) + ", duration="@ + text::duration_display(displayed_duration_v(t, i)) + "]\n"@
}

/// The rendered text of the subtree rooted at node `i`: its own line,
/// then each child's subtree in child-list order (pre-order traversal).
pub open spec fn render_node_v(t: TreeV, i: int, compact: bool) -> Seq<char>
    decreases t.nodes.len() - i, 1 + t.nodes[i].children.len()
        when tree_wf(t) && 0 <= i < t.nodes.len()
{
    line_v(t, i, compact) + render_children_v(t, i, 0, compact)
}

/// The rendered text of the subtrees of the children of node `i` from
/// child position `k` on.
pub open spec fn render_children_v(t: TreeV, i: int, k: int, compact: bool) -> Seq<char>
    decreases t.nodes.len() - i, t.nodes[i].children.len() - k
        when tree_wf(t) && 0 <= i < t.nodes.len() && 0 <= k
        via render_children_v_decreases
{
    if k >= t.nodes[i].children.len() {
        Seq::empty()
    } else {
        render_node_v(t, t.nodes[i].children[k].1, compact) + render_children_v(
            t,
            i,
            k + 1,
            compact,
        )
    }
}

#[via_fn]
proof fn render_children_v_decreases(t: TreeV, i: int, k: int, compact: bool) {
    assert(node_wf(t, i));
}

/// Every field of a tree's view that mirrors a machine integer lies in
/// that integer's range.  This holds of the view of every
/// `CallStackTree` value; `CallStackTree::lemma_view_bounded` provides
/// it.
pub open spec fn view_bounded(t: TreeV) -> bool {
    forall|i: int|
        0 <= i < t.nodes.len() ==> {
            let n = #[trigger] t.nodes[i];
            &&& i64::MIN <= n.duration <= i64::MAX
            &&& 0 <= n.count <= u32::MAX
            &&& 0 <= n.depth <= u32::MAX
        }
}

/// A child-duration sum over `m` entries lies within `m` times the i64
/// range.
proof fn lemma_sum_child_dur_bound(t: TreeV, cs: Seq<(KeyV, int)>, k: int)
    requires
        view_bounded(t),
        0 <= k <= cs.len(),
        forall|j: int| 0 <= j < cs.len() ==> 0 <= (#[trigger] cs[j]).1 < t.nodes.len(),
    ensures
        -(cs.len() - k) * 0x8000_0000_0000_0000 <= sum_child_dur_from(t, cs, k) <= (cs.len() - k)
            * 0x7fff_ffff_ffff_ffff,
    decreases cs.len() - k,
{
    if k < cs.len() {
        lemma_sum_child_dur_bound(t, cs, k + 1);
    }
}

/// Rendering is a pure function of the tree value: two renderings of
/// the same tree without intervening mutation are the same text.
pub proof fn lemma_render_idempotent(t: TreeV, compact: bool, r1: Seq<char>, r2: Seq<char>)
    requires
        r1 == render_node_v(t, 0, compact),
        r2 == render_node_v(t, 0, compact),
    ensures
        r1 == r2,
{
}

impl CallStackTree {
    /// The view of a tree only ever mirrors machine integers.
    pub proof fn lemma_view_bounded(&self)
        ensures
            view_bounded(self@),
    {
        assert forall|i: int| 0 <= i < self@.nodes.len() implies {
            let n = #[trigger] self@.nodes[i];
            &&& i64::MIN <= n.duration <= i64::MAX
            &&& 0 <= n.count <= u32::MAX
            &&& 0 <= n.depth <= u32::MAX
        } by {
            assert(self@.nodes[i] == self.nodes@[i]@);
        }
    }

    /// Renders the whole tree, beginning at the root.
    pub fn format_call_tree(&self, compact: bool) -> (r: String)
        requires
            tree_wf(self@),
        ensures
            r@ == render_node_v(self@, self@.root, compact),
    {
        let mut result = String::new();
        self.format_tree_node(&mut result, &self.root_node, compact);
        proof {
            assert(result@ =~= render_node_v(self@, self@.root, compact));
        }
        result
    }

    /// Appends the rendered subtree of the node at `nodeid` to `result`.
    pub fn format_tree_node(&self, result: &mut String, nodeid: &NodeId, compact: bool)
        requires
            tree_wf(self@),
            0 <= nodeid@ < self@.nodes.len(),
        ensures
            final(result)@ == old(result)@ + render_node_v(self@, nodeid@, compact),
        decreases self@.nodes.len() - nodeid@,
    {
        let ghost t = self@;
        let ghost i = nodeid@;
        proof {
            assert(node_wf(t, i));
        }
        let node = self.get_node(nodeid);
        if compact {
            result.append(text::u64_to_dec(node.data.depth as u64).as_str());
            result.append(",");
        } else {
            let mut x: u32 = 0;
            while x < node.data.depth
                invariant
                    0 <= x <= node.data.depth,
                    result@ == old(result)@ + indent_v(x as int),
                    node@ == t.nodes[i],
                decreases node.data.depth - x,
            {
                result.append("  ");
                x += 1;
            }
        }
        proof {
            assert(result@ =~= old(result)@ + prefix_v(t.nodes[i].depth, compact));
        }
        result.append(node.data.name.as_str());
        result.append("[calls=");
        result.append(text::u64_to_dec(node.data.call_count as u64).as_str());
        result.append(", duration=");
        let mut dur: i128 = node.data.call_duration as i128;
        if nodeid.index == 0 {
            proof {
                self.lemma_view_bounded();
                lemma_sum_child_dur_bound(t, t.nodes[i].children, 0);
            }
            let ghost cs = t.nodes[i].children;
            let mut k: usize = 0;
            while k < node.children.len()
                invariant
                    tree_wf(t),
                    view_bounded(t),
                    self@ == t,
                    0 <= i < t.nodes.len(),
                    node@ == t.nodes[i],
                    node_wf(t, i),
                    cs == t.nodes[i].children,
                    0 <= k <= cs.len(),
                    dur + sum_child_dur_from(t, cs, k as int) == t.nodes[i].duration
                        + sum_child_dur_from(t, cs, 0),
                    i64::MIN + -(k as int) * 0x8000_0000_0000_0000 <= dur <= i64::MAX + (
                    k as int) * 0x7fff_ffff_ffff_ffff,
                decreases cs.len() - k,
            {
                proof {
                    lemma_sum_child_dur_bound(t, cs, k as int + 1);
                }
                let child = node.children[k].1;
                let d = self.get_node(&child).data.call_duration;
                dur = dur + d as i128;
                k += 1;
            }
            proof {
                assert(sum_child_dur_from(t, cs, cs.len() as int) == 0);
                if cs.len() > 0 {
                    lemma_child_index_lower_bound(cs, i, cs.len() - 1);
                }
            }
        }
        proof {
            assert(dur as int == displayed_duration_v(t, i));
            assert(dur > i128::MIN);
        }
        result.append(text::i128_duration_to_display(dur).as_str());
        result.append("]\n");
        proof {
            assert(result@ =~= old(result)@ + line_v(t, i, compact));
            assert(result@ + render_children_v(t, i, 0, compact) =~= old(result)@
                + render_node_v(t, i, compact));
        }
        let ghost before_children = result@;
        let mut k: usize = 0;
        while k < node.children.len()
            invariant
                tree_wf(t),
                self@ == t,
                0 <= i < t.nodes.len(),
                i == nodeid@,
                node@ == t.nodes[i],
                node_wf(t, i),
                0 <= k <= t.nodes[i].children.len(),
                before_children == old(result)@ + line_v(t, i, compact),
                result@ + render_children_v(t, i, k as int, compact) == old(result)@
                    + render_node_v(t, i, compact),
            decreases t.nodes[i].children.len() - k,
        {
            let child = node.children[k].1;
            proof {
                assert(i < t.nodes[i].children[k as int].1 < t.nodes.len());
            }
            self.format_tree_node(result, &child, compact);
            k += 1;
            proof {
                assert(result@ + render_children_v(t, i, k as int, compact) =~= old(result)@
                    + render_node_v(t, i, compact));
            }
        }
        proof {
            assert(render_children_v(t, i, t.nodes[i].children.len() as int, compact)
                =~= Seq::<char>::empty());
            assert(final(result)@ =~= old(result)@ + render_node_v(t, i, compact));
        }
    }
}

// ---------------------------------------------------------------------
// The registry of trees
// ---------------------------------------------------------------------
/// The process-wide registry mapping thread identity to that thread's
/// call tree.  Entries are created lazily on the first event for a
/// thread and removed only by `clear`.  Callers serialize access; the
/// registry itself takes no lock.
pub struct TreeArena {
    thread_trees: Vec<CallStackTree>,
}

impl View for TreeArena {
    type V = Seq<TreeV>;

    closed spec fn view(&self) -> Seq<TreeV> {
        self.thread_trees@.map_values(|t: CallStackTree| t@)
    }
}

/// Well-formedness of the registry: every tree is well formed and no
/// two trees belong to the same thread.
pub open spec fn arena_wf(a: Seq<TreeV>) -> bool {
    &&& forall|i: int| 0 <= i < a.len() ==> tree_wf(#[trigger] a[i])
    &&& forall|i: int, j: int|
        0 <= i < j < a.len() ==> (#[trigger] a[i]).thread_id != (#[trigger] a[j]).thread_id
}

/// The first position at or after `k` holding thread `tid`'s tree.
pub open spec fn arena_find_from(a: Seq<TreeV>, tid: u64, k: int) -> Option<int>
    decreases a.len() - k,
{
    if k < 0 || k >= a.len() {
        None
    } else if a[k].thread_id == tid {
        Some(k)
    } else {
        arena_find_from(a, tid, k + 1)
    }
}

/// The position of thread `tid`'s tree in the registry, if present.
pub open spec fn arena_find(a: Seq<TreeV>, tid: u64) -> Option<int> {
    arena_find_from(a, tid, 0)
}

pub proof fn lemma_arena_find_some(a: Seq<TreeV>, tid: u64, k: int, i: int)
    requires
        0 <= k,
        arena_find_from(a, tid, k) == Some(i),
    ensures
        k <= i < a.len(),
        a[i].thread_id == tid,
    decreases a.len() - k,
{
    if k < a.len() && a[k].thread_id != tid {
        lemma_arena_find_some(a, tid, k + 1, i);
    }
}

pub proof fn lemma_arena_find_none(a: Seq<TreeV>, tid: u64, k: int)
    requires
        0 <= k,
        arena_find_from(a, tid, k) is None,
    ensures
        forall|j: int| k <= j < a.len() ==> (#[trigger] a[j]).thread_id != tid,
    decreases a.len() - k,
{
    if k < a.len() {
        lemma_arena_find_none(a, tid, k + 1);
    }
}

/// Replacing a tree without changing its thread keeps it findable at
/// its position.
pub proof fn lemma_arena_find_update(a: Seq<TreeV>, tid: u64, i: int, t2: TreeV)
    requires
        0 <= i < a.len(),
        arena_find(a, tid) == Some(i),
        t2.thread_id == a[i].thread_id,
    ensures
        arena_find(a.update(i, t2), tid) == Some(i),
{
    lemma_arena_find_some(a, tid, 0, i);
    lemma_arena_find_from_update(a, tid, 0, i, t2);
}

proof fn lemma_arena_find_from_update(a: Seq<TreeV>, tid: u64, k: int, i: int, t2: TreeV)
    requires
        0 <= k,
        arena_find_from(a, tid, k) == Some(i),
        0 <= i < a.len(),
        a[i].thread_id == tid,
        t2.thread_id == tid,
    ensures
        arena_find_from(a.update(i, t2), tid, k) == Some(i),
    decreases a.len() - k,
{
    if k < a.len() && a[k].thread_id != tid {
        lemma_arena_find_from_update(a, tid, k + 1, i, t2);
    }
}

/// Appending a tree for a thread the registry does not hold makes it
/// findable at the end.
pub proof fn lemma_arena_find_push(a: Seq<TreeV>, tid: u64, t2: TreeV)
    requires
        arena_find(a, tid) is None,
        t2.thread_id == tid,
    ensures
        arena_find(a.push(t2), tid) == Some(a.len() as int),
{
    lemma_arena_find_from_push(a, tid, 0, t2);
}

proof fn lemma_arena_find_from_push(a: Seq<TreeV>, tid: u64, k: int, t2: TreeV)
    requires
        0 <= k <= a.len(),
        arena_find_from(a, tid, k) is None,
        t2.thread_id == tid,
    ensures
        arena_find_from(a.push(t2), tid, k) == Some(a.len() as int),
    decreases a.len() - k,
{
    if k < a.len() {
        lemma_arena_find_from_push(a, tid, k + 1, t2);
    }
}

/// What a registry-level `begin_call` does: apply the descent to the
/// thread's tree, creating the tree first if the thread is new.
pub open spec fn arena_begin_v(
    a: Seq<TreeV>,
    tid: u64,
    tname: Seq<char>,
    key: KeyV,
    name: Seq<char>,
) -> Seq<TreeV> {
    match arena_find(a, tid) {
        Some(i) => a.update(i, begin_with_key_v(a[i], key, name)),
        None => a.push(begin_with_key_v(new_tree_v(tid, tname), key, name)),
    }
}

/// What a registry-level `end_call` does: apply the exit to the
/// thread's tree; an exit for an unknown thread does nothing.
pub open spec fn arena_end_v(a: Seq<TreeV>, tid: u64, key_name: Seq<char>, duration: int) -> Seq<
    TreeV,
> {
    match arena_find(a, tid) {
        Some(i) => a.update(i, end_call_v(a[i], key_name, duration)),
        None => a,
    }
}

/// One rendered registry block: a header naming the thread, then the
/// thread's tree, then a blank line.
pub open spec fn tree_block_v(t: TreeV) -> Seq<char> {
    "call tree of thread: ["@ + text::dec_digits(t.thread_id as nat) + "]\n"@ + render_node_v(
        t,
        0,
        false,
    ) + "\n"@
}

/// The rendered blocks of all trees from position `k` on.
pub open spec fn arena_blocks_v(a: Seq<TreeV>, k: int) -> Seq<char>
    decreases a.len() - k,
{
    if k < 0 || k >= a.len() {
        Seq::empty()
    } else {
        tree_block_v(a[k]) + arena_blocks_v(a, k + 1)
    }
}

impl TreeArena {
    /// An empty registry.
    pub fn new() -> (r: TreeArena)
        ensures
            r@ == Seq::<TreeV>::empty(),
            arena_wf(r@),
    {
        let r = TreeArena { thread_trees: Vec::new() };
        proof {
            assert(r@ =~= Seq::<TreeV>::empty());
        }
        r
    }

    /// All trees, one per observed thread.
    pub fn get_all_call_trees(&self) -> (r: &Vec<CallStackTree>)
        ensures
            r@.map_values(|t: CallStackTree| t@) == self@,
    {
        &self.thread_trees
    }

    /// The position of thread `thread_id`'s tree, if the registry holds
    /// one.
    fn find_tree_index(&self, thread_id: u64) -> (r: Option<usize>)
        ensures
            match r {
                Some(i) => arena_find(self@, thread_id) == Some(i as int),
                None => arena_find(self@, thread_id) is None,
            },
    {
        let mut k: usize = 0;
        while k < self.thread_trees.len()
            invariant
                0 <= k <= self.thread_trees@.len(),
                arena_find(self@, thread_id) == arena_find_from(self@, thread_id, k as int),
            decreases self.thread_trees@.len() - k,
        {
            if self.thread_trees[k].thread_id == thread_id {
                return Some(k);
            }
            k += 1;
        }
        None
    }

    /// The tree for thread `thread_id`, if the registry holds one; a
    /// non-creating lookup for read-only paths.
    pub fn get(&self, thread_id: u64) -> (r: Option<&CallStackTree>)
        ensures
            match r {
                Some(t) => arena_find(self@, thread_id) is Some && t@ == self@[arena_find(
                    self@,
                    thread_id,
                )->Some_0],
                None => arena_find(self@, thread_id) is None,
            },
    {
        match self.find_tree_index(thread_id) {
            Some(i) => {
                proof {
                    lemma_arena_find_some(self@, thread_id, 0, i as int);
                }
                Some(&self.thread_trees[i])
            },
            None => None,
        }
    }

    /// The tree for `thread`, created rooted and empty if the thread has
    /// not been observed before.  This is the only creation path.
    pub fn get_call_tree(&mut self, thread: &Thread) -> (r: &mut CallStackTree)
        requires
            arena_wf(old(self)@),
        ensures
            match arena_find(old(self)@, thread.id.native_id) {
                Some(i) => (*r)@ == old(self)@[i] && final(self)@ =~= old(self)@.update(
                    i,
                    final(r)@,
                ),
                None => (*r)@ == new_tree_v(thread.id.native_id, thread.name@) && final(self)@
                    =~= old(self)@.push(final(r)@),
            },
    {
        let tid = thread.id.native_id;
        let i = match self.find_tree_index(tid) {
            Some(i) => i,
            None => {
                let l = self.thread_trees.len();
                self.thread_trees.push(CallStackTree::new(tid, thread.name.as_str()));
                l
            },
        };
        proof {
            if arena_find(old(self)@, tid) is Some {
                lemma_arena_find_some(old(self)@, tid, 0, i as int);
            }
        }
        &mut self.thread_trees[i]
    }

    /// Registry-level method entry: descend in (or create) the calling
    /// thread's tree.
    pub fn begin_call(&mut self, thread: &Thread, class_name: &String, method_name: &String)
        requires
            arena_wf(old(self)@),
            match arena_find(old(self)@, thread.id.native_id) {
                Some(i) => old(self)@[i].nodes.len() < u32::MAX,
                None => true,
            },
        ensures
            arena_wf(final(self)@),
            final(self)@ == arena_begin_v(
                old(self)@,
                thread.id.native_id,
                thread.name@,
                KeyV::Name(class_name@ + "."@ + method_name@),
                class_name@ + "."@ + method_name@,
            ),
    {
        let ghost a0 = self@;
        let tid = thread.id.native_id;
        match self.find_tree_index(tid) {
            Some(i) => {
                proof {
                    lemma_arena_find_some(a0, tid, 0, i as int);
                }
                let tree = &mut self.thread_trees[i];
                tree.begin_call(class_name, method_name);
                proof {
                    assert(self@ =~= arena_begin_v(
                        a0,
                        tid,
                        thread.name@,
                        KeyV::Name(class_name@ + "."@ + method_name@),
                        class_name@ + "."@ + method_name@,
                    ));
                }
            },
            None => {
                let mut tree = CallStackTree::new(tid, thread.name.as_str());
                tree.begin_call(class_name, method_name);
                self.thread_trees.push(tree);
                proof {
                    lemma_arena_find_none(a0, tid, 0);
                    assert(self@ =~= arena_begin_v(
                        a0,
                        tid,
                        thread.name@,
                        KeyV::Name(class_name@ + "."@ + method_name@),
                        class_name@ + "."@ + method_name@,
                    ));
                }
            },
        }
    }

    /// Registry-level method exit: apply the exit to the calling
    /// thread's tree; an exit for an unknown thread does nothing.
    pub fn end_call(&mut self, thread: &Thread, class_name: &String, method_name: &String, duration: i64)
        requires
            arena_wf(old(self)@),
            match arena_find(old(self)@, thread.id.native_id) {
                Some(i) => ({
                    let t = old(self)@[i];
                    t.nodes[t.top].name == class_name@ + "."@ + method_name@ ==> ({
                        let top = t.nodes[t.top];
                        &&& top.count + 1 <= u32::MAX
                        &&& i64::MIN <= top.duration + duration <= i64::MAX
                    })
                }),
                None => true,
            },
        ensures
            arena_wf(final(self)@),
            final(self)@ == arena_end_v(
                old(self)@,
                thread.id.native_id,
                class_name@ + "."@ + method_name@,
                duration as int,
            ),
    {
        let ghost a0 = self@;
        let tid = thread.id.native_id;
        match self.find_tree_index(tid) {
            Some(i) => {
                proof {
                    lemma_arena_find_some(a0, tid, 0, i as int);
                }
                let tree = &mut self.thread_trees[i];
                tree.end_call(class_name, method_name, duration);
                proof {
                    assert(self@ =~= arena_end_v(
                        a0,
                        tid,
                        class_name@ + "."@ + method_name@,
                        duration as int,
                    ));
                }
            },
            None => {},
        }
    }

    /// Renders thread `thread`'s tree, or reports that no tree exists.
    pub fn format_call_tree(&mut self, thread: &Thread, compact: bool) -> (r: String)
        requires
            arena_wf(old(self)@),
        ensures
            *final(self) == *old(self),
            r@ == match arena_find(old(self)@, thread.id.native_id) {
                Some(i) => render_node_v(old(self)@[i], 0, compact),
                None => "[call tree not found]"@,
            },
    {
        let tid = thread.id.native_id;
        match self.find_tree_index(tid) {
            Some(i) => {
                proof {
                    lemma_arena_find_some(self@, tid, 0, i as int);
                }
                self.thread_trees[i].format_call_tree(compact)
            },
            None => String::from_str("[call tree not found]"),
        }
    }

    /// Renders every tree in the registry, one block per thread, in
    /// registry order.
    pub fn format_all(&self) -> (r: String)
        requires
            arena_wf(self@),
        ensures
            r@ == arena_blocks_v(self@, 0),
    {
        let mut result = String::new();
        proof {
            assert(result@ + arena_blocks_v(self@, 0) =~= arena_blocks_v(self@, 0));
        }
        let mut k: usize = 0;
        while k < self.thread_trees.len()
            invariant
                arena_wf(self@),
                0 <= k <= self@.len(),
                result@ + arena_blocks_v(self@, k as int) == arena_blocks_v(self@, 0),
            decreases self@.len() - k,
        {
            let tree = &self.thread_trees[k];
            result.append("call tree of thread: [");
            result.append(text::u64_to_dec(tree.thread_id).as_str());
            result.append("]\n");
            let body = tree.format_call_tree(false);
            result.append(body.as_str());
            result.append("\n");
            k += 1;
            proof {
                assert(result@ + arena_blocks_v(self@, k as int) =~= arena_blocks_v(self@, 0));
            }
        }
        proof {
            assert(result@ =~= arena_blocks_v(self@, 0));
        }
        result
    }

    /// Discards every tree.
    pub fn clear(&mut self)
        ensures
            final(self)@ == Seq::<TreeV>::empty(),
    {
        self.thread_trees.clear();
        proof {
            assert(self@ =~= Seq::<TreeV>::empty());
        }
    }
}

} // verus!
