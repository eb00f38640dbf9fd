//! Per-thread call trees for the event-driven tracing mode.
//!
//! Like the sampling engine's trees, each `ThreadData` is an
//! append-only arena of nodes with a cursor for the active frame, but
//! here every child is keyed by a fully qualified
//! `package.Class.method` name, each node records its whole call path,
//! and durations arrive with the exit events.

use vstd::prelude::*;
use vstd::string::StringExecFns;
use crate::text;
use crate::thread::{Thread, ThreadId};

verus! {

/// An index into one tree's node arena.
#[derive(Clone, Copy)]
pub struct NodeId {
    index: usize,
}

impl View for NodeId {
    type V = int;

    closed spec fn view(&self) -> int {
        self.index as int
    }
}

/// The per-node payload: identity, position, display name, full call
/// path and the accumulated accounting.
pub struct NodeData {
    pub node_id: NodeId,
    pub depth: u32,
    pub name: String,
    pub path: String,
    pub call_count: u32,
    pub call_duration: i64,
    pub children_size: u32,
}

/// One node of a call tree.
pub struct TreeNode {
    pub data: NodeData,
    pub parent: Option<NodeId>,
    pub children: Vec<(String, NodeId)>,
}

/// The mathematical form of a `TreeNode`.
#[verifier::ext_equal]
pub ghost struct NodeV {
    pub id: int,
    pub depth: int,
    pub name: Seq<char>,
    pub path: Seq<char>,
    pub count: int,
    pub duration: int,
    pub children_size: int,
    pub parent: Option<int>,
    pub children: Seq<(Seq<char>, int)>,
}

impl View for TreeNode {
    type V = NodeV;

    open spec fn view(&self) -> NodeV {
        NodeV {
            id: self.data.node_id@,
            depth: self.data.depth as int,
            name: self.data.name@,
            path: self.data.path@,
            count: self.data.call_count as int,
            duration: self.data.call_duration as int,
            children_size: self.data.children_size as int,
            parent: match self.parent {
                Some(p) => Some(p@),
                None => None,
            },
            children: self.children@.map_values(|e: (String, NodeId)| (e.0@, e.1@)),
        }
    }
}

/// One thread's call tree.
pub struct ThreadData {
    nodes: Vec<TreeNode>,
    root_node: NodeId,
    top_call_stack_node: NodeId,
}

/// The mathematical form of a `ThreadData`.
#[verifier::ext_equal]
pub ghost struct DataV {
    pub nodes: Seq<NodeV>,
    pub root: int,
    pub top: int,
}

impl View for ThreadData {
    type V = DataV;

    closed spec fn view(&self) -> DataV {
        DataV {
            nodes: self.nodes@.map_values(|n: TreeNode| n@),
            root: self.root_node@,
            top: self.top_call_stack_node@,
        }
    }
}

/// Well-formedness of the node at index `i` within tree `t`.
pub open spec fn node_wf(t: DataV, i: int) -> bool {
    let n = t.nodes[i];
    &&& n.id == i
    &&& 0 <= n.depth <= i
    &&& (i == 0 ==> n.parent is None && n.depth == 0)
    &&& (i > 0 ==> n.parent is Some && 0 <= n.parent->Some_0 < i && n.depth == t.nodes[n.parent->Some_0].depth + 1)
    &&& n.children_size == n.children.len()
    &&& forall|k: int|
        0 <= k < n.children.len() ==> i < (#[trigger] n.children[k]).1 < t.nodes.len()
            && t.nodes[n.children[k].1].parent == Some(i)
    &&& forall|k1: int, k2: int|
        0 <= k1 < k2 < n.children.len() ==> (#[trigger] n.children[k1]).0 != (
        #[trigger] n.children[k2]).0
    &&& forall|k1: int, k2: int|
        0 <= k1 < k2 < n.children.len() ==> (#[trigger] n.children[k1]).1 < (
        #[trigger] n.children[k2]).1
}

/// Well-formedness of a whole tree.
pub open spec fn data_wf(t: DataV) -> bool {
    &&& t.nodes.len() >= 1
    &&& t.root == 0
    &&& 0 <= t.top < t.nodes.len()
    &&& forall|i: int| 0 <= i < t.nodes.len() ==> #[trigger] node_wf(t, i)
}

proof fn lemma_child_index_lower_bound(cs: Seq<(Seq<char>, int)>, i: int, k: int)
    requires
        0 <= k < cs.len(),
        forall|j: int| 0 <= j < cs.len() ==> i < (#[trigger] cs[j]).1,
        forall|k1: int, k2: int|
            0 <= k1 < k2 < cs.len() ==> (#[trigger] cs[k1]).1 < (#[trigger] cs[k2]).1,
    ensures
        cs[k].1 >= i + 1 + k,
    decreases k,
{
    if k > 0 {
        lemma_child_index_lower_bound(cs, i, k - 1);
    }
}

/// The first entry of `cs` at or after position `k` whose key is `key`.
pub open spec fn find_child_from(cs: Seq<(Seq<char>, int)>, key: Seq<char>, k: int) -> Option<int>
    decreases cs.len() - k,
{
    if k < 0 || k >= cs.len() {
        None
    } else if cs[k].0 == key {
        Some(cs[k].1)
    } else {
        find_child_from(cs, key, k + 1)
    }
}

/// The first child of node `i` keyed `key`, if any.
pub open spec fn find_child_v(t: DataV, i: int, key: Seq<char>) -> Option<int> {
    find_child_from(t.nodes[i].children, key, 0)
}

proof fn lemma_find_child_some(cs: Seq<(Seq<char>, int)>, key: Seq<char>, k: int, c: int)
    requires
        0 <= k,
        find_child_from(cs, key, k) == Some(c),
    ensures
        exists|j: int| k <= j < cs.len() && cs[j] == (key, c),
    decreases cs.len() - k,
{
    if k < cs.len() {
        if cs[k].0 == key {
            assert(cs[k] == (key, c));
        } else {
            lemma_find_child_some(cs, key, k + 1, c);
        }
    }
}

proof fn lemma_find_child_none(cs: Seq<(Seq<char>, int)>, key: Seq<char>, k: int)
    requires
        0 <= k,
        find_child_from(cs, key, k) is None,
    ensures
        forall|j: int| k <= j < cs.len() ==> (#[trigger] cs[j]).0 != key,
    decreases cs.len() - k,
{
    if k < cs.len() {
        lemma_find_child_none(cs, key, k + 1);
    }
}

/// The qualified call key: `"package.Class.method"`, or
/// `"Class.method"` when no package is given.
pub open spec fn node_key_v(package: Seq<char>, class_name: Seq<char>, method_name: Seq<char>) -> Seq<char> {
    if package.len() > 0 {
        package + "."@ + class_name + "."@ + method_name
    } else {
        class_name + "."@ + method_name
    }
}

/// The view of a fresh root node named `name`: its path is its name.
pub open spec fn root_node_v(name: Seq<char>) -> NodeV {
    NodeV {
        id: 0,
        depth: 0,
        name: name,
        path: name,
        count: 0,
        duration: 0,
        children_size: 0,
        parent: None,
        children: Seq::empty(),
    }
}

/// The view of the node a descent allocates: one level below `parent`,
/// keyed and named `name`, its path the parent's path extended.
pub open spec fn new_child_v(parent: NodeV, idx: int, name: Seq<char>) -> NodeV {
    NodeV {
        id: idx,
        depth: parent.depth + 1,
        name: name,
        path: parent.path + ";"@ + name,
        count: 0,
        duration: 0,
        children_size: 0,
        parent: Some(parent.id),
        children: Seq::empty(),
    }
}

/// What `begin_call` does: move the cursor to the child of the current
/// top keyed `name`, allocating it at the next arena index if absent.
pub open spec fn begin_v(t: DataV, name: Seq<char>) -> DataV {
    match find_child_v(t, t.top, name) {
        Some(c) => DataV { top: c, ..t },
        None => {
            let idx = t.nodes.len() as int;
            let parent0 = t.nodes[t.top];
            let parent1 = NodeV {
                children: parent0.children.push((name, idx)),
                children_size: parent0.children_size + 1,
                ..parent0
            };
            DataV { nodes: t.nodes.update(t.top, parent1).push(new_child_v(parent0, idx, name)), top: idx, ..t }
        },
    }
}

/// What `end_call` does: if `name` names the current top, credit the
/// duration, count the call and pop the cursor; else, or at the
/// parentless root, a protocol violation that leaves the cursor put.
pub open spec fn end_v(t: DataV, name: Seq<char>, duration: int) -> DataV {
    let top = t.nodes[t.top];
    if top.name == name {
        let top1 = NodeV { count: top.count + 1, duration: top.duration + duration, ..top };
        let t1 = DataV { nodes: t.nodes.update(t.top, top1), ..t };
        match top.parent {
            Some(p) => DataV { top: p, ..t1 },
            None => t1,
        }
    } else {
        t
    }
}

/// `begin_v` preserves well-formedness.
pub proof fn lemma_begin_wf(t: DataV, name: Seq<char>)
    requires
        data_wf(t),
    ensures
        data_wf(begin_v(t, name)),
{
    let t2 = begin_v(t, name);
    match find_child_v(t, t.top, name) {
        Some(c) => {
            lemma_find_child_some(t.nodes[t.top].children, name, 0, c);
            assert(node_wf(t, t.top));
            assert forall|i: int| 0 <= i < t2.nodes.len() implies #[trigger] node_wf(t2, i) by {
                assert(node_wf(t, i));
            }
        },
        None => {
            lemma_find_child_none(t.nodes[t.top].children, name, 0);
            let idx = t.nodes.len() as int;
            assert(node_wf(t, t.top));
            assert forall|i: int| 0 <= i < t2.nodes.len() implies #[trigger] node_wf(t2, i) by {
                if i < idx {
                    assert(node_wf(t, i));
                    if i == t.top {
                        let n0 = t.nodes[i];
                        let n2 = t2.nodes[i];
                        assert forall|k: int|
                            0 <= k < n2.children.len() implies i < (#[trigger] n2.children[k]).1
                            < t2.nodes.len() && t2.nodes[n2.children[k].1].parent == Some(i) by {
                            if k < n0.children.len() {
                                assert(n0.children[k] == n2.children[k]);
                                assert(i < n0.children[k].1 < t.nodes.len());
                            }
                        }
                        assert(node_wf(t2, i));
                    } else {
                        assert forall|k: int|
                            0 <= k < t2.nodes[i].children.len() implies i < (
                            #[trigger] t2.nodes[i].children[k]).1 < t2.nodes.len()
                            && t2.nodes[t2.nodes[i].children[k].1].parent == Some(i) by {
                            assert(t2.nodes[i].children[k] == t.nodes[i].children[k]);
                            assert(i < t.nodes[i].children[k].1 < t.nodes.len());
                        }
                        assert(node_wf(t2, i));
                    }
                } else {
                    assert(i == idx);
                    assert(t2.nodes[i] == new_child_v(t.nodes[t.top], idx, name));
                    assert(node_wf(t2, i));
                }
            }
        },
    }
}

/// `end_v` preserves well-formedness.
pub proof fn lemma_end_wf(t: DataV, name: Seq<char>, duration: int)
    requires
        data_wf(t),
    ensures
        data_wf(end_v(t, name, duration)),
{
    let t2 = end_v(t, name, duration);
    assert(node_wf(t, t.top));
    assert forall|i: int| 0 <= i < t2.nodes.len() implies #[trigger] node_wf(t2, i) by {
        assert(node_wf(t, i));
        assert(t2.nodes[i].children =~= t.nodes[i].children);
    }
}

impl TreeNode {
    /// The qualified call key for a resolved name, package included
    /// when there is one.
    pub fn get_node_key(package: &String, class_name: &String, method_name: &String) -> (r: String)
        ensures
            r@ == node_key_v(package@, class_name@, method_name@),
    {
        let mut name = String::new();
        if !package.as_str().is_empty() {
            name.append(package.as_str());
            name.append(".");
        }
        name.append(class_name.as_str());
        name.append(".");
        name.append(method_name.as_str());
        proof {
            if package@.len() > 0 {
                assert(name@ =~= node_key_v(package@, class_name@, method_name@));
            } else {
                assert(name@ =~= node_key_v(package@, class_name@, method_name@));
            }
        }
        name
    }

    /// A fresh root node: depth 0, no parent, named after the thread.
    pub fn newRootNode(name: &String) -> (r: TreeNode)
        ensures
            r@ == root_node_v(name@),
    {
        let r = TreeNode {
            data: NodeData {
                node_id: NodeId { index: 0 },
                depth: 0,
                name: name.clone(),
                path: name.clone(),
                call_count: 0,
                call_duration: 0,
                children_size: 0,
            },
            parent: None,
            children: Vec::new(),
        };
        proof {
            assert(r@.children =~= Seq::<(Seq<char>, int)>::empty());
            assert(r@ =~= root_node_v(name@));
        }
        r
    }

    /// Allocates the node for a fresh call position: child number
    /// `next_index` of `parentNode`, keyed and named by the qualified
    /// call key.  The child is registered in the parent's child list.
    pub fn newCallNode(parentNode: &mut TreeNode, next_index: usize, package: &String, class_name: &String, method_name: &String) -> (r: TreeNode)
        requires
            old(parentNode)@.children_size < u32::MAX,
            old(parentNode)@.depth < u32::MAX,
            old(parentNode)@.children_size == old(parentNode)@.children.len(),
        ensures
            final(parentNode)@ == (NodeV {
                children: old(parentNode)@.children.push((
                    node_key_v(package@, class_name@, method_name@),
                    next_index as int,
                )),
                children_size: old(parentNode)@.children_size + 1,
                ..old(parentNode)@
            }),
            r@ == new_child_v(
                old(parentNode)@,
                next_index as int,
                node_key_v(package@, class_name@, method_name@),
            ),
    {
        let name = TreeNode::get_node_key(package, class_name, method_name);
        let mut path = parentNode.data.path.clone();
        path.append(";");
        path.append(name.as_str());
        let node_id = NodeId { index: next_index };
        let new_depth = parentNode.data.depth + 1;
        let parent_id = parentNode.data.node_id;
        parentNode.children.push((name.clone(), node_id));
        parentNode.data.children_size = parentNode.data.children_size + 1;
        let r = TreeNode {
            data: NodeData {
                node_id: node_id,
                depth: new_depth,
                name: name,
                path: path,
                call_count: 0,
                call_duration: 0,
                children_size: 0,
            },
            parent: Some(parent_id),
            children: Vec::new(),
        };
        proof {
            let key = node_key_v(package@, class_name@, method_name@);
            assert(parentNode@.children =~= old(parentNode)@.children.push((
                key,
                next_index as int,
            )));
            assert(parentNode@ =~= (NodeV {
                children: old(parentNode)@.children.push((key, next_index as int)),
                children_size: old(parentNode)@.children_size + 1,
                ..old(parentNode)@
            }));
            assert(r@.children =~= Seq::<(Seq<char>, int)>::empty());
            assert(r@ =~= new_child_v(old(parentNode)@, next_index as int, key));
        }
        r
    }

    /// The first child of this node registered under `call_name`, if
    /// any.
    fn find_child(&self, call_name: &String) -> (r: Option<NodeId>)
        ensures
            match r {
                Some(id) => find_child_from(self@.children, call_name@, 0) == Some(id@),
                None => find_child_from(self@.children, call_name@, 0) is None,
            },
    {
        let mut k: usize = 0;
        while k < self.children.len()
            invariant
                0 <= k <= self.children@.len(),
                find_child_from(self@.children, call_name@, 0) == find_child_from(
                    self@.children,
                    call_name@,
                    k as int,
                ),
            decreases self.children@.len() - k,
        {
            if self.children[k].0 == *call_name {
                return Some(self.children[k].1);
            }
            k += 1;
        }
        None
    }
}

impl ThreadData {
    /// A fresh tree: just the synthetic root named after the thread.
    pub fn new(thread_name: &String) -> (r: ThreadData)
        ensures
            r@ == (DataV { nodes: seq![root_node_v(thread_name@)], root: 0, top: 0 }),
            data_wf(r@),
    {
        let r = ThreadData {
            nodes: vec![TreeNode::newRootNode(thread_name)],
            root_node: NodeId { index: 0 },
            top_call_stack_node: NodeId { index: 0 },
        };
        proof {
            assert(r@.nodes =~= seq![root_node_v(thread_name@)]);
            assert(r@ =~= (DataV { nodes: seq![root_node_v(thread_name@)], root: 0, top: 0 }));
        }
        r
    }

    /// Method entry: descend into (or create) the child of the current
    /// top under the qualified call key.
    pub fn begin_call(&mut self, package: &String, class_name: &String, method_name: &String)
        requires
            data_wf(old(self)@),
            old(self)@.nodes.len() < u32::MAX,
        ensures
            data_wf(final(self)@),
            final(self)@ == begin_v(
                old(self)@,
                node_key_v(package@, class_name@, method_name@),
            ),
    {
        proof {
            lemma_begin_wf(old(self)@, node_key_v(package@, class_name@, method_name@));
        }
        let ghost t0 = self@;
        let call_name = TreeNode::get_node_key(package, class_name, method_name);
        let found = self.get_top_node().find_child(&call_name);
        match found {
            Some(child_id) => {
                proof {
                    lemma_find_child_some(t0.nodes[t0.top].children, call_name@, 0, child_id@);
                    assert(node_wf(t0, t0.top));
                    let cs = t0.nodes[t0.top].children;
                    let j = choose|j: int| 0 <= j < cs.len() && cs[j] == (call_name@, child_id@);
                    assert(t0.top < cs[j].1 < t0.nodes.len());
                    assert(node_wf(t0, child_id@));
                }
                let node = self.get_node(&child_id);
                self.top_call_stack_node = node.data.node_id;
                proof {
                    assert(self@ =~= begin_v(t0, call_name@));
                }
            },
            None => {
                let next_index = self.nodes.len();
                proof {
                    assert(node_wf(t0, t0.top));
                    let cs = t0.nodes[t0.top].children;
                    if cs.len() > 0 {
                        lemma_child_index_lower_bound(cs, t0.top, cs.len() - 1);
                    }
                }
                let top_node = self.get_mut_top_node();
                let node_data = TreeNode::newCallNode(
                    top_node,
                    next_index,
                    package,
                    class_name,
                    method_name,
                );
                self.top_call_stack_node = node_data.data.node_id;
                self.nodes.push(node_data);
                proof {
                    assert(self@.nodes =~= begin_v(t0, call_name@).nodes);
                    assert(self@ =~= begin_v(t0, call_name@));
                }
            },
        }
    }

    /// Method exit: if the qualified call key names the current top
    /// node, credit `duration` (in the time unit the caller accounts
    /// in), count the completed call and pop the cursor.  A mismatch,
    /// or a match at the parentless root, is a protocol violation that
    /// leaves the cursor put.
    pub fn end_call(&mut self, package: &String, class_name: &String, method_name: &String, duration: i64)
        requires
            data_wf(old(self)@),
            old(self)@.nodes[old(self)@.top].name == node_key_v(
                package@,
                class_name@,
                method_name@,
            ) ==> ({
                let top = old(self)@.nodes[old(self)@.top];
                &&& top.count + 1 <= u32::MAX
                &&& i64::MIN <= top.duration + duration <= i64::MAX
            }),
        ensures
            data_wf(final(self)@),
            final(self)@ == end_v(
                old(self)@,
                node_key_v(package@, class_name@, method_name@),
                duration as int,
            ),
    {
        proof {
            lemma_end_wf(old(self)@, node_key_v(package@, class_name@, method_name@), duration as int);
            assert(node_wf(old(self)@, old(self)@.top));
        }
        let ghost t0 = self@;
        let call_name = TreeNode::get_node_key(package, class_name, method_name);
        let matches = {
            let top = self.get_top_node();
            top.data.name == call_name
        };
        if matches {
            let parent_opt = self.get_top_node().parent;
            let top_node = self.get_mut_top_node();
            top_node.data.call_duration = top_node.data.call_duration + duration;
            top_node.data.call_count = top_node.data.call_count + 1;
            match parent_opt {
                Some(nodeid) => {
                    self.top_call_stack_node = nodeid;
                },
                None => {
                    // protocol violation: an exit with the cursor at the
                    // root; the cursor stays at the root
                },
            }
            proof {
                assert(self@.nodes =~= end_v(t0, call_name@, duration as int).nodes);
                assert(self@ =~= end_v(t0, call_name@, duration as int));
            }
        } else {
            // protocol violation: the exit does not name the open call
        }
    }

    /// The node the cursor rests on.
    pub fn get_top_node(&self) -> (r: &TreeNode)
        requires
            data_wf(self@),
        ensures
            r@ == self@.nodes[self@.top],
    {
        &self.nodes[self.top_call_stack_node.index]
    }

    /// The node the cursor rests on, for mutation.
    pub fn get_mut_top_node(&mut self) -> (r: &mut TreeNode)
        requires
            data_wf(old(self)@),
        ensures
            r@ == old(self)@.nodes[old(self)@.top],
            final(self)@ == (DataV {
                nodes: old(self)@.nodes.update(old(self)@.top, final(r)@),
                ..old(self)@
            }),
    {
        &mut self.nodes[self.top_call_stack_node.index]
    }

    /// The node at `node_id`.
    pub fn get_node(&self, node_id: &NodeId) -> (r: &TreeNode)
        requires
            data_wf(self@),
            0 <= node_id@ < self@.nodes.len(),
        ensures
            r@ == self@.nodes[node_id@],
    {
        &self.nodes[node_id.index]
    }

    /// Renders the whole tree, beginning at the root.
    pub fn format_call_tree(&self) -> (r: String)
        requires
            data_wf(self@),
        ensures
            r@ == render_node_v(self@, self@.root),
    {
        let mut result = String::new();
        self.format_tree_node(&mut result, &self.root_node);
        proof {
            assert(result@ =~= render_node_v(self@, self@.root));
        }
        result
    }

    /// Appends the rendered subtree of the node at `nodeid` to
    /// `result`.
    pub fn format_tree_node(&self, result: &mut String, nodeid: &NodeId)
        requires
            data_wf(self@),
            0 <= nodeid@ < self@.nodes.len(),
        ensures
            final(result)@ == old(result)@ + render_node_v(self@, nodeid@),
        decreases self@.nodes.len() - nodeid@,
    {
        let ghost t = self@;
        let ghost i = nodeid@;
        proof {
            assert(node_wf(t, i));
        }
        let node = self.get_node(nodeid);
        let mut x: u32 = 0;
        while x < node.data.depth
            invariant
                0 <= x <= node.data.depth,
                result@ == old(result)@ + indent_v(x as int),
                node@ == t.nodes[i],
            decreases node.data.depth - x,
        {
            result.append("  ");
            x += 1;
        }
        proof {
            assert(result@ =~= old(result)@ + indent_v(t.nodes[i].depth));
        }
        result.append(node.data.name.as_str());
        result.append("[calls=");
        result.append(text::u64_to_dec(node.data.call_count as u64).as_str());
        result.append(", duration=");
        let mut dur: i128 = node.data.call_duration as i128;
        if nodeid.index == 0 {
            proof {
                self.lemma_view_bounded();
                lemma_sum_child_dur_bound(t, t.nodes[i].children, 0);
            }
            let ghost cs = t.nodes[i].children;
            let mut k: usize = 0;
            while k < node.children.len()
                invariant
                    data_wf(t),
                    view_bounded(t),
                    self@ == t,
                    0 <= i < t.nodes.len(),
                    node@ == t.nodes[i],
                    node_wf(t, i),
                    cs == t.nodes[i].children,
                    0 <= k <= cs.len(),
                    dur + sum_child_dur_from(t, cs, k as int) == t.nodes[i].duration
                        + sum_child_dur_from(t, cs, 0),
                    i64::MIN + -(k as int) * 0x8000_0000_0000_0000 <= dur <= i64::MAX + (
                    k as int) * 0x7fff_ffff_ffff_ffff,
                decreases cs.len() - k,
            {
                proof {
                    lemma_sum_child_dur_bound(t, cs, k as int + 1);
                }
                let child = node.children[k].1;
                let d = self.get_node(&child).data.call_duration;
                dur = dur + d as i128;
                k += 1;
            }
            proof {
                assert(sum_child_dur_from(t, cs, cs.len() as int) == 0);
                if cs.len() > 0 {
                    lemma_child_index_lower_bound(cs, i, cs.len() - 1);
                }
            }
        }
        proof {
            assert(dur as int == displayed_duration_v(t, i));
            assert(i64::MIN as i128 <= dur || dur > i128::MIN);
        }
        result.append(i128_signed_dec(dur).as_str());
        result.append("]\n");
        proof {
            assert(result@ =~= old(result)@ + line_v(t, i));
            assert(result@ + render_children_v(t, i, 0) =~= old(result)@ + render_node_v(t, i));
        }
        let mut k: usize = 0;
        while k < node.children.len()
            invariant
                data_wf(t),
                self@ == t,
                0 <= i < t.nodes.len(),
                i == nodeid@,
                node@ == t.nodes[i],
                node_wf(t, i),
                0 <= k <= t.nodes[i].children.len(),
                result@ + render_children_v(t, i, k as int) == old(result)@ + render_node_v(t, i),
            decreases t.nodes[i].children.len() - k,
        {
            let child = node.children[k].1;
            proof {
                assert(i < t.nodes[i].children[k as int].1 < t.nodes.len());
            }
            self.format_tree_node(result, &child);
            k += 1;
            proof {
                assert(result@ + render_children_v(t, i, k as int) =~= old(result)@
                    + render_node_v(t, i));
            }
        }
        proof {
            assert(render_children_v(t, i, t.nodes[i].children.len() as int)
                =~= Seq::<char>::empty());
            assert(final(result)@ =~= old(result)@ + render_node_v(t, i));
        }
    }

    /// The view of a tree only ever mirrors machine integers.
    pub proof fn lemma_view_bounded(&self)
        ensures
            view_bounded(self@),
    {
        assert forall|i: int| 0 <= i < self@.nodes.len() implies {
            let n = #[trigger] self@.nodes[i];
            &&& i64::MIN <= n.duration <= i64::MAX
            &&& 0 <= n.count <= u32::MAX
            &&& 0 <= n.depth <= u32::MAX
        } by {
            assert(self@.nodes[i] == self.nodes@[i]@);
        }
    }
}

// ---------------------------------------------------------------------
// Rendering
// ---------------------------------------------------------------------
/// Two spaces of indentation per level of depth.
pub open spec fn indent_v(depth: int) -> Seq<char>
    decreases depth,
{
    if depth <= 0 {
        Seq::empty()
    } else {
        indent_v(depth - 1) + "  "@
    }
}

/// The sum of the durations of the nodes the child entries of `cs` at
/// or after position `k` point at.
pub open spec fn sum_child_dur_from(t: DataV, cs: Seq<(Seq<char>, int)>, k: int) -> int
    decreases cs.len() - k,
{
    if k < 0 || k >= cs.len() {
        0
    } else {
        t.nodes[cs[k].1].duration + sum_child_dur_from(t, cs, k + 1)
    }
}

/// The duration a node displays: its own, plus — for the synthetic
/// root — the sum of its direct children's durations.
pub open spec fn displayed_duration_v(t: DataV, i: int) -> int {
    if i == 0 {
        t.nodes[i].duration + sum_child_dur_from(t, t.nodes[i].children, 0)
    } else {
        t.nodes[i].duration
    }
}

/// One rendered line: indentation, name, then the call count and the
/// raw duration value.
pub open spec fn line_v(t: DataV, i: int) -> Seq<char> {
    indent_v(t.nodes[i].depth) + t.nodes[i].name + "[calls="@ + text::dec_digits(
        if t.nodes[i].count >= 0 {
            t.nodes[i].count as nat
        } else {
            0
        },
    ) + ", duration="@ + text::signed_dec_digits(displayed_duration_v(t, i)) + "]\n"@
}

/// The rendered text of the subtree rooted at node `i`.
pub open spec fn render_node_v(t: DataV, i: int) -> Seq<char>
    decreases t.nodes.len() - i, 1 + t.nodes[i].children.len()
        when data_wf(t) && 0 <= i < t.nodes.len()
{
    line_v(t, i) + render_children_v(t, i, 0)
}

/// The rendered text of the subtrees of the children of node `i` from
/// child position `k` on.
pub open spec fn render_children_v(t: DataV, i: int, k: int) -> Seq<char>
    decreases t.nodes.len() - i, t.nodes[i].children.len() - k
        when data_wf(t) && 0 <= i < t.nodes.len() && 0 <= k
        via render_children_v_decreases
{
    if k >= t.nodes[i].children.len() {
        Seq::empty()
    } else {
        render_node_v(t, t.nodes[i].children[k].1) + render_children_v(t, i, k + 1)
    }
}

#[via_fn]
proof fn render_children_v_decreases(t: DataV, i: int, k: int) {
    assert(node_wf(t, i));
}

/// Every field of a tree's view that mirrors a machine integer lies in
/// that integer's range.
pub open spec fn view_bounded(t: DataV) -> bool {
    forall|i: int|
        0 <= i < t.nodes.len() ==> {
            let n = #[trigger] t.nodes[i];
            &&& i64::MIN <= n.duration <= i64::MAX
            &&& 0 <= n.count <= u32::MAX
            &&& 0 <= n.depth <= u32::MAX
        }
}

proof fn lemma_sum_child_dur_bound(t: DataV, cs: Seq<(Seq<char>, int)>, k: int)
    requires
        view_bounded(t),
        0 <= k <= cs.len(),
        forall|j: int| 0 <= j < cs.len() ==> 0 <= (#[trigger] cs[j]).1 < t.nodes.len(),
    ensures
        -(cs.len() - k) * 0x8000_0000_0000_0000 <= sum_child_dur_from(t, cs, k) <= (cs.len() - k)
            * 0x7fff_ffff_ffff_ffff,
    decreases cs.len() - k,
{
    if k < cs.len() {
        lemma_sum_child_dur_bound(t, cs, k + 1);
    }
}

// ---------------------------------------------------------------------
// The registry of trees
// ---------------------------------------------------------------------
/// The registry mapping thread identity to that thread's event-driven
/// call tree.  Callers serialize access; the registry itself takes no
/// lock.
pub struct TreeArena {
    thread_trees: Vec<(ThreadId, ThreadData)>,
}

impl View for TreeArena {
    type V = Seq<(ThreadId, DataV)>;

    closed spec fn view(&self) -> Seq<(ThreadId, DataV)> {
        self.thread_trees@.map_values(|e: (ThreadId, ThreadData)| (e.0, e.1@))
    }
}

/// Well-formedness of the registry: every tree is well formed and no
/// two entries share a thread.
pub open spec fn arena_wf(a: Seq<(ThreadId, DataV)>) -> bool {
    &&& forall|i: int| 0 <= i < a.len() ==> data_wf((#[trigger] a[i]).1)
    &&& forall|i: int, j: int| 0 <= i < j < a.len() ==> (#[trigger] a[i]).0 != (#[trigger] a[j]).0
}

/// The first position at or after `k` holding thread `tid`'s tree.
pub open spec fn arena_find_from(a: Seq<(ThreadId, DataV)>, tid: ThreadId, k: int) -> Option<int>
    decreases a.len() - k,
{
    if k < 0 || k >= a.len() {
        None
    } else if a[k].0 == tid {
        Some(k)
    } else {
        arena_find_from(a, tid, k + 1)
    }
}

/// The position of thread `tid`'s tree in the registry, if present.
pub open spec fn arena_find(a: Seq<(ThreadId, DataV)>, tid: ThreadId) -> Option<int> {
    arena_find_from(a, tid, 0)
}

proof fn lemma_arena_find_some(a: Seq<(ThreadId, DataV)>, tid: ThreadId, k: int, i: int)
    requires
        0 <= k,
        arena_find_from(a, tid, k) == Some(i),
    ensures
        k <= i < a.len(),
        a[i].0 == tid,
    decreases a.len() - k,
{
    if k < a.len() && a[k].0 != tid {
        lemma_arena_find_some(a, tid, k + 1, i);
    }
}

proof fn lemma_arena_find_none(a: Seq<(ThreadId, DataV)>, tid: ThreadId, k: int)
    requires
        0 <= k,
        arena_find_from(a, tid, k) is None,
    ensures
        forall|j: int| k <= j < a.len() ==> (#[trigger] a[j]).0 != tid,
    decreases a.len() - k,
{
    if k < a.len() {
        lemma_arena_find_none(a, tid, k + 1);
    }
}

/// What a registry-level `begin_call` does: apply the descent to the
/// thread's tree, creating it rooted and empty first if the thread is
/// new.
pub open spec fn arena_begin_v(
    a: Seq<(ThreadId, DataV)>,
    tid: ThreadId,
    tname: Seq<char>,
    key: Seq<char>,
) -> Seq<(ThreadId, DataV)> {
    match arena_find(a, tid) {
        Some(i) => a.update(i, (tid, begin_v(a[i].1, key))),
        None => a.push(
            (tid, begin_v(DataV { nodes: seq![root_node_v(tname)], root: 0, top: 0 }, key)),
        ),
    }
}

/// What a registry-level `end_call` does: apply the exit to the
/// thread's tree; an exit for an unknown thread does nothing.
pub open spec fn arena_end_v(
    a: Seq<(ThreadId, DataV)>,
    tid: ThreadId,
    key: Seq<char>,
    duration: int,
) -> Seq<(ThreadId, DataV)> {
    match arena_find(a, tid) {
        Some(i) => a.update(i, (tid, end_v(a[i].1, key, duration))),
        None => a,
    }
}

/// One rendered registry block: a header naming the thread, then the
/// thread's tree.
pub open spec fn tree_block_v(tid: ThreadId, t: DataV) -> Seq<char> {
    "call tree of thread: ["@ + text::dec_digits(tid.native_id as nat) + "]\n"@ + render_node_v(
        t,
        0,
    ) + "\n"@
}

/// The rendered blocks of all trees from position `k` on.
pub open spec fn arena_blocks_v(a: Seq<(ThreadId, DataV)>, k: int) -> Seq<char>
    decreases a.len() - k,
{
    if k < 0 || k >= a.len() {
        Seq::empty()
    } else {
        tree_block_v(a[k].0, a[k].1) + arena_blocks_v(a, k + 1)
    }
}

impl TreeArena {
    /// An empty registry.
    pub fn new() -> (r: TreeArena)
        ensures
            r@ == Seq::<(ThreadId, DataV)>::empty(),
            arena_wf(r@),
    {
        let r = TreeArena { thread_trees: Vec::new() };
        proof {
            assert(r@ =~= Seq::<(ThreadId, DataV)>::empty());
        }
        r
    }

    /// The position of thread `tid`'s tree, if the registry holds one.
    fn find_tree_index(&self, tid: &ThreadId) -> (r: Option<usize>)
        ensures
            match r {
                Some(i) => arena_find(self@, *tid) == Some(i as int),
                None => arena_find(self@, *tid) is None,
            },
    {
        let mut k: usize = 0;
        while k < self.thread_trees.len()
            invariant
                0 <= k <= self.thread_trees@.len(),
                arena_find(self@, *tid) == arena_find_from(self@, *tid, k as int),
            decreases self.thread_trees@.len() - k,
        {
            if self.thread_trees[k].0 == *tid {
                return Some(k);
            }
            k += 1;
        }
        None
    }

    /// Registry-level method entry: descend in (or create) the calling
    /// thread's tree.
    pub fn begin_call(&mut self, thread: &Thread, package: &String, class_name: &String, method_name: &String)
        requires
            arena_wf(old(self)@),
            match arena_find(old(self)@, thread.id) {
                Some(i) => old(self)@[i].1.nodes.len() < u32::MAX,
                None => true,
            },
        ensures
            arena_wf(final(self)@),
            final(self)@ == arena_begin_v(
                old(self)@,
                thread.id,
                thread.name@,
                node_key_v(package@, class_name@, method_name@),
            ),
    {
        let ghost a0 = self@;
        let ghost key = node_key_v(package@, class_name@, method_name@);
        match self.find_tree_index(&thread.id) {
            Some(i) => {
                proof {
                    lemma_arena_find_some(a0, thread.id, 0, i as int);
                }
                let tree = &mut self.thread_trees[i].1;
                tree.begin_call(package, class_name, method_name);
                proof {
                    assert(self@ =~= arena_begin_v(a0, thread.id, thread.name@, key));
                    lemma_begin_wf(a0[i as int].1, key);
                    assert(arena_wf(self@));
                }
            },
            None => {
                let mut tree = ThreadData::new(&thread.name);
                tree.begin_call(package, class_name, method_name);
                self.thread_trees.push((thread.id, tree));
                proof {
                    lemma_arena_find_none(a0, thread.id, 0);
                    assert(self@ =~= arena_begin_v(a0, thread.id, thread.name@, key));
                    assert(arena_wf(self@));
                }
            },
        }
    }

    /// Registry-level method exit: apply the exit to the calling
    /// thread's tree; an exit for an unknown thread does nothing.
    pub fn end_call(&mut self, thread: &Thread, package: &String, class_name: &String, method_name: &String, duration: i64)
        requires
            arena_wf(old(self)@),
            match arena_find(old(self)@, thread.id) {
                Some(i) => ({
                    let t = old(self)@[i].1;
                    t.nodes[t.top].name == node_key_v(package@, class_name@, method_name@) ==> ({
                        let top = t.nodes[t.top];
                        &&& top.count + 1 <= u32::MAX
                        &&& i64::MIN <= top.duration + duration <= i64::MAX
                    })
                }),
                None => true,
            },
        ensures
            arena_wf(final(self)@),
            final(self)@ == arena_end_v(
                old(self)@,
                thread.id,
                node_key_v(package@, class_name@, method_name@),
                duration as int,
            ),
    {
        let ghost a0 = self@;
        let ghost key = node_key_v(package@, class_name@, method_name@);
        match self.find_tree_index(&thread.id) {
            Some(i) => {
                proof {
                    lemma_arena_find_some(a0, thread.id, 0, i as int);
                }
                let tree = &mut self.thread_trees[i].1;
                tree.end_call(package, class_name, method_name, duration);
                proof {
                    assert(self@ =~= arena_end_v(a0, thread.id, key, duration as int));
                    lemma_end_wf(a0[i as int].1, key, duration as int);
                    assert(arena_wf(self@));
                }
            },
            None => {},
        }
    }

    /// Renders thread `thread`'s tree, or reports that no tree exists.
    pub fn format_call_tree(&self, thread: &Thread) -> (r: String)
        requires
            arena_wf(self@),
        ensures
            r@ == match arena_find(self@, thread.id) {
                Some(i) => render_node_v(self@[i].1, 0),
                None => "[call tree not found]"@,
            },
    {
        match self.find_tree_index(&thread.id) {
            Some(i) => {
                proof {
                    lemma_arena_find_some(self@, thread.id, 0, i as int);
                }
                self.thread_trees[i].1.format_call_tree()
            },
            None => String::from_str("[call tree not found]"),
        }
    }

    /// Renders every tree in the registry, one block per thread, in
    /// registry order.
    pub fn format_all(&self) -> (r: String)
        requires
            arena_wf(self@),
        ensures
            r@ == arena_blocks_v(self@, 0),
    {
        let mut result = String::new();
        proof {
            assert(result@ + arena_blocks_v(self@, 0) =~= arena_blocks_v(self@, 0));
        }
        let mut k: usize = 0;
        while k < self.thread_trees.len()
            invariant
                arena_wf(self@),
                0 <= k <= self@.len(),
                result@ + arena_blocks_v(self@, k as int) == arena_blocks_v(self@, 0),
            decreases self@.len() - k,
        {
            let entry = &self.thread_trees[k];
            proof {
                assert(self@[k as int] == (entry.0, entry.1@));
            }
            result.append("call tree of thread: [");
            result.append(text::u64_to_dec(entry.0.native_id).as_str());
            result.append("]\n");
            let body = entry.1.format_call_tree();
            result.append(body.as_str());
            result.append("\n");
            k += 1;
            proof {
                assert(result@ + arena_blocks_v(self@, k as int) =~= arena_blocks_v(self@, 0));
            }
        }
        proof {
            assert(result@ =~= arena_blocks_v(self@, 0));
        }
        result
    }

    /// Discards every tree.
    pub fn clear(&mut self)
        ensures
            final(self)@ == Seq::<(ThreadId, DataV)>::empty(),
    {
        self.thread_trees.clear();
        proof {
            assert(self@ =~= Seq::<(ThreadId, DataV)>::empty());
        }
    }
}

/// Renders a wide signed value in decimal.
fn i128_signed_dec(v: i128) -> (r: String)
    requires
        v > i128::MIN,
    ensures
        r@ == text::signed_dec_digits(v as int),
{
    proof {
        reveal_strlit("-");
    }
    if v < 0 {
        let mut r = String::from_str("-");
        r.append(text::u128_to_dec((-v) as u128).as_str());
        r
    } else {
        text::u128_to_dec(v as u128)
    }
}

} // verus!
