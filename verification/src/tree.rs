//! An arena-backed ordered tree: nodes live in a flat slot vector and refer to
//! each other by integer id. Each occupied slot carries intrusive links
//! (parent, both siblings, first and last child); freed slots are chained into
//! a free list through their `next_sib` field and recycled before the backing
//! vector grows.

use vstd::prelude::*;

verus! {

/// One arena slot. `data` is `Some` while the slot holds a live node; a free
/// slot has `data == None` and reuses `next_sib` as the free-list link.
pub struct Node<T> {
    pub parent: Option<usize>,
    pub prev_sib: Option<usize>,
    pub next_sib: Option<usize>,
    pub first_child: Option<usize>,
    pub last_child: Option<usize>,
    pub data: Option<T>,
}

impl<T> Node<T> {
    /// A detached node holding `data`, with every link cleared.
    pub fn new(data: T) -> (n: Node<T>)
        ensures
            n == (Node { parent: None, prev_sib: None, next_sib: None, first_child: None, last_child: None, data: Some(data) }),
    {
        Node {
            parent: None,
            prev_sib: None,
            next_sib: None,
            first_child: None,
            last_child: None,
            data: Some(data),
        }
    }
}

/// The id of a node along with its number of direct children and its depth
/// relative to the node a traversal started from.
#[derive(Clone, Copy, Debug, PartialEq, Eq, Structural)]
pub struct NodeInfo {
    pub id: usize,
    pub child_count: usize,
    pub depth: usize,
}

/// The positions that a node can take relative to a reference node.
#[derive(Clone, Copy, Debug, PartialEq, Eq, Structural)]
pub enum Position {
    FirstChild,
    LastChild,
    SiblingBefore,
    SiblingAfter,
}

/// The errors that tree operations can return.
#[derive(Clone, Copy, Debug, PartialEq, Eq, Structural)]
pub enum TreeErr {
    InvalidId,
    CantBeRoot,
    CantMoveIntoChild,
}

/// The mathematical state of a tree: the slot sequence, the free-list head,
/// the root id and the number of occupied slots.
#[verifier::ext_equal]
pub ghost struct TreeV<T> {
    pub nodes: Seq<Node<T>>,
    pub free: Option<usize>,
    pub root: Option<usize>,
    pub count: nat,
}

/// How many slots of `s` are occupied.
pub open spec fn count_occupied<T>(s: Seq<Node<T>>) -> nat
    decreases s.len(),
{
    if s.len() == 0 {
        0
    } else {
        count_occupied(s.drop_last()) + (if s.last().data is Some { 1nat } else { 0nat })
    }
}

proof fn lemma_count_occupied_push<T>(s: Seq<Node<T>>, n: Node<T>)
    ensures
        count_occupied(s.push(n)) == count_occupied(s) + (if n.data is Some { 1nat } else { 0nat }),
{
    assert(s.push(n).drop_last() =~= s);
    assert(s.push(n).last() == n);
}

proof fn lemma_count_occupied_update<T>(s: Seq<Node<T>>, i: int, n: Node<T>)
    requires
        0 <= i < s.len(),
    ensures
        count_occupied(s.update(i, n)) == count_occupied(s)
            + (if n.data is Some { 1nat } else { 0nat })
            - (if s[i].data is Some { 1nat } else { 0nat }),
    decreases s.len(),
{
    if i == s.len() - 1 {
        assert(s.update(i, n).drop_last() =~= s.drop_last());
        assert(s.update(i, n).last() == n);
    } else {
        assert(s.update(i, n).drop_last() =~= s.drop_last().update(i, n));
        assert(s.update(i, n).last() == s.last());
        lemma_count_occupied_update(s.drop_last(), i, n);
    }
}

proof fn lemma_count_occupied_le_len<T>(s: Seq<Node<T>>)
    ensures
        count_occupied(s) <= s.len(),
    decreases s.len(),
{
    if s.len() > 0 {
        lemma_count_occupied_le_len(s.drop_last());
    }
}

proof fn lemma_count_occupied_free_slot<T>(s: Seq<Node<T>>, i: int)
    requires
        0 <= i < s.len(),
        s[i].data is None,
    ensures
        count_occupied(s) < s.len(),
    decreases s.len(),
{
    if i == s.len() - 1 {
        lemma_count_occupied_le_len(s.drop_last());
    } else {
        lemma_count_occupied_free_slot(s.drop_last(), i);
    }
}

proof fn lemma_count_occupied_occupied_slot<T>(s: Seq<Node<T>>, i: int)
    requires
        0 <= i < s.len(),
        s[i].data is Some,
    ensures
        count_occupied(s) >= 1,
    decreases s.len(),
{
    if i < s.len() - 1 {
        lemma_count_occupied_occupied_slot(s.drop_last(), i);
    }
}

impl<T> TreeV<T> {
    /// The number of slots in the arena.
    pub open spec fn n(self) -> int {
        self.nodes.len() as int
    }

    /// A link is either empty or stays inside the arena.
    pub open spec fn link_ok(self, o: Option<usize>) -> bool {
        match o {
            Some(i) => (i as int) < self.n(),
            None => true,
        }
    }

    /// All links of slot `i` stay inside the arena.
    pub open spec fn node_ok(self, i: int) -> bool {
        &&& self.link_ok(self.nodes[i].parent)
        &&& self.link_ok(self.nodes[i].prev_sib)
        &&& self.link_ok(self.nodes[i].next_sib)
        &&& self.link_ok(self.nodes[i].first_child)
        &&& self.link_ok(self.nodes[i].last_child)
    }

    /// Well-formedness of the arena bookkeeping: every stored link is in
    /// range, and `count` agrees with the number of occupied slots.
    pub open spec fn wf(self) -> bool {
        &&& forall|i: int| 0 <= i < self.n() ==> #[trigger] self.node_ok(i)
        &&& self.link_ok(self.free)
        &&& self.link_ok(self.root)
        &&& self.count == count_occupied(self.nodes)
    }

    /// `id` names a currently occupied slot.
    pub open spec fn valid(self, id: usize) -> bool {
        (id as int) < self.n() && self.nodes[id as int].data is Some
    }
}

/// A collection of nodes addressed by stable integer ids, with exactly one
/// root at a time.
pub struct Tree<T> {
    nodes: Vec<Node<T>>,
    free: Option<usize>,
    root: Option<usize>,
    len: usize,
}

impl<T> View for Tree<T> {
    type V = TreeV<T>;

    closed spec fn view(&self) -> TreeV<T> {
        TreeV { nodes: self.nodes@, free: self.free, root: self.root, count: self.len as nat }
    }
}

impl<T> Tree<T> {
    /// Well-formedness, lifted to the executable type.
    pub open spec fn wf(self) -> bool {
        self@.wf()
    }

    /// Creates an empty tree.
    pub fn new() -> (t: Tree<T>)
        ensures
            t.wf(),
            t@.linked(),
            t@ == (TreeV::<T> { nodes: Seq::empty(), free: None, root: None, count: 0 }),
    {
        let t = Tree { free: None, nodes: Vec::new(), root: None, len: 0 };
        proof {
            assert(free_chain(t@.nodes, t@.free, t@.fuel()) =~= Seq::<usize>::empty());
            assert(t@.linked());
        }
        t
    }

    /// Creates a tree whose root holds `data` and has id zero.
    pub fn new_with_root(data: T) -> (t: Tree<T>)
        ensures
            t.wf(),
            t@.linked(),
            t@ == (TreeV::<T> {
                nodes: Seq::empty().push(Node { parent: None, prev_sib: None, next_sib: None, first_child: None, last_child: None, data: Some(data) }),
                free: None,
                root: Some(0),
                count: 1,
            }),
    {
        let mut nodes: Vec<Node<T>> = Vec::new();
        nodes.push(Node::new(data));
        let t = Tree { free: None, nodes, root: Some(0), len: 1 };
        proof {
            lemma_count_occupied_push(Seq::<Node<T>>::empty(), t@.nodes[0]);
            let v = t@;
            let walk = v.sub_tree_ids(0);
            assert(walk =~= Seq::empty().push(0usize));
            assert(free_chain(v.nodes, v.free, v.fuel()) =~= Seq::<usize>::empty());
            assert forall|i: int| 0 <= i < v.n() && (#[trigger] v.nodes[i]).data is Some
                implies v.occ_links(i) && v.consistent_at(i) by {}
            assert forall|k: int| 0 <= k < walk.len() implies v.valid(#[trigger] walk[k]) by {
                assert(walk[0] == 0usize);
            }
            assert forall|i: int| 0 <= i < v.n() && (#[trigger] v.nodes[i]).data is Some
                implies walk.contains(i as usize) by {
                assert(walk[0] == 0usize);
            }
            assert(v.linked());
        }
        t
    }

    /// Returns the number of nodes currently in the tree.
    pub fn len(&self) -> (r: usize)
        ensures
            r == self@.count,
    {
        self.len
    }

    /// Returns the current root of the tree.
    pub fn get_root(&self) -> (r: Option<usize>)
        ensures
            r == self@.root,
    {
        self.root
    }

    pub(crate) fn arena_len(&self) -> (r: usize)
        ensures
            r == self@.nodes.len(),
    {
        self.nodes.len()
    }

    fn valid_node(&self, id: usize) -> (r: Result<(), TreeErr>)
        ensures
            r is Ok <==> self@.valid(id),
            r is Err ==> r == Result::<(), TreeErr>::Err(TreeErr::InvalidId),
    {
        if id >= self.nodes.len() {
            return Err(TreeErr::InvalidId);
        }
        if self.nodes[id].data.is_none() {
            return Err(TreeErr::InvalidId);
        }
        Ok(())
    }

    fn valid_sib(&self, id: usize) -> (r: Result<(), TreeErr>)
        ensures
            r is Ok <==> self@.valid(id) && self@.root != Some(id),
            r == Result::<(), TreeErr>::Err(TreeErr::InvalidId) <==> !self@.valid(id),
            r == Result::<(), TreeErr>::Err(TreeErr::CantBeRoot) <==> self@.valid(id) && self@.root == Some(id),
    {
        if id >= self.nodes.len() {
            return Err(TreeErr::InvalidId);
        }
        if self.nodes[id].data.is_none() {
            return Err(TreeErr::InvalidId);
        }
        let is_root = match self.root {
            Some(r) => r == id,
            None => false,
        };
        if is_root {
            return Err(TreeErr::CantBeRoot);
        }
        Ok(())
    }
}


// ---------------------------------------------------------------------------
// Transitions of the slot store and of the link surgery, as spec functions.
// Every mutating method states its effect as `final(self)@ == spec_...` over
// these, so the whole final state is pinned down by the contract.
// ---------------------------------------------------------------------------

/// Allocation: pop a recycled slot off the free list when one is available
/// (and genuinely free), else grow the backing vector. Returns the new state
/// and the id handed out.
pub open spec fn spec_alloc<T>(v: TreeV<T>, data: T) -> (TreeV<T>, usize) {
    match v.free {
        Some(f) => {
            if (f as int) < v.n() && v.nodes[f as int].data is None {
                let s1 = v.nodes.update(f as int, Node { parent: None, prev_sib: None, next_sib: None, first_child: None, last_child: None, data: Some(data) });
                (TreeV { nodes: s1, free: v.nodes[f as int].next_sib, root: v.root, count: v.count + 1 }, f)
            } else {
                (TreeV { nodes: v.nodes.push(Node { parent: None, prev_sib: None, next_sib: None, first_child: None, last_child: None, data: Some(data) }), free: v.free, root: v.root, count: v.count + 1 }, (v.nodes.len() as usize))
            }
        },
        None => {
            (TreeV { nodes: v.nodes.push(Node { parent: None, prev_sib: None, next_sib: None, first_child: None, last_child: None, data: Some(data) }), free: v.free, root: v.root, count: v.count + 1 }, (v.nodes.len() as usize))
        },
    }
}

/// Freeing one slot: clear its links, hand its `next_sib` to the free list,
/// drop its payload and decrement the count. A slot that is already free is
/// left untouched.
pub open spec fn spec_free_one<T>(v: TreeV<T>, id: usize) -> TreeV<T> {
    if (id as int) < v.n() && v.nodes[id as int].data is Some {
        TreeV {
            nodes: v.nodes.update(id as int, Node { parent: None, prev_sib: None, next_sib: v.free, first_child: None, last_child: None, data: None }),
            free: Some(id),
            root: v.root,
            count: (v.count - 1) as nat,
        }
    } else {
        v
    }
}

/// Freeing a whole list of slots, front to back.
pub open spec fn spec_free_list<T>(v: TreeV<T>, ids: Seq<usize>) -> TreeV<T>
    decreases ids.len(),
{
    if ids.len() == 0 {
        v
    } else {
        spec_free_list(spec_free_one(v, ids[0]), ids.drop_first())
    }
}

/// Attaching `c` as the last child of `p`.
pub open spec fn spec_append<T>(v: TreeV<T>, p: usize, c: usize) -> TreeV<T>
    recommends
        (p as int) < v.n(),
        (c as int) < v.n(),
{
    let old_last = v.nodes[p as int].last_child;
    let s1 = v.nodes.update(c as int, Node { next_sib: None, ..v.nodes[c as int] });
    let s2 = s1.update(c as int, Node { prev_sib: old_last, ..s1[c as int] });
    let s3 = match old_last {
        Some(q) => s2.update(q as int, Node { next_sib: Some(c), ..s2[q as int] }),
        None => s2,
    };
    let s4 = s3.update(c as int, Node { parent: Some(p), ..s3[c as int] });
    let s5 = s4.update(p as int, Node { last_child: Some(c), ..s4[p as int] });
    let s6 = if s5[p as int].first_child is None {
        s5.update(p as int, Node { first_child: Some(c), ..s5[p as int] })
    } else {
        s5
    };
    TreeV { nodes: s6, ..v }
}

/// Attaching `c` as the first child of `p`.
pub open spec fn spec_prepend<T>(v: TreeV<T>, p: usize, c: usize) -> TreeV<T>
    recommends
        (p as int) < v.n(),
        (c as int) < v.n(),
{
    let old_first = v.nodes[p as int].first_child;
    let s1 = v.nodes.update(c as int, Node { prev_sib: None, ..v.nodes[c as int] });
    let s2 = s1.update(c as int, Node { next_sib: old_first, ..s1[c as int] });
    let s3 = match old_first {
        Some(q) => s2.update(q as int, Node { prev_sib: Some(c), ..s2[q as int] }),
        None => s2,
    };
    let s4 = s3.update(c as int, Node { parent: Some(p), ..s3[c as int] });
    let s5 = s4.update(p as int, Node { first_child: Some(c), ..s4[p as int] });
    let s6 = if s5[p as int].last_child is None {
        s5.update(p as int, Node { last_child: Some(c), ..s5[p as int] })
    } else {
        s5
    };
    TreeV { nodes: s6, ..v }
}

/// Attaching `c` immediately before its new sibling `s`.
pub open spec fn spec_sib_before<T>(v: TreeV<T>, sib: usize, c: usize) -> TreeV<T>
    recommends
        (sib as int) < v.n(),
        (c as int) < v.n(),
{
    let old_prev = v.nodes[sib as int].prev_sib;
    let parent = v.nodes[sib as int].parent;
    let s1 = v.nodes.update(c as int, Node { next_sib: Some(sib), ..v.nodes[c as int] });
    let s2 = s1.update(c as int, Node { prev_sib: old_prev, ..s1[c as int] });
    let s3 = s2.update(c as int, Node { parent: parent, ..s2[c as int] });
    let s4 = s3.update(sib as int, Node { prev_sib: Some(c), ..s3[sib as int] });
    let s5 = match s4[c as int].prev_sib {
        Some(q) => s4.update(q as int, Node { next_sib: Some(c), ..s4[q as int] }),
        None => match s4[c as int].parent {
            Some(p) => s4.update(p as int, Node { first_child: Some(c), ..s4[p as int] }),
            None => s4,
        },
    };
    TreeV { nodes: s5, ..v }
}

/// Attaching `c` immediately after its new sibling `s`.
pub open spec fn spec_sib_after<T>(v: TreeV<T>, sib: usize, c: usize) -> TreeV<T>
    recommends
        (sib as int) < v.n(),
        (c as int) < v.n(),
{
    let old_next = v.nodes[sib as int].next_sib;
    let parent = v.nodes[sib as int].parent;
    let s1 = v.nodes.update(c as int, Node { prev_sib: Some(sib), ..v.nodes[c as int] });
    let s2 = s1.update(c as int, Node { next_sib: old_next, ..s1[c as int] });
    let s3 = s2.update(c as int, Node { parent: parent, ..s2[c as int] });
    let s4 = s3.update(sib as int, Node { next_sib: Some(c), ..s3[sib as int] });
    let s5 = match s4[c as int].next_sib {
        Some(q) => s4.update(q as int, Node { prev_sib: Some(c), ..s4[q as int] }),
        None => match s4[c as int].parent {
            Some(p) => s4.update(p as int, Node { last_child: Some(c), ..s4[p as int] }),
            None => s4,
        },
    };
    TreeV { nodes: s5, ..v }
}

/// Attaching `c` at `pos` relative to `node`.
pub open spec fn spec_attach<T>(v: TreeV<T>, c: usize, pos: Position, node: usize) -> TreeV<T> {
    match pos {
        Position::FirstChild => spec_prepend(v, node, c),
        Position::LastChild => spec_append(v, node, c),
        Position::SiblingBefore => spec_sib_before(v, node, c),
        Position::SiblingAfter => spec_sib_after(v, node, c),
    }
}

/// Splicing `id` out of its sibling list. The neighbours (or the parent's
/// first/last child link) are rewired; `id`'s own links are left for the
/// caller to overwrite or free.
pub open spec fn spec_decouple<T>(v: TreeV<T>, id: usize) -> TreeV<T>
    recommends
        (id as int) < v.n(),
{
    let nd = v.nodes[id as int];
    let s1 = match nd.prev_sib {
        Some(q) => v.nodes.update(q as int, Node { next_sib: nd.next_sib, ..v.nodes[q as int] }),
        None => match nd.parent {
            Some(p) => v.nodes.update(p as int, Node { first_child: nd.next_sib, ..v.nodes[p as int] }),
            None => v.nodes,
        },
    };
    let nd1 = s1[id as int];
    let s2 = match nd1.next_sib {
        Some(q) => s1.update(q as int, Node { prev_sib: nd1.prev_sib, ..s1[q as int] }),
        None => match nd1.parent {
            Some(p) => s1.update(p as int, Node { last_child: nd1.prev_sib, ..s1[p as int] }),
            None => s1,
        },
    };
    TreeV { nodes: s2, ..v }
}


// ---------------------------------------------------------------------------
// Well-formedness is preserved by every transition.
// ---------------------------------------------------------------------------

pub(crate) proof fn lemma_alloc_wf<T>(v: TreeV<T>, data: T)
    requires
        v.wf(),
        v.nodes.len() <= usize::MAX,
    ensures
        spec_alloc(v, data).0.wf(),
        spec_alloc(v, data).0.n() >= v.n(),
        (spec_alloc(v, data).1 as int) < spec_alloc(v, data).0.n(),
        spec_alloc(v, data).0.valid(spec_alloc(v, data).1),
        spec_alloc(v, data).0.root == v.root,
        spec_alloc(v, data).0.count == v.count + 1,
        spec_alloc(v, data).0.nodes[spec_alloc(v, data).1 as int] == (Node { parent: None, prev_sib: None, next_sib: None, first_child: None, last_child: None, data: Some(data) }),
        !v.valid(spec_alloc(v, data).1),
{
    let (r, id) = spec_alloc(v, data);
    match v.free {
        Some(f) => {
            if (f as int) < v.n() && v.nodes[f as int].data is None {
                assert(v.node_ok(f as int));
                lemma_count_occupied_update(v.nodes, f as int, r.nodes[f as int]);
                assert forall|i: int| 0 <= i < r.n() implies r.node_ok(i) by {
                    assert(v.node_ok(i));
                }
            } else {
                lemma_count_occupied_push(v.nodes, r.nodes[v.n()]);
                assert forall|i: int| 0 <= i < r.n() implies r.node_ok(i) by {
                    if i < v.n() {
                        assert(v.node_ok(i));
                    }
                }
            }
        },
        None => {
            lemma_count_occupied_push(v.nodes, r.nodes[v.n()]);
            assert forall|i: int| 0 <= i < r.n() implies r.node_ok(i) by {
                if i < v.n() {
                    assert(v.node_ok(i));
                }
            }
        },
    }
}

proof fn lemma_free_one_wf<T>(v: TreeV<T>, id: usize)
    requires
        v.wf(),
    ensures
        spec_free_one(v, id).wf(),
        spec_free_one(v, id).n() == v.n(),
        spec_free_one(v, id).root == v.root,
{
    let r = spec_free_one(v, id);
    if (id as int) < v.n() && v.nodes[id as int].data is Some {
        lemma_count_occupied_occupied_slot(v.nodes, id as int);
        lemma_count_occupied_update(v.nodes, id as int, r.nodes[id as int]);
        assert forall|i: int| 0 <= i < r.n() implies r.node_ok(i) by {
            assert(v.node_ok(i));
        }
    }
}

pub(crate) proof fn lemma_append_wf<T>(v: TreeV<T>, p: usize, c: usize)
    requires
        v.wf(),
        (p as int) < v.n(),
        (c as int) < v.n(),
    ensures
        spec_append(v, p, c).wf(),
        spec_append(v, p, c).n() == v.n(),
        spec_append(v, p, c).count == v.count,
        spec_append(v, p, c).free == v.free,
        spec_append(v, p, c).root == v.root,
        forall|i: int| #![trigger spec_append(v, p, c).nodes[i]] 0 <= i < v.n() ==> spec_append(v, p, c).nodes[i].data == v.nodes[i].data,
{
    let r = spec_append(v, p, c);
    assert(v.node_ok(p as int));
    assert(v.node_ok(c as int));
    assert forall|i: int| 0 <= i < r.n() implies r.node_ok(i) by {
        assert(v.node_ok(i));
    }
    assert forall|i: int| #![trigger r.nodes[i]] 0 <= i < v.n() implies r.nodes[i].data == v.nodes[i].data by {}
    assert(count_occupied(r.nodes) == count_occupied(v.nodes)) by {
        lemma_count_occupied_same_data(v.nodes, r.nodes);
    }
}

proof fn lemma_prepend_wf<T>(v: TreeV<T>, p: usize, c: usize)
    requires
        v.wf(),
        (p as int) < v.n(),
        (c as int) < v.n(),
    ensures
        spec_prepend(v, p, c).wf(),
        spec_prepend(v, p, c).n() == v.n(),
        spec_prepend(v, p, c).count == v.count,
        spec_prepend(v, p, c).free == v.free,
        spec_prepend(v, p, c).root == v.root,
        forall|i: int| #![trigger spec_prepend(v, p, c).nodes[i]] 0 <= i < v.n() ==> spec_prepend(v, p, c).nodes[i].data == v.nodes[i].data,
{
    let r = spec_prepend(v, p, c);
    assert(v.node_ok(p as int));
    assert(v.node_ok(c as int));
    assert forall|i: int| 0 <= i < r.n() implies r.node_ok(i) by {
        assert(v.node_ok(i));
    }
    assert forall|i: int| #![trigger r.nodes[i]] 0 <= i < v.n() implies r.nodes[i].data == v.nodes[i].data by {}
    assert(count_occupied(r.nodes) == count_occupied(v.nodes)) by {
        lemma_count_occupied_same_data(v.nodes, r.nodes);
    }
}

proof fn lemma_sib_before_wf<T>(v: TreeV<T>, sib: usize, c: usize)
    requires
        v.wf(),
        (sib as int) < v.n(),
        (c as int) < v.n(),
    ensures
        spec_sib_before(v, sib, c).wf(),
        spec_sib_before(v, sib, c).n() == v.n(),
        spec_sib_before(v, sib, c).count == v.count,
        spec_sib_before(v, sib, c).free == v.free,
        spec_sib_before(v, sib, c).root == v.root,
        forall|i: int| #![trigger spec_sib_before(v, sib, c).nodes[i]] 0 <= i < v.n() ==> spec_sib_before(v, sib, c).nodes[i].data == v.nodes[i].data,
{
    let r = spec_sib_before(v, sib, c);
    assert(v.node_ok(sib as int));
    assert(v.node_ok(c as int));
    assert forall|i: int| 0 <= i < r.n() implies r.node_ok(i) by {
        assert(v.node_ok(i));
    }
    assert forall|i: int| #![trigger r.nodes[i]] 0 <= i < v.n() implies r.nodes[i].data == v.nodes[i].data by {}
    assert(count_occupied(r.nodes) == count_occupied(v.nodes)) by {
        lemma_count_occupied_same_data(v.nodes, r.nodes);
    }
}

proof fn lemma_sib_after_wf<T>(v: TreeV<T>, sib: usize, c: usize)
    requires
        v.wf(),
        (sib as int) < v.n(),
        (c as int) < v.n(),
    ensures
        spec_sib_after(v, sib, c).wf(),
        spec_sib_after(v, sib, c).n() == v.n(),
        spec_sib_after(v, sib, c).count == v.count,
        spec_sib_after(v, sib, c).free == v.free,
        spec_sib_after(v, sib, c).root == v.root,
        forall|i: int| #![trigger spec_sib_after(v, sib, c).nodes[i]] 0 <= i < v.n() ==> spec_sib_after(v, sib, c).nodes[i].data == v.nodes[i].data,
{
    let r = spec_sib_after(v, sib, c);
    assert(v.node_ok(sib as int));
    assert(v.node_ok(c as int));
    assert forall|i: int| 0 <= i < r.n() implies r.node_ok(i) by {
        assert(v.node_ok(i));
    }
    assert forall|i: int| #![trigger r.nodes[i]] 0 <= i < v.n() implies r.nodes[i].data == v.nodes[i].data by {}
    assert(count_occupied(r.nodes) == count_occupied(v.nodes)) by {
        lemma_count_occupied_same_data(v.nodes, r.nodes);
    }
}

proof fn lemma_attach_wf<T>(v: TreeV<T>, c: usize, pos: Position, node: usize)
    requires
        v.wf(),
        (node as int) < v.n(),
        (c as int) < v.n(),
    ensures
        spec_attach(v, c, pos, node).wf(),
        spec_attach(v, c, pos, node).n() == v.n(),
        spec_attach(v, c, pos, node).count == v.count,
        spec_attach(v, c, pos, node).free == v.free,
        spec_attach(v, c, pos, node).root == v.root,
        forall|i: int| #![trigger spec_attach(v, c, pos, node).nodes[i]] 0 <= i < v.n() ==> spec_attach(v, c, pos, node).nodes[i].data == v.nodes[i].data,
{
    match pos {
        Position::FirstChild => lemma_prepend_wf(v, node, c),
        Position::LastChild => lemma_append_wf(v, node, c),
        Position::SiblingBefore => lemma_sib_before_wf(v, node, c),
        Position::SiblingAfter => lemma_sib_after_wf(v, node, c),
    }
}

proof fn lemma_decouple_wf<T>(v: TreeV<T>, id: usize)
    requires
        v.wf(),
        (id as int) < v.n(),
    ensures
        spec_decouple(v, id).wf(),
        spec_decouple(v, id).n() == v.n(),
        spec_decouple(v, id).count == v.count,
        spec_decouple(v, id).free == v.free,
        spec_decouple(v, id).root == v.root,
        forall|i: int| #![trigger spec_decouple(v, id).nodes[i]] 0 <= i < v.n() ==> spec_decouple(v, id).nodes[i].data == v.nodes[i].data,
{
    let r = spec_decouple(v, id);
    assert(v.node_ok(id as int));
    assert forall|i: int| 0 <= i < r.n() implies r.node_ok(i) by {
        assert(v.node_ok(i));
    }
    assert forall|i: int| #![trigger r.nodes[i]] 0 <= i < v.n() implies r.nodes[i].data == v.nodes[i].data by {}
    assert(count_occupied(r.nodes) == count_occupied(v.nodes)) by {
        lemma_count_occupied_same_data(v.nodes, r.nodes);
    }
}

/// Two slot sequences of equal length whose slots agree on occupancy hold the
/// same number of occupied slots.
proof fn lemma_count_occupied_same_data<T>(s1: Seq<Node<T>>, s2: Seq<Node<T>>)
    requires
        s1.len() == s2.len(),
        forall|i: int| #![trigger s2[i]] 0 <= i < s1.len() ==> s2[i].data == s1[i].data,
    ensures
        count_occupied(s2) == count_occupied(s1),
    decreases s1.len(),
{
    if s1.len() > 0 {
        lemma_count_occupied_same_data(s1.drop_last(), s2.drop_last());
    }
}


impl<T> Tree<T> {
    fn push_free(&mut self, id: usize)
        requires
            old(self).wf(),
            (id as int) < old(self)@.n(),
        ensures
            final(self).wf(),
            final(self)@ == spec_free_one(old(self)@, id),
    {
        if self.nodes[id].data.is_some() {
            proof {
                lemma_count_occupied_occupied_slot(old(self)@.nodes, id as int);
                lemma_free_one_wf(old(self)@, id);
            }
            let f = self.free;
            self.nodes[id].parent = None;
            self.nodes[id].prev_sib = None;
            self.nodes[id].next_sib = f;
            self.nodes[id].first_child = None;
            self.nodes[id].last_child = None;
            self.nodes[id].data = None;
            self.free = Some(id);
            self.len = self.len - 1;
            proof {
                assert(self@.nodes =~= spec_free_one(old(self)@, id).nodes);
                assert(self@ =~= spec_free_one(old(self)@, id));
            }
        }
    }

    fn pop_free(&mut self) -> (r: Option<usize>)
        requires
            old(self).wf(),
        ensures
            final(self).wf(),
            match r {
                Some(id) => {
                    &&& old(self)@.free == Some(id)
                    &&& (id as int) < old(self)@.n()
                    &&& old(self)@.nodes[id as int].data is None
                    &&& final(self)@.nodes == old(self)@.nodes.update(id as int, Node { parent: None, prev_sib: None, next_sib: None, first_child: None, last_child: None, data: None })
                    &&& final(self)@.free == old(self)@.nodes[id as int].next_sib
                    &&& final(self)@.root == old(self)@.root
                    &&& final(self)@.count == old(self)@.count
                },
                None => {
                    &&& final(self)@ == old(self)@
                    &&& match old(self)@.free {
                        Some(f) => old(self)@.nodes[f as int].data is Some,
                        None => true,
                    }
                },
            },
    {
        if let Some(id) = self.free {
            if self.nodes[id].data.is_none() {
                let nxt = self.nodes[id].next_sib;
                self.free = nxt;
                self.nodes[id].parent = None;
                self.nodes[id].prev_sib = None;
                self.nodes[id].next_sib = None;
                self.nodes[id].first_child = None;
                self.nodes[id].last_child = None;
                proof {
                    assert(old(self)@.node_ok(id as int));
                    assert(self@.nodes =~= old(self)@.nodes.update(id as int, self@.nodes[id as int]));
                    lemma_count_occupied_update(old(self)@.nodes, id as int, self@.nodes[id as int]);
                    assert forall|i: int| 0 <= i < self@.n() implies self@.node_ok(i) by {
                        assert(old(self)@.node_ok(i));
                    }
                }
                return Some(id);
            }
        }
        None
    }

    pub(crate) fn get_node(&mut self, data: T) -> (id: usize)
        requires
            old(self).wf(),
        ensures
            final(self).wf(),
            final(self)@ == spec_alloc(old(self)@, data).0,
            id == spec_alloc(old(self)@, data).1,
    {
        let n_slots = self.nodes.len();
        proof {
            lemma_alloc_wf(old(self)@, data);
        }
        let popped = self.pop_free();
        if let Some(id) = popped {
            proof {
                lemma_count_occupied_free_slot(old(self)@.nodes, id as int);
                assert(self.len < n_slots);
            }
            self.nodes[id].data = Some(data);
            self.len = self.len + 1;
            proof {
                assert(self@.nodes =~= spec_alloc(old(self)@, data).0.nodes);
                assert(self@ =~= spec_alloc(old(self)@, data).0);
            }
            id
        } else {
            self.nodes.push(Node::new(data));
            let id = self.nodes.len() - 1;
            proof {
                lemma_count_occupied_push(old(self)@.nodes, self@.nodes[id as int]);
                lemma_count_occupied_le_len(self@.nodes);
                assert(self.len < self@.nodes.len());
            }
            self.len = self.len + 1;
            proof {
                assert(self@.nodes =~= spec_alloc(old(self)@, data).0.nodes);
                assert(self@ =~= spec_alloc(old(self)@, data).0);
            }
            id
        }
    }

    pub(crate) fn append_child(&mut self, parent_id: usize, new_id: usize)
        requires
            old(self).wf(),
            (parent_id as int) < old(self)@.n(),
            (new_id as int) < old(self)@.n(),
        ensures
            final(self).wf(),
            final(self)@ == spec_append(old(self)@, parent_id, new_id),
    {
        proof {
            lemma_append_wf(old(self)@, parent_id, new_id);
            assert(old(self)@.node_ok(parent_id as int));
        }
        // the previous sibling of the new node becomes the parent's last child
        let old_last = self.nodes[parent_id].last_child;
        self.nodes[new_id].next_sib = None;
        self.nodes[new_id].prev_sib = old_last;
        if let Some(prev) = old_last {
            self.nodes[prev].next_sib = Some(new_id);
        }
        self.nodes[new_id].parent = Some(parent_id);
        // the parent's last child becomes the new node
        self.nodes[parent_id].last_child = Some(new_id);
        // a parent without children gains the new node as first child too
        if self.nodes[parent_id].first_child.is_none() {
            self.nodes[parent_id].first_child = Some(new_id);
        }
        proof {
            assert(self@.nodes =~= spec_append(old(self)@, parent_id, new_id).nodes);
            assert(self@ =~= spec_append(old(self)@, parent_id, new_id));
        }
    }

    fn prepend_child(&mut self, parent_id: usize, new_id: usize)
        requires
            old(self).wf(),
            (parent_id as int) < old(self)@.n(),
            (new_id as int) < old(self)@.n(),
        ensures
            final(self).wf(),
            final(self)@ == spec_prepend(old(self)@, parent_id, new_id),
    {
        proof {
            lemma_prepend_wf(old(self)@, parent_id, new_id);
            assert(old(self)@.node_ok(parent_id as int));
        }
        // the next sibling of the new node becomes the parent's first child
        let old_first = self.nodes[parent_id].first_child;
        self.nodes[new_id].prev_sib = None;
        self.nodes[new_id].next_sib = old_first;
        if let Some(next) = old_first {
            self.nodes[next].prev_sib = Some(new_id);
        }
        self.nodes[new_id].parent = Some(parent_id);
        // the parent's first child becomes the new node
        self.nodes[parent_id].first_child = Some(new_id);
        // a parent without children gains the new node as last child too
        if self.nodes[parent_id].last_child.is_none() {
            self.nodes[parent_id].last_child = Some(new_id);
        }
        proof {
            assert(self@.nodes =~= spec_prepend(old(self)@, parent_id, new_id).nodes);
            assert(self@ =~= spec_prepend(old(self)@, parent_id, new_id));
        }
    }

    fn add_sibling_before(&mut self, sibling_id: usize, new_id: usize)
        requires
            old(self).wf(),
            (sibling_id as int) < old(self)@.n(),
            (new_id as int) < old(self)@.n(),
        ensures
            final(self).wf(),
            final(self)@ == spec_sib_before(old(self)@, sibling_id, new_id),
    {
        proof {
            lemma_sib_before_wf(old(self)@, sibling_id, new_id);
            assert(old(self)@.node_ok(sibling_id as int));
        }
        let old_prev = self.nodes[sibling_id].prev_sib;
        let parent = self.nodes[sibling_id].parent;
        self.nodes[new_id].next_sib = Some(sibling_id);
        self.nodes[new_id].prev_sib = old_prev;
        self.nodes[new_id].parent = parent;
        self.nodes[sibling_id].prev_sib = Some(new_id);
        // rewire the old previous sibling, or the parent's first-child link
        let cur_prev = self.nodes[new_id].prev_sib;
        if let Some(prev_sib_id) = cur_prev {
            self.nodes[prev_sib_id].next_sib = Some(new_id);
        } else {
            let cur_parent = self.nodes[new_id].parent;
            if let Some(parent_id) = cur_parent {
                self.nodes[parent_id].first_child = Some(new_id);
            }
        }
        proof {
            assert(self@.nodes =~= spec_sib_before(old(self)@, sibling_id, new_id).nodes);
            assert(self@ =~= spec_sib_before(old(self)@, sibling_id, new_id));
        }
    }

    fn add_sibling_after(&mut self, sibling_id: usize, new_id: usize)
        requires
            old(self).wf(),
            (sibling_id as int) < old(self)@.n(),
            (new_id as int) < old(self)@.n(),
        ensures
            final(self).wf(),
            final(self)@ == spec_sib_after(old(self)@, sibling_id, new_id),
    {
        proof {
            lemma_sib_after_wf(old(self)@, sibling_id, new_id);
            assert(old(self)@.node_ok(sibling_id as int));
        }
        let old_next = self.nodes[sibling_id].next_sib;
        let parent = self.nodes[sibling_id].parent;
        self.nodes[new_id].prev_sib = Some(sibling_id);
        self.nodes[new_id].next_sib = old_next;
        self.nodes[new_id].parent = parent;
        self.nodes[sibling_id].next_sib = Some(new_id);
        // rewire the old next sibling, or the parent's last-child link
        let cur_next = self.nodes[new_id].next_sib;
        if let Some(next_sib_id) = cur_next {
            self.nodes[next_sib_id].prev_sib = Some(new_id);
        } else {
            let cur_parent = self.nodes[new_id].parent;
            if let Some(parent_id) = cur_parent {
                self.nodes[parent_id].last_child = Some(new_id);
            }
        }
        proof {
            assert(self@.nodes =~= spec_sib_after(old(self)@, sibling_id, new_id).nodes);
            assert(self@ =~= spec_sib_after(old(self)@, sibling_id, new_id));
        }
    }

    fn attach(&mut self, attaching: usize, in_position: Position, node: usize)
        requires
            old(self).wf(),
            (attaching as int) < old(self)@.n(),
            (node as int) < old(self)@.n(),
        ensures
            final(self).wf(),
            final(self)@ == spec_attach(old(self)@, attaching, in_position, node),
    {
        match in_position {
            Position::FirstChild => self.prepend_child(node, attaching),
            Position::LastChild => self.append_child(node, attaching),
            Position::SiblingBefore => self.add_sibling_before(node, attaching),
            Position::SiblingAfter => self.add_sibling_after(node, attaching),
        }
    }

    fn decouple(&mut self, id: usize)
        requires
            old(self).wf(),
            (id as int) < old(self)@.n(),
        ensures
            final(self).wf(),
            final(self)@ == spec_decouple(old(self)@, id),
    {
        proof {
            lemma_decouple_wf(old(self)@, id);
            assert(old(self)@.node_ok(id as int));
        }
        let nd_prev = self.nodes[id].prev_sib;
        let nd_next = self.nodes[id].next_sib;
        let nd_parent = self.nodes[id].parent;
        if let Some(prev) = nd_prev {
            self.nodes[prev].next_sib = nd_next;
        } else if let Some(parent) = nd_parent {
            self.nodes[parent].first_child = nd_next;
        }
        // read the links again: the splice above went through the arena
        let nd1_prev = self.nodes[id].prev_sib;
        let nd1_next = self.nodes[id].next_sib;
        let nd1_parent = self.nodes[id].parent;
        if let Some(next) = nd1_next {
            self.nodes[next].prev_sib = nd1_prev;
        } else if let Some(parent) = nd1_parent {
            self.nodes[parent].last_child = nd1_prev;
        }
        proof {
            assert(self@.nodes =~= spec_decouple(old(self)@, id).nodes);
            assert(self@ =~= spec_decouple(old(self)@, id));
        }
    }
}


// ---------------------------------------------------------------------------
// Preorder traversal, as fuelled spec functions. The fuel only bounds the
// walk; with the whole arena as fuel it never runs out on a well-formed tree.
// ---------------------------------------------------------------------------

/// The ids of the sibling chain starting at `cur`: each entry followed by its
/// own subtree, then its next siblings, preorder.
pub open spec fn chain<T>(s: Seq<Node<T>>, cur: Option<usize>, fuel: nat) -> Seq<usize>
    decreases fuel,
{
    if fuel == 0 {
        Seq::empty()
    } else {
        match cur {
            None => Seq::empty(),
            Some(c) => if (c as int) < s.len() {
                Seq::empty().push(c)
                    + chain(s, s[c as int].first_child, (fuel - 1) as nat)
                    + chain(s, s[c as int].next_sib, (fuel - 1) as nat)
            } else {
                Seq::empty()
            },
        }
    }
}

/// The ids of the sibling chain starting at `cur`, without descending.
pub open spec fn kids<T>(s: Seq<Node<T>>, cur: Option<usize>, fuel: nat) -> Seq<usize>
    decreases fuel,
{
    if fuel == 0 {
        Seq::empty()
    } else {
        match cur {
            None => Seq::empty(),
            Some(c) => if (c as int) < s.len() {
                Seq::empty().push(c) + kids(s, s[c as int].next_sib, (fuel - 1) as nat)
            } else {
                Seq::empty()
            },
        }
    }
}

/// The preorder chain from `cur`, each node annotated with its child count
/// and its depth.
pub open spec fn info_chain<T>(s: Seq<Node<T>>, cur: Option<usize>, depth: usize, fuel: nat) -> Seq<NodeInfo>
    decreases fuel,
{
    if fuel == 0 {
        Seq::empty()
    } else {
        match cur {
            None => Seq::empty(),
            Some(c) => if (c as int) < s.len() {
                Seq::empty().push(NodeInfo {
                    id: c,
                    child_count: kids(s, s[c as int].first_child, s.len()).len() as usize,
                    depth: depth,
                })
                    + info_chain(s, s[c as int].first_child, (depth + 1) as usize, (fuel - 1) as nat)
                    + info_chain(s, s[c as int].next_sib, depth, (fuel - 1) as nat)
            } else {
                Seq::empty()
            },
        }
    }
}

/// The preorder chain from `cur`, pruned: a node's children are walked only
/// while `d` is positive.
pub open spec fn chain_depth<T>(s: Seq<Node<T>>, cur: Option<usize>, d: usize, fuel: nat) -> Seq<usize>
    decreases fuel,
{
    if fuel == 0 {
        Seq::empty()
    } else {
        match cur {
            None => Seq::empty(),
            Some(c) => if (c as int) < s.len() {
                Seq::empty().push(c)
                    + (if d > 0 { chain_depth(s, s[c as int].first_child, (d - 1) as usize, (fuel - 1) as nat) } else { Seq::empty() })
                    + chain_depth(s, s[c as int].next_sib, d, (fuel - 1) as nat)
            } else {
                Seq::empty()
            },
        }
    }
}

/// The annotated preorder chain from `cur`, descending only while the current
/// depth is below `target`. Child counts are full counts either way.
pub open spec fn info_chain_depth<T>(s: Seq<Node<T>>, cur: Option<usize>, depth: usize, target: usize, fuel: nat) -> Seq<NodeInfo>
    decreases fuel,
{
    if fuel == 0 {
        Seq::empty()
    } else {
        match cur {
            None => Seq::empty(),
            Some(c) => if (c as int) < s.len() {
                Seq::empty().push(NodeInfo {
                    id: c,
                    child_count: kids(s, s[c as int].first_child, s.len()).len() as usize,
                    depth: depth,
                })
                    + (if depth < target { info_chain_depth(s, s[c as int].first_child, (depth + 1) as usize, target, (fuel - 1) as nat) } else { Seq::empty() })
                    + info_chain_depth(s, s[c as int].next_sib, depth, target, (fuel - 1) as nat)
            } else {
                Seq::empty()
            },
        }
    }
}

impl<T> TreeV<T> {
    /// Enough fuel to finish any walk of a well-formed tree.
    pub open spec fn fuel(self) -> nat {
        self.nodes.len()
    }

    /// The preorder ids strictly below `id`.
    pub open spec fn descendants(self, id: usize) -> Seq<usize>
        recommends
            self.valid(id),
    {
        chain(self.nodes, self.nodes[id as int].first_child, (self.fuel() - 1) as nat)
    }

    /// `id` followed by its descendants, preorder.
    pub open spec fn sub_tree_ids(self, id: usize) -> Seq<usize>
        recommends
            self.valid(id),
    {
        Seq::empty().push(id) + self.descendants(id)
    }

    /// The direct children of `id`, in sibling order.
    pub open spec fn children(self, id: usize) -> Seq<usize>
        recommends
            self.valid(id),
    {
        kids(self.nodes, self.nodes[id as int].first_child, self.fuel())
    }

    /// The annotated preorder walk of `id`'s subtree.
    pub open spec fn sub_tree_infos(self, id: usize) -> Seq<NodeInfo>
        recommends
            self.valid(id),
    {
        Seq::empty().push(NodeInfo { id: id, child_count: self.children(id).len() as usize, depth: 0 })
            + info_chain(self.nodes, self.nodes[id as int].first_child, 1, (self.fuel() - 1) as nat)
    }

    /// The preorder walk of `id`'s subtree, pruned below `depth`.
    pub open spec fn sub_tree_depth_ids(self, id: usize, depth: usize) -> Seq<usize>
        recommends
            self.valid(id),
    {
        Seq::empty().push(id)
            + (if depth > 0 { chain_depth(self.nodes, self.nodes[id as int].first_child, (depth - 1) as usize, self.fuel()) } else { Seq::empty() })
    }

    /// The annotated preorder walk of `id`'s subtree, descending only to
    /// `depth`.
    pub open spec fn sub_tree_depth_infos(self, id: usize, depth: usize) -> Seq<NodeInfo>
        recommends
            self.valid(id),
    {
        Seq::empty().push(NodeInfo { id: id, child_count: self.children(id).len() as usize, depth: 0 })
            + (if 0 < depth { info_chain_depth(self.nodes, self.nodes[id as int].first_child, 1, depth, self.fuel()) } else { Seq::empty() })
    }
}

/// The slots on the free list, following `next_sib` from the head.
pub open spec fn free_chain<T>(s: Seq<Node<T>>, cur: Option<usize>, fuel: nat) -> Seq<usize>
    decreases fuel,
{
    if fuel == 0 {
        Seq::empty()
    } else {
        match cur {
            None => Seq::empty(),
            Some(f) => if (f as int) < s.len() {
                Seq::empty().push(f) + free_chain(s, s[f as int].next_sib, (fuel - 1) as nat)
            } else {
                Seq::empty()
            },
        }
    }
}

impl<T> TreeV<T> {
    /// Slot `i` is occupied and every link it holds lands on an occupied
    /// slot, never on itself.
    pub open spec fn occ_links(self, i: int) -> bool {
        &&& (match self.nodes[i].parent { Some(j) => self.valid(j) && j != i, None => true })
        &&& (match self.nodes[i].prev_sib { Some(j) => self.valid(j) && j != i, None => true })
        &&& (match self.nodes[i].next_sib { Some(j) => self.valid(j) && j != i, None => true })
        &&& (match self.nodes[i].first_child { Some(j) => self.valid(j) && j != i, None => true })
        &&& (match self.nodes[i].last_child { Some(j) => self.valid(j) && j != i, None => true })
    }

    /// The mutual-consistency laws of slot `i`'s links: first/last children
    /// point back to their parent and sit at the ends of their list, sibling
    /// links pair up and stay under one parent, ends of a list align with
    /// the parent's first/last child, and a parentless occupied node is the
    /// root.
    pub open spec fn consistent_at(self, i: int) -> bool {
        &&& (match self.nodes[i].first_child {
            Some(q) => self.nodes[q as int].parent == Some(i as usize) && self.nodes[q as int].prev_sib is None,
            None => true,
        })
        &&& (match self.nodes[i].last_child {
            Some(q) => self.nodes[q as int].parent == Some(i as usize) && self.nodes[q as int].next_sib is None,
            None => true,
        })
        &&& (self.nodes[i].first_child is None <==> self.nodes[i].last_child is None)
        &&& (match self.nodes[i].next_sib {
            Some(j) => self.nodes[j as int].prev_sib == Some(i as usize) && self.nodes[j as int].parent == self.nodes[i].parent,
            None => true,
        })
        &&& (match self.nodes[i].prev_sib {
            Some(j) => self.nodes[j as int].next_sib == Some(i as usize) && self.nodes[j as int].parent == self.nodes[i].parent,
            None => true,
        })
        &&& (match self.nodes[i].parent {
            Some(p) => {
                &&& (self.nodes[i].prev_sib is None ==> self.nodes[p as int].first_child == Some(i as usize))
                &&& (self.nodes[i].next_sib is None ==> self.nodes[p as int].last_child == Some(i as usize))
            },
            None => self.root == Some(i as usize) && self.nodes[i].prev_sib is None && self.nodes[i].next_sib is None,
        })
    }

    /// Full tree validity, the shape every tree built through the public API
    /// has: exactly one root, present iff the tree is non-empty; occupied
    /// slots linked only among themselves, with mutually consistent
    /// parent/child and doubly-linked sibling lists; free slots stripped of
    /// every link but their free-list chaining, the chain covering each free
    /// slot exactly once; and the preorder walk from the root visiting
    /// exactly the occupied slots, each once, so that `count` equals the
    /// number of reachable nodes.
    pub open spec fn linked(self) -> bool {
        &&& self.wf()
        &&& (self.root is None <==> self.count == 0)
        &&& (match self.root {
            Some(r) => self.valid(r) && self.nodes[r as int].parent is None,
            None => true,
        })
        &&& (forall|i: int| 0 <= i < self.n() && (#[trigger] self.nodes[i]).data is Some
            ==> self.occ_links(i) && self.consistent_at(i))
        &&& (forall|i: int| 0 <= i < self.n() && (#[trigger] self.nodes[i]).data is None
            ==> self.nodes[i].parent is None && self.nodes[i].prev_sib is None
                && self.nodes[i].first_child is None && self.nodes[i].last_child is None
                && (match self.nodes[i].next_sib {
                    Some(j) => self.nodes[j as int].data is None,
                    None => true,
                }))
        &&& (match self.free {
            Some(f) => self.nodes[f as int].data is None,
            None => true,
        })
        &&& free_chain(self.nodes, self.free, self.fuel()).no_duplicates()
        &&& free_chain(self.nodes, self.free, self.fuel()).len() + self.count == self.fuel()
        &&& (match self.root {
            Some(r) => {
                &&& self.sub_tree_ids(r).no_duplicates()
                &&& self.sub_tree_ids(r).len() == self.count
                &&& (forall|k: int| 0 <= k < self.sub_tree_ids(r).len()
                    ==> self.valid(#[trigger] self.sub_tree_ids(r)[k]))
                &&& (forall|i: int| 0 <= i < self.n() && (#[trigger] self.nodes[i]).data is Some
                    ==> self.sub_tree_ids(r).contains(i as usize))
            },
            None => true,
        })
    }
}

impl<T> Tree<T> {
    fn desc_rec(&self, cur: Option<usize>, fuel: usize, out: &mut Vec<usize>)
        requires
            self.wf(),
            self@.link_ok(cur),
        ensures
            final(out)@ == old(out)@ + chain(self@.nodes, cur, fuel as nat),
        decreases fuel,
    {
        if fuel == 0 {
            return;
        }
        if let Some(c) = cur {
            proof {
                assert(self@.node_ok(c as int));
            }
            out.push(c);
            self.desc_rec(self.nodes[c].first_child, fuel - 1, out);
            self.desc_rec(self.nodes[c].next_sib, fuel - 1, out);
            proof {
                assert(out@ =~= old(out)@ + chain(self@.nodes, cur, fuel as nat));
            }
        }
    }

    fn count_kids(&self, cur: Option<usize>) -> (r: usize)
        requires
            self.wf(),
            self@.link_ok(cur),
        ensures
            r == kids(self@.nodes, cur, self@.fuel()).len(),
    {
        let ghost total: Seq<usize> = kids(self@.nodes, cur, self@.fuel());
        let n_slots = self.nodes.len();
        let mut cnt: usize = 0;
        let mut child = cur;
        let mut fuel = n_slots;
        while child.is_some() && fuel > 0
            invariant
                self.wf(),
                self@.link_ok(child),
                cnt + fuel == n_slots,
                n_slots == self@.fuel(),
                cnt + kids(self@.nodes, child, fuel as nat).len() == total.len(),
            decreases fuel,
        {
            let c = child.unwrap();
            proof {
                assert(self@.node_ok(c as int));
            }
            cnt = cnt + 1;
            child = self.nodes[c].next_sib;
            fuel = fuel - 1;
        }
        proof {
            assert(kids(self@.nodes, child, fuel as nat).len() == 0);
        }
        cnt
    }

    fn info_rec(&self, cur: Option<usize>, depth: usize, fuel: usize, out: &mut Vec<NodeInfo>)
        requires
            self.wf(),
            self@.link_ok(cur),
            depth + fuel <= self@.fuel(),
        ensures
            final(out)@ == old(out)@ + info_chain(self@.nodes, cur, depth, fuel as nat),
        decreases fuel,
    {
        if fuel == 0 {
            return;
        }
        let n_slots = self.nodes.len();
        if let Some(c) = cur {
            proof {
                assert(self@.node_ok(c as int));
                assert(depth + fuel <= n_slots);
            }
            let fc = self.nodes[c].first_child;
            let cc = self.count_kids(fc);
            out.push(NodeInfo { id: c, child_count: cc, depth: depth });
            self.info_rec(fc, depth + 1, fuel - 1, out);
            self.info_rec(self.nodes[c].next_sib, depth, fuel - 1, out);
            proof {
                assert(out@ =~= old(out)@ + info_chain(self@.nodes, cur, depth, fuel as nat));
            }
        }
    }

    fn depth_rec(&self, cur: Option<usize>, d: usize, fuel: usize, out: &mut Vec<usize>)
        requires
            self.wf(),
            self@.link_ok(cur),
        ensures
            final(out)@ == old(out)@ + chain_depth(self@.nodes, cur, d, fuel as nat),
        decreases fuel,
    {
        if fuel == 0 {
            return;
        }
        if let Some(c) = cur {
            proof {
                assert(self@.node_ok(c as int));
            }
            out.push(c);
            if d > 0 {
                self.depth_rec(self.nodes[c].first_child, d - 1, fuel - 1, out);
            }
            self.depth_rec(self.nodes[c].next_sib, d, fuel - 1, out);
            proof {
                assert(out@ =~= old(out)@ + chain_depth(self@.nodes, cur, d, fuel as nat));
            }
        }
    }

    fn depth_info_rec(&self, cur: Option<usize>, depth: usize, target: usize, fuel: usize, out: &mut Vec<NodeInfo>)
        requires
            self.wf(),
            self@.link_ok(cur),
        ensures
            final(out)@ == old(out)@ + info_chain_depth(self@.nodes, cur, depth, target, fuel as nat),
        decreases fuel,
    {
        if fuel == 0 {
            return;
        }
        if let Some(c) = cur {
            proof {
                assert(self@.node_ok(c as int));
            }
            let fc = self.nodes[c].first_child;
            let cc = self.count_kids(fc);
            out.push(NodeInfo { id: c, child_count: cc, depth: depth });
            if depth < target {
                self.depth_info_rec(fc, depth + 1, target, fuel - 1, out);
            }
            self.depth_info_rec(self.nodes[c].next_sib, depth, target, fuel - 1, out);
            proof {
                assert(out@ =~= old(out)@ + info_chain_depth(self@.nodes, cur, depth, target, fuel as nat));
            }
        }
    }

    /// Returns every descendant of `id`, preorder.
    pub fn descendants_of(&self, id: usize) -> (r: Result<Vec<usize>, TreeErr>)
        requires
            self.wf(),
        ensures
            match r {
                Ok(ids) => self@.valid(id) && ids@ == self@.descendants(id),
                Err(e) => !self@.valid(id) && e == TreeErr::InvalidId,
            },
    {
        self.valid_node(id)?;
        let mut ids: Vec<usize> = Vec::with_capacity(self.len);
        proof {
            assert(self@.node_ok(id as int));
        }
        let fuel = self.nodes.len() - 1;
        self.desc_rec(self.nodes[id].first_child, fuel, &mut ids);
        Ok(ids)
    }

    /// Returns `id` followed by every descendant of `id`, preorder.
    pub fn sub_tree(&self, id: usize) -> (r: Result<Vec<usize>, TreeErr>)
        requires
            self.wf(),
        ensures
            match r {
                Ok(ids) => self@.valid(id) && ids@ == self@.sub_tree_ids(id),
                Err(e) => !self@.valid(id) && e == TreeErr::InvalidId,
            },
    {
        self.valid_node(id)?;
        let mut ids: Vec<usize> = Vec::with_capacity(self.len);
        ids.push(id);
        proof {
            assert(self@.node_ok(id as int));
        }
        let fuel = self.nodes.len() - 1;
        self.desc_rec(self.nodes[id].first_child, fuel, &mut ids);
        proof {
            assert(ids@ =~= self@.sub_tree_ids(id));
        }
        Ok(ids)
    }

    /// Returns the annotated preorder walk of `id`'s subtree: each entry
    /// carries the node's id, its child count and its depth below `id`.
    pub fn sub_tree_info(&self, id: usize) -> (r: Result<Vec<NodeInfo>, TreeErr>)
        requires
            self.wf(),
        ensures
            match r {
                Ok(infos) => self@.valid(id) && infos@ == self@.sub_tree_infos(id),
                Err(e) => !self@.valid(id) && e == TreeErr::InvalidId,
            },
    {
        self.valid_node(id)?;
        let mut infos: Vec<NodeInfo> = Vec::new();
        proof {
            assert(self@.node_ok(id as int));
        }
        let fc = self.nodes[id].first_child;
        let cc = self.count_kids(fc);
        infos.push(NodeInfo { id: id, child_count: cc, depth: 0 });
        let fuel = self.nodes.len() - 1;
        self.info_rec(fc, 1, fuel, &mut infos);
        proof {
            assert(infos@ =~= self@.sub_tree_infos(id));
        }
        Ok(infos)
    }

    /// Returns the preorder walk of `id`'s subtree, pruned once `depth`
    /// levels below `id` are reached; `depth == 0` yields only `id`.
    pub fn sub_tree_depth(&self, id: usize, depth: usize) -> (r: Result<Vec<usize>, TreeErr>)
        requires
            self.wf(),
        ensures
            match r {
                Ok(ids) => self@.valid(id) && ids@ == self@.sub_tree_depth_ids(id, depth),
                Err(e) => !self@.valid(id) && e == TreeErr::InvalidId,
            },
    {
        self.valid_node(id)?;
        let mut ids: Vec<usize> = Vec::with_capacity(self.len);
        ids.push(id);
        proof {
            assert(self@.node_ok(id as int));
        }
        if depth > 0 {
            let fuel = self.nodes.len();
            self.depth_rec(self.nodes[id].first_child, depth - 1, fuel, &mut ids);
        }
        proof {
            assert(ids@ =~= self@.sub_tree_depth_ids(id, depth));
        }
        Ok(ids)
    }

    /// Returns the annotated walk of `id`'s subtree, descending only to
    /// `depth`; child counts are full counts even at the cut.
    pub fn sub_tree_depth_info(&self, id: usize, depth: usize) -> (r: Result<Vec<NodeInfo>, TreeErr>)
        requires
            self.wf(),
        ensures
            match r {
                Ok(infos) => self@.valid(id) && infos@ == self@.sub_tree_depth_infos(id, depth),
                Err(e) => !self@.valid(id) && e == TreeErr::InvalidId,
            },
    {
        self.valid_node(id)?;
        let mut infos: Vec<NodeInfo> = Vec::new();
        proof {
            assert(self@.node_ok(id as int));
        }
        let fc = self.nodes[id].first_child;
        let cc = self.count_kids(fc);
        infos.push(NodeInfo { id: id, child_count: cc, depth: 0 });
        if depth > 0 {
            let fuel = self.nodes.len();
            self.depth_info_rec(fc, 1, depth, fuel, &mut infos);
        }
        proof {
            assert(infos@ =~= self@.sub_tree_depth_infos(id, depth));
        }
        Ok(infos)
    }

    /// Returns the direct children of `id`, in sibling order.
    pub fn children_of(&self, id: usize) -> (r: Result<Vec<usize>, TreeErr>)
        requires
            self.wf(),
        ensures
            match r {
                Ok(ids) => self@.valid(id) && ids@ == self@.children(id),
                Err(e) => !self@.valid(id) && e == TreeErr::InvalidId,
            },
    {
        self.valid_node(id)?;
        proof {
            assert(self@.node_ok(id as int));
        }
        let mut children: Vec<usize> = Vec::new();
        let mut child = self.nodes[id].first_child;
        let mut fuel = self.nodes.len();
        while child.is_some() && fuel > 0
            invariant
                self.wf(),
                self@.link_ok(child),
                fuel <= self@.fuel(),
                children@ + kids(self@.nodes, child, fuel as nat) == self@.children(id),
            decreases fuel,
        {
            let c = child.unwrap();
            proof {
                assert(self@.node_ok(c as int));
            }
            children.push(c);
            child = self.nodes[c].next_sib;
            fuel = fuel - 1;
            proof {
                assert(children@ + kids(self@.nodes, child, fuel as nat) =~= self@.children(id));
            }
        }
        proof {
            assert(kids(self@.nodes, child, fuel as nat).len() == 0);
            assert(children@ =~= self@.children(id));
        }
        Ok(children)
    }
}


// ---------------------------------------------------------------------------
// Mutations, composed from the primitives above.
// ---------------------------------------------------------------------------

/// Whether `pos` is relative to a sibling rather than to a parent.
pub open spec fn sibling_position(pos: Position) -> bool {
    pos is SiblingBefore || pos is SiblingAfter
}

/// The effect of `new_node`: allocate, then attach.
pub open spec fn spec_new_node<T>(v: TreeV<T>, data: T, pos: Position, node: usize) -> (TreeV<T>, usize) {
    let (v1, id) = spec_alloc(v, data);
    (spec_attach(v1, id, pos, node), id)
}

/// The effect of `remove`: splice out, drop the root if it is the removed
/// node, then free the whole subtree.
/// The state in the middle of a removal: `id` spliced out of its sibling
/// list, and the root cleared when `id` was the root.
pub open spec fn removal_state<T>(v: TreeV<T>, id: usize) -> TreeV<T>
    recommends
        v.valid(id),
{
    let v1 = spec_decouple(v, id);
    TreeV { root: if v1.root == Some(id) { None } else { v1.root }, ..v1 }
}

pub open spec fn spec_remove<T>(v: TreeV<T>, id: usize) -> TreeV<T>
    recommends
        v.valid(id),
{
    let v2 = removal_state(v, id);
    spec_free_one(spec_free_list(v2, v2.descendants(id)), id)
}

/// The effect of `new_root`: remove the old tree, allocate, crown the node.
pub open spec fn spec_new_root<T>(v: TreeV<T>, data: T) -> (TreeV<T>, usize) {
    let v1 = match v.root {
        Some(r) => if v.valid(r) { spec_remove(v, r) } else { v },
        None => v,
    };
    let (v2, id) = spec_alloc(v1, data);
    (TreeV { root: Some(id), ..v2 }, id)
}

/// The effect of `make_root`: splice `id` out, clear its parent link, remove
/// whatever still hangs off the old root, and crown `id`.
pub open spec fn spec_make_root<T>(v: TreeV<T>, id: usize) -> TreeV<T>
    recommends
        v.valid(id),
{
    let v1 = spec_decouple(v, id);
    let v2 = match v1.root {
        Some(r) => if r != id && v1.valid(r) { spec_remove(v1, r) } else { v1 },
        None => v1,
    };
    let v3 = TreeV { nodes: v2.nodes.update(id as int, Node { parent: None, ..v2.nodes[id as int] }), ..v2 };
    TreeV { root: Some(id), ..v3 }
}

/// The effect of `move_to` on success: splice out, then attach elsewhere.
pub open spec fn spec_move<T>(v: TreeV<T>, moving: usize, pos: Position, node: usize) -> TreeV<T> {
    spec_attach(spec_decouple(v, moving), moving, pos, node)
}

proof fn lemma_chain_in_range<T>(s: Seq<Node<T>>, cur: Option<usize>, fuel: nat)
    ensures
        forall|k: int| 0 <= k < chain(s, cur, fuel).len() ==> (#[trigger] chain(s, cur, fuel)[k] as int) < s.len(),
    decreases fuel,
{
    if fuel > 0 {
        match cur {
            None => {},
            Some(c) => {
                if (c as int) < s.len() {
                    let below = chain(s, s[c as int].first_child, (fuel - 1) as nat);
                    let after = chain(s, s[c as int].next_sib, (fuel - 1) as nat);
                    lemma_chain_in_range(s, s[c as int].first_child, (fuel - 1) as nat);
                    lemma_chain_in_range(s, s[c as int].next_sib, (fuel - 1) as nat);
                    let whole = chain(s, cur, fuel);
                    assert(whole == Seq::empty().push(c) + below + after);
                    assert forall|k: int| 0 <= k < whole.len() implies (whole[k] as int) < s.len() by {
                        if k == 0 {
                            assert(whole[k] == c);
                        } else if k <= below.len() {
                            assert(whole[k] == below[k - 1]);
                        } else {
                            assert(whole[k] == after[k - 1 - below.len()]);
                        }
                    }
                }
            },
        }
    }
}

proof fn lemma_free_list_snoc<T>(v: TreeV<T>, ids: Seq<usize>, x: usize)
    ensures
        spec_free_list(v, ids.push(x)) == spec_free_one(spec_free_list(v, ids), x),
    decreases ids.len(),
{
    reveal_with_fuel(spec_free_list, 3);
    if ids.len() == 0 {
        assert(ids.push(x).drop_first() =~= Seq::<usize>::empty());
        assert(ids.push(x)[0] == x);
    } else {
        assert(ids.push(x).drop_first() =~= ids.drop_first().push(x));
        assert(ids.push(x)[0] == ids[0]);
        lemma_free_list_snoc(spec_free_one(v, ids[0]), ids.drop_first(), x);
    }
}

proof fn lemma_free_list_wf<T>(v: TreeV<T>, ids: Seq<usize>)
    requires
        v.wf(),
    ensures
        spec_free_list(v, ids).wf(),
        spec_free_list(v, ids).n() == v.n(),
        spec_free_list(v, ids).root == v.root,
    decreases ids.len(),
{
    if ids.len() > 0 {
        lemma_free_one_wf(v, ids[0]);
        lemma_free_list_wf(spec_free_one(v, ids[0]), ids.drop_first());
    }
}

impl<T> Tree<T> {
    /// Returns a reference to the data held by `id`.
    pub fn data_at(&self, id: usize) -> (r: Result<&T, TreeErr>)
        ensures
            match r {
                Ok(d) => self@.valid(id) && self@.nodes[id as int].data == Some(*d),
                Err(e) => !self@.valid(id) && e == TreeErr::InvalidId,
            },
    {
        self.valid_node(id)?;
        match &self.nodes[id].data {
            Some(d) => Ok(d),
            None => Err(TreeErr::InvalidId),
        }
    }

    /// Returns a mutable reference to the data held by `id`. The caller must
    /// make sure `id` names a live node first — `data_at` or any of the
    /// error-checked accessors settles that — since a reference, unlike the
    /// other accessors' results, cannot carry the `InvalidId` case.
    pub fn data_at_mut(&mut self, id: usize) -> (r: &mut T)
        requires
            old(self)@.valid(id),
        ensures
            final(self)@.nodes == old(self)@.nodes.update(id as int, Node { data: Some(*final(r)), ..old(self)@.nodes[id as int] }),
            final(self)@.free == old(self)@.free,
            final(self)@.root == old(self)@.root,
            final(self)@.count == old(self)@.count,
    {
        let r = self.nodes[id].data.as_mut();
        match r {
            Some(d) => d,
            None => unreached(),
        }
    }

    /// Returns the parent id of `id`.
    pub fn parent_of(&self, id: usize) -> (r: Result<Option<usize>, TreeErr>)
        ensures
            match r {
                Ok(p) => self@.valid(id) && p == self@.nodes[id as int].parent,
                Err(e) => !self@.valid(id) && e == TreeErr::InvalidId,
            },
    {
        self.valid_node(id)?;
        Ok(self.nodes[id].parent)
    }

    /// Returns the next sibling id of `id`.
    pub fn next_sib_of(&self, id: usize) -> (r: Result<Option<usize>, TreeErr>)
        ensures
            match r {
                Ok(p) => self@.valid(id) && p == self@.nodes[id as int].next_sib,
                Err(e) => !self@.valid(id) && e == TreeErr::InvalidId,
            },
    {
        self.valid_node(id)?;
        Ok(self.nodes[id].next_sib)
    }

    /// Returns the previous sibling id of `id`.
    pub fn prev_sib_of(&self, id: usize) -> (r: Result<Option<usize>, TreeErr>)
        ensures
            match r {
                Ok(p) => self@.valid(id) && p == self@.nodes[id as int].prev_sib,
                Err(e) => !self@.valid(id) && e == TreeErr::InvalidId,
            },
    {
        self.valid_node(id)?;
        Ok(self.nodes[id].prev_sib)
    }

    /// Returns the first child id of `id`.
    pub fn first_child_of(&self, id: usize) -> (r: Result<Option<usize>, TreeErr>)
        ensures
            match r {
                Ok(p) => self@.valid(id) && p == self@.nodes[id as int].first_child,
                Err(e) => !self@.valid(id) && e == TreeErr::InvalidId,
            },
    {
        self.valid_node(id)?;
        Ok(self.nodes[id].first_child)
    }

    /// Returns the last child id of `id`.
    pub fn last_child_of(&self, id: usize) -> (r: Result<Option<usize>, TreeErr>)
        ensures
            match r {
                Ok(p) => self@.valid(id) && p == self@.nodes[id as int].last_child,
                Err(e) => !self@.valid(id) && e == TreeErr::InvalidId,
            },
    {
        self.valid_node(id)?;
        Ok(self.nodes[id].last_child)
    }

    /// Creates a node holding `data`, attached to `node` at `in_position`.
    /// Sibling positions reject the root; the new node's id is returned.
    pub fn new_node(&mut self, data: T, in_position: Position, node: usize) -> (r: Result<usize, TreeErr>)
        requires
            old(self).wf(),
        ensures
            final(self).wf(),
            match r {
                Ok(id) => {
                    &&& old(self)@.valid(node)
                    &&& (sibling_position(in_position) ==> old(self)@.root != Some(node))
                    &&& final(self)@ == spec_new_node(old(self)@, data, in_position, node).0
                    &&& id == spec_new_node(old(self)@, data, in_position, node).1
                    &&& !old(self)@.valid(id)
                    &&& final(self)@.valid(id)
                    &&& final(self)@.nodes[id as int].data == Some(data)
                    &&& final(self)@.count == old(self)@.count + 1
                    &&& final(self)@.root == old(self)@.root
                    &&& (!sibling_position(in_position) || old(self)@.nodes[node as int].parent != Some(id))
                        ==> final(self)@.nodes[id as int].first_child is None && final(self)@.nodes[id as int].last_child is None
                },
                Err(e) => {
                    &&& final(self)@ == old(self)@
                    &&& (e == TreeErr::InvalidId <==> !old(self)@.valid(node))
                    &&& (e == TreeErr::CantBeRoot <==> old(self)@.valid(node) && sibling_position(in_position) && old(self)@.root == Some(node))
                    &&& e != TreeErr::CantMoveIntoChild
                },
            },
    {
        let n_slots = self.nodes.len();
        match in_position {
            Position::FirstChild | Position::LastChild => self.valid_node(node)?,
            Position::SiblingBefore | Position::SiblingAfter => self.valid_sib(node)?,
        };
        proof {
            assert(old(self)@.nodes.len() == n_slots);
            lemma_alloc_wf(old(self)@, data);
            lemma_attach_wf(spec_alloc(old(self)@, data).0, spec_alloc(old(self)@, data).1, in_position, node);
        }
        let new = self.get_node(data);
        self.attach(new, in_position, node);
        proof {
            let v1 = spec_alloc(old(self)@, data).0;
            let nid = spec_alloc(old(self)@, data).1;
            assert(node != nid);
            if !sibling_position(in_position) || old(self)@.nodes[node as int].parent != Some(nid) {
                assert(self@.nodes[nid as int].first_child is None && self@.nodes[nid as int].last_child is None) by {
                    assert(v1.node_ok(node as int));
                    match in_position {
                        Position::FirstChild => {
                            assert(self@ == spec_prepend(v1, node, nid));
                        },
                        Position::LastChild => {
                            assert(self@ == spec_append(v1, node, nid));
                        },
                        Position::SiblingBefore => {
                            assert(self@ == spec_sib_before(v1, node, nid));
                        },
                        Position::SiblingAfter => {
                            assert(self@ == spec_sib_after(v1, node, nid));
                        },
                    }
                }
            }
        }
        Ok(new)
    }

    /// Removes `id` and every one of its descendants from the tree.
    #[verifier::loop_isolation(false)]
    pub fn remove(&mut self, id: usize) -> (r: Result<(), TreeErr>)
        requires
            old(self).wf(),
        ensures
            final(self).wf(),
            match r {
                Ok(()) => {
                    &&& old(self)@.valid(id)
                    &&& final(self)@ == spec_remove(old(self)@, id)
                    &&& !final(self)@.valid(id)
                    &&& final(self)@.n() == old(self)@.n()
                    &&& (old(self)@.linked() && old(self)@.root == Some(id)
                        ==> final(self)@.count == 0 && final(self)@.root is None)
                },
                Err(e) => {
                    &&& e == TreeErr::InvalidId
                    &&& !old(self)@.valid(id)
                    &&& final(self)@ == old(self)@
                },
            },
    {
        self.valid_node(id)?;
        self.decouple(id);
        let was_root = match self.root {
            Some(r) => r == id,
            None => false,
        };
        if was_root {
            self.root = None;
        }
        let ghost v2 = self@;
        proof {
            lemma_decouple_wf(old(self)@, id);
            let m1 = spec_decouple(old(self)@, id);
            assert(v2 =~= (TreeV { root: if m1.root == Some(id) { None } else { m1.root }, ..m1 }));
            assert(v2.nodes == m1.nodes);
            assert forall|i: int| 0 <= i < v2.n() implies v2.node_ok(i) by {
                assert(m1.node_ok(i));
            }
            assert(v2.wf());
        }
        let ids = match self.descendants_of(id) {
            Ok(v) => v,
            Err(_) => {
                proof {
                    assert(false);
                }
                Vec::new()
            },
        };
        proof {
            lemma_chain_in_range(v2.nodes, v2.nodes[id as int].first_child, (v2.fuel() - 1) as nat);
        }
        let mut i: usize = 0;
        while i < ids.len()
            invariant
                ids@ == v2.descendants(id),
                forall|k: int| 0 <= k < ids@.len() ==> (#[trigger] ids@[k] as int) < v2.n(),
                i <= ids.len(),
                self.wf(),
                self@ == spec_free_list(v2, ids@.take(i as int)),
                self@.n() == v2.n(),
            decreases ids@.len() - i,
        {
            proof {
                lemma_free_list_wf(v2, ids@.take(i as int));
            }
            let cid = ids[i];
            self.push_free(cid);
            i = i + 1;
            proof {
                assert(ids@.take(i as int) =~= ids@.take(i as int - 1).push(cid));
                lemma_free_list_snoc(v2, ids@.take(i as int - 1), cid);
            }
        }
        proof {
            assert(ids@.take(ids@.len() as int) =~= ids@);
            lemma_free_list_wf(v2, ids@);
        }
        self.push_free(id);
        proof {
            if old(self)@.linked() && old(self)@.root == Some(id) {
                lemma_remove_root_empties(old(self)@, id);
            }
        }
        Ok(())
    }

    /// Makes `data` the root of a fresh tree, removing everything that was
    /// there before, and returns the new root's id.
    pub fn new_root(&mut self, data: T) -> (id: usize)
        requires
            old(self).wf(),
        ensures
            final(self).wf(),
            final(self)@ == spec_new_root(old(self)@, data).0,
            id == spec_new_root(old(self)@, data).1,
            final(self)@.root == Some(id),
            final(self)@.valid(id),
            final(self)@.nodes[id as int].data == Some(data),
            final(self)@.nodes[id as int].first_child is None,
            final(self)@.nodes[id as int].last_child is None,
            final(self)@.sub_tree_ids(id) == seq![id],
            final(self)@.children(id) == Seq::<usize>::empty(),
            old(self)@.linked() ==> final(self)@.count == 1,
    {
        if let Some(rid) = self.get_root() {
            let _ = self.remove(rid);
        }
        proof {
            if old(self)@.linked() {
                match old(self)@.root {
                    Some(rid) => {
                        lemma_remove_root_empties(old(self)@, rid);
                    },
                    None => {},
                }
                assert(self@.count == 0);
            }
        }
        let n_slots = self.nodes.len();
        proof {
            assert(self@.nodes.len() == n_slots);
            lemma_alloc_wf(self@, data);
        }
        let id = self.get_node(data);
        let ghost va = self@;
        self.root = Some(id);
        proof {
            assert forall|i: int| 0 <= i < self@.n() implies self@.node_ok(i) by {
                assert(va.node_ok(i));
            }
            assert(self@.wf());
            assert(self@ =~= spec_new_root(old(self)@, data).0);
            assert(self@.sub_tree_ids(id) =~= seq![id]);
            assert(self@.children(id) =~= Seq::<usize>::empty());
        }
        id
    }

    /// Promotes `id` to be the root: everything outside `id`'s subtree is
    /// removed, and `id` keeps its descendants.
    pub fn make_root(&mut self, id: usize) -> (r: Result<(), TreeErr>)
        requires
            old(self).wf(),
        ensures
            final(self).wf(),
            match r {
                Ok(()) => {
                    &&& old(self)@.valid(id)
                    &&& final(self)@ == spec_make_root(old(self)@, id)
                    &&& final(self)@.root == Some(id)
                    &&& final(self)@.nodes[id as int].parent is None
                    &&& (old(self)@.linked() && old(self)@.root == Some(id) ==> final(self)@ == old(self)@)
                },
                Err(e) => {
                    &&& e == TreeErr::InvalidId
                    &&& !old(self)@.valid(id)
                    &&& final(self)@ == old(self)@
                },
            },
    {
        self.valid_node(id)?;
        proof {
            lemma_decouple_wf(old(self)@, id);
        }
        self.decouple(id);
        let old_root = self.get_root();
        if let Some(rid) = old_root {
            if rid != id {
                let _ = self.remove(rid);
            }
        }
        let ghost m2 = self@;
        self.nodes[id].parent = None;
        let ghost m3 = TreeV { nodes: m2.nodes.update(id as int, Node { parent: None, ..m2.nodes[id as int] }), ..m2 };
        proof {
            assert(self@.nodes =~= m3.nodes);
            assert(self@ =~= m3);
            lemma_count_occupied_update(m2.nodes, id as int, m3.nodes[id as int]);
            assert forall|i: int| 0 <= i < m3.n() implies m3.node_ok(i) by {
                assert(m2.node_ok(i));
            }
            assert(m3.wf());
        }
        self.root = Some(id);
        proof {
            assert forall|i: int| 0 <= i < self@.n() implies self@.node_ok(i) by {
                assert(m3.node_ok(i));
            }
            assert(self@.wf());
            assert(self@ =~= spec_make_root(old(self)@, id));
            if old(self)@.linked() && old(self)@.root == Some(id) {
                lemma_make_root_of_root(old(self)@, id);
            }
        }
        Ok(())
    }

    #[verifier::loop_isolation(false)]
    fn valid_move(&self, moving: usize, new_place: usize) -> (r: Result<(), TreeErr>)
        requires
            self.wf(),
        ensures
            match r {
                Ok(()) => self@.valid(moving) && self@.valid(new_place) && !self@.sub_tree_ids(moving).contains(new_place),
                Err(e) => {
                    &&& (e == TreeErr::InvalidId <==> !self@.valid(moving) || !self@.valid(new_place))
                    &&& (e == TreeErr::CantMoveIntoChild <==> self@.valid(moving) && self@.valid(new_place) && self@.sub_tree_ids(moving).contains(new_place))
                    &&& e != TreeErr::CantBeRoot
                },
            },
    {
        self.valid_node(moving)?;
        self.valid_node(new_place)?;
        let ids = match self.sub_tree(moving) {
            Ok(v) => v,
            Err(_) => {
                proof {
                    assert(false);
                }
                Vec::new()
            },
        };
        let mut i: usize = 0;
        while i < ids.len()
            invariant
                ids@ == self@.sub_tree_ids(moving),
                i <= ids.len(),
                forall|k: int| 0 <= k < i ==> ids@[k] != new_place,
            decreases ids@.len() - i,
        {
            if ids[i] == new_place {
                proof {
                    assert(ids@[i as int] == new_place);
                    assert(self@.sub_tree_ids(moving).contains(new_place));
                }
                return Err(TreeErr::CantMoveIntoChild);
            }
            i = i + 1;
        }
        proof {
            if self@.sub_tree_ids(moving).contains(new_place) {
                let k = choose|k: int| 0 <= k < ids@.len() && ids@[k] == new_place;
                assert(ids@[k] == new_place);
                assert(false);
            }
        }
        Ok(())
    }

    /// Moves `id` (with its whole subtree) to `in_position` relative to
    /// `node`. Moving a node into its own subtree is rejected first; making
    /// a node a sibling of the root is rejected next.
    pub fn move_to(&mut self, moving: usize, in_position: Position, node: usize) -> (r: Result<(), TreeErr>)
        requires
            old(self).wf(),
        ensures
            final(self).wf(),
            match r {
                Ok(()) => {
                    &&& old(self)@.valid(moving)
                    &&& old(self)@.valid(node)
                    &&& !old(self)@.sub_tree_ids(moving).contains(node)
                    &&& (sibling_position(in_position) ==> old(self)@.root != Some(node))
                    &&& final(self)@ == spec_move(old(self)@, moving, in_position, node)
                },
                Err(e) => {
                    &&& final(self)@ == old(self)@
                    &&& (e == TreeErr::InvalidId <==> !old(self)@.valid(moving) || !old(self)@.valid(node))
                    &&& (e == TreeErr::CantMoveIntoChild <==> old(self)@.valid(moving) && old(self)@.valid(node) && old(self)@.sub_tree_ids(moving).contains(node))
                    &&& (e == TreeErr::CantBeRoot <==> old(self)@.valid(moving) && old(self)@.valid(node) && !old(self)@.sub_tree_ids(moving).contains(node) && sibling_position(in_position) && old(self)@.root == Some(node))
                },
            },
    {
        self.valid_move(moving, node)?;
        match in_position {
            Position::FirstChild | Position::LastChild => (),
            Position::SiblingBefore | Position::SiblingAfter => {
                self.valid_sib(node)?;
            },
        };
        proof {
            lemma_decouple_wf(old(self)@, moving);
        }
        self.decouple(moving);
        self.attach(moving, in_position, node);
        Ok(())
    }
}


// ---------------------------------------------------------------------------
// Deep clone, for payloads that can be copied.
// ---------------------------------------------------------------------------

/// The effect of cloning the sibling chain starting at `cur` under
/// `new_parent`: for each chain member, allocate a copy of its payload,
/// append it, clone the member's own children beneath the copy, and go on to
/// the next sibling.
pub open spec fn spec_clone_chain<T>(v: TreeV<T>, cur: Option<usize>, new_parent: usize, fuel: nat) -> TreeV<T>
    decreases fuel,
{
    if fuel == 0 {
        v
    } else {
        match cur {
            None => v,
            Some(c) => if (c as int) < v.n() {
                match v.nodes[c as int].data {
                    Some(x) => {
                        let (v1, nc) = spec_alloc(v, x);
                        let v2 = spec_append(v1, new_parent, nc);
                        let v3 = spec_clone_chain(v2, v2.nodes[c as int].first_child, nc, (fuel - 1) as nat);
                        spec_clone_chain(v3, v3.nodes[c as int].next_sib, new_parent, (fuel - 1) as nat)
                    },
                    None => v,
                }
            } else {
                v
            },
        }
    }
}

/// The effect of cloning the whole subtree rooted at `id`, detached: the
/// state after, and the id of the copy's root.
pub open spec fn spec_clone_node<T>(v: TreeV<T>, id: usize) -> (TreeV<T>, usize)
    recommends
        v.valid(id),
{
    match v.nodes[id as int].data {
        Some(x) => {
            let (v1, nc) = spec_alloc(v, x);
            (spec_clone_chain(v1, v1.nodes[id as int].first_child, nc, v1.nodes.len()), nc)
        },
        None => (v, 0),
    }
}

/// The effect of `clone_to`: clone the subtree, then attach the copy.
pub open spec fn spec_clone_to<T>(v: TreeV<T>, cloning: usize, pos: Position, node: usize) -> (TreeV<T>, usize) {
    let (v1, nc) = spec_clone_node(v, cloning);
    (spec_attach(v1, nc, pos, node), nc)
}

proof fn lemma_alloc_keeps<T>(v: TreeV<T>, data: T)
    ensures
        forall|j: usize| v.valid(j) ==> #[trigger] spec_alloc(v, data).0.valid(j),
        spec_alloc(v, data).0.root == v.root,
{
}

impl<T: Copy> Tree<T> {
    fn clone_chain(&mut self, cur: Option<usize>, new_parent: usize, fuel: usize)
        requires
            old(self).wf(),
            old(self)@.link_ok(cur),
            (new_parent as int) < old(self)@.n(),
        ensures
            final(self).wf(),
            final(self)@ == spec_clone_chain(old(self)@, cur, new_parent, fuel as nat),
            final(self)@.n() >= old(self)@.n(),
            final(self)@.root == old(self)@.root,
            forall|j: usize| old(self)@.valid(j) ==> #[trigger] final(self)@.valid(j),
        decreases fuel,
    {
        if fuel == 0 {
            return;
        }
        if let Some(c) = cur {
            proof {
                assert(old(self)@.node_ok(c as int));
            }
            let d = self.nodes[c].data;
            if let Some(x) = d {
                let n_slots = self.nodes.len();
                proof {
                    assert(self@.nodes.len() == n_slots);
                    lemma_alloc_wf(old(self)@, x);
                    lemma_alloc_keeps(old(self)@, x);
                    lemma_append_wf(spec_alloc(old(self)@, x).0, new_parent, spec_alloc(old(self)@, x).1);
                }
                let nc = self.get_node(x);
                self.append_child(new_parent, nc);
                let fc = self.nodes[c].first_child;
                proof {
                    assert(self@.node_ok(c as int));
                }
                self.clone_chain(fc, nc, fuel - 1);
                let ns = self.nodes[c].next_sib;
                proof {
                    assert(self@.node_ok(c as int));
                }
                self.clone_chain(ns, new_parent, fuel - 1);
            }
        }
    }

    fn clone_node(&mut self, id: usize) -> (nid: usize)
        requires
            old(self).wf(),
            old(self)@.valid(id),
        ensures
            final(self).wf(),
            final(self)@ == spec_clone_node(old(self)@, id).0,
            nid == spec_clone_node(old(self)@, id).1,
            final(self)@.n() >= old(self)@.n(),
            final(self)@.root == old(self)@.root,
            forall|j: usize| old(self)@.valid(j) ==> #[trigger] final(self)@.valid(j),
            final(self)@.valid(nid),
            !old(self)@.valid(nid),
    {
        let n_slots = self.nodes.len();
        proof {
            assert(self@.nodes.len() == n_slots);
            lemma_alloc_wf(old(self)@, self@.nodes[id as int].data.unwrap());
        }
        let d = self.nodes[id].data;
        match d {
            Some(x) => {
                proof {
                    lemma_alloc_keeps(old(self)@, x);
                }
                let nc = self.get_node(x);
                let fuel = self.nodes.len();
                proof {
                    assert(self@.node_ok(id as int));
                }
                let fc = self.nodes[id].first_child;
                self.clone_chain(fc, nc, fuel);
                nc
            },
            None => unreached(),
        }
    }

    /// Clones the subtree rooted at `cloning` — fresh ids, copied payloads,
    /// same shape — and attaches the copy to `node` at `in_position`,
    /// returning the copy's root id. Sibling positions reject the root.
    pub fn clone_to(&mut self, cloning: usize, in_position: Position, node: usize) -> (r: Result<usize, TreeErr>)
        requires
            old(self).wf(),
        ensures
            final(self).wf(),
            match r {
                Ok(nid) => {
                    &&& old(self)@.valid(cloning)
                    &&& old(self)@.valid(node)
                    &&& (sibling_position(in_position) ==> old(self)@.root != Some(node))
                    &&& final(self)@ == spec_clone_to(old(self)@, cloning, in_position, node).0
                    &&& nid == spec_clone_to(old(self)@, cloning, in_position, node).1
                    &&& !old(self)@.valid(nid)
                    &&& final(self)@.valid(nid)
                    &&& final(self)@.root == old(self)@.root
                },
                Err(e) => {
                    &&& final(self)@ == old(self)@
                    &&& (e == TreeErr::InvalidId <==> !old(self)@.valid(cloning) || !old(self)@.valid(node))
                    &&& (e == TreeErr::CantBeRoot <==> old(self)@.valid(cloning) && old(self)@.valid(node) && sibling_position(in_position) && old(self)@.root == Some(node))
                    &&& e != TreeErr::CantMoveIntoChild
                },
            },
    {
        self.valid_node(cloning)?;
        match in_position {
            Position::FirstChild | Position::LastChild => self.valid_node(node)?,
            Position::SiblingBefore | Position::SiblingAfter => self.valid_sib(node)?,
        };
        let new = self.clone_node(cloning);
        proof {
            lemma_attach_wf(self@, new, in_position, node);
        }
        self.attach(new, in_position, node);
        Ok(new)
    }
}

// ---------------------------------------------------------------------------
// Laws of the attach primitives and of removal.
// ---------------------------------------------------------------------------

/// Inserting as last child of `p` moves `p.last_child` to the new node, sets
/// `p.first_child` only when `p` had no children, chains the former last
/// child to the new node, and leaves every other node's links untouched.
pub proof fn lemma_last_child_position<T>(v: TreeV<T>, p: usize, c: usize)
    requires
        v.linked(),
        v.valid(p),
        (c as int) < v.n(),
        !v.valid(c),
    ensures
        ({
            let r = spec_append(v, p, c);
            &&& r.nodes[p as int].last_child == Some(c)
            &&& r.nodes[p as int].first_child == (if v.nodes[p as int].first_child is None { Some(c) } else { v.nodes[p as int].first_child })
            &&& r.nodes[c as int].parent == Some(p)
            &&& r.nodes[c as int].prev_sib == v.nodes[p as int].last_child
            &&& r.nodes[c as int].next_sib is None
            &&& (match v.nodes[p as int].last_child {
                Some(q) => r.nodes[q as int].next_sib == Some(c)
                    && r.nodes[q as int].prev_sib == v.nodes[q as int].prev_sib
                    && r.nodes[q as int].parent == v.nodes[q as int].parent,
                None => true,
            })
            &&& forall|j: int| 0 <= j < v.n() && j != p && j != c
                && Some(j as usize) != v.nodes[p as int].last_child
                ==> #[trigger] r.nodes[j] == v.nodes[j]
        }),
{
    assert(v.node_ok(p as int));
    assert(v.occ_links(p as int));
}

/// Inserting as first child of `p` is the mirror image: `p.first_child`
/// moves, the former first child gains the new node as previous sibling, and
/// no other node's links move.
pub proof fn lemma_first_child_position<T>(v: TreeV<T>, p: usize, c: usize)
    requires
        v.linked(),
        v.valid(p),
        (c as int) < v.n(),
        !v.valid(c),
    ensures
        ({
            let r = spec_prepend(v, p, c);
            &&& r.nodes[p as int].first_child == Some(c)
            &&& r.nodes[p as int].last_child == (if v.nodes[p as int].last_child is None { Some(c) } else { v.nodes[p as int].last_child })
            &&& r.nodes[c as int].parent == Some(p)
            &&& r.nodes[c as int].next_sib == v.nodes[p as int].first_child
            &&& r.nodes[c as int].prev_sib is None
            &&& (match v.nodes[p as int].first_child {
                Some(q) => r.nodes[q as int].prev_sib == Some(c)
                    && r.nodes[q as int].next_sib == v.nodes[q as int].next_sib
                    && r.nodes[q as int].parent == v.nodes[q as int].parent,
                None => true,
            })
            &&& forall|j: int| 0 <= j < v.n() && j != p && j != c
                && Some(j as usize) != v.nodes[p as int].first_child
                ==> #[trigger] r.nodes[j] == v.nodes[j]
        }),
{
    assert(v.node_ok(p as int));
    assert(v.occ_links(p as int));
}

/// Inserting before sibling `s` places the new node immediately adjacent:
/// only `s.prev_sib`, the former predecessor's `next_sib` (or the parent's
/// `first_child`) and the new node itself change; `s`'s other neighbour is
/// untouched.
pub proof fn lemma_sibling_before_position<T>(v: TreeV<T>, s: usize, c: usize)
    requires
        v.linked(),
        v.valid(s),
        (c as int) < v.n(),
        !v.valid(c),
    ensures
        ({
            let r = spec_sib_before(v, s, c);
            &&& r.nodes[c as int].next_sib == Some(s)
            &&& r.nodes[c as int].prev_sib == v.nodes[s as int].prev_sib
            &&& r.nodes[c as int].parent == v.nodes[s as int].parent
            &&& r.nodes[s as int].prev_sib == Some(c)
            &&& r.nodes[s as int].next_sib == v.nodes[s as int].next_sib
            &&& r.nodes[s as int].parent == v.nodes[s as int].parent
            &&& (match v.nodes[s as int].prev_sib {
                Some(q) => r.nodes[q as int].next_sib == Some(c),
                None => match v.nodes[s as int].parent {
                    Some(p) => r.nodes[p as int].first_child == Some(c),
                    None => true,
                },
            })
            &&& forall|j: int| 0 <= j < v.n() && j != s as int && j != c as int
                && Some(j as usize) != v.nodes[s as int].prev_sib
                && (v.nodes[s as int].prev_sib is Some || Some(j as usize) != v.nodes[s as int].parent)
                ==> #[trigger] r.nodes[j] == v.nodes[j]
        }),
{
    assert(v.node_ok(s as int));
    assert(v.occ_links(s as int));
}

/// Inserting after sibling `s` is the mirror image.
pub proof fn lemma_sibling_after_position<T>(v: TreeV<T>, s: usize, c: usize)
    requires
        v.linked(),
        v.valid(s),
        (c as int) < v.n(),
        !v.valid(c),
    ensures
        ({
            let r = spec_sib_after(v, s, c);
            &&& r.nodes[c as int].prev_sib == Some(s)
            &&& r.nodes[c as int].next_sib == v.nodes[s as int].next_sib
            &&& r.nodes[c as int].parent == v.nodes[s as int].parent
            &&& r.nodes[s as int].next_sib == Some(c)
            &&& r.nodes[s as int].prev_sib == v.nodes[s as int].prev_sib
            &&& r.nodes[s as int].parent == v.nodes[s as int].parent
            &&& (match v.nodes[s as int].next_sib {
                Some(q) => r.nodes[q as int].prev_sib == Some(c),
                None => match v.nodes[s as int].parent {
                    Some(p) => r.nodes[p as int].last_child == Some(c),
                    None => true,
                },
            })
            &&& forall|j: int| 0 <= j < v.n() && j != s as int && j != c as int
                && Some(j as usize) != v.nodes[s as int].next_sib
                && (v.nodes[s as int].next_sib is Some || Some(j as usize) != v.nodes[s as int].parent)
                ==> #[trigger] r.nodes[j] == v.nodes[j]
        }),
{
    assert(v.node_ok(s as int));
    assert(v.occ_links(s as int));
}

proof fn lemma_free_list_count<T>(w: TreeV<T>, ids: Seq<usize>)
    requires
        w.wf(),
        ids.no_duplicates(),
        forall|k: int| 0 <= k < ids.len() ==> w.valid(#[trigger] ids[k]),
    ensures
        spec_free_list(w, ids).wf(),
        spec_free_list(w, ids).count == w.count - ids.len(),
        forall|k: int| 0 <= k < ids.len() ==> !spec_free_list(w, ids).valid(#[trigger] ids[k]),
        forall|j: usize| !w.valid(j) ==> !(#[trigger] spec_free_list(w, ids).valid(j)),
        forall|j: usize| w.valid(j) && !ids.contains(j) ==> #[trigger] spec_free_list(w, ids).valid(j),
    decreases ids.len(),
{
    if ids.len() == 0 {
    } else {
        let x = ids[0];
        let w1 = spec_free_one(w, x);
        lemma_free_one_wf(w, x);
        lemma_count_occupied_occupied_slot(w.nodes, x as int);
        let rest = ids.drop_first();
        assert(rest.no_duplicates()) by {
            assert forall|i: int, j: int| 0 <= i < rest.len() && 0 <= j < rest.len() && i != j implies rest[i] != rest[j] by {
                assert(ids[i + 1] != ids[j + 1]);
            }
        }
        assert forall|k: int| 0 <= k < rest.len() implies w1.valid(#[trigger] rest[k]) by {
            assert(ids[k + 1] == rest[k]);
            assert(w.valid(ids[k + 1]));
            assert(ids[k + 1] != ids[0]);
        }
        lemma_free_list_count(w1, rest);
        assert(spec_free_list(w, ids) == spec_free_list(w1, rest));
        assert forall|k: int| 0 <= k < ids.len() implies !spec_free_list(w, ids).valid(#[trigger] ids[k]) by {
            if k == 0 {
                assert(!w1.valid(x));
            } else {
                assert(ids[k] == rest[k - 1]);
            }
        }
        assert forall|j: usize| w.valid(j) && !ids.contains(j) implies #[trigger] spec_free_list(w, ids).valid(j) by {
            assert(ids[0] == x);
            assert(j != x);
            assert(!rest.contains(j)) by {
                if rest.contains(j) {
                    let k = choose|k: int| 0 <= k < rest.len() && rest[k] == j;
                    assert(ids[k + 1] == j);
                }
            }
        }
    }
}

/// Cascading removal: when the subtree listing below `id` is structurally
/// sound — no duplicate ids, every listed id a live node other than `id`,
/// as it always is on a well-linked tree — removing `id` lowers the count by
/// exactly one plus the number of descendants, and neither `id` nor any
/// descendant stays valid.
pub proof fn lemma_remove_count<T>(v: TreeV<T>, id: usize)
    requires
        v.wf(),
        v.valid(id),
        removal_state(v, id).descendants(id).no_duplicates(),
        forall|k: int| 0 <= k < removal_state(v, id).descendants(id).len()
            ==> removal_state(v, id).valid(#[trigger] removal_state(v, id).descendants(id)[k])
                && removal_state(v, id).descendants(id)[k] != id,
    ensures
        spec_remove(v, id).count == v.count - 1 - removal_state(v, id).descendants(id).len(),
        !spec_remove(v, id).valid(id),
        forall|k: int| 0 <= k < removal_state(v, id).descendants(id).len()
            ==> !spec_remove(v, id).valid(#[trigger] removal_state(v, id).descendants(id)[k]),
{
    let w = removal_state(v, id);
    let ids = w.descendants(id);
    lemma_decouple_wf(v, id);
    let m1 = spec_decouple(v, id);
    assert forall|i: int| 0 <= i < w.n() implies w.node_ok(i) by {
        assert(m1.node_ok(i));
    }
    assert(w.wf());
    lemma_free_list_count(w, ids);
    let fl = spec_free_list(w, ids);
    assert(w.valid(id)) by {
        assert(m1.nodes[id as int].data == v.nodes[id as int].data);
    }
    assert(fl.valid(id));
    lemma_count_occupied_occupied_slot(fl.nodes, id as int);
    assert(spec_free_one(fl, id).count == fl.count - 1);
    assert forall|k: int| 0 <= k < ids.len() implies !spec_remove(v, id).valid(#[trigger] ids[k]) by {
        assert(!fl.valid(ids[k]));
        assert(ids[k] != id);
    }
}



// ---------------------------------------------------------------------------
// The annotated walks visit exactly the ids of the plain walks.
// ---------------------------------------------------------------------------

/// The ids carried by a list of walk entries, in order.
pub open spec fn ids_of(infos: Seq<NodeInfo>) -> Seq<usize> {
    infos.map_values(|e: NodeInfo| e.id)
}

proof fn lemma_info_chain_ids<T>(s: Seq<Node<T>>, cur: Option<usize>, depth: usize, fuel: nat)
    ensures
        ids_of(info_chain(s, cur, depth, fuel)) == chain(s, cur, fuel),
    decreases fuel,
{
    if fuel == 0 {
        assert(ids_of(info_chain(s, cur, depth, fuel)) =~= chain(s, cur, fuel));
    } else {
        match cur {
            None => {
                assert(ids_of(info_chain(s, cur, depth, fuel)) =~= chain(s, cur, fuel));
            },
            Some(c) => {
                if (c as int) < s.len() {
                    lemma_info_chain_ids(s, s[c as int].first_child, (depth + 1) as usize, (fuel - 1) as nat);
                    lemma_info_chain_ids(s, s[c as int].next_sib, depth, (fuel - 1) as nat);
                }
                assert(ids_of(info_chain(s, cur, depth, fuel)) =~= chain(s, cur, fuel));
            },
        }
    }
}

proof fn lemma_info_chain_depth_ids<T>(s: Seq<Node<T>>, cur: Option<usize>, depth: usize, target: usize, d: usize, fuel: nat)
    requires
        depth <= target,
        d == target - depth,
    ensures
        ids_of(info_chain_depth(s, cur, depth, target, fuel)) == chain_depth(s, cur, d, fuel),
    decreases fuel,
{
    if fuel == 0 {
        assert(ids_of(info_chain_depth(s, cur, depth, target, fuel)) =~= chain_depth(s, cur, d, fuel));
    } else {
        match cur {
            None => {
                assert(ids_of(info_chain_depth(s, cur, depth, target, fuel)) =~= chain_depth(s, cur, d, fuel));
            },
            Some(c) => {
                if (c as int) < s.len() {
                    if depth < target {
                        lemma_info_chain_depth_ids(s, s[c as int].first_child, (depth + 1) as usize, target, (d - 1) as usize, (fuel - 1) as nat);
                    }
                    lemma_info_chain_depth_ids(s, s[c as int].next_sib, depth, target, d, (fuel - 1) as nat);
                }
                assert(ids_of(info_chain_depth(s, cur, depth, target, fuel)) =~= chain_depth(s, cur, d, fuel));
            },
        }
    }
}

/// The annotated preorder walk of a subtree lists exactly the ids of the
/// plain preorder walk, in the same order.
pub proof fn lemma_sub_tree_info_ids<T>(v: TreeV<T>, id: usize)
    requires
        v.valid(id),
    ensures
        ids_of(v.sub_tree_infos(id)) == v.sub_tree_ids(id),
{
    lemma_info_chain_ids(v.nodes, v.nodes[id as int].first_child, 1, (v.fuel() - 1) as nat);
    assert(ids_of(v.sub_tree_infos(id)) =~= v.sub_tree_ids(id));
}

/// The depth-bounded annotated walk lists exactly the ids of the
/// depth-bounded plain walk, in the same order.
pub proof fn lemma_sub_tree_depth_info_ids<T>(v: TreeV<T>, id: usize, depth: usize)
    requires
        v.valid(id),
    ensures
        ids_of(v.sub_tree_depth_infos(id, depth)) == v.sub_tree_depth_ids(id, depth),
{
    if depth > 0 {
        lemma_info_chain_depth_ids(v.nodes, v.nodes[id as int].first_child, 1, depth, (depth - 1) as usize, v.fuel());
    }
    assert(ids_of(v.sub_tree_depth_infos(id, depth)) =~= v.sub_tree_depth_ids(id, depth));
}


/// Removing the root of a fully valid tree empties it: the count drops to
/// zero, the root is cleared, and no formerly live id stays valid.
pub proof fn lemma_remove_root_empties<T>(v: TreeV<T>, id: usize)
    requires
        v.linked(),
        v.root == Some(id),
    ensures
        spec_remove(v, id).count == 0,
        spec_remove(v, id).root is None,
        forall|j: usize| v.valid(j) ==> !(#[trigger] spec_remove(v, id).valid(j)),
{
    assert(v.valid(id));
    assert(v.occ_links(id as int) && v.consistent_at(id as int));
    // the root has no siblings and no parent, so splicing it out changes nothing
    assert(spec_decouple(v, id) =~= v);
    let w = removal_state(v, id);
    assert(w =~= (TreeV { root: None, ..v }));
    assert forall|i: int| 0 <= i < w.n() implies w.node_ok(i) by {
        assert(v.node_ok(i));
    }
    assert(w.wf());
    let walk = v.sub_tree_ids(id);
    let desc = w.descendants(id);
    assert(walk == Seq::empty().push(id) + desc);
    assert(walk.len() == v.count);
    assert(desc.len() == v.count - 1);
    assert(desc.no_duplicates()) by {
        assert forall|a: int, b: int| 0 <= a < desc.len() && 0 <= b < desc.len() && a != b implies desc[a] != desc[b] by {
            assert(walk[a + 1] == desc[a]);
            assert(walk[b + 1] == desc[b]);
        }
    }
    assert forall|k: int| 0 <= k < desc.len() implies w.valid(#[trigger] desc[k]) && desc[k] != id by {
        assert(walk[k + 1] == desc[k]);
        assert(v.valid(walk[k + 1]));
        assert(walk[0] == id);
    }
    lemma_free_list_count(w, desc);
    lemma_free_list_wf(w, desc);
    let fl = spec_free_list(w, desc);
    assert(!desc.contains(id)) by {
        if desc.contains(id) {
            let k = choose|k: int| 0 <= k < desc.len() && desc[k] == id;
            assert(desc[k] != id);
        }
    }
    assert(fl.valid(id));
    lemma_count_occupied_occupied_slot(fl.nodes, id as int);
    assert(spec_remove(v, id) == spec_free_one(fl, id));
    assert(spec_remove(v, id).count == 0);
    assert forall|j: usize| v.valid(j) implies !(#[trigger] spec_remove(v, id).valid(j)) by {
        assert(walk.contains(j));
        let k = choose|k: int| 0 <= k < walk.len() && walk[k] == j;
        if k == 0 {
            assert(j == id);
        } else {
            assert(desc[k - 1] == j);
            assert(!fl.valid(j));
        }
    }
}


/// The count invariant: on a fully valid tree, `count` equals the number of
/// ids the preorder walk from the root reaches — zero when there is no root
/// — and that walk visits exactly the occupied slots, each once.
pub proof fn lemma_count_is_reachable<T>(v: TreeV<T>)
    requires
        v.linked(),
    ensures
        match v.root {
            Some(r) => {
                &&& v.count == v.sub_tree_ids(r).len()
                &&& v.sub_tree_ids(r).no_duplicates()
                &&& (forall|i: int| 0 <= i < v.n() && (#[trigger] v.nodes[i]).data is Some
                    ==> v.sub_tree_ids(r).contains(i as usize))
            },
            None => v.count == 0,
        },
{
}

/// Promoting the root of a fully valid tree to root again changes nothing.
pub proof fn lemma_make_root_of_root<T>(v: TreeV<T>, id: usize)
    requires
        v.linked(),
        v.root == Some(id),
    ensures
        spec_make_root(v, id) == v,
{
    assert(v.valid(id));
    assert(v.occ_links(id as int) && v.consistent_at(id as int));
    assert(spec_decouple(v, id) =~= v);
    assert(v.nodes.update(id as int, Node { parent: None, ..v.nodes[id as int] }) =~= v.nodes);
    assert(spec_make_root(v, id) =~= v);
}

/// The child listing of a live node starts exactly at its `first_child`
/// link, and is empty exactly when that link is empty.
pub proof fn lemma_children_head<T>(v: TreeV<T>, p: usize)
    requires
        v.wf(),
        v.valid(p),
    ensures
        match v.nodes[p as int].first_child {
            None => v.children(p) == Seq::<usize>::empty(),
            Some(q) => v.children(p).len() > 0 && v.children(p)[0] == q,
        },
{
    assert(v.node_ok(p as int));
    match v.nodes[p as int].first_child {
        None => {
            assert(v.children(p) =~= Seq::<usize>::empty());
        },
        Some(q) => {
            assert(v.children(p)[0] == q);
        },
    }
}

proof fn lemma_kids_parent_rec<T>(v: TreeV<T>, cur: Option<usize>, pp: Option<usize>, fuel: nat)
    requires
        v.linked(),
        match cur {
            Some(q) => v.valid(q) && v.nodes[q as int].parent == pp,
            None => true,
        },
    ensures
        forall|k: int| 0 <= k < kids(v.nodes, cur, fuel).len()
            ==> v.valid(#[trigger] kids(v.nodes, cur, fuel)[k])
                && v.nodes[kids(v.nodes, cur, fuel)[k] as int].parent == pp,
    decreases fuel,
{
    if fuel > 0 {
        match cur {
            None => {},
            Some(q) => {
                assert(v.occ_links(q as int) && v.consistent_at(q as int));
                let nxt = v.nodes[q as int].next_sib;
                match nxt {
                    Some(j) => {
                        assert(v.valid(j));
                        assert(v.nodes[j as int].parent == pp);
                    },
                    None => {},
                }
                lemma_kids_parent_rec(v, nxt, pp, (fuel - 1) as nat);
                let whole = kids(v.nodes, cur, fuel);
                let rest = kids(v.nodes, nxt, (fuel - 1) as nat);
                assert(whole == Seq::empty().push(q) + rest);
                assert forall|k: int| 0 <= k < whole.len()
                    implies v.valid(whole[k]) && v.nodes[whole[k] as int].parent == pp by {
                    if k == 0 {
                        assert(whole[k] == q);
                    } else {
                        assert(whole[k] == rest[k - 1]);
                    }
                }
            },
        }
    }
}

/// On a fully valid tree, every id in a node's child listing is a live node
/// whose parent is that node.
pub proof fn lemma_children_parents<T>(v: TreeV<T>, p: usize)
    requires
        v.linked(),
        v.valid(p),
    ensures
        forall|k: int| 0 <= k < v.children(p).len()
            ==> v.valid(#[trigger] v.children(p)[k])
                && v.nodes[v.children(p)[k] as int].parent == Some(p),
{
    assert(v.occ_links(p as int) && v.consistent_at(p as int));
    match v.nodes[p as int].first_child {
        Some(q) => {
            assert(v.valid(q));
            assert(v.nodes[q as int].parent == Some(p));
        },
        None => {},
    }
    lemma_kids_parent_rec(v, v.nodes[p as int].first_child, Some(p), v.fuel());
}

/// On a fully valid tree, a live node has no parent exactly when it is the
/// root.
pub proof fn lemma_parent_none_is_root<T>(v: TreeV<T>, id: usize)
    requires
        v.linked(),
        v.valid(id),
    ensures
        v.nodes[id as int].parent is None <==> v.root == Some(id),
{
    assert(v.consistent_at(id as int));
}

} // verus!









