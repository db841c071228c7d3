//! The prefix-merge tree: incrementally merges decomposed (path, leaf) pairs
//! of one import key into a shared tree of prefixes and leaves.

use vstd::prelude::*;

use crate::lex::str_eq;
use crate::name::{name_eq, Name, NameV};

verus! {

/// A node of the merge tree: an interior path segment with its group of
/// children, or a terminal leaf name.
#[derive(Debug)]
pub enum Node {
    Parent { ident: String, children: Vec<Node> },
    Leaf { name: Name },
}

/// Mathematical model of a merge-tree node.
pub enum NodeV {
    Parent { ident: Seq<char>, children: Seq<NodeV> },
    Leaf { name: NameV },
}

impl Node {
    /// The model of this node: identifier text and children, recursively.
    pub open spec fn deep(&self) -> NodeV
        decreases self,
    {
        match self {
            Node::Parent { ident, children } => NodeV::Parent {
                ident: ident@,
                children: group_deep(children@),
            },
            Node::Leaf { name } => NodeV::Leaf { name: name@ },
        }
    }
}

/// The model of a whole group of sibling nodes, element by element.
pub open spec fn group_deep(g: Seq<Node>) -> Seq<NodeV>
    decreases g,
{
    if g.len() == 0 {
        Seq::empty()
    } else {
        seq![g[0].deep()] + group_deep(g.subrange(1, g.len() as int))
    }
}

/// `group_deep` maps each node of a group to its model.
pub proof fn lemma_group_deep(g: Seq<Node>)
    ensures
        group_deep(g).len() == g.len(),
        forall|i: int| 0 <= i < g.len() ==> group_deep(g)[i] == g[i].deep(),
    decreases g.len(),
{
    if g.len() > 0 {
        lemma_group_deep(g.subrange(1, g.len() as int));
    }
}

/// The name carried by the synthesized self-leaf.
pub open spec fn self_name() -> NameV {
    NameV::Ident { text: "self"@ }
}

impl NodeV {
    /// Whether this node is an interior node with the given identifier.
    pub open spec fn is_parent_named(&self, id: Seq<char>) -> bool {
        match self {
            NodeV::Parent { ident, .. } => ident == id,
            NodeV::Leaf { .. } => false,
        }
    }

    /// Whether this node is a leaf carrying exactly the given name.
    pub open spec fn is_leaf_named(&self, n: NameV) -> bool {
        match self {
            NodeV::Parent { .. } => false,
            NodeV::Leaf { name } => name == n,
        }
    }

    /// The children of an interior node.
    pub open spec fn kids(&self) -> Seq<NodeV> {
        match self {
            NodeV::Parent { children, .. } => *children,
            NodeV::Leaf { .. } => Seq::empty(),
        }
    }
}

/// Index of the first interior node with identifier `id` at or after `i`,
/// or -1 if there is none.
pub open spec fn parent_index_from(g: Seq<NodeV>, id: Seq<char>, i: int) -> int
    decreases g.len() - i when 0 <= i <= g.len()
{
    if i >= g.len() {
        -1
    } else if g[i].is_parent_named(id) {
        i
    } else {
        parent_index_from(g, id, i + 1)
    }
}

/// Index of the first interior node with identifier `id`, or -1.
pub open spec fn parent_index(g: Seq<NodeV>, id: Seq<char>) -> int {
    parent_index_from(g, id, 0)
}

/// Index of the first leaf carrying exactly the name `n` at or after `i`,
/// or -1 if there is none.
pub open spec fn leaf_index_from(g: Seq<NodeV>, n: NameV, i: int) -> int
    decreases g.len() - i when 0 <= i <= g.len()
{
    if i >= g.len() {
        -1
    } else if g[i].is_leaf_named(n) {
        i
    } else {
        leaf_index_from(g, n, i + 1)
    }
}

/// Index of the first leaf carrying exactly the name `n`, or -1.
pub open spec fn leaf_index(g: Seq<NodeV>, n: NameV) -> int {
    leaf_index_from(g, n, 0)
}

/// Fold one decomposed (path, leaf) pair into a group of sibling nodes.
///
/// Walking the path one segment at a time: descend into the matching interior
/// child, promote a plain-name leaf that matches the segment into an interior
/// node seeded with a self-leaf, or open a fresh interior node. After all
/// segments are consumed the leaf itself is inserted: a plain name that is
/// also a deeper prefix becomes a self-leaf inside that prefix's group, and
/// an exact duplicate of an existing leaf is dropped.
pub open spec fn group_insert(g: Seq<NodeV>, path: Seq<Seq<char>>, leaf: NameV) -> Seq<NodeV>
    decreases path.len(),
{
    if path.len() == 0 {
        match leaf {
            NameV::Ident { text } => {
                let j = parent_index(g, text);
                if j >= 0 {
                    let kids = g[j].kids();
                    if leaf_index(kids, self_name()) >= 0 {
                        g
                    } else {
                        g.update(
                            j,
                            NodeV::Parent {
                                ident: text,
                                children: kids.push(NodeV::Leaf { name: self_name() }),
                            },
                        )
                    }
                } else if leaf_index(g, leaf) >= 0 {
                    g
                } else {
                    g.push(NodeV::Leaf { name: leaf })
                }
            },
            _ => {
                if leaf_index(g, leaf) >= 0 {
                    g
                } else {
                    g.push(NodeV::Leaf { name: leaf })
                }
            },
        }
    } else {
        let seg = path[0];
        let j = parent_index(g, seg);
        if j >= 0 {
            g.update(
                j,
                NodeV::Parent {
                    ident: seg,
                    children: group_insert(g[j].kids(), path.drop_first(), leaf),
                },
            )
        } else {
            let k = leaf_index(g, NameV::Ident { text: seg });
            if k >= 0 {
                g.update(
                    k,
                    NodeV::Parent {
                        ident: seg,
                        children: group_insert(
                            seq![NodeV::Leaf { name: self_name() }],
                            path.drop_first(),
                            leaf,
                        ),
                    },
                )
            } else {
                g.push(
                    NodeV::Parent {
                        ident: seg,
                        children: group_insert(Seq::empty(), path.drop_first(), leaf),
                    },
                )
            }
        }
    }
}

/// Removing an element and putting another at the same place is an update.
pub proof fn lemma_remove_insert<A>(s: Seq<A>, j: int, x: A)
    requires
        0 <= j < s.len(),
    ensures
        s.remove(j).insert(j, x) =~= s.update(j, x),
{
    s.remove_ensures(j);
    s.remove(j).insert_ensures(j, x);
}

/// Locate the first interior child with the given identifier.
fn find_parent(g: &Vec<Node>, id: &str) -> (r: Option<usize>)
    ensures
        ({
            let j = parent_index(group_deep(g@), id@);
            match r {
                Some(u) => u < g@.len() && j == u as int && group_deep(g@)[u as int]
                    .is_parent_named(id@),
                None => j == -1,
            }
        }),
{
    proof {
        lemma_group_deep(g@);
    }
    let ghost gv = group_deep(g@);
    let n = g.len();
    let mut i: usize = 0;
    while i < n
        invariant
            i <= n,
            n == g@.len(),
            gv == group_deep(g@),
            gv.len() == g@.len(),
            forall|k: int| 0 <= k < g@.len() ==> gv[k] == g@[k].deep(),
            parent_index_from(gv, id@, 0) == parent_index_from(gv, id@, i as int),
        decreases n - i,
    {
        let hit = match &g[i] {
            Node::Parent { ident, .. } => str_eq(ident.as_str(), id),
            Node::Leaf { .. } => false,
        };
        proof {
            assert(hit == gv[i as int].is_parent_named(id@));
        }
        if hit {
            return Some(i);
        }
        i = i + 1;
    }
    None
}

/// Locate the first leaf child carrying exactly the given name.
fn find_leaf(g: &Vec<Node>, n: &Name) -> (r: Option<usize>)
    ensures
        ({
            let j = leaf_index(group_deep(g@), n@);
            match r {
                Some(u) => u < g@.len() && j == u as int && group_deep(g@)[u as int].is_leaf_named(
                    n@,
                ),
                None => j == -1,
            }
        }),
{
    proof {
        lemma_group_deep(g@);
    }
    let ghost gv = group_deep(g@);
    let len = g.len();
    let mut i: usize = 0;
    while i < len
        invariant
            i <= len,
            len == g@.len(),
            gv == group_deep(g@),
            gv.len() == g@.len(),
            forall|k: int| 0 <= k < g@.len() ==> gv[k] == g@[k].deep(),
            leaf_index_from(gv, n@, 0) == leaf_index_from(gv, n@, i as int),
        decreases len - i,
    {
        let hit = match &g[i] {
            Node::Leaf { name } => name_eq(name, n),
            Node::Parent { .. } => false,
        };
        proof {
            assert(hit == gv[i as int].is_leaf_named(n@));
        }
        if hit {
            return Some(i);
        }
        i = i + 1;
    }
    None
}

/// Locate the first plain-name leaf child whose identifier is `id`.
fn find_plain_leaf(g: &Vec<Node>, id: &str) -> (r: Option<usize>)
    ensures
        ({
            let j = leaf_index(group_deep(g@), NameV::Ident { text: id@ });
            match r {
                Some(u) => u < g@.len() && j == u as int && group_deep(g@)[u as int].is_leaf_named(
                    NameV::Ident { text: id@ },
                ),
                None => j == -1,
            }
        }),
{
    proof {
        lemma_group_deep(g@);
    }
    let ghost gv = group_deep(g@);
    let ghost target = NameV::Ident { text: id@ };
    let len = g.len();
    let mut i: usize = 0;
    while i < len
        invariant
            i <= len,
            len == g@.len(),
            gv == group_deep(g@),
            gv.len() == g@.len(),
            forall|k: int| 0 <= k < g@.len() ==> gv[k] == g@[k].deep(),
            leaf_index_from(gv, target, 0) == leaf_index_from(gv, target, i as int),
            target == (NameV::Ident { text: id@ }),
        decreases len - i,
    {
        let hit = match &g[i] {
            Node::Leaf { name } => match name {
                Name::Ident { ident } => str_eq(ident.as_str(), id),
                _ => false,
            },
            Node::Parent { .. } => false,
        };
        proof {
            assert(hit == gv[i as int].is_leaf_named(target));
        }
        if hit {
            return Some(i);
        }
        i = i + 1;
    }
    None
}

/// Insert the leaf itself into a group whose path has been fully walked.
fn group_insert_leaf(g: Vec<Node>, leaf: &Name) -> (r: Vec<Node>)
    ensures
        group_deep(r@) == group_insert(group_deep(g@), Seq::empty(), leaf@),
{
    let ghost gv = group_deep(g@);
    proof {
        lemma_group_deep(g@);
    }
    let mut out = g;
    if let Name::Ident { ident } = leaf {
        if let Some(j) = find_parent(&out, ident.as_str()) {
            let node = out.remove(j);
            match node {
                Node::Parent { ident: pid, children } => {
                    let ghost ch0 = children@;
                    proof {
                        assert(gv[j as int] == g@[j as int].deep());
                        assert(gv[j as int] == (NodeV::Parent {
                            ident: pid@,
                            children: group_deep(ch0),
                        }));
                        lemma_group_deep(ch0);
                    }
                    let mut kids = children;
                    let has_self = find_plain_leaf(&kids, "self").is_some();
                    proof {
                        assert(self_name() == (NameV::Ident { text: "self"@ }));
                        assert(has_self == (leaf_index(group_deep(ch0), self_name()) >= 0));
                        assert(gv[j as int].kids() == group_deep(ch0));
                    }
                    if !has_self {
                        kids.push(Node::Leaf { name: Name::self_leaf() });
                    }
                    let ghost kv = kids@;
                    let replacement = Node::Parent { ident: pid, children: kids };
                    out.insert(j, replacement);
                    proof {
                        assert(leaf@ == (NameV::Ident { text: ident@ }));
                        assert(parent_index(gv, ident@) == j as int);
                        lemma_remove_insert(g@, j as int, replacement);
                        lemma_group_deep(out@);
                        lemma_group_deep(kv);
                        if has_self {
                            assert(group_deep(kv) =~= gv[j as int].kids());
                        } else {
                            assert(group_deep(kv) =~= gv[j as int].kids().push(
                                NodeV::Leaf { name: self_name() },
                            ));
                        }
                        assert(replacement.deep() == (NodeV::Parent {
                            ident: pid@,
                            children: group_deep(kv),
                        }));
                        assert(pid@ == ident@);
                        if has_self {
                            assert(group_insert(gv, Seq::empty(), leaf@) == gv);
                            assert(group_deep(out@) =~= gv.update(j as int, replacement.deep()));
                            assert(gv.update(j as int, replacement.deep()) =~= gv);
                        } else {
                            assert(group_insert(gv, Seq::empty(), leaf@) == gv.update(
                                j as int,
                                NodeV::Parent {
                                    ident: ident@,
                                    children: gv[j as int].kids().push(
                                        NodeV::Leaf { name: self_name() },
                                    ),
                                },
                            ));
                            assert(group_deep(out@) =~= gv.update(j as int, replacement.deep()));
                        }
                        assert(group_deep(out@) =~= group_insert(gv, Seq::empty(), leaf@));
                    }
                    return out;
                },
                Node::Leaf { .. } => {
                    proof {
                        assert(gv[j as int] == g@[j as int].deep());
                        assert(!gv[j as int].is_parent_named(ident@));
                        assert(false);
                    }
                    out
                },
            }
        } else if find_leaf(&out, leaf).is_some() {
            proof {
                assert(group_deep(out@) =~= group_insert(gv, Seq::empty(), leaf@));
            }
            out
        } else {
            out.push(Node::Leaf { name: leaf.duplicate() });
            proof {
                lemma_group_deep(out@);
                assert(group_deep(out@) =~= gv.push(NodeV::Leaf { name: leaf@ }));
            }
            out
        }
    } else {
        if find_leaf(&out, leaf).is_some() {
            proof {
                assert(group_deep(out@) =~= group_insert(gv, Seq::empty(), leaf@));
            }
            out
        } else {
            out.push(Node::Leaf { name: leaf.duplicate() });
            proof {
                lemma_group_deep(out@);
                assert(group_deep(out@) =~= gv.push(NodeV::Leaf { name: leaf@ }));
            }
            out
        }
    }
}

/// Fold one decomposed (path, leaf) pair into a group, starting at segment
/// `from` of the path.
fn group_insert_exec(g: Vec<Node>, path: &Vec<String>, from: usize, leaf: &Name) -> (r: Vec<Node>)
    requires
        from <= path@.len(),
    ensures
        group_deep(r@) == group_insert(group_deep(g@), path.deep_view().skip(from as int), leaf@),
    decreases path@.len() - from,
{
    let ghost gv = group_deep(g@);
    let ghost pv = path.deep_view().skip(from as int);
    proof {
        lemma_group_deep(g@);
        assert(path.deep_view().len() == path@.len());
    }
    if from == path.len() {
        proof {
            assert(pv =~= Seq::<Seq<char>>::empty());
        }
        group_insert_leaf(g, leaf)
    } else {
        let seg: &String = &path[from];
        proof {
            assert(pv[0] == seg@);
            assert(pv.drop_first() =~= path.deep_view().skip(from as int + 1));
        }
        let mut out = g;
        if let Some(j) = find_parent(&out, seg.as_str()) {
            let node = out.remove(j);
            match node {
                Node::Parent { ident, children } => {
                    let ghost ch0 = children@;
                    proof {
                        assert(gv[j as int] == g@[j as int].deep());
                        assert(gv[j as int] == (NodeV::Parent {
                            ident: ident@,
                            children: group_deep(ch0),
                        }));
                        assert(ident@ == seg@);
                    }
                    let kids = group_insert_exec(children, path, from + 1, leaf);
                    let replacement = Node::Parent { ident, children: kids };
                    out.insert(j, replacement);
                    proof {
                        lemma_remove_insert(g@, j as int, replacement);
                        lemma_group_deep(out@);
                        assert(group_deep(out@) =~= gv.update(j as int, replacement.deep()));
                        assert(replacement.deep() == (NodeV::Parent {
                            ident: seg@,
                            children: group_insert(gv[j as int].kids(), pv.drop_first(), leaf@),
                        }));
                        assert(group_deep(out@) =~= group_insert(gv, pv, leaf@));
                    }
                    out
                },
                Node::Leaf { .. } => {
                    proof {
                        assert(gv[j as int] == g@[j as int].deep());
                        assert(!gv[j as int].is_parent_named(seg@));
                        assert(false);
                    }
                    out
                },
            }
        } else if let Some(k) = find_plain_leaf(&out, seg.as_str()) {
            let node = out.remove(k);
            match node {
                Node::Leaf { name: Name::Ident { ident } } => {
                    proof {
                        assert(gv[k as int] == g@[k as int].deep());
                        assert(gv[k as int] == (NodeV::Leaf {
                            name: NameV::Ident { text: ident@ },
                        }));
                        assert(ident@ == seg@);
                    }
                    let mut seeded: Vec<Node> = Vec::new();
                    seeded.push(Node::Leaf { name: Name::self_leaf() });
                    proof {
                        lemma_group_deep(seeded@);
                        assert(group_deep(seeded@) =~= seq![NodeV::Leaf { name: self_name() }]);
                    }
                    let kids = group_insert_exec(seeded, path, from + 1, leaf);
                    let replacement = Node::Parent { ident, children: kids };
                    out.insert(k, replacement);
                    proof {
                        lemma_remove_insert(g@, k as int, replacement);
                        lemma_group_deep(out@);
                        assert(group_deep(out@) =~= gv.update(k as int, replacement.deep()));
                        assert(replacement.deep() == (NodeV::Parent {
                            ident: seg@,
                            children: group_insert(
                                seq![NodeV::Leaf { name: self_name() }],
                                pv.drop_first(),
                                leaf@,
                            ),
                        }));
                        assert(group_deep(out@) =~= group_insert(gv, pv, leaf@));
                    }
                    out
                },
                _ => {
                    proof {
                        assert(gv[k as int] == g@[k as int].deep());
                        assert(!gv[k as int].is_leaf_named(NameV::Ident { text: seg@ }));
                        assert(false);
                    }
                    out
                },
            }
        } else {
            let seeded: Vec<Node> = Vec::new();
            let kids = group_insert_exec(seeded, path, from + 1, leaf);
            out.push(Node::Parent { ident: seg.clone(), children: kids });
            proof {
                lemma_group_deep(out@);
                assert(group_deep(out@) =~= gv.push(
                    NodeV::Parent {
                        ident: seg@,
                        children: group_insert(Seq::empty(), pv.drop_first(), leaf@),
                    },
                ));
                assert(group_deep(out@) =~= group_insert(gv, pv, leaf@));
            }
            out
        }
    }
}

/// A merge tree for one import key: the group of its top-level nodes.
#[derive(Debug)]
pub struct Tree {
    pub children: Vec<Node>,
}

impl Tree {
    /// Mathematical model of the tree: the models of its top-level nodes.
    pub open spec fn deep(&self) -> Seq<NodeV> {
        group_deep(self.children@)
    }

    /// The empty tree.
    pub fn new() -> (t: Tree)
        ensures
            t.deep() == Seq::<NodeV>::empty(),
    {
        let t = Tree { children: Vec::new() };
        proof {
            assert(t.deep() =~= Seq::<NodeV>::empty());
        }
        t
    }

    /// Fold one decomposed (path, leaf) pair into the tree.
    pub fn insert(self, path: &Vec<String>, leaf: &Name) -> (r: Tree)
        ensures
            r.deep() == group_insert(self.deep(), path.deep_view(), leaf@),
    {
        proof {
            assert(path.deep_view().skip(0) =~= path.deep_view());
        }
        let children = group_insert_exec(self.children, path, 0, leaf);
        Tree { children }
    }
}

impl Default for Tree {
    /// The empty tree.
    fn default() -> (t: Tree)
        ensures
            t.deep() == Seq::<NodeV>::empty(),
    {
        Tree::new()
    }
}

} // verus!
