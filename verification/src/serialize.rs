//! The tree-to-syntax serializer: converts a merge tree back into
//! nested-group import syntax, canonically ordered and minimal.

use vstd::prelude::*;

use crate::lex::{lex_lt, str_eq, str_lt};
use crate::name::{Name, NameV};
use crate::tree::{group_deep, lemma_group_deep, Node, NodeV, Tree};
use crate::walk::{trees_deep, UseTree, UseTreeV};

verus! {

/// Whether a piece of emitted syntax is the self-entry of a group.
pub open spec fn is_self_syntax(u: UseTreeV) -> bool {
    match u {
        UseTreeV::Name { ident } => ident == "self"@,
        _ => false,
    }
}

/// Rank of emitted sibling syntax in the canonical order: the self-entry
/// first, then plain names, renames, interior paths, and wildcards last.
pub open spec fn syn_rank(u: UseTreeV) -> int {
    match u {
        UseTreeV::Name { ident } => if ident == "self"@ {
            0
        } else {
            1
        },
        UseTreeV::Rename { .. } => 2,
        UseTreeV::Path { .. } => 3,
        UseTreeV::Glob => 4,
        UseTreeV::Group { .. } => 5,
    }
}

/// Primary text key of emitted sibling syntax: its identifier.
pub open spec fn syn_key1(u: UseTreeV) -> Seq<char> {
    match u {
        UseTreeV::Name { ident } => ident,
        UseTreeV::Rename { ident, .. } => ident,
        UseTreeV::Path { ident, .. } => ident,
        UseTreeV::Glob => ""@,
        UseTreeV::Group { .. } => ""@,
    }
}

/// Secondary text key of emitted sibling syntax: the alias of a rename.
pub open spec fn syn_key2(u: UseTreeV) -> Seq<char> {
    match u {
        UseTreeV::Rename { alias, .. } => alias,
        _ => ""@,
    }
}

/// The canonical sibling order: by rank, then identifier text, then alias
/// text, ascending and case-sensitive.
pub open spec fn syn_le(a: UseTreeV, b: UseTreeV) -> bool {
    ||| syn_rank(a) < syn_rank(b)
    ||| (syn_rank(a) == syn_rank(b) && lex_lt(syn_key1(a), syn_key1(b)))
    ||| (syn_rank(a) == syn_rank(b) && syn_key1(a) == syn_key1(b) && (lex_lt(
        syn_key2(a),
        syn_key2(b),
    ) || syn_key2(a) == syn_key2(b)))
}

/// Insert one piece of syntax into an already ordered run of siblings, in
/// front of the first sibling that does not precede it.
pub open spec fn sorted_insert(s: Seq<UseTreeV>, x: UseTreeV) -> Seq<UseTreeV>
    decreases s.len(),
{
    if s.len() == 0 {
        seq![x]
    } else if !syn_le(s[0], x) {
        seq![x] + s
    } else {
        seq![s[0]] + sorted_insert(s.subrange(1, s.len() as int), x)
    }
}

/// Order a run of siblings canonically, keeping duplicates, by repeated
/// insertion in input order.
pub open spec fn sort_syntax(s: Seq<UseTreeV>) -> Seq<UseTreeV>
    decreases s.len(),
{
    if s.len() == 0 {
        Seq::empty()
    } else {
        sorted_insert(sort_syntax(s.drop_last()), s.last())
    }
}

/// The syntax emitted for one merge-tree node, before sibling ordering.
pub open spec fn emit_node(n: NodeV) -> UseTreeV
    decreases n, 0int,
{
    match n {
        NodeV::Leaf { name } => match name {
            NameV::Ident { text } => UseTreeV::Name { ident: text },
            NameV::Rename { text, alias } => UseTreeV::Rename { ident: text, alias: alias },
            NameV::Glob => UseTreeV::Glob,
        },
        NodeV::Parent { ident, children } => UseTreeV::Path {
            ident: ident,
            tree: Box::new(emit_group(children)),
        },
    }
}

/// The syntax emitted for each node of a group, in the group's own order.
pub open spec fn emit_list(g: Seq<NodeV>) -> Seq<UseTreeV>
    decreases g, 0int,
{
    if g.len() == 0 {
        Seq::empty()
    } else {
        seq![emit_node(g[0])] + emit_list(g.subrange(1, g.len() as int))
    }
}

/// The syntax emitted for a whole group: its children's syntax in canonical
/// sibling order, collapsed to the single entry itself when the group holds
/// exactly one entry and that entry is not a self-entry.
pub open spec fn emit_group(g: Seq<NodeV>) -> UseTreeV
    decreases g, 1int,
{
    let xs = sort_syntax(emit_list(g));
    if xs.len() == 1 && !is_self_syntax(xs[0]) {
        xs[0]
    } else {
        UseTreeV::Group { items: xs }
    }
}

/// Decide whether emitted syntax is the self-entry.
fn is_self_syntax_exec(u: &UseTree) -> (r: bool)
    ensures
        r == is_self_syntax(u.deep()),
{
    match u {
        UseTree::Name { ident } => str_eq(ident.as_str(), "self"),
        _ => false,
    }
}

/// Decide the canonical sibling order of two pieces of emitted syntax.
fn syn_le_exec(a: &UseTree, b: &UseTree) -> (r: bool)
    ensures
        r == syn_le(a.deep(), b.deep()),
{
    let ra = syn_rank_exec(a);
    let rb = syn_rank_exec(b);
    if ra < rb {
        true
    } else if rb < ra {
        false
    } else {
        let ka = syn_key1_exec(a);
        let kb = syn_key1_exec(b);
        if str_lt(ka, kb) {
            true
        } else if str_lt(kb, ka) {
            proof {
                crate::lex::lemma_lex_lt_trichotomy(ka@, kb@);
            }
            false
        } else {
            proof {
                crate::lex::lemma_lex_lt_trichotomy(ka@, kb@);
            }
            let k2a = syn_key2_exec(a);
            let k2b = syn_key2_exec(b);
            if str_lt(k2a, k2b) {
                true
            } else if str_lt(k2b, k2a) {
                proof {
                    crate::lex::lemma_lex_lt_trichotomy(k2a@, k2b@);
                }
                false
            } else {
                proof {
                    crate::lex::lemma_lex_lt_trichotomy(k2a@, k2b@);
                }
                true
            }
        }
    }
}

/// Compute the rank of emitted syntax in the canonical order.
fn syn_rank_exec(u: &UseTree) -> (r: u8)
    ensures
        r as int == syn_rank(u.deep()),
{
    match u {
        UseTree::Name { ident } => if str_eq(ident.as_str(), "self") {
            0
        } else {
            1
        },
        UseTree::Rename { .. } => 2,
        UseTree::Path { .. } => 3,
        UseTree::Glob => 4,
        UseTree::Group { .. } => 5,
    }
}

/// The primary text key of emitted syntax.
fn syn_key1_exec<'a>(u: &'a UseTree) -> (r: &'a str)
    ensures
        r@ == syn_key1(u.deep()),
{
    match u {
        UseTree::Name { ident } => ident.as_str(),
        UseTree::Rename { ident, .. } => ident.as_str(),
        UseTree::Path { ident, .. } => ident.as_str(),
        UseTree::Glob => "",
        UseTree::Group { .. } => "",
    }
}

/// The secondary text key of emitted syntax.
fn syn_key2_exec<'a>(u: &'a UseTree) -> (r: &'a str)
    ensures
        r@ == syn_key2(u.deep()),
{
    match u {
        UseTree::Rename { rename, .. } => rename.as_str(),
        _ => "",
    }
}

/// Insert one piece of syntax into an ordered run of siblings.
#[verifier::loop_isolation(false)]
fn sorted_insert_exec(s: Vec<UseTree>, x: UseTree) -> (r: Vec<UseTree>)
    ensures
        trees_deep(r@) == sorted_insert(trees_deep(s@), x.deep()),
{
    let ghost sv = trees_deep(s@);
    proof {
        crate::walk::lemma_trees_deep(s@);
    }
    let mut out = s;
    let len = out.len();
    let mut i: usize = 0;
    proof {
        assert(sv.take(0) =~= Seq::<UseTreeV>::empty());
        assert(sv.skip(0) =~= sv);
        assert(sv.take(0) + sorted_insert(sv.skip(0), x.deep()) =~= sorted_insert(sv, x.deep()));
    }
    loop
        invariant
            i <= len,
            len == out@.len(),
            out@ == s@,
            forall|k: int| 0 <= k < i ==> syn_le(sv[k], x.deep()),
            sorted_insert(sv, x.deep()) == sv.take(i as int) + sorted_insert(
                sv.skip(i as int),
                x.deep(),
            ),
        decreases len - i,
    {
        if i == len {
            proof {
                assert(sv.skip(len as int).len() == 0);
                assert(sorted_insert(sv.skip(len as int), x.deep()) =~= seq![x.deep()]);
            }
            out.push(x);
            proof {
                crate::walk::lemma_trees_deep(out@);
                assert(trees_deep(out@) =~= sv.take(len as int) + seq![x.deep()]);
            }
            return out;
        }
        if !syn_le_exec(&out[i], &x) {
            proof {
                assert(sv.skip(i as int)[0] == sv[i as int]);
                assert(sorted_insert(sv.skip(i as int), x.deep()) =~= seq![x.deep()] + sv.skip(
                    i as int,
                ));
            }
            out.insert(i, x);
            proof {
                crate::walk::lemma_trees_deep(out@);
                assert(trees_deep(out@) =~= sv.take(i as int) + (seq![x.deep()] + sv.skip(
                    i as int,
                )));
            }
            return out;
        }
        proof {
            assert(sv.skip(i as int)[0] == sv[i as int]);
            assert(sv.skip(i as int).subrange(1, sv.skip(i as int).len() as int) =~= sv.skip(
                i as int + 1,
            ));
            assert(sv.take(i as int + 1) =~= sv.take(i as int) + seq![sv[i as int]]);
            assert(sv.take(i as int) + (seq![sv[i as int]] + sorted_insert(
                sv.skip(i as int + 1),
                x.deep(),
            )) =~= sv.take(i as int + 1) + sorted_insert(sv.skip(i as int + 1), x.deep()));
        }
        i = i + 1;
    }
}

/// Order a run of sibling syntax canonically.
#[verifier::loop_isolation(false)]
fn sort_syntax_exec(s: Vec<UseTree>) -> (r: Vec<UseTree>)
    ensures
        trees_deep(r@) == sort_syntax(trees_deep(s@)),
{
    let ghost sv = trees_deep(s@);
    proof {
        crate::walk::lemma_trees_deep(s@);
    }
    let mut rest = s;
    let mut out: Vec<UseTree> = Vec::new();
    let mut i: usize = 0;
    let len = rest.len();
    proof {
        assert(trees_deep(out@) =~= Seq::<UseTreeV>::empty());
        assert(sort_syntax(sv.take(0)) =~= Seq::<UseTreeV>::empty());
    }
    while i < len
        invariant
            i <= len,
            len == sv.len(),
            rest@.len() == len - i,
            forall|k: int| 0 <= k < len - i ==> #[trigger] rest@[k] == s@[k + i],
            trees_deep(rest@) =~= sv.skip(i as int),
            trees_deep(out@) == sort_syntax(sv.take(i as int)),
        decreases len - i,
    {
        let x = rest.remove(0);
        proof {
            crate::walk::lemma_trees_deep(rest@);
            assert(x.deep() == sv[i as int]);
        }
        out = sorted_insert_exec(out, x);
        proof {
            assert(sv.take(i as int + 1).drop_last() =~= sv.take(i as int));
            assert(sv.take(i as int + 1).last() == sv[i as int]);
            assert(trees_deep(rest@) =~= sv.skip(i as int + 1));
        }
        i = i + 1;
    }
    proof {
        assert(sv.take(len as int) =~= sv);
    }
    out
}

/// Serialize one merge-tree node into syntax.
fn serialize_node(n: &Node) -> (r: UseTree)
    ensures
        r.deep() == emit_node(n.deep()),
    decreases *n,
{
    match n {
        Node::Leaf { name } => match name {
            Name::Ident { ident } => UseTree::Name { ident: ident.clone() },
            Name::Rename { ident, rename } => UseTree::Rename {
                ident: ident.clone(),
                rename: rename.clone(),
            },
            Name::Glob => UseTree::Glob,
        },
        Node::Parent { ident, children } => {
            let sub = serialize_group(children);
            UseTree::Path { ident: ident.clone(), tree: Box::new(sub) }
        },
    }
}

/// Serialize a whole group of sibling nodes into canonically ordered syntax.
#[verifier::loop_isolation(false)]
fn serialize_group(g: &Vec<Node>) -> (r: UseTree)
    ensures
        r.deep() == emit_group(group_deep(g@)),
    decreases g@,
{
    let ghost gv = group_deep(g@);
    proof {
        lemma_group_deep(g@);
    }
    let mut xs: Vec<UseTree> = Vec::new();
    let mut i: usize = 0;
    while i < g.len()
        invariant
            i <= g@.len(),
            trees_deep(xs@) == emit_list(gv.take(i as int)),
        decreases g@.len() - i,
    {
        proof {
            assert(decreases_to!(g@ => g@[i as int]));
        }
        let u = serialize_node(&g[i]);
        let ghost xs0 = xs@;
        proof {
            crate::walk::lemma_trees_deep(xs0);
        }
        xs.push(u);
        proof {
            crate::walk::lemma_trees_deep(xs@);
            assert(u.deep() == emit_node(gv[i as int]));
            lemma_emit_list_snoc(gv.take(i as int + 1));
            assert(gv.take(i as int + 1).drop_last() =~= gv.take(i as int));
            assert(gv.take(i as int + 1).last() == gv[i as int]);
            assert(trees_deep(xs@) =~= emit_list(gv.take(i as int)) + seq![
                emit_node(gv[i as int]),
            ]);
            assert(trees_deep(xs@) =~= emit_list(gv.take(i as int + 1)));
        }
        i = i + 1;
    }
    proof {
        assert(gv.take(gv.len() as int) =~= gv);
    }
    let sorted = sort_syntax_exec(xs);
    let ghost xv = sort_syntax(emit_list(gv));
    proof {
        crate::walk::lemma_trees_deep(sorted@);
    }
    if sorted.len() == 1 {
        if !is_self_syntax_exec(&sorted[0]) {
            let mut sorted = sorted;
            let single = sorted.remove(0);
            proof {
                assert(single.deep() == xv[0]);
            }
            return single;
        }
    }
    UseTree::Group { items: sorted }
}

/// Emitting a group one node longer emits the new node's syntax at the end.
pub proof fn lemma_emit_list_snoc(g: Seq<NodeV>)
    requires
        g.len() > 0,
    ensures
        emit_list(g) == emit_list(g.drop_last()) + seq![emit_node(g.last())],
    decreases g.len(),
{
    if g.len() == 1 {
        assert(g.drop_last() =~= Seq::<NodeV>::empty());
        assert(emit_list(g.drop_last()) =~= Seq::<UseTreeV>::empty());
        assert(g.subrange(1, g.len() as int) =~= Seq::<NodeV>::empty());
        assert(emit_list(g) =~= emit_list(g.drop_last()) + seq![emit_node(g.last())]);
    } else {
        let rest = g.subrange(1, g.len() as int);
        lemma_emit_list_snoc(rest);
        assert(rest.drop_last() =~= g.drop_last().subrange(1, g.drop_last().len() as int));
        assert(rest.last() == g.last());
        assert(emit_list(g) =~= emit_list(g.drop_last()) + seq![emit_node(g.last())]);
    }
}

impl Tree {
    /// Serialize the whole tree into one canonically ordered syntax tree.
    pub fn serialize(&self) -> (r: UseTree)
        ensures
            r.deep() == emit_group(self.deep()),
    {
        serialize_group(&self.children)
    }
}

} // verus!
