//! The laws of the engine, stated and proved over the models that the
//! executable functions' contracts use.

use vstd::prelude::*;

use crate::engine::{bucket_add, buckets_add, buckets_add_items, buckets_add_pairs, empty_buckets,
    entry_index, entry_index_from, entry_insert, sort_entries, BucketsV, EntryV};
use crate::keys::{key_le, lemma_key_le_transitive, lemma_key_lt_trichotomy, KeyV};
use crate::name::NameV;
use crate::render::render_items;
use crate::serialize::{emit_group, emit_list, emit_node, is_self_syntax, sort_syntax,
    sorted_insert, syn_key1, syn_key2, syn_le, syn_rank};
use crate::tree::{group_insert, leaf_index, leaf_index_from, parent_index, parent_index_from,
    self_name, NodeV};
use crate::walk::{items_pairs, prepend_all, tree_pairs, PairV, UseTreeV};

verus! {

/// Collapse law: an interior node with exactly one plain-name child and no
/// self-leaf serializes as a direct joined path, never as a singleton braced
/// group.
pub proof fn lemma_collapse_law(id: Seq<char>, ch: Seq<NodeV>, text: Seq<char>)
    requires
        ch.len() == 1,
        ch[0] == (NodeV::Leaf { name: NameV::Ident { text } }),
        text != "self"@,
    ensures
        emit_node(NodeV::Parent { ident: id, children: ch }) == (UseTreeV::Path {
            ident: id,
            tree: Box::new(UseTreeV::Name { ident: text }),
        }),
        !(emit_group(ch) matches UseTreeV::Group { .. }),
{
    let leaf_syntax = UseTreeV::Name { ident: text };
    assert(emit_node(ch[0]) == leaf_syntax);
    assert(ch.subrange(1, 1) =~= Seq::<NodeV>::empty());
    assert(emit_list(ch.subrange(1, 1)) =~= Seq::<UseTreeV>::empty());
    assert(emit_list(ch) =~= seq![leaf_syntax]);
    assert(seq![leaf_syntax].drop_last() =~= Seq::<UseTreeV>::empty());
    assert(sort_syntax(Seq::<UseTreeV>::empty()) =~= Seq::<UseTreeV>::empty());
    assert(sort_syntax(seq![leaf_syntax]) =~= sorted_insert(Seq::empty(), leaf_syntax));
    assert(sorted_insert(Seq::<UseTreeV>::empty(), leaf_syntax) =~= seq![leaf_syntax]);
    assert(!is_self_syntax(leaf_syntax));
    assert(emit_group(ch) == leaf_syntax);
}

/// The group that merging a bare prefix `a` and the one-segment-deeper pair
/// `(a, leaf)` produces, in either insertion order.
pub open spec fn self_merge_first(a: Seq<char>, leaf: NameV) -> Seq<NodeV> {
    group_insert(group_insert(Seq::empty(), Seq::empty(), NameV::Ident { text: a }), seq![a], leaf)
}

/// The same two pairs folded in the other order.
pub open spec fn self_merge_second(a: Seq<char>, leaf: NameV) -> Seq<NodeV> {
    group_insert(group_insert(Seq::empty(), seq![a], leaf), Seq::empty(), NameV::Ident { text: a })
}

/// Self-merge law: inserting both a bare prefix and a deeper path under that
/// prefix, in either order, produces one top-level interior node for the
/// prefix whose group holds the prefix's self-entry alongside the deeper
/// leaf — never two separate top-level entries.
pub proof fn lemma_self_merge_law(a: Seq<char>, leaf: NameV)
    requires
        leaf != self_name(),
    ensures
        self_merge_first(a, leaf) == seq![
            NodeV::Parent {
                ident: a,
                children: seq![NodeV::Leaf { name: self_name() }, NodeV::Leaf { name: leaf }],
            },
        ],
        self_merge_second(a, leaf) == seq![
            NodeV::Parent {
                ident: a,
                children: seq![NodeV::Leaf { name: leaf }, NodeV::Leaf { name: self_name() }],
            },
        ],
        emit_group(self_merge_first(a, leaf)) == emit_group(self_merge_second(a, leaf)),
{
    let a_leaf = NodeV::Leaf { name: NameV::Ident { text: a } };
    let self_leaf = NodeV::Leaf { name: self_name() };
    let l_leaf = NodeV::Leaf { name: leaf };
    let empty = Seq::<NodeV>::empty();

    // first order: the bare prefix becomes a leaf, then is promoted
    let g1 = group_insert(empty, Seq::empty(), NameV::Ident { text: a });
    assert(parent_index(empty, a) == -1);
    assert(leaf_index(empty, NameV::Ident { text: a }) == -1);
    assert(g1 =~= seq![a_leaf]);

    let g2 = group_insert(g1, seq![a], leaf);
    assert(parent_index(g1, a) == -1) by {
        assert(!g1[0].is_parent_named(a));
        assert(parent_index_from(g1, a, 1) == -1);
    }
    assert(leaf_index(g1, NameV::Ident { text: a }) == 0);
    let seeded = seq![self_leaf];
    let inner1 = group_insert(seeded, Seq::empty(), leaf);
    assert(inner1 =~= seq![self_leaf, l_leaf]) by {
        lemma_leaf_into_self_group(leaf);
    }
    assert(seq![a].drop_first() =~= Seq::<Seq<char>>::empty());
    assert(seq![a][0] == a);
    assert(g2 == g1.update(
        0,
        NodeV::Parent { ident: a, children: group_insert(seeded, seq![a].drop_first(), leaf) },
    ));
    assert(g2 =~= seq![NodeV::Parent { ident: a, children: inner1 }]);
    assert(self_merge_first(a, leaf) == g2);

    // second order: the deeper pair opens the interior node, then the bare
    // prefix becomes its self-entry
    let h1 = group_insert(empty, seq![a], leaf);
    assert(parent_index(empty, a) == -1);
    assert(leaf_index(empty, NameV::Ident { text: a }) == -1);
    let inner2 = group_insert(empty, Seq::empty(), leaf);
    assert(inner2 =~= seq![l_leaf]) by {
        match leaf {
            NameV::Ident { text } => {
                assert(parent_index(empty, text) == -1);
                assert(leaf_index(empty, leaf) == -1);
            },
            _ => {
                assert(leaf_index(empty, leaf) == -1);
            },
        }
    }
    assert(h1 == empty.push(
        NodeV::Parent { ident: a, children: group_insert(empty, seq![a].drop_first(), leaf) },
    ));
    assert(h1 =~= seq![NodeV::Parent { ident: a, children: inner2 }]);

    let h2 = group_insert(h1, Seq::empty(), NameV::Ident { text: a });
    assert(parent_index(h1, a) == 0);
    assert(h1[0].kids() == inner2);
    assert(leaf_index(inner2, self_name()) == -1) by {
        assert(!inner2[0].is_leaf_named(self_name()));
        assert(leaf_index_from(inner2, self_name(), 1) == -1);
    }
    assert(h2 =~= seq![NodeV::Parent { ident: a, children: inner2.push(self_leaf) }]);
    assert(inner2.push(self_leaf) =~= seq![l_leaf, self_leaf]);
    assert(self_merge_second(a, leaf) == h2);

    // both orders serialize identically: the self-entry sorts first
    lemma_two_leaves_emit(a, leaf);
}

/// Folding a non-self leaf into a group holding only the self-leaf appends
/// it after the self-leaf.
proof fn lemma_leaf_into_self_group(leaf: NameV)
    requires
        leaf != self_name(),
    ensures
        group_insert(seq![NodeV::Leaf { name: self_name() }], Seq::empty(), leaf) == seq![
            NodeV::Leaf { name: self_name() },
            NodeV::Leaf { name: leaf },
        ],
{
    let self_leaf = NodeV::Leaf { name: self_name() };
    let seeded = seq![self_leaf];
    match leaf {
        NameV::Ident { text } => {
            assert(parent_index(seeded, text) == -1) by {
                assert(!seeded[0].is_parent_named(text));
                assert(parent_index_from(seeded, text, 1) == -1);
            }
            assert(leaf_index(seeded, leaf) == -1) by {
                assert(!seeded[0].is_leaf_named(leaf));
                assert(leaf_index_from(seeded, leaf, 1) == -1);
            }
        },
        _ => {
            assert(leaf_index(seeded, leaf) == -1) by {
                assert(!seeded[0].is_leaf_named(leaf));
                assert(leaf_index_from(seeded, leaf, 1) == -1);
            }
        },
    }
    assert(group_insert(seeded, Seq::empty(), leaf) =~= seeded.push(NodeV::Leaf { name: leaf }));
    assert(seeded.push(NodeV::Leaf { name: leaf }) =~= seq![
        self_leaf,
        NodeV::Leaf { name: leaf },
    ]);
}

/// A group holding the self-leaf and one other leaf serializes the same in
/// either child order: the self-entry comes first.
proof fn lemma_two_leaves_emit(a: Seq<char>, leaf: NameV)
    requires
        leaf != self_name(),
    ensures
        ({
            let self_leaf = NodeV::Leaf { name: self_name() };
            let l_leaf = NodeV::Leaf { name: leaf };
            emit_group(
                seq![NodeV::Parent { ident: a, children: seq![self_leaf, l_leaf] }],
            ) == emit_group(seq![NodeV::Parent { ident: a, children: seq![l_leaf, self_leaf] }])
        }),
{
    let self_leaf = NodeV::Leaf { name: self_name() };
    let l_leaf = NodeV::Leaf { name: leaf };
    let es = emit_node(self_leaf);
    let el = emit_node(l_leaf);
    assert(es == (UseTreeV::Name { ident: "self"@ }));
    assert(is_self_syntax(es));
    assert(!is_self_syntax(el)) by {
        match leaf {
            NameV::Ident { text } => {
                assert(el == (UseTreeV::Name { ident: text }));
                assert(text != "self"@);
            },
            _ => {},
        }
    }
    assert(crate::serialize::syn_rank(es) == 0);
    assert(crate::serialize::syn_rank(el) >= 1) by {
        match leaf {
            NameV::Ident { text } => {
                assert(text != "self"@);
            },
            _ => {},
        }
    }

    lemma_pair_sorts(seq![self_leaf, l_leaf], es, el);
    lemma_pair_sorts(seq![l_leaf, self_leaf], el, es);
    assert(sort_syntax(emit_list(seq![self_leaf, l_leaf])) =~= sort_syntax(
        emit_list(seq![l_leaf, self_leaf]),
    )) by {
        assert(syn_le(es, el));
        assert(!syn_le(el, es));
        assert(seq![es].subrange(1, 1) =~= Seq::<UseTreeV>::empty());
        assert(sorted_insert(seq![es], el) =~= seq![es] + sorted_insert(Seq::empty(), el));
        assert(sorted_insert(Seq::<UseTreeV>::empty(), el) =~= seq![el]);
        assert(sorted_insert(seq![el], es) =~= seq![es] + seq![el]);
        assert(seq![es] + seq![el] =~= seq![es, el]);
        assert(seq![es] + sorted_insert(Seq::<UseTreeV>::empty(), el) =~= seq![es, el]);
    }
    lemma_singleton_parent_emit(a, seq![self_leaf, l_leaf]);
    lemma_singleton_parent_emit(a, seq![l_leaf, self_leaf]);
}

/// Unfold the sort of a two-node group's emitted syntax.
proof fn lemma_pair_sorts(g: Seq<NodeV>, e0: UseTreeV, e1: UseTreeV)
    requires
        g.len() == 2,
        emit_node(g[0]) == e0,
        emit_node(g[1]) == e1,
    ensures
        emit_list(g) == seq![e0, e1],
        sort_syntax(emit_list(g)) == sorted_insert(sorted_insert(Seq::empty(), e0), e1),
{
    assert(g.subrange(1, 2).subrange(1, 1) =~= Seq::<NodeV>::empty());
    assert(emit_list(Seq::<NodeV>::empty()) =~= Seq::<UseTreeV>::empty());
    assert(g.subrange(1, 2)[0] == g[1]);
    assert(emit_list(g.subrange(1, 2)) =~= seq![e1]);
    assert(emit_list(g) =~= seq![e0, e1]);
    let xs = seq![e0, e1];
    assert(xs.drop_last() =~= seq![e0]);
    assert(xs.last() == e1);
    assert(seq![e0].drop_last() =~= Seq::<UseTreeV>::empty());
    assert(sort_syntax(Seq::<UseTreeV>::empty()) =~= Seq::<UseTreeV>::empty());
    assert(sort_syntax(seq![e0]) =~= sorted_insert(Seq::empty(), e0));
    assert(sort_syntax(xs) =~= sorted_insert(sorted_insert(Seq::empty(), e0), e1));
}

/// The canonical sibling order relates every two pieces of syntax.
pub proof fn lemma_syn_le_total(a: UseTreeV, b: UseTreeV)
    ensures
        syn_le(a, b) || syn_le(b, a),
{
    crate::lex::lemma_lex_lt_trichotomy(syn_key1(a), syn_key1(b));
    crate::lex::lemma_lex_lt_trichotomy(syn_key2(a), syn_key2(b));
}

/// The canonical sibling order is transitive.
pub proof fn lemma_syn_le_trans(a: UseTreeV, b: UseTreeV, c: UseTreeV)
    requires
        syn_le(a, b),
        syn_le(b, c),
    ensures
        syn_le(a, c),
{
    crate::lex::lemma_lex_lt_trichotomy(syn_key1(a), syn_key1(b));
    crate::lex::lemma_lex_lt_trichotomy(syn_key1(b), syn_key1(c));
    if crate::lex::lex_lt(syn_key1(a), syn_key1(b)) && crate::lex::lex_lt(
        syn_key1(b),
        syn_key1(c),
    ) {
        crate::lex::lemma_lex_lt_transitive(syn_key1(a), syn_key1(b), syn_key1(c));
    }
    if crate::lex::lex_lt(syn_key2(a), syn_key2(b)) && crate::lex::lex_lt(
        syn_key2(b),
        syn_key2(c),
    ) {
        crate::lex::lemma_lex_lt_transitive(syn_key2(a), syn_key2(b), syn_key2(c));
    }
}

/// Mutually ordered syntax has the same rank and text keys.
pub proof fn lemma_syn_le_mutual(a: UseTreeV, b: UseTreeV)
    requires
        syn_le(a, b),
        syn_le(b, a),
    ensures
        syn_rank(a) == syn_rank(b),
        syn_key1(a) == syn_key1(b),
        syn_key2(a) == syn_key2(b),
{
    crate::lex::lemma_lex_lt_trichotomy(syn_key1(a), syn_key1(b));
    crate::lex::lemma_lex_lt_trichotomy(syn_key2(a), syn_key2(b));
}

/// Whether a run of siblings is in canonical order.
pub open spec fn syn_sorted(s: Seq<UseTreeV>) -> bool {
    forall|i: int, j: int| 0 <= i < j < s.len() ==> syn_le(#[trigger] s[i], #[trigger] s[j])
}

/// Inserting into an ordered run keeps it ordered and adds exactly the new
/// element.
pub proof fn lemma_sorted_insert_ensures(s: Seq<UseTreeV>, x: UseTreeV)
    requires
        syn_sorted(s),
    ensures
        syn_sorted(sorted_insert(s, x)),
        sorted_insert(s, x).to_multiset() == s.to_multiset().insert(x),
        sorted_insert(s, x).len() == s.len() + 1,
    decreases s.len(),
{
    broadcast use vstd::seq_lib::group_to_multiset_ensures;
    broadcast use vstd::multiset::group_multiset_axioms;

    let r = sorted_insert(s, x);
    if s.len() == 0 {
        assert(r =~= s.insert(0, x));
        vstd::seq_lib::to_multiset_insert(s, 0, x);
    } else if !syn_le(s[0], x) {
        assert(r =~= seq![x] + s);
        lemma_syn_le_total(s[0], x);
        assert(syn_le(x, s[0]));
        assert forall|i: int, j: int| 0 <= i < j < r.len() implies syn_le(r[i], r[j]) by {
            if i == 0 {
                if j > 1 {
                    lemma_syn_le_trans(x, s[0], s[j - 1]);
                }
            }
        }
        assert(r =~= s.insert(0, x));
        vstd::seq_lib::to_multiset_insert(s, 0, x);
    } else {
        let tail = s.subrange(1, s.len() as int);
        assert(syn_sorted(tail)) by {
            assert(forall|i: int, j: int|
                0 <= i < j < tail.len() ==> syn_le(#[trigger] tail[i], #[trigger] tail[j]));
        }
        lemma_sorted_insert_ensures(tail, x);
        let rt = sorted_insert(tail, x);
        assert(r =~= seq![s[0]] + rt);
        assert forall|i: int, j: int| 0 <= i < j < r.len() implies syn_le(r[i], r[j]) by {
            if i == 0 {
                assert(rt.to_multiset().contains(r[j]));
                if rt.to_multiset().contains(r[j]) {
                    if tail.to_multiset().contains(r[j]) {
                        let k = choose|k: int| 0 <= k < tail.len() && tail[k] == r[j];
                        assert(syn_le(s[0], tail[k]));
                    } else {
                        assert(r[j] == x);
                    }
                }
            }
        }
        assert(r.to_multiset() =~= s.to_multiset().insert(x)) by {
            assert(r =~= rt.insert(0, s[0]));
            vstd::seq_lib::to_multiset_insert(rt, 0, s[0]);
            assert(s =~= tail.insert(0, s[0]));
            vstd::seq_lib::to_multiset_insert(tail, 0, s[0]);
            assert(tail.to_multiset().insert(x).insert(s[0]) =~= tail.to_multiset().insert(
                s[0],
            ).insert(x));
        }
    }
}

/// Ordering a run of siblings keeps exactly its elements and orders them.
pub proof fn lemma_sort_syntax_ensures(s: Seq<UseTreeV>)
    ensures
        syn_sorted(sort_syntax(s)),
        sort_syntax(s).to_multiset() == s.to_multiset(),
        sort_syntax(s).len() == s.len(),
    decreases s.len(),
{
    broadcast use vstd::seq_lib::group_to_multiset_ensures;

    if s.len() == 0 {
        assert(sort_syntax(s).to_multiset() =~= s.to_multiset());
    } else {
        lemma_sort_syntax_ensures(s.drop_last());
        lemma_sorted_insert_ensures(sort_syntax(s.drop_last()), s.last());
        assert(s =~= s.drop_last().push(s.last()));
        assert(s.to_multiset() =~= s.drop_last().to_multiset().insert(s.last()));
    }
}

/// Two ordered runs with the same elements are identical, provided no two
/// distinct elements share a sort key.
pub proof fn lemma_sorted_unique(x: Seq<UseTreeV>, y: Seq<UseTreeV>)
    requires
        syn_sorted(x),
        syn_sorted(y),
        x.to_multiset() == y.to_multiset(),
        forall|a: UseTreeV, b: UseTreeV|
            x.to_multiset().contains(a) && x.to_multiset().contains(b) && #[trigger] syn_le(a, b)
                && #[trigger] syn_le(b, a) ==> a == b,
    ensures
        x =~= y,
    decreases x.len(),
{
    broadcast use vstd::seq_lib::group_to_multiset_ensures;

    if x.len() == 0 || y.len() == 0 {
        assert(x.to_multiset().len() == x.len());
        assert(y.to_multiset().len() == y.len());
    } else {
        assert(x.to_multiset().contains(x[0]));
        assert(x.to_multiset().contains(y[0]));
        let i = choose|i: int| 0 <= i < x.len() && x[i] == y[0];
        let j = choose|j: int| 0 <= j < y.len() && y[j] == x[0];
        assert(syn_le(x[0], x[i]) || i == 0);
        assert(syn_le(y[0], y[j]) || j == 0);
        assert(syn_le(x[0], y[0]) && syn_le(y[0], x[0])) by {
            if i > 0 && j > 0 {
                assert(syn_le(x[0], y[0]));
                assert(syn_le(y[0], x[0]));
            }
        }
        assert(x[0] == y[0]);
        assert(x.drop_first() =~= x.remove(0));
        assert(y.drop_first() =~= y.remove(0));
        vstd::seq_lib::to_multiset_remove(x, 0);
        vstd::seq_lib::to_multiset_remove(y, 0);
        assert(x.drop_first().to_multiset() =~= x.to_multiset().remove(x[0]));
        assert(y.drop_first().to_multiset() =~= y.to_multiset().remove(y[0]));
        assert(syn_sorted(x.drop_first())) by {
            assert(forall|i: int, j: int|
                0 <= i < j < x.drop_first().len() ==> syn_le(
                    #[trigger] x.drop_first()[i],
                    #[trigger] x.drop_first()[j],
                ));
        }
        assert(syn_sorted(y.drop_first())) by {
            assert(forall|i: int, j: int|
                0 <= i < j < y.drop_first().len() ==> syn_le(
                    #[trigger] y.drop_first()[i],
                    #[trigger] y.drop_first()[j],
                ));
        }
        assert forall|a: UseTreeV, b: UseTreeV|
            x.drop_first().to_multiset().contains(a) && x.drop_first().to_multiset().contains(b)
                && #[trigger] syn_le(a, b) && #[trigger] syn_le(b, a) implies a == b by {
            assert(x.to_multiset().contains(a));
            assert(x.to_multiset().contains(b));
        }
        lemma_sorted_unique(x.drop_first(), y.drop_first());
        vstd::seq_lib::to_multiset_len(x);
        vstd::seq_lib::to_multiset_len(y);
        assert(x.len() == y.len());
        assert(x.drop_first() == y.drop_first());
        assert forall|i: int| 0 <= i < x.len() implies x[i] == y[i] by {
            if i >= 1 {
                assert(x[i] == x.drop_first()[i - 1]);
                assert(y[i] == y.drop_first()[i - 1]);
            }
        }
        assert(x =~= y);
    }
}

/// Canonical-ordering law: two runs of siblings holding the same entries, in
/// any two orders, serialize to the same canonical order and hence to
/// byte-identical text — provided no two distinct entries share a sort key,
/// which holds of every group the merge tree builds.
pub proof fn lemma_canonical_ordering(xs: Seq<UseTreeV>, ys: Seq<UseTreeV>)
    requires
        xs.to_multiset() == ys.to_multiset(),
        forall|i: int, j: int|
            0 <= i < j < xs.len() ==> !(syn_le(#[trigger] xs[i], #[trigger] xs[j]) && syn_le(
                xs[j],
                xs[i],
            )) || xs[i] == xs[j],
    ensures
        sort_syntax(xs) == sort_syntax(ys),
        render_items(sort_syntax(xs)) == render_items(sort_syntax(ys)),
{
    broadcast use vstd::seq_lib::group_to_multiset_ensures;

    lemma_sort_syntax_ensures(xs);
    lemma_sort_syntax_ensures(ys);
    assert forall|a: UseTreeV, b: UseTreeV|
        sort_syntax(xs).to_multiset().contains(a) && sort_syntax(xs).to_multiset().contains(b)
            && #[trigger] syn_le(a, b) && #[trigger] syn_le(b, a) implies a == b by {
        assert(xs.to_multiset().contains(a));
        assert(xs.to_multiset().contains(b));
        let i = choose|i: int| 0 <= i < xs.len() && xs[i] == a;
        let j = choose|j: int| 0 <= j < xs.len() && xs[j] == b;
        if i < j {
            assert(!(syn_le(xs[i], xs[j]) && syn_le(xs[j], xs[i])) || xs[i] == xs[j]);
        } else if j < i {
            assert(!(syn_le(xs[j], xs[i]) && syn_le(xs[i], xs[j])) || xs[j] == xs[i]);
        }
    }
    lemma_sorted_unique(sort_syntax(xs), sort_syntax(ys));
}

/// One path is a prefix of another.
pub open spec fn is_prefix(a: Seq<Seq<char>>, b: Seq<Seq<char>>) -> bool {
    a.len() <= b.len() && a == b.subrange(0, a.len() as int)
}

/// The leaf placements of one node: each leaf's absolute group path paired
/// with its name, the node standing in a group at path `at`.
pub open spec fn node_pairs_at(n: NodeV, at: Seq<Seq<char>>) -> Set<PairV>
    decreases n,
{
    match n {
        NodeV::Leaf { name } => Set::empty().insert((at, name)),
        NodeV::Parent { ident, children } => group_pairs_at(children, at.push(ident)),
    }
}

/// The leaf placements of a whole group at path `at`.
pub open spec fn group_pairs_at(g: Seq<NodeV>, at: Seq<Seq<char>>) -> Set<PairV>
    decreases g,
{
    if g.len() == 0 {
        Set::empty()
    } else {
        node_pairs_at(g[0], at).union(group_pairs_at(g.subrange(1, g.len() as int), at))
    }
}

/// Two sibling nodes that may stand in one well-formed group: interior
/// nodes carry distinct identifiers, leaves carry distinct names, and no
/// plain-name leaf shares its identifier with an interior sibling.
pub open spec fn siblings_ok(a: NodeV, b: NodeV) -> bool {
    match (a, b) {
        (NodeV::Parent { ident: x, .. }, NodeV::Parent { ident: y, .. }) => x != y,
        (NodeV::Leaf { name: x }, NodeV::Leaf { name: y }) => x != y,
        (NodeV::Parent { ident: x, .. }, NodeV::Leaf { name: y }) => y != (NameV::Ident {
            text: x,
        }),
        (NodeV::Leaf { name: x }, NodeV::Parent { ident: y, .. }) => x != (NameV::Ident {
            text: y,
        }),
    }
}

/// A node is well formed: an interior node's group is nonempty and well
/// formed, and no interior node is named `self` — the host language only
/// admits `self` as a final leaf, never as a path segment.
pub open spec fn node_wf(n: NodeV) -> bool
    decreases n,
{
    match n {
        NodeV::Leaf { .. } => true,
        NodeV::Parent { ident, children } => ident != "self"@ && children.len() >= 1 && group_wf(
            children,
        ),
    }
}

/// A path free of `self` segments, as the host language guarantees.
pub open spec fn path_ok(p: Seq<Seq<char>>) -> bool {
    forall|i: int| 0 <= i < p.len() ==> p[i] != "self"@
}

/// A group is well formed: its nodes are pairwise compatible siblings and
/// each is well formed.
pub open spec fn group_wf(g: Seq<NodeV>) -> bool
    decreases g,
{
    if g.len() == 0 {
        true
    } else {
        &&& node_wf(g[0])
        &&& (forall|j: int|
            1 <= j < g.len() ==> siblings_ok(g[0], #[trigger] g[j]))
        &&& group_wf(g.subrange(1, g.len() as int))
    }
}

/// Unfold well-formedness of a group to any one or two of its nodes.
pub proof fn lemma_group_wf_index(g: Seq<NodeV>, i: int)
    requires
        group_wf(g),
        0 <= i < g.len(),
    ensures
        node_wf(g[i]),
        forall|j: int| 0 <= j < g.len() && j != i ==> siblings_ok(g[i], #[trigger] g[j]),
    decreases g.len(),
{
    let rest = g.subrange(1, g.len() as int);
    if i == 0 {
        assert forall|j: int| 0 <= j < g.len() && j != 0 implies siblings_ok(
            g[0],
            #[trigger] g[j],
        ) by {}
    } else {
        lemma_group_wf_index(rest, i - 1);
        assert(g[i] == rest[i - 1]);
        assert forall|j: int| 0 <= j < g.len() && j != i implies siblings_ok(
            g[i],
            #[trigger] g[j],
        ) by {
            if j == 0 {
                assert(siblings_ok(g[0], g[i]));
                lemma_siblings_ok_sym(g[0], g[i]);
            } else {
                assert(g[j] == rest[j - 1]);
                assert(siblings_ok(rest[i - 1], rest[j - 1]));
            }
        }
    }
}

/// Sibling compatibility is symmetric.
pub proof fn lemma_siblings_ok_sym(a: NodeV, b: NodeV)
    requires
        siblings_ok(a, b),
    ensures
        siblings_ok(b, a),
{
}

/// A placement lies in a group's model exactly when it lies in the model of
/// one of the group's nodes.
pub proof fn lemma_group_pairs_member(g: Seq<NodeV>, at: Seq<Seq<char>>, x: PairV)
    ensures
        group_pairs_at(g, at).contains(x) <==> exists|i: int|
            0 <= i < g.len() && #[trigger] node_pairs_at(g[i], at).contains(x),
    decreases g.len(),
{
    let rest = g.subrange(1, g.len() as int);
    if g.len() == 0 {
    } else {
        lemma_group_pairs_member(rest, at, x);
        if group_pairs_at(g, at).contains(x) {
            if node_pairs_at(g[0], at).contains(x) {
            } else {
                let i = choose|i: int|
                    0 <= i < rest.len() && #[trigger] node_pairs_at(rest[i], at).contains(x);
                assert(g[i + 1] == rest[i]);
                assert(node_pairs_at(g[i + 1], at).contains(x));
            }
        }
        if exists|i: int| 0 <= i < g.len() && #[trigger] node_pairs_at(g[i], at).contains(x) {
            let i = choose|i: int|
                0 <= i < g.len() && #[trigger] node_pairs_at(g[i], at).contains(x);
            if i == 0 {
            } else {
                assert(rest[i - 1] == g[i]);
                assert(node_pairs_at(rest[i - 1], at).contains(x));
            }
        }
    }
}

/// Every placement of a node at `at` extends `at`; a placement of an
/// interior node extends the path through that node.
pub proof fn lemma_node_pairs_prefix(n: NodeV, at: Seq<Seq<char>>, x: PairV)
    requires
        node_pairs_at(n, at).contains(x),
    ensures
        is_prefix(at, x.0),
        n matches NodeV::Parent { ident, .. } ==> is_prefix(at.push(ident), x.0),
    decreases n, 1int,
{
    match n {
        NodeV::Leaf { .. } => {
            assert(x.0 == at);
            assert(at.subrange(0, at.len() as int) =~= at);
        },
        NodeV::Parent { ident, children } => {
            lemma_group_pairs_prefix(children, at.push(ident), x);
            assert(is_prefix(at.push(ident), x.0));
            assert(at.push(ident).subrange(0, at.len() as int) =~= at);
            assert(x.0.subrange(0, at.push(ident).len() as int).subrange(0, at.len() as int)
                =~= x.0.subrange(0, at.len() as int));
        },
    }
}

/// Every placement of a group at `at` extends `at`.
pub proof fn lemma_group_pairs_prefix(g: Seq<NodeV>, at: Seq<Seq<char>>, x: PairV)
    requires
        group_pairs_at(g, at).contains(x),
    ensures
        is_prefix(at, x.0),
    decreases g, 0int,
{
    lemma_group_pairs_member(g, at, x);
    let i = choose|i: int| 0 <= i < g.len() && #[trigger] node_pairs_at(g[i], at).contains(x);
    lemma_node_pairs_prefix(g[i], at, x);
}

/// What the first-match index of interior nodes means, position by position.
pub proof fn lemma_parent_index_props(g: Seq<NodeV>, id: Seq<char>, i: int)
    requires
        0 <= i <= g.len(),
    ensures
        ({
            let j = parent_index_from(g, id, i);
            ||| (j == -1 && forall|k: int|
                i <= k < g.len() ==> !(#[trigger] g[k]).is_parent_named(id))
            ||| (i <= j < g.len() && g[j].is_parent_named(id) && forall|k: int|
                i <= k < j ==> !(#[trigger] g[k]).is_parent_named(id))
        }),
    decreases g.len() - i,
{
    if i < g.len() && !g[i].is_parent_named(id) {
        lemma_parent_index_props(g, id, i + 1);
    }
}

/// What the first-match index of leaves means, position by position.
pub proof fn lemma_leaf_index_props(g: Seq<NodeV>, n: NameV, i: int)
    requires
        0 <= i <= g.len(),
    ensures
        ({
            let j = leaf_index_from(g, n, i);
            ||| (j == -1 && forall|k: int|
                i <= k < g.len() ==> !(#[trigger] g[k]).is_leaf_named(n))
            ||| (i <= j < g.len() && g[j].is_leaf_named(n) && forall|k: int|
                i <= k < j ==> !(#[trigger] g[k]).is_leaf_named(n))
        }),
    decreases g.len() - i,
{
    if i < g.len() && !g[i].is_leaf_named(n) {
        lemma_leaf_index_props(g, n, i + 1);
    }
}

/// Folding a pair into a group never empties it.
pub proof fn lemma_insert_len(g: Seq<NodeV>, p: Seq<Seq<char>>, l: NameV)
    ensures
        group_insert(g, p, l).len() >= g.len(),
        group_insert(g, p, l).len() >= 1,
{
    if p.len() == 0 {
        match l {
            NameV::Ident { text } => {
                lemma_parent_index_props(g, text, 0);
            },
            _ => {},
        }
    } else {
        lemma_parent_index_props(g, p[0], 0);
        lemma_leaf_index_props(g, NameV::Ident { text: p[0] }, 0);
    }
}

/// Replacing one node by a compatible well-formed node keeps a group well
/// formed.
pub proof fn lemma_group_wf_update(g: Seq<NodeV>, j: int, n: NodeV)
    requires
        group_wf(g),
        0 <= j < g.len(),
        node_wf(n),
        forall|k: int| 0 <= k < g.len() && k != j ==> siblings_ok(n, #[trigger] g[k]),
    ensures
        group_wf(g.update(j, n)),
    decreases g.len(),
{
    let r = g.update(j, n);
    let rest = g.subrange(1, g.len() as int);
    if j == 0 {
        assert(r[0] == n);
        assert(r.subrange(1, r.len() as int) =~= rest);
        assert forall|m: int| 1 <= m < r.len() implies siblings_ok(r[0], #[trigger] r[m]) by {
            assert(r[m] == g[m]);
        }
    } else {
        assert(r[0] == g[0]);
        assert(r.subrange(1, r.len() as int) =~= rest.update(j - 1, n));
        lemma_group_wf_update(rest, j - 1, n);
        assert(group_wf(rest.update(j - 1, n))) by {
            assert(forall|k: int|
                0 <= k < rest.len() && k != j - 1 ==> rest[k] == #[trigger] g[k + 1]);
        }
        assert forall|m: int| 1 <= m < r.len() implies siblings_ok(r[0], #[trigger] r[m]) by {
            if m == j {
                lemma_siblings_ok_sym(n, g[0]);
            } else {
                assert(r[m] == g[m]);
            }
        }
    }
}

/// Appending a compatible well-formed node keeps a group well formed.
pub proof fn lemma_group_wf_push(g: Seq<NodeV>, n: NodeV)
    requires
        group_wf(g),
        node_wf(n),
        forall|k: int| 0 <= k < g.len() ==> siblings_ok(n, #[trigger] g[k]),
    ensures
        group_wf(g.push(n)),
    decreases g.len(),
{
    let r = g.push(n);
    if g.len() == 0 {
        assert(r[0] == n);
        assert(r.subrange(1, 1) =~= Seq::<NodeV>::empty());
        assert(group_wf(Seq::<NodeV>::empty()));
        assert(group_wf(r));
    } else {
        let rest = g.subrange(1, g.len() as int);
        assert(r[0] == g[0]);
        assert(r.subrange(1, r.len() as int) =~= rest.push(n));
        lemma_group_wf_push(rest, n);
        assert(group_wf(rest.push(n))) by {
            assert(forall|k: int| 0 <= k < rest.len() ==> rest[k] == #[trigger] g[k + 1]);
        }
        assert forall|m: int| 1 <= m < r.len() implies siblings_ok(r[0], #[trigger] r[m]) by {
            if m == r.len() - 1 {
                lemma_siblings_ok_sym(n, g[0]);
            } else {
                assert(r[m] == g[m]);
            }
        }
        assert(group_wf(r));
    }
}

/// The seed group of a promotion — the self-leaf alone — is well formed.
pub proof fn lemma_seed_wf()
    ensures
        group_wf(seq![NodeV::Leaf { name: self_name() }]),
        group_wf(Seq::<NodeV>::empty()),
{
    let s = seq![NodeV::Leaf { name: self_name() }];
    assert(group_wf(Seq::<NodeV>::empty()));
    assert(s.len() == 1);
    assert(s.subrange(1, s.len() as int) =~= Seq::<NodeV>::empty());
    assert(node_wf(s[0]));
    assert(group_wf(s));
}

/// Folding a pair whose path is free of `self` segments into a well-formed
/// group keeps it well formed.
pub proof fn lemma_insert_wf(g: Seq<NodeV>, p: Seq<Seq<char>>, l: NameV)
    requires
        group_wf(g),
        path_ok(p),
    ensures
        group_wf(group_insert(g, p, l)),
    decreases p.len(),
{
    if p.len() == 0 {
        match l {
            NameV::Ident { text } => {
                lemma_parent_index_props(g, text, 0);
                let j = parent_index(g, text);
                if j >= 0 {
                    lemma_group_wf_index(g, j);
                    let kids = g[j].kids();
                    lemma_leaf_index_props(kids, self_name(), 0);
                    if leaf_index(kids, self_name()) >= 0 {
                    } else {
                        let kids2 = kids.push(NodeV::Leaf { name: self_name() });
                        assert(group_wf(kids2)) by {
                            assert forall|k: int| 0 <= k < kids.len() implies siblings_ok(
                                NodeV::Leaf { name: self_name() },
                                #[trigger] kids[k],
                            ) by {
                                lemma_group_wf_index(kids, k);
                                match kids[k] {
                                    NodeV::Leaf { name } => {
                                        assert(!kids[k].is_leaf_named(self_name()));
                                    },
                                    NodeV::Parent { ident, .. } => {
                                        assert(ident != "self"@);
                                    },
                                }
                            }
                            lemma_group_wf_push(kids, NodeV::Leaf { name: self_name() });
                        }
                        let n2 = NodeV::Parent { ident: text, children: kids2 };
                        assert(node_wf(n2));
                        lemma_group_wf_update(g, j, n2);
                        assert forall|k: int|
                            0 <= k < g.len() && k != j implies siblings_ok(
                            n2,
                            #[trigger] g[k],
                        ) by {
                            assert(siblings_ok(g[j], g[k]));
                        }
                        lemma_group_wf_update(g, j, n2);
                    }
                } else {
                    lemma_leaf_index_props(g, l, 0);
                    if leaf_index(g, l) >= 0 {
                    } else {
                        let n2 = NodeV::Leaf { name: l };
                        assert forall|k: int| 0 <= k < g.len() implies siblings_ok(
                            n2,
                            #[trigger] g[k],
                        ) by {
                            match g[k] {
                                NodeV::Leaf { name } => {
                                    assert(!g[k].is_leaf_named(l));
                                },
                                NodeV::Parent { ident, .. } => {
                                    assert(!g[k].is_parent_named(text));
                                },
                            }
                        }
                        lemma_group_wf_push(g, n2);
                    }
                }
            },
            _ => {
                lemma_leaf_index_props(g, l, 0);
                if leaf_index(g, l) >= 0 {
                } else {
                    let n2 = NodeV::Leaf { name: l };
                    assert forall|k: int| 0 <= k < g.len() implies siblings_ok(
                        n2,
                        #[trigger] g[k],
                    ) by {
                        match g[k] {
                            NodeV::Leaf { name } => {
                                assert(!g[k].is_leaf_named(l));
                            },
                            NodeV::Parent { ident, .. } => {},
                        }
                    }
                    lemma_group_wf_push(g, n2);
                }
            },
        }
    } else {
        let seg = p[0];
        let rest = p.drop_first();
        assert(path_ok(rest)) by {
            assert(forall|i: int| 0 <= i < rest.len() ==> rest[i] == #[trigger] p[i + 1]);
        }
        assert(seg != "self"@);
        lemma_parent_index_props(g, seg, 0);
        let j = parent_index(g, seg);
        if j >= 0 {
            lemma_group_wf_index(g, j);
            let kids = g[j].kids();
            lemma_insert_wf(kids, rest, l);
            lemma_insert_len(kids, rest, l);
            let n2 = NodeV::Parent { ident: seg, children: group_insert(kids, rest, l) };
            assert(node_wf(n2)) by {
                assert(g[j] matches NodeV::Parent { ident, .. } && ident == seg);
            }
            assert forall|k: int| 0 <= k < g.len() && k != j implies siblings_ok(
                n2,
                #[trigger] g[k],
            ) by {
                assert(siblings_ok(g[j], g[k]));
            }
            lemma_group_wf_update(g, j, n2);
        } else {
            lemma_leaf_index_props(g, NameV::Ident { text: seg }, 0);
            let k0 = leaf_index(g, NameV::Ident { text: seg });
            lemma_seed_wf();
            if k0 >= 0 {
                let seeded = seq![NodeV::Leaf { name: self_name() }];
                lemma_insert_wf(seeded, rest, l);
                lemma_insert_len(seeded, rest, l);
                let n2 = NodeV::Parent { ident: seg, children: group_insert(seeded, rest, l) };
                assert(node_wf(n2));
                assert forall|k: int| 0 <= k < g.len() && k != k0 implies siblings_ok(
                    n2,
                    #[trigger] g[k],
                ) by {
                    lemma_group_wf_index(g, k0);
                    assert(siblings_ok(g[k0], g[k]));
                    match g[k] {
                        NodeV::Leaf { name } => {},
                        NodeV::Parent { ident, .. } => {
                            assert(!g[k].is_parent_named(seg));
                        },
                    }
                }
                lemma_group_wf_update(g, k0, n2);
            } else {
                lemma_insert_wf(Seq::empty(), rest, l);
                lemma_insert_len(Seq::empty(), rest, l);
                let n2 = NodeV::Parent {
                    ident: seg,
                    children: group_insert(Seq::empty(), rest, l),
                };
                assert(node_wf(n2));
                assert forall|k: int| 0 <= k < g.len() implies siblings_ok(
                    n2,
                    #[trigger] g[k],
                ) by {
                    match g[k] {
                        NodeV::Leaf { name } => {
                            assert(!g[k].is_leaf_named(NameV::Ident { text: seg }));
                        },
                        NodeV::Parent { ident, .. } => {
                            assert(!g[k].is_parent_named(seg));
                        },
                    }
                }
                lemma_group_wf_push(g, n2);
            }
        }
    }
}

/// A prefix one segment longer pins that segment.
pub proof fn lemma_prefix_push(q: Seq<Seq<char>>, t: Seq<char>, r: Seq<Seq<char>>)
    requires
        is_prefix(q.push(t), r),
    ensures
        q.len() < r.len(),
        r[q.len() as int] == t,
        is_prefix(q, r),
{
    let l = q.len() as int;
    assert(q.push(t)[l] == t);
    assert(r.subrange(0, l + 1)[l] == r[l]);
    assert(q =~= r.subrange(0, l + 1).subrange(0, l));
    assert(r.subrange(0, l + 1).subrange(0, l) =~= r.subrange(0, l));
}

/// The prefix relation is transitive.
pub proof fn lemma_prefix_trans(a: Seq<Seq<char>>, b: Seq<Seq<char>>, c: Seq<Seq<char>>)
    requires
        is_prefix(a, b),
        is_prefix(b, c),
    ensures
        is_prefix(a, c),
{
    assert(a =~= c.subrange(0, a.len() as int)) by {
        assert(forall|i: int| 0 <= i < a.len() ==> a[i] == #[trigger] b[i]);
        assert(forall|i: int| 0 <= i < b.len() ==> b[i] == #[trigger] c[i]);
    }
}

/// A well-formed node places at least one leaf.
pub proof fn lemma_node_pairs_inhabited(n: NodeV, at: Seq<Seq<char>>)
    requires
        node_wf(n),
    ensures
        exists|x: PairV| node_pairs_at(n, at).contains(x),
    decreases n, 1int,
{
    match n {
        NodeV::Leaf { name } => {
            assert(node_pairs_at(n, at).contains((at, name)));
        },
        NodeV::Parent { ident, children } => {
            lemma_group_pairs_inhabited(children, at.push(ident));
            let x = choose|x: PairV| group_pairs_at(children, at.push(ident)).contains(x);
            assert(node_pairs_at(n, at).contains(x));
        },
    }
}

/// A nonempty well-formed group places at least one leaf.
pub proof fn lemma_group_pairs_inhabited(g: Seq<NodeV>, at: Seq<Seq<char>>)
    requires
        group_wf(g),
        g.len() >= 1,
    ensures
        exists|x: PairV| group_pairs_at(g, at).contains(x),
    decreases g, 0int,
{
    lemma_group_wf_index(g, 0);
    lemma_node_pairs_inhabited(g[0], at);
    let x = choose|x: PairV| node_pairs_at(g[0], at).contains(x);
    lemma_group_pairs_member(g, at, x);
}

/// In a well-formed group, a placement below `at.push(t)` exists exactly
/// when an interior child named `t` does.
pub proof fn lemma_cover_parent(g: Seq<NodeV>, at: Seq<Seq<char>>, t: Seq<char>)
    requires
        group_wf(g),
    ensures
        (exists|x: PairV|
            group_pairs_at(g, at).contains(x) && is_prefix(at.push(t), x.0)) <==> parent_index(
            g,
            t,
        ) >= 0,
{
    lemma_parent_index_props(g, t, 0);
    let j = parent_index(g, t);
    if j >= 0 {
        lemma_group_wf_index(g, j);
        match g[j] {
            NodeV::Parent { ident, children } => {
                lemma_group_pairs_inhabited(children, at.push(ident));
                let x = choose|x: PairV|
                    group_pairs_at(children, at.push(ident)).contains(x);
                assert(node_pairs_at(g[j], at).contains(x));
                lemma_group_pairs_member(g, at, x);
                lemma_group_pairs_prefix(children, at.push(ident), x);
                assert(group_pairs_at(g, at).contains(x) && is_prefix(at.push(t), x.0));
            },
            NodeV::Leaf { .. } => {},
        }
    }
    if exists|x: PairV| group_pairs_at(g, at).contains(x) && is_prefix(at.push(t), x.0) {
        let x = choose|x: PairV|
            group_pairs_at(g, at).contains(x) && is_prefix(at.push(t), x.0);
        lemma_group_pairs_member(g, at, x);
        let i = choose|i: int|
            0 <= i < g.len() && #[trigger] node_pairs_at(g[i], at).contains(x);
        lemma_node_pairs_prefix(g[i], at, x);
        lemma_prefix_push(at, t, x.0);
        match g[i] {
            NodeV::Leaf { .. } => {
                assert(x.0 == at);
            },
            NodeV::Parent { ident, .. } => {
                lemma_prefix_push(at, ident, x.0);
                assert(ident == t);
                assert(g[i].is_parent_named(t));
            },
        }
    }
}

/// How one insertion rewrites one existing placement: a plain-name leaf on
/// the walked path is promoted to the self-entry of the interior node that
/// replaces it; every other placement is kept.
pub open spec fn promote_pair(x: PairV, at: Seq<Seq<char>>, dest: Seq<Seq<char>>) -> PairV {
    match x.1 {
        NameV::Ident { text } => if is_prefix(at, x.0) && is_prefix(x.0.push(text), dest) {
            (x.0.push(text), self_name())
        } else {
            x
        },
        _ => x,
    }
}

/// Whether some placement lies at or below the path `q`.
pub open spec fn covers(m: Set<PairV>, q: Seq<Seq<char>>) -> bool {
    exists|x: PairV| m.contains(x) && is_prefix(q, x.0)
}

/// The placement that one insertion adds: the pair itself, or its self-entry
/// form when the plain name is already a deeper prefix.
pub open spec fn inserted_pair(m: Set<PairV>, dest: Seq<Seq<char>>, l: NameV) -> PairV {
    match l {
        NameV::Ident { text } => if covers(m, dest.push(text)) {
            (dest.push(text), self_name())
        } else {
            (dest, l)
        },
        _ => (dest, l),
    }
}

/// The effect of one insertion on the placement model: every placement is
/// promoted where the walk requires it, and the inserted pair is added.
pub open spec fn insert_step(
    m: Set<PairV>,
    at: Seq<Seq<char>>,
    dest: Seq<Seq<char>>,
    l: NameV,
) -> Set<PairV> {
    Set::new(
        |y: PairV|
            (exists|x: PairV| m.contains(x) && promote_pair(x, at, dest) == y) || y
                == inserted_pair(m, dest, l),
    )
}

/// No placement of a group promotes when the walked path ends at the group
/// itself.
proof fn lemma_promote_at_end(g: Seq<NodeV>, at: Seq<Seq<char>>)
    ensures
        forall|x: PairV|
            group_pairs_at(g, at).contains(x) ==> #[trigger] promote_pair(x, at, at) == x,
{
    assert forall|x: PairV|
        group_pairs_at(g, at).contains(x) implies #[trigger] promote_pair(x, at, at) == x by {
        lemma_group_pairs_prefix(g, at, x);
        match x.1 {
            NameV::Ident { text } => {
                if is_prefix(x.0.push(text), at) {
                    assert(x.0.len() + 1 <= at.len());
                    assert(at.len() <= x.0.len());
                }
            },
            _ => {},
        }
    }
}

/// Folding a pair with an empty path performs exactly one step of the
/// placement model.
proof fn lemma_insert_pairs_base(g: Seq<NodeV>, at: Seq<Seq<char>>, l: NameV)
    requires
        group_wf(g),
    ensures
        group_pairs_at(group_insert(g, Seq::empty(), l), at) == insert_step(
            group_pairs_at(g, at),
            at,
            at,
            l,
        ),
{
    let m = group_pairs_at(g, at);
    let r = group_insert(g, Seq::empty(), l);
    let step = insert_step(m, at, at, l);
    let ins = inserted_pair(m, at, l);
    lemma_promote_at_end(g, at);
    assert forall|y: PairV| step.contains(y) implies m.contains(y) || y == ins by {
        if exists|x: PairV| m.contains(x) && promote_pair(x, at, at) == y {
            let x = choose|x: PairV| m.contains(x) && promote_pair(x, at, at) == y;
            assert(promote_pair(x, at, at) == x);
        }
    }
    assert(forall|y: PairV| m.contains(y) ==> #[trigger] step.contains(y));
    assert(step.contains(ins));

    match l {
        NameV::Ident { text } => {
            lemma_parent_index_props(g, text, 0);
            lemma_cover_parent(g, at, text);
            let j = parent_index(g, text);
            if j >= 0 {
                assert(covers(m, at.push(text)));
                assert(ins == (at.push(text), self_name()));
                lemma_group_wf_index(g, j);
                match g[j] {
                    NodeV::Parent { ident, children } => {
                        assert(ident == text);
                        let inner = at.push(text);
                        lemma_leaf_index_props(children, self_name(), 0);
                        let si = leaf_index(children, self_name());
                        if si >= 0 {
                            assert(r == g);
                            assert(m.contains(ins)) by {
                                assert(children[si].is_leaf_named(self_name()));
                                assert(node_pairs_at(children[si], inner).contains(ins));
                                lemma_group_pairs_member(children, inner, ins);
                                assert(node_pairs_at(g[j], at).contains(ins));
                                lemma_group_pairs_member(g, at, ins);
                            }
                            assert(group_pairs_at(r, at) =~= step);
                        } else {
                            let kids2 = children.push(NodeV::Leaf { name: self_name() });
                            let n2 = NodeV::Parent { ident: text, children: kids2 };
                            assert(r == g.update(j, n2));
                            assert forall|y: PairV|
                                group_pairs_at(r, at).contains(y) implies step.contains(y) by {
                                lemma_group_pairs_member(r, at, y);
                                let i = choose|i: int|
                                    0 <= i < r.len() && #[trigger] node_pairs_at(
                                        r[i],
                                        at,
                                    ).contains(y);
                                if i != j {
                                    assert(r[i] == g[i]);
                                    lemma_group_pairs_member(g, at, y);
                                    assert(m.contains(y));
                                } else {
                                    assert(node_pairs_at(n2, at).contains(y));
                                    lemma_group_pairs_member(kids2, inner, y);
                                    let i2 = choose|i2: int|
                                        0 <= i2 < kids2.len() && #[trigger] node_pairs_at(
                                            kids2[i2],
                                            inner,
                                        ).contains(y);
                                    if i2 < children.len() {
                                        assert(kids2[i2] == children[i2]);
                                        lemma_group_pairs_member(children, inner, y);
                                        assert(node_pairs_at(g[j], at).contains(y));
                                        lemma_group_pairs_member(g, at, y);
                                        assert(m.contains(y));
                                    } else {
                                        assert(kids2[i2] == (NodeV::Leaf {
                                            name: self_name(),
                                        }));
                                        assert(y == ins);
                                    }
                                }
                            }
                            assert forall|y: PairV|
                                step.contains(y) implies group_pairs_at(r, at).contains(y) by {
                                if m.contains(y) {
                                    lemma_group_pairs_member(g, at, y);
                                    let i = choose|i: int|
                                        0 <= i < g.len() && #[trigger] node_pairs_at(
                                            g[i],
                                            at,
                                        ).contains(y);
                                    if i != j {
                                        assert(r[i] == g[i]);
                                        lemma_group_pairs_member(r, at, y);
                                    } else {
                                        lemma_group_pairs_member(children, inner, y);
                                        let i2 = choose|i2: int|
                                            0 <= i2 < children.len() && #[trigger] node_pairs_at(
                                                children[i2],
                                                inner,
                                            ).contains(y);
                                        assert(kids2[i2] == children[i2]);
                                        lemma_group_pairs_member(kids2, inner, y);
                                        assert(node_pairs_at(r[j], at).contains(y));
                                        lemma_group_pairs_member(r, at, y);
                                    }
                                } else {
                                    assert(y == ins);
                                    assert(kids2[children.len() as int] == (NodeV::Leaf {
                                        name: self_name(),
                                    }));
                                    assert(node_pairs_at(
                                        kids2[children.len() as int],
                                        inner,
                                    ).contains(y));
                                    lemma_group_pairs_member(kids2, inner, y);
                                    assert(node_pairs_at(r[j], at).contains(y));
                                    lemma_group_pairs_member(r, at, y);
                                }
                            }
                            assert(group_pairs_at(r, at) =~= step);
                        }
                    },
                    NodeV::Leaf { .. } => {},
                }
            } else {
                assert(!covers(m, at.push(text)));
                assert(ins == (at, l));
                lemma_dedup_or_push(g, at, l);
                assert(group_pairs_at(r, at) =~= step);
            }
        },
        _ => {
            assert(ins == (at, l));
            lemma_dedup_or_push(g, at, l);
            assert(group_pairs_at(r, at) =~= step);
        },
    }
}

/// Folding a leaf that is not also a deeper prefix either finds an equal
/// leaf already placed or appends one: either way the model gains exactly
/// that placement.
proof fn lemma_dedup_or_push(g: Seq<NodeV>, at: Seq<Seq<char>>, l: NameV)
    requires
        group_wf(g),
        (match l {
            NameV::Ident { text } => parent_index(g, text) == -1,
            _ => true,
        }),
    ensures
        group_pairs_at(group_insert(g, Seq::empty(), l), at) =~= group_pairs_at(g, at).insert(
            (at, l),
        ),
{
    let m = group_pairs_at(g, at);
    let r = group_insert(g, Seq::empty(), l);
    lemma_leaf_index_props(g, l, 0);
    let si = leaf_index(g, l);
    if si >= 0 {
        assert(r == g);
        assert(m.contains((at, l))) by {
            assert(g[si].is_leaf_named(l));
            assert(node_pairs_at(g[si], at).contains((at, l)));
            lemma_group_pairs_member(g, at, (at, l));
        }
        assert(group_pairs_at(r, at) =~= m.insert((at, l)));
    } else {
        let n2 = NodeV::Leaf { name: l };
        assert(r == g.push(n2));
        assert forall|y: PairV|
            group_pairs_at(r, at).contains(y) implies m.insert((at, l)).contains(y) by {
            lemma_group_pairs_member(r, at, y);
            let i = choose|i: int|
                0 <= i < r.len() && #[trigger] node_pairs_at(r[i], at).contains(y);
            if i < g.len() {
                assert(r[i] == g[i]);
                lemma_group_pairs_member(g, at, y);
            } else {
                assert(r[i] == n2);
                assert(y == (at, l));
            }
        }
        assert forall|y: PairV|
            m.insert((at, l)).contains(y) implies group_pairs_at(r, at).contains(y) by {
            if m.contains(y) {
                lemma_group_pairs_member(g, at, y);
                let i = choose|i: int|
                    0 <= i < g.len() && #[trigger] node_pairs_at(g[i], at).contains(y);
                assert(r[i] == g[i]);
                lemma_group_pairs_member(r, at, y);
            } else {
                assert(y == (at, l));
                assert(r[g.len() as int] == n2);
                assert(node_pairs_at(r[g.len() as int], at).contains(y));
                lemma_group_pairs_member(r, at, y);
            }
        }
        assert(group_pairs_at(r, at) =~= m.insert((at, l)));
    }
}

/// Folding one pair into a well-formed group performs exactly one step of
/// the placement model: every placement on the walked path whose plain name
/// is overtaken becomes a self-entry, every other placement is kept, and the
/// pair's own placement is added, as a self-entry when its name is already a
/// deeper prefix.
pub proof fn lemma_insert_pairs(g: Seq<NodeV>, at: Seq<Seq<char>>, p: Seq<Seq<char>>, l: NameV)
    requires
        group_wf(g),
        path_ok(p),
    ensures
        group_pairs_at(group_insert(g, p, l), at) == insert_step(
            group_pairs_at(g, at),
            at,
            at + p,
            l,
        ),
    decreases p.len(),
{
    let m = group_pairs_at(g, at);
    let dest = at + p;
    let r = group_insert(g, p, l);
    let step = insert_step(m, at, dest, l);
    if p.len() == 0 {
        assert(dest =~= at);
        lemma_insert_pairs_base(g, at, l);
    } else {
        let seg = p[0];
        let rest = p.drop_first();
        let inner_at = at.push(seg);
        assert(dest =~= inner_at + rest);
        assert(path_ok(rest)) by {
            assert(forall|i: int| 0 <= i < rest.len() ==> rest[i] == #[trigger] p[i + 1]);
        }
        assert(seg != "self"@);
        assert(dest[at.len() as int] == seg);
        assert(dest.len() > at.len());
        lemma_parent_index_props(g, seg, 0);
        lemma_leaf_index_props(g, NameV::Ident { text: seg }, 0);
        let j = parent_index(g, seg);
        let k0 = leaf_index(g, NameV::Ident { text: seg });

        // placements of nodes off the walked path never promote
        assert forall|i: int, x: PairV|
            0 <= i < g.len() && !g[i].is_parent_named(seg) && !g[i].is_leaf_named(
                NameV::Ident { text: seg },
            ) && #[trigger] node_pairs_at(g[i], at).contains(x) implies promote_pair(
            x,
            at,
            dest,
        ) == x by {
            lemma_node_pairs_prefix(g[i], at, x);
            match x.1 {
                NameV::Ident { text } => {
                    if is_prefix(at, x.0) && is_prefix(x.0.push(text), dest) {
                        lemma_prefix_push(x.0, text, dest);
                        match g[i] {
                            NodeV::Leaf { name } => {
                                assert(x.0 == at);
                                assert(text == seg);
                                assert(g[i].is_leaf_named(NameV::Ident { text: seg }));
                            },
                            NodeV::Parent { ident, .. } => {
                                lemma_prefix_push(at, ident, x.0);
                                assert(x.0[at.len() as int] == ident);
                                assert(x.0.len() > at.len());
                                assert(x.0[at.len() as int] == dest[at.len() as int]);
                                assert(ident == seg);
                            },
                        }
                    }
                },
                _ => {},
            }
        }

        // placements off the walked path never witness coverage below `dest`
        assert forall|i: int, x: PairV, t: Seq<char>|
            #![trigger node_pairs_at(g[i], at).contains(x), is_prefix(dest.push(t), x.0)]
            0 <= i < g.len() && !g[i].is_parent_named(seg) && node_pairs_at(
                g[i],
                at,
            ).contains(x) implies !is_prefix(dest.push(t), x.0) by {
            lemma_node_pairs_prefix(g[i], at, x);
            if is_prefix(dest.push(t), x.0) {
                lemma_prefix_push(dest, t, x.0);
                assert(x.0[at.len() as int] == dest[at.len() as int]);
                match g[i] {
                    NodeV::Leaf { .. } => {
                        assert(x.0 == at);
                        assert(x.0.len() > at.len());
                    },
                    NodeV::Parent { ident, .. } => {
                        lemma_prefix_push(at, ident, x.0);
                        assert(ident == seg);
                    },
                }
            }
        }

        if j >= 0 {
            lemma_group_wf_index(g, j);
            match g[j] {
                NodeV::Parent { ident, children } => {
                    assert(ident == seg);
                    let mi = group_pairs_at(children, inner_at);
                    lemma_insert_pairs(children, inner_at, rest, l);
                    let children2 = group_insert(children, rest, l);
                    let n2 = NodeV::Parent { ident: seg, children: children2 };
                    assert(r == g.update(j, n2));
                    let istep = insert_step(mi, inner_at, dest, l);
                    assert(group_pairs_at(children2, inner_at) == istep);

                    // the subtree's placements lie in the whole model
                    assert forall|x: PairV| mi.contains(x) implies m.contains(x) by {
                        assert(node_pairs_at(g[j], at).contains(x));
                        lemma_group_pairs_member(g, at, x);
                    }
                    // promotion agrees between the two vantage points
                    assert forall|x: PairV| mi.contains(x) implies promote_pair(x, at, dest)
                        == promote_pair(x, inner_at, dest) by {
                        lemma_group_pairs_prefix(children, inner_at, x);
                        assert(is_prefix(at, x.0)) by {
                            assert(at =~= inner_at.subrange(0, at.len() as int));
                            lemma_prefix_trans(at, inner_at, x.0);
                        }
                    }
                    // the inserted pair agrees between the two vantage points
                    assert(inserted_pair(mi, dest, l) == inserted_pair(m, dest, l)) by {
                        match l {
                            NameV::Ident { text } => {
                                if covers(mi, dest.push(text)) {
                                    let x = choose|x: PairV|
                                        mi.contains(x) && is_prefix(dest.push(text), x.0);
                                    assert(m.contains(x));
                                    assert(covers(m, dest.push(text)));
                                }
                                if covers(m, dest.push(text)) {
                                    let x = choose|x: PairV|
                                        m.contains(x) && is_prefix(dest.push(text), x.0);
                                    lemma_group_pairs_member(g, at, x);
                                    let i = choose|i: int|
                                        0 <= i < g.len() && #[trigger] node_pairs_at(
                                            g[i],
                                            at,
                                        ).contains(x);
                                    assert(i == j) by {
                                        if !g[i].is_parent_named(seg) {
                                            assert(!is_prefix(dest.push(text), x.0));
                                        }
                                        lemma_group_wf_index(g, i);
                                        if i != j {
                                            assert(siblings_ok(g[i], g[j]));
                                        }
                                    }
                                    assert(node_pairs_at(g[j], at).contains(x));
                                    assert(covers(mi, dest.push(text)));
                                }
                            },
                            _ => {},
                        }
                    }

                    assert forall|y: PairV|
                        group_pairs_at(r, at).contains(y) implies step.contains(y) by {
                        lemma_group_pairs_member(r, at, y);
                        let i = choose|i: int|
                            0 <= i < r.len() && #[trigger] node_pairs_at(r[i], at).contains(y);
                        if i != j {
                            assert(r[i] == g[i]);
                            lemma_group_pairs_member(g, at, y);
                            assert(m.contains(y));
                            lemma_group_wf_index(g, i);
                            assert(siblings_ok(g[i], g[j]));
                            assert(promote_pair(y, at, dest) == y);
                        } else {
                            assert(node_pairs_at(n2, at).contains(y));
                            assert(istep.contains(y));
                            if exists|x: PairV|
                                mi.contains(x) && promote_pair(x, inner_at, dest) == y {
                                let x = choose|x: PairV|
                                    mi.contains(x) && promote_pair(x, inner_at, dest) == y;
                                assert(promote_pair(x, at, dest) == y);
                                assert(m.contains(x));
                            } else {
                                assert(y == inserted_pair(mi, dest, l));
                            }
                        }
                    }
                    assert forall|y: PairV|
                        step.contains(y) implies group_pairs_at(r, at).contains(y) by {
                        if exists|x: PairV| m.contains(x) && promote_pair(x, at, dest) == y {
                            let x = choose|x: PairV|
                                m.contains(x) && promote_pair(x, at, dest) == y;
                            lemma_group_pairs_member(g, at, x);
                            let i = choose|i: int|
                                0 <= i < g.len() && #[trigger] node_pairs_at(
                                    g[i],
                                    at,
                                ).contains(x);
                            if i != j {
                                lemma_group_wf_index(g, i);
                                assert(siblings_ok(g[i], g[j]));
                                assert(promote_pair(x, at, dest) == x);
                                assert(r[i] == g[i]);
                                lemma_group_pairs_member(r, at, x);
                            } else {
                                assert(mi.contains(x));
                                assert(promote_pair(x, inner_at, dest) == y);
                                assert(istep.contains(y));
                                assert(node_pairs_at(r[j], at).contains(y));
                                lemma_group_pairs_member(r, at, y);
                            }
                        } else {
                            assert(y == inserted_pair(m, dest, l));
                            assert(y == inserted_pair(mi, dest, l));
                            assert(istep.contains(y));
                            assert(node_pairs_at(r[j], at).contains(y));
                            lemma_group_pairs_member(r, at, y);
                        }
                    }
                    assert(group_pairs_at(r, at) =~= step);
                },
                NodeV::Leaf { .. } => {},
            }
        } else {
            let seeded = seq![NodeV::Leaf { name: self_name() }];
            lemma_seed_wf();
            let x0 = (at, NameV::Ident { text: seg });
            // the inserted pair is never a self-entry here: nothing lies
            // below `dest` extended by the leaf's name
            assert forall|t: Seq<char>| !covers(m, dest.push(t)) by {
                if covers(m, dest.push(t)) {
                    let x = choose|x: PairV| m.contains(x) && is_prefix(dest.push(t), x.0);
                    lemma_group_pairs_member(g, at, x);
                    let i = choose|i: int|
                        0 <= i < g.len() && #[trigger] node_pairs_at(g[i], at).contains(x);
                    assert(!g[i].is_parent_named(seg));
                    assert(!is_prefix(dest.push(t), x.0));
                }
            }
            if k0 >= 0 {
                assert(g[k0].is_leaf_named(NameV::Ident { text: seg }));
                let ms = group_pairs_at(seeded, inner_at);
                assert(ms =~= Set::empty().insert((inner_at, self_name()))) by {
                    assert(seeded.subrange(1, 1) =~= Seq::<NodeV>::empty());
                    assert(group_pairs_at(Seq::<NodeV>::empty(), inner_at) =~= Set::empty());
                    assert(node_pairs_at(seeded[0], inner_at) =~= Set::empty().insert(
                        (inner_at, self_name()),
                    ));
                    assert(group_pairs_at(seeded, inner_at) =~= node_pairs_at(
                        seeded[0],
                        inner_at,
                    ).union(Set::empty()));
                }
                lemma_insert_pairs(seeded, inner_at, rest, l);
                let children2 = group_insert(seeded, rest, l);
                let n2 = NodeV::Parent { ident: seg, children: children2 };
                assert(r == g.update(k0, n2));
                let istep = insert_step(ms, inner_at, dest, l);
                assert(group_pairs_at(children2, inner_at) == istep);

                let sp = (inner_at, self_name());
                // the seeded self-entry never promotes: the remaining path
                // holds no `self` segment
                assert(promote_pair(sp, inner_at, dest) == sp) by {
                    if is_prefix(inner_at.push("self"@), dest) {
                        lemma_prefix_push(inner_at, "self"@, dest);
                        assert(dest[inner_at.len() as int] == "self"@);
                        assert(dest[inner_at.len() as int] == p[inner_at.len() - at.len()]);
                    }
                }
                assert(promote_pair(sp, at, dest) == sp) by {
                    if is_prefix(sp.0.push("self"@), dest) {
                        lemma_prefix_push(inner_at, "self"@, dest);
                        assert(dest[inner_at.len() as int] == p[inner_at.len() - at.len()]);
                    }
                }
                // the overtaken plain leaf promotes to the self-entry
                assert(node_pairs_at(g[k0], at) =~= Set::empty().insert(x0)) by {
                    match g[k0] {
                        NodeV::Leaf { name } => {
                            assert(name == (NameV::Ident { text: seg }));
                        },
                        _ => {},
                    }
                }
                assert(m.contains(x0)) by {
                    assert(node_pairs_at(g[k0], at).contains(x0));
                    lemma_group_pairs_member(g, at, x0);
                }
                assert(promote_pair(x0, at, dest) == sp) by {
                    assert(is_prefix(at, at)) by {
                        assert(at =~= at.subrange(0, at.len() as int));
                    }
                    assert(is_prefix(at.push(seg), dest)) by {
                        assert(at.push(seg) =~= dest.subrange(0, at.len() as int + 1));
                    }
                }
                assert(inserted_pair(ms, dest, l) == inserted_pair(m, dest, l)) by {
                    match l {
                        NameV::Ident { text } => {
                            assert(!covers(m, dest.push(text)));
                            if covers(ms, dest.push(text)) {
                                let x = choose|x: PairV|
                                    ms.contains(x) && is_prefix(dest.push(text), x.0);
                                assert(x == sp);
                                assert(dest.push(text).len() <= inner_at.len());
                                assert(dest.len() >= inner_at.len());
                            }
                        },
                        _ => {},
                    }
                }

                assert forall|y: PairV|
                    group_pairs_at(r, at).contains(y) implies step.contains(y) by {
                    lemma_group_pairs_member(r, at, y);
                    let i = choose|i: int|
                        0 <= i < r.len() && #[trigger] node_pairs_at(r[i], at).contains(y);
                    if i != k0 {
                        assert(r[i] == g[i]);
                        lemma_group_pairs_member(g, at, y);
                        assert(m.contains(y));
                        lemma_group_wf_index(g, i);
                        assert(!g[i].is_parent_named(seg));
                        assert(!g[i].is_leaf_named(NameV::Ident { text: seg })) by {
                            lemma_group_wf_index(g, k0);
                        }
                        assert(promote_pair(y, at, dest) == y);
                    } else {
                        assert(node_pairs_at(n2, at).contains(y));
                        assert(istep.contains(y));
                        if exists|x: PairV|
                            ms.contains(x) && promote_pair(x, inner_at, dest) == y {
                            let x = choose|x: PairV|
                                ms.contains(x) && promote_pair(x, inner_at, dest) == y;
                            assert(x == sp);
                            assert(y == sp);
                            assert(promote_pair(x0, at, dest) == y);
                        } else {
                            assert(y == inserted_pair(ms, dest, l));
                        }
                    }
                }
                assert forall|y: PairV|
                    step.contains(y) implies group_pairs_at(r, at).contains(y) by {
                    if exists|x: PairV| m.contains(x) && promote_pair(x, at, dest) == y {
                        let x = choose|x: PairV|
                            m.contains(x) && promote_pair(x, at, dest) == y;
                        lemma_group_pairs_member(g, at, x);
                        let i = choose|i: int|
                            0 <= i < g.len() && #[trigger] node_pairs_at(g[i], at).contains(x);
                        if i != k0 {
                            lemma_group_wf_index(g, i);
                            assert(!g[i].is_leaf_named(NameV::Ident { text: seg })) by {
                                lemma_group_wf_index(g, k0);
                                assert(siblings_ok(g[k0], g[i]));
                            }
                            assert(promote_pair(x, at, dest) == x);
                            assert(r[i] == g[i]);
                            lemma_group_pairs_member(r, at, x);
                        } else {
                            assert(x == x0);
                            assert(y == sp);
                            assert(ms.contains(sp));
                            assert(promote_pair(sp, inner_at, dest) == sp);
                            assert(istep.contains(sp));
                            assert(node_pairs_at(r[k0], at).contains(sp));
                            lemma_group_pairs_member(r, at, sp);
                        }
                    } else {
                        assert(y == inserted_pair(m, dest, l));
                        assert(y == inserted_pair(ms, dest, l));
                        assert(istep.contains(y));
                        assert(node_pairs_at(r[k0], at).contains(y));
                        lemma_group_pairs_member(r, at, y);
                    }
                }
                assert(group_pairs_at(r, at) =~= step);
            } else {
                let me = group_pairs_at(Seq::<NodeV>::empty(), inner_at);
                assert(me =~= Set::<PairV>::empty());
                lemma_insert_pairs(Seq::empty(), inner_at, rest, l);
                let children2 = group_insert(Seq::empty(), rest, l);
                let n2 = NodeV::Parent { ident: seg, children: children2 };
                assert(r == g.push(n2));
                let istep = insert_step(me, inner_at, dest, l);
                assert(group_pairs_at(children2, inner_at) == istep);
                assert(inserted_pair(me, dest, l) == inserted_pair(m, dest, l)) by {
                    match l {
                        NameV::Ident { text } => {
                            assert(!covers(m, dest.push(text)));
                            if covers(me, dest.push(text)) {
                                let x = choose|x: PairV|
                                    me.contains(x) && is_prefix(dest.push(text), x.0);
                            }
                        },
                        _ => {},
                    }
                }
                assert forall|y: PairV|
                    group_pairs_at(r, at).contains(y) implies step.contains(y) by {
                    lemma_group_pairs_member(r, at, y);
                    let i = choose|i: int|
                        0 <= i < r.len() && #[trigger] node_pairs_at(r[i], at).contains(y);
                    if i < g.len() {
                        assert(r[i] == g[i]);
                        lemma_group_pairs_member(g, at, y);
                        assert(m.contains(y));
                        assert(!g[i].is_parent_named(seg));
                        assert(!g[i].is_leaf_named(NameV::Ident { text: seg }));
                        assert(promote_pair(y, at, dest) == y);
                    } else {
                        assert(r[i] == n2);
                        assert(node_pairs_at(n2, at).contains(y));
                        assert(istep.contains(y));
                        if exists|x: PairV|
                            me.contains(x) && promote_pair(x, inner_at, dest) == y {
                            let x = choose|x: PairV|
                                me.contains(x) && promote_pair(x, inner_at, dest) == y;
                        } else {
                            assert(y == inserted_pair(me, dest, l));
                        }
                    }
                }
                assert forall|y: PairV|
                    step.contains(y) implies group_pairs_at(r, at).contains(y) by {
                    if exists|x: PairV| m.contains(x) && promote_pair(x, at, dest) == y {
                        let x = choose|x: PairV|
                            m.contains(x) && promote_pair(x, at, dest) == y;
                        lemma_group_pairs_member(g, at, x);
                        let i = choose|i: int|
                            0 <= i < g.len() && #[trigger] node_pairs_at(g[i], at).contains(x);
                        assert(!g[i].is_parent_named(seg));
                        assert(!g[i].is_leaf_named(NameV::Ident { text: seg }));
                        assert(promote_pair(x, at, dest) == x);
                        assert(r[i] == g[i]);
                        lemma_group_pairs_member(r, at, x);
                    } else {
                        assert(y == inserted_pair(m, dest, l));
                        assert(y == inserted_pair(me, dest, l));
                        assert(istep.contains(y));
                        assert(node_pairs_at(r[g.len() as int], at).contains(y));
                        lemma_group_pairs_member(r, at, y);
                    }
                }
                assert(group_pairs_at(r, at) =~= step);
            }
        }
    }
}

/// The tree grown by folding a run of pairs, in order, into the empty group.
pub open spec fn pairs_fold(ps: Seq<PairV>) -> Seq<NodeV>
    decreases ps.len(),
{
    if ps.len() == 0 {
        Seq::empty()
    } else {
        group_insert(pairs_fold(ps.drop_last()), ps.last().0, ps.last().1)
    }
}

/// Every pair's path is free of `self` segments.
pub open spec fn paths_ok(ps: Seq<PairV>) -> bool {
    forall|i: int| 0 <= i < ps.len() ==> path_ok((#[trigger] ps[i]).0)
}

/// The canonical form of one pair against a whole set: a plain name that is
/// also a deeper prefix of the set becomes the self-entry of that prefix.
pub open spec fn norm_pair(x: PairV, s: Set<PairV>) -> PairV {
    match x.1 {
        NameV::Ident { text } => if covers(s, x.0.push(text)) {
            (x.0.push(text), self_name())
        } else {
            x
        },
        _ => x,
    }
}

/// The canonical placement set of a set of input pairs: each pair in its
/// canonical form. This depends on the set alone, not on any input order.
pub open spec fn canon(s: Set<PairV>) -> Set<PairV> {
    Set::new(|y: PairV| exists|x: PairV| s.contains(x) && norm_pair(x, s) == y)
}

/// The empty path prefixes every path.
proof fn lemma_empty_prefix(q: Seq<Seq<char>>)
    ensures
        is_prefix(Seq::empty(), q),
{
    assert(q.subrange(0, 0) =~= Seq::<Seq<char>>::empty());
}

/// A path prefixes its own extension.
proof fn lemma_prefix_of_push(q: Seq<Seq<char>>, t: Seq<char>)
    ensures
        is_prefix(q, q.push(t)),
{
    assert(q.push(t).subrange(0, q.len() as int) =~= q);
}

/// Canonicalizing a set of pairs does not change which paths are covered.
proof fn lemma_canon_covers(s: Set<PairV>, q: Seq<Seq<char>>)
    ensures
        covers(canon(s), q) <==> covers(s, q),
{
    if covers(s, q) {
        let z = choose|z: PairV| s.contains(z) && is_prefix(q, z.0);
        let y = norm_pair(z, s);
        assert(canon(s).contains(y));
        assert(is_prefix(q, y.0)) by {
            match z.1 {
                NameV::Ident { text } => {
                    if covers(s, z.0.push(text)) {
                        lemma_prefix_of_push(z.0, text);
                        lemma_prefix_trans(q, z.0, z.0.push(text));
                    }
                },
                _ => {},
            }
        }
        assert(covers(canon(s), q));
    }
    if covers(canon(s), q) {
        let y = choose|y: PairV| canon(s).contains(y) && is_prefix(q, y.0);
        let z = choose|z: PairV| s.contains(z) && norm_pair(z, s) == y;
        assert(covers(s, q)) by {
            match z.1 {
                NameV::Ident { text } => {
                    if covers(s, z.0.push(text)) {
                        let w = choose|w: PairV|
                            s.contains(w) && is_prefix(z.0.push(text), w.0);
                        if y.0 == z.0.push(text) {
                            lemma_prefix_trans(q, z.0.push(text), w.0);
                            assert(s.contains(w) && is_prefix(q, w.0));
                        } else {
                            assert(s.contains(z) && is_prefix(q, z.0));
                        }
                    } else {
                        assert(s.contains(z) && is_prefix(q, z.0));
                    }
                },
                _ => {
                    assert(s.contains(z) && is_prefix(q, z.0));
                },
            }
        }
    }
}

/// One insertion step on a canonical set yields the canonical set with the
/// new pair added.
proof fn lemma_canon_step(s: Set<PairV>, x: PairV)
    requires
        path_ok(x.0),
        forall|z: PairV| #[trigger] s.contains(z) ==> path_ok(z.0),
    ensures
        insert_step(canon(s), Seq::empty(), x.0, x.1) == canon(s.insert(x)),
{
    let c = canon(s);
    let s2 = s.insert(x);
    let dest = x.0;
    let step = insert_step(c, Seq::empty(), dest, x.1);

    // coverage in the grown set: the old coverage, or the new pair's path
    assert forall|q: Seq<Seq<char>>| #[trigger]
        covers(s2, q) <==> covers(s, q) || is_prefix(q, dest) by {
        if covers(s2, q) {
            let z = choose|z: PairV| s2.contains(z) && is_prefix(q, z.0);
            if z == x {
            } else {
                assert(s.contains(z) && is_prefix(q, z.0));
                assert(covers(s, q));
            }
        }
        if covers(s, q) {
            let z = choose|z: PairV| s.contains(z) && is_prefix(q, z.0);
            assert(s2.contains(z) && is_prefix(q, z.0));
        }
        if is_prefix(q, dest) {
            assert(s2.contains(x) && is_prefix(q, x.0));
        }
    }

    // each old pair's canonical form moves exactly as one promotion step
    assert forall|z: PairV| s.contains(z) implies promote_pair(
        norm_pair(z, s),
        Seq::empty(),
        dest,
    ) == norm_pair(z, s2) by {
        lemma_empty_prefix(z.0);
        match z.1 {
            NameV::Ident { text } => {
                lemma_empty_prefix(z.0.push(text));
                if covers(s, z.0.push(text)) {
                    let y = (z.0.push(text), self_name());
                    assert(norm_pair(z, s) == y);
                    assert(covers(s2, z.0.push(text)));
                    assert(norm_pair(z, s2) == y);
                    assert(promote_pair(y, Seq::empty(), dest) == y) by {
                        if is_prefix(y.0.push("self"@), dest) {
                            lemma_prefix_push(y.0, "self"@, dest);
                        }
                    }
                } else {
                    assert(norm_pair(z, s) == z);
                    if is_prefix(z.0.push(text), dest) {
                        assert(covers(s2, z.0.push(text)));
                        assert(norm_pair(z, s2) == (z.0.push(text), self_name()));
                        assert(promote_pair(z, Seq::empty(), dest) == (
                            z.0.push(text),
                            self_name(),
                        ));
                    } else {
                        assert(!covers(s2, z.0.push(text)));
                        assert(norm_pair(z, s2) == z);
                        assert(promote_pair(z, Seq::empty(), dest) == z);
                    }
                }
            },
            _ => {},
        }
    }

    // the inserted pair is the new pair's canonical form
    lemma_canon_covers(s, dest.push(match x.1 {
        NameV::Ident { text } => text,
        _ => ""@,
    }));
    assert(inserted_pair(c, dest, x.1) == norm_pair(x, s2)) by {
        match x.1 {
            NameV::Ident { text } => {
                lemma_canon_covers(s, dest.push(text));
                if is_prefix(dest.push(text), dest) {
                    assert(dest.push(text).len() <= dest.len());
                }
                assert(covers(s2, dest.push(text)) == covers(s, dest.push(text)));
            },
            _ => {},
        }
    }

    assert forall|y: PairV| step.contains(y) implies canon(s2).contains(y) by {
        if exists|w: PairV| c.contains(w) && promote_pair(w, Seq::empty(), dest) == y {
            let w = choose|w: PairV| c.contains(w) && promote_pair(w, Seq::empty(), dest) == y;
            let z = choose|z: PairV| s.contains(z) && norm_pair(z, s) == w;
            assert(norm_pair(z, s2) == y);
            assert(s2.contains(z));
        } else {
            assert(y == inserted_pair(c, dest, x.1));
            assert(norm_pair(x, s2) == y);
            assert(s2.contains(x));
        }
    }
    assert forall|y: PairV| canon(s2).contains(y) implies step.contains(y) by {
        let z = choose|z: PairV| s2.contains(z) && norm_pair(z, s2) == y;
        if z == x {
            assert(y == inserted_pair(c, dest, x.1));
        } else {
            assert(s.contains(z));
            assert(c.contains(norm_pair(z, s)));
            assert(promote_pair(norm_pair(z, s), Seq::empty(), dest) == y);
        }
    }
    assert(step =~= canon(s2));
}

/// The set of pairs a run holds.
pub open spec fn pair_set(ps: Seq<PairV>) -> Set<PairV> {
    Set::new(|x: PairV| ps.contains(x))
}

/// Folding a run of pairs into the empty group yields a well-formed tree
/// whose placement model is the canonical form of the run's set of pairs.
pub proof fn lemma_fold_canon(ps: Seq<PairV>)
    requires
        paths_ok(ps),
    ensures
        group_wf(pairs_fold(ps)),
        group_pairs_at(pairs_fold(ps), Seq::empty()) == canon(pair_set(ps)),
    decreases ps.len(),
{
    if ps.len() == 0 {
        assert(group_pairs_at(pairs_fold(ps), Seq::empty()) =~= Set::<PairV>::empty());
        assert(pair_set(ps) =~= Set::<PairV>::empty());
        assert(canon(Set::<PairV>::empty()) =~= Set::<PairV>::empty());
    } else {
        let d = ps.drop_last();
        let x = ps.last();
        assert(paths_ok(d)) by {
            assert(forall|i: int| 0 <= i < d.len() ==> d[i] == #[trigger] ps[i]);
        }
        assert(path_ok(x.0)) by {
            assert(ps[ps.len() - 1] == x);
        }
        lemma_fold_canon(d);
        let t = pairs_fold(d);
        lemma_insert_wf(t, x.0, x.1);
        lemma_insert_pairs(t, Seq::empty(), x.0, x.1);
        assert(Seq::<Seq<char>>::empty() + x.0 =~= x.0);
        assert(forall|z: PairV|
            #[trigger] pair_set(d).contains(z) ==> path_ok(z.0)) by {
            assert forall|z: PairV| pair_set(d).contains(z) implies path_ok(z.0) by {
                let i = choose|i: int| 0 <= i < d.len() && d[i] == z;
                assert(ps[i] == z);
            }
        }
        lemma_canon_step(pair_set(d), x);
        assert(pair_set(d).insert(x) =~= pair_set(ps)) by {
            assert forall|z: PairV| pair_set(ps).contains(z) implies pair_set(d).insert(
                x,
            ).contains(z) by {
                let i = choose|i: int| 0 <= i < ps.len() && ps[i] == z;
                if i < ps.len() - 1 {
                    assert(d[i] == z);
                    assert(d.contains(z));
                }
            }
            assert forall|z: PairV| pair_set(d).insert(x).contains(z) implies pair_set(
                ps,
            ).contains(z) by {
                if pair_set(d).contains(z) {
                    let i = choose|i: int| 0 <= i < d.len() && d[i] == z;
                    assert(ps[i] == z);
                } else {
                    assert(ps[ps.len() - 1] == z);
                }
            }
        }
    }
}

/// Order-insensitivity law: feeding the same pairs to the merge tree in any
/// two orders yields trees with the same placements — the same interior
/// nodes, the same leaves, and the same self-entries.
pub proof fn lemma_order_insensitivity(ps1: Seq<PairV>, ps2: Seq<PairV>)
    requires
        paths_ok(ps1),
        ps1.to_multiset() == ps2.to_multiset(),
    ensures
        group_pairs_at(pairs_fold(ps1), Seq::empty()) == group_pairs_at(
            pairs_fold(ps2),
            Seq::empty(),
        ),
{
    broadcast use vstd::seq_lib::group_to_multiset_ensures;

    assert(paths_ok(ps2)) by {
        assert forall|i: int| 0 <= i < ps2.len() implies path_ok((#[trigger] ps2[i]).0) by {
            assert(ps2.to_multiset().contains(ps2[i]));
            assert(ps1.to_multiset().contains(ps2[i]));
            assert(ps1.contains(ps2[i]));
            let k = choose|k: int| 0 <= k < ps1.len() && ps1[k] == ps2[i];
        }
    }
    lemma_fold_canon(ps1);
    lemma_fold_canon(ps2);
    assert(pair_set(ps1) =~= pair_set(ps2)) by {
        assert forall|z: PairV| #[trigger]
            ps1.contains(z) implies ps2.contains(z) by {
            assert(ps1.to_multiset().contains(z));
            assert(ps2.to_multiset().contains(z));
        }
        assert forall|z: PairV| #[trigger]
            ps2.contains(z) implies ps1.contains(z) by {
            assert(ps2.to_multiset().contains(z));
            assert(ps1.to_multiset().contains(z));
        }
    }
}

/// In a well-formed group, no placement's plain name is also a deeper
/// prefix of another placement: the merge has already turned every such
/// name into a self-entry.
pub proof fn lemma_wf_no_overlap(
    g: Seq<NodeV>,
    at: Seq<Seq<char>>,
    x: PairV,
    y: PairV,
    t: Seq<char>,
)
    requires
        group_wf(g),
        group_pairs_at(g, at).contains(x),
        group_pairs_at(g, at).contains(y),
        x.1 == (NameV::Ident { text: t }),
    ensures
        !is_prefix(x.0.push(t), y.0),
    decreases g,
{
    if is_prefix(x.0.push(t), y.0) {
        lemma_group_pairs_member(g, at, x);
        lemma_group_pairs_member(g, at, y);
        let i = choose|i: int|
            0 <= i < g.len() && #[trigger] node_pairs_at(g[i], at).contains(x);
        let i2 = choose|i2: int|
            0 <= i2 < g.len() && #[trigger] node_pairs_at(g[i2], at).contains(y);
        lemma_node_pairs_prefix(g[i], at, x);
        lemma_node_pairs_prefix(g[i2], at, y);
        lemma_prefix_push(x.0, t, y.0);
        match g[i] {
            NodeV::Leaf { name } => {
                assert(x.0 == at);
                assert(y.0[at.len() as int] == t);
                match g[i2] {
                    NodeV::Leaf { .. } => {
                        assert(y.0 == at);
                    },
                    NodeV::Parent { ident, .. } => {
                        lemma_prefix_push(at, ident, y.0);
                        assert(ident == t);
                        assert(i != i2);
                        lemma_group_wf_index(g, i);
                        assert(siblings_ok(g[i], g[i2]));
                        assert(name == (NameV::Ident { text: t }));
                    },
                }
            },
            NodeV::Parent { ident, children } => {
                lemma_prefix_push(at, ident, x.0);
                assert(x.0[at.len() as int] == ident);
                assert(y.0[at.len() as int] == x.0[at.len() as int]) by {
                    assert(is_prefix(x.0, y.0)) by {
                        lemma_prefix_of_push(x.0, t);
                        lemma_prefix_trans(x.0, x.0.push(t), y.0);
                    }
                    assert(x.0 == y.0.subrange(0, x.0.len() as int));
                }
                match g[i2] {
                    NodeV::Leaf { .. } => {
                        assert(y.0 == at);
                        assert(y.0.len() > at.len());
                    },
                    NodeV::Parent { ident: id2, children: ch2 } => {
                        lemma_prefix_push(at, id2, y.0);
                        assert(id2 == ident);
                        assert(i == i2) by {
                            if i != i2 {
                                lemma_group_wf_index(g, i);
                                assert(siblings_ok(g[i], g[i2]));
                            }
                        }
                        lemma_group_wf_index(g, i);
                        assert(decreases_to!(g => g[i]));
                        assert(decreases_to!(g[i] => children));
                        assert(decreases_to!(g => children));
                        lemma_wf_no_overlap(children, at.push(ident), x, y, t);
                    },
                }
            },
        }
    }
}

/// The placement model of a well-formed tree is already canonical: no pair
/// in it normalizes further.
pub proof fn lemma_canon_of_wf(g: Seq<NodeV>)
    requires
        group_wf(g),
    ensures
        canon(group_pairs_at(g, Seq::empty())) == group_pairs_at(g, Seq::empty()),
{
    let m = group_pairs_at(g, Seq::empty());
    assert forall|x: PairV| m.contains(x) implies #[trigger] norm_pair(x, m) == x by {
        match x.1 {
            NameV::Ident { text } => {
                if covers(m, x.0.push(text)) {
                    let y = choose|y: PairV| m.contains(y) && is_prefix(x.0.push(text), y.0);
                    lemma_wf_no_overlap(g, Seq::empty(), x, y, text);
                }
            },
            _ => {},
        }
    }
    assert forall|y: PairV| canon(m).contains(y) implies m.contains(y) by {
        let x = choose|x: PairV| m.contains(x) && norm_pair(x, m) == y;
    }
    assert forall|y: PairV| m.contains(y) implies canon(m).contains(y) by {
        assert(norm_pair(y, m) == y);
    }
    assert(canon(m) =~= m);
}

/// The merge is a fixed point on its own output's placements: folding any
/// run of pairs that denotes exactly a well-formed tree's placements yields
/// a tree with those same placements.
pub proof fn lemma_remerge_stable(g: Seq<NodeV>, ps: Seq<PairV>)
    requires
        group_wf(g),
        paths_ok(ps),
        pair_set(ps) == group_pairs_at(g, Seq::empty()),
    ensures
        group_pairs_at(pairs_fold(ps), Seq::empty()) == group_pairs_at(g, Seq::empty()),
{
    lemma_fold_canon(ps);
    lemma_canon_of_wf(g);
}

/// `emit_list` maps each node of a group to its emitted syntax.
pub proof fn lemma_emit_list_props(g: Seq<NodeV>)
    ensures
        emit_list(g).len() == g.len(),
        forall|i: int| 0 <= i < g.len() ==> emit_list(g)[i] == emit_node(#[trigger] g[i]),
    decreases g.len(),
{
    if g.len() > 0 {
        let sub = g.subrange(1, g.len() as int);
        lemma_emit_list_props(sub);
        assert forall|i: int| 0 <= i < g.len() implies emit_list(g)[i] == emit_node(
            #[trigger] g[i],
        ) by {
            if i > 0 {
                assert(emit_list(g)[i] == emit_list(sub)[i - 1]);
                assert(sub[i - 1] == g[i]);
            }
        }
    }
}

/// In a well-formed group, no two distinct siblings share a sort key.
pub proof fn lemma_wf_emit_distinct(g: Seq<NodeV>)
    requires
        group_wf(g),
    ensures
        forall|i: int, j: int|
            0 <= i < j < g.len() ==> !(syn_le(
                #[trigger] emit_list(g)[i],
                #[trigger] emit_list(g)[j],
            ) && syn_le(emit_list(g)[j], emit_list(g)[i])),
{
    lemma_emit_list_props(g);
    assert forall|i: int, j: int|
        0 <= i < j < g.len() implies !(syn_le(
        #[trigger] emit_list(g)[i],
        #[trigger] emit_list(g)[j],
    ) && syn_le(emit_list(g)[j], emit_list(g)[i])) by {
        let a = emit_node(g[i]);
        let b = emit_node(g[j]);
        if syn_le(a, b) && syn_le(b, a) {
            lemma_syn_le_mutual(a, b);
            lemma_group_wf_index(g, i);
            assert(siblings_ok(g[i], g[j]));
            match (g[i], g[j]) {
                (NodeV::Leaf { name: n1 }, NodeV::Leaf { name: n2 }) => {
                    match (n1, n2) {
                        (NameV::Ident { text: t1 }, NameV::Ident { text: t2 }) => {
                            assert(syn_key1(a) == t1 && syn_key1(b) == t2);
                        },
                        (
                            NameV::Rename { text: t1, alias: a1 },
                            NameV::Rename { text: t2, alias: a2 },
                        ) => {
                            assert(syn_key1(a) == t1 && syn_key2(a) == a1);
                        },
                        (NameV::Glob, NameV::Glob) => {},
                        _ => {
                            assert(syn_rank(a) != syn_rank(b));
                        },
                    }
                },
                (NodeV::Parent { ident: i1, .. }, NodeV::Parent { ident: i2, .. }) => {
                    assert(syn_key1(a) == i1 && syn_key1(b) == i2);
                },
                _ => {
                    assert(syn_rank(a) != syn_rank(b));
                },
            }
        }
    }
}

/// Canonical-ordering law for merge trees: two well-formed groups holding
/// the same children in any two orders serialize to the same syntax, and so
/// to byte-identical text.
pub proof fn lemma_groups_serialize_identically(g1: Seq<NodeV>, g2: Seq<NodeV>)
    requires
        group_wf(g1),
        group_wf(g2),
        emit_list(g1).to_multiset() == emit_list(g2).to_multiset(),
    ensures
        emit_group(g1) == emit_group(g2),
        crate::render::render_tree(emit_group(g1)) == crate::render::render_tree(emit_group(g2)),
{
    lemma_wf_emit_distinct(g1);
    lemma_emit_list_props(g1);
    let xs = emit_list(g1);
    assert forall|i: int, j: int|
        0 <= i < j < xs.len() implies !(syn_le(#[trigger] xs[i], #[trigger] xs[j]) && syn_le(
        xs[j],
        xs[i],
    )) || xs[i] == xs[j] by {
        assert(!(syn_le(emit_list(g1)[i], emit_list(g1)[j]) && syn_le(
            emit_list(g1)[j],
            emit_list(g1)[i],
        )));
    }
    lemma_canonical_ordering(emit_list(g1), emit_list(g2));
}

/// A pair's path, shifted below the group position `at`.
pub open spec fn shift_pair(at: Seq<Seq<char>>, x: PairV) -> PairV {
    (at + x.0, x.1)
}

/// A pair lies in the pairs of a run of subtrees exactly when it lies in the
/// pairs of one of them.
proof fn lemma_items_pairs_member(s: Seq<UseTreeV>, x: PairV)
    ensures
        items_pairs(s).contains(x) <==> exists|k: int|
            0 <= k < s.len() && #[trigger] tree_pairs(s[k]).contains(x),
    decreases s.len(),
{
    let rest = s.subrange(1, s.len() as int);
    if s.len() == 0 {
    } else {
        lemma_items_pairs_member(rest, x);
        if items_pairs(s).contains(x) {
            let idx = choose|idx: int| 0 <= idx < items_pairs(s).len() && items_pairs(s)[idx] == x;
            if idx < tree_pairs(s[0]).len() {
                assert(tree_pairs(s[0])[idx] == x);
                assert(tree_pairs(s[0]).contains(x));
            } else {
                assert(items_pairs(rest)[idx - tree_pairs(s[0]).len()] == x);
                assert(items_pairs(rest).contains(x));
                let k = choose|k: int|
                    0 <= k < rest.len() && #[trigger] tree_pairs(rest[k]).contains(x);
                assert(s[k + 1] == rest[k]);
                assert(tree_pairs(s[k + 1]).contains(x));
            }
        }
        if exists|k: int| 0 <= k < s.len() && #[trigger] tree_pairs(s[k]).contains(x) {
            let k = choose|k: int| 0 <= k < s.len() && #[trigger] tree_pairs(s[k]).contains(x);
            if k == 0 {
                let idx = choose|idx: int|
                    0 <= idx < tree_pairs(s[0]).len() && tree_pairs(s[0])[idx] == x;
                assert(items_pairs(s)[idx] == x);
            } else {
                assert(rest[k - 1] == s[k]);
                assert(tree_pairs(rest[k - 1]).contains(x));
                assert(items_pairs(rest).contains(x));
                let idx = choose|idx: int|
                    0 <= idx < items_pairs(rest).len() && items_pairs(rest)[idx] == x;
                assert(items_pairs(s)[tree_pairs(s[0]).len() + idx] == x);
            }
        }
    }
}

/// The placements of a node are exactly the walked pairs of its serialized
/// syntax, shifted below the node's group position.
proof fn lemma_emit_node_pairs(n: NodeV, at: Seq<Seq<char>>, z: PairV)
    ensures
        node_pairs_at(n, at).contains(z) <==> exists|x: PairV|
            #[trigger] tree_pairs(emit_node(n)).contains(x) && z == shift_pair(at, x),
    decreases n, 1int,
{
    match n {
        NodeV::Leaf { name } => {
            let u = emit_node(n);
            let x0 = (Seq::<Seq<char>>::empty(), name);
            assert(tree_pairs(u) =~= seq![x0]) by {
                match name {
                    NameV::Ident { text } => {},
                    NameV::Rename { text, alias } => {},
                    NameV::Glob => {},
                }
            }
            assert(tree_pairs(u).contains(x0)) by {
                assert(tree_pairs(u)[0] == x0);
            }
            assert(shift_pair(at, x0) == (at, name)) by {
                assert(at + Seq::<Seq<char>>::empty() =~= at);
            }
            if node_pairs_at(n, at).contains(z) {
                assert(z == (at, name));
            }
            if exists|x: PairV|
                #[trigger] tree_pairs(u).contains(x) && z == shift_pair(at, x) {
                let x = choose|x: PairV|
                    #[trigger] tree_pairs(u).contains(x) && z == shift_pair(at, x);
                assert(x == x0);
            }
        },
        NodeV::Parent { ident, children } => {
            let u = emit_node(n);
            let inner = emit_group(children);
            assert(tree_pairs(u) == prepend_all(ident, tree_pairs(inner)));
            lemma_emit_group_pairs(children, at.push(ident), z);
            if node_pairs_at(n, at).contains(z) {
                let x = choose|x: PairV|
                    #[trigger] tree_pairs(inner).contains(x) && z == shift_pair(at.push(ident), x);
                let idx = choose|idx: int|
                    0 <= idx < tree_pairs(inner).len() && tree_pairs(inner)[idx] == x;
                let x2 = (seq![ident] + x.0, x.1);
                assert(tree_pairs(u)[idx] == x2);
                assert(tree_pairs(u).contains(x2));
                assert(z == shift_pair(at, x2)) by {
                    assert(at.push(ident) + x.0 =~= at + (seq![ident] + x.0));
                }
            }
            if exists|x: PairV|
                #[trigger] tree_pairs(u).contains(x) && z == shift_pair(at, x) {
                let x2 = choose|x2: PairV|
                    #[trigger] tree_pairs(u).contains(x2) && z == shift_pair(at, x2);
                let idx = choose|idx: int|
                    0 <= idx < tree_pairs(u).len() && tree_pairs(u)[idx] == x2;
                let x = tree_pairs(inner)[idx];
                assert(x2 == (seq![ident] + x.0, x.1));
                assert(tree_pairs(inner).contains(x));
                assert(z == shift_pair(at.push(ident), x)) by {
                    assert(at.push(ident) + x.0 =~= at + (seq![ident] + x.0));
                }
                assert(node_pairs_at(n, at).contains(z));
            }
        },
    }
}

/// A pair lies in some sorted sibling's syntax exactly when it lies in some
/// emitted child's syntax.
proof fn lemma_sorted_member_swap(g: Seq<NodeV>, x: PairV)
    ensures
        (exists|k: int|
            0 <= k < sort_syntax(emit_list(g)).len() && #[trigger] tree_pairs(
                sort_syntax(emit_list(g))[k],
            ).contains(x)) <==> (exists|i: int|
            0 <= i < g.len() && #[trigger] tree_pairs(emit_node(g[i])).contains(x)),
{
    broadcast use vstd::seq_lib::group_to_multiset_ensures;

    let el = emit_list(g);
    let xs = sort_syntax(el);
    lemma_emit_list_props(g);
    lemma_sort_syntax_ensures(el);
    if exists|k: int| 0 <= k < xs.len() && #[trigger] tree_pairs(xs[k]).contains(x) {
        let k = choose|k: int| 0 <= k < xs.len() && #[trigger] tree_pairs(xs[k]).contains(x);
        assert(xs.to_multiset().contains(xs[k]));
        assert(el.to_multiset().contains(xs[k]));
        assert(el.contains(xs[k]));
        let i = choose|i: int| 0 <= i < el.len() && el[i] == xs[k];
        assert(tree_pairs(emit_node(g[i])).contains(x));
    }
    if exists|i: int| 0 <= i < g.len() && #[trigger] tree_pairs(emit_node(g[i])).contains(x) {
        let i = choose|i: int|
            0 <= i < g.len() && #[trigger] tree_pairs(emit_node(g[i])).contains(x);
        assert(el[i] == emit_node(g[i]));
        assert(el.to_multiset().contains(el[i]));
        assert(xs.to_multiset().contains(el[i]));
        assert(xs.contains(el[i]));
        let k = choose|k: int| 0 <= k < xs.len() && xs[k] == el[i];
        assert(tree_pairs(xs[k]).contains(x));
    }
}

/// The placements of a group are exactly the walked pairs of its serialized
/// syntax, shifted below the group position.
proof fn lemma_emit_group_pairs(g: Seq<NodeV>, at: Seq<Seq<char>>, z: PairV)
    ensures
        group_pairs_at(g, at).contains(z) <==> exists|x: PairV|
            #[trigger] tree_pairs(emit_group(g)).contains(x) && z == shift_pair(at, x),
    decreases g, 2int,
{
    broadcast use vstd::seq_lib::group_to_multiset_ensures;

    let el = emit_list(g);
    let xs = sort_syntax(el);
    lemma_emit_list_props(g);
    lemma_sort_syntax_ensures(el);

    // the group's placements are the shifted pairs of its children's syntax
    assert forall|i: int, zz: PairV|
        0 <= i < g.len() implies (#[trigger] node_pairs_at(g[i], at).contains(zz) <==> exists|
        x: PairV,
    |
        #[trigger] tree_pairs(emit_node(g[i])).contains(x) && zz == shift_pair(at, x)) by {
        lemma_emit_node_pairs(g[i], at, zz);
    }

    let gp = group_pairs_at(g, at);
    lemma_group_pairs_member(g, at, z);

    if xs.len() == 1 && !is_self_syntax(xs[0]) {
        assert(emit_group(g) == xs[0]);
        if gp.contains(z) {
            let i = choose|i: int|
                0 <= i < g.len() && #[trigger] node_pairs_at(g[i], at).contains(z);
            let x = choose|x: PairV|
                #[trigger] tree_pairs(emit_node(g[i])).contains(x) && z == shift_pair(at, x);
            lemma_sorted_member_swap(g, x);
            let k = choose|k: int| 0 <= k < xs.len() && #[trigger] tree_pairs(xs[k]).contains(x);
            assert(k == 0);
        }
        if exists|x: PairV|
            #[trigger] tree_pairs(emit_group(g)).contains(x) && z == shift_pair(at, x) {
            let x = choose|x: PairV|
                #[trigger] tree_pairs(emit_group(g)).contains(x) && z == shift_pair(at, x);
            assert(tree_pairs(xs[0]).contains(x));
            lemma_sorted_member_swap(g, x);
            let i = choose|i: int|
                0 <= i < g.len() && #[trigger] tree_pairs(emit_node(g[i])).contains(x);
            assert(node_pairs_at(g[i], at).contains(z));
        }
    } else {
        assert(emit_group(g) == (UseTreeV::Group { items: xs }));
        assert(tree_pairs(emit_group(g)) == items_pairs(xs));
        if gp.contains(z) {
            let i = choose|i: int|
                0 <= i < g.len() && #[trigger] node_pairs_at(g[i], at).contains(z);
            let x = choose|x: PairV|
                #[trigger] tree_pairs(emit_node(g[i])).contains(x) && z == shift_pair(at, x);
            lemma_sorted_member_swap(g, x);
            lemma_items_pairs_member(xs, x);
            assert(items_pairs(xs).contains(x));
        }
        if exists|x: PairV|
            #[trigger] tree_pairs(emit_group(g)).contains(x) && z == shift_pair(at, x) {
            let x = choose|x: PairV|
                #[trigger] tree_pairs(emit_group(g)).contains(x) && z == shift_pair(at, x);
            lemma_items_pairs_member(xs, x);
            lemma_sorted_member_swap(g, x);
            let i = choose|i: int|
                0 <= i < g.len() && #[trigger] tree_pairs(emit_node(g[i])).contains(x);
            assert(node_pairs_at(g[i], at).contains(z));
        }
    }
}

/// Serialization denotes exactly the tree's placements: walking the
/// serialized syntax yields the same set of (path, leaf) pairs that the
/// tree holds.
pub proof fn lemma_serialize_preserves_pairs(g: Seq<NodeV>, z: PairV)
    ensures
        group_pairs_at(g, Seq::empty()).contains(z) <==> tree_pairs(emit_group(g)).contains(z),
{
    lemma_emit_group_pairs(g, Seq::empty(), z);
    if group_pairs_at(g, Seq::empty()).contains(z) {
        let x = choose|x: PairV|
            #[trigger] tree_pairs(emit_group(g)).contains(x) && z == shift_pair(
                Seq::empty(),
                x,
            );
        assert(Seq::<Seq<char>>::empty() + x.0 =~= x.0);
        assert(z == x);
    }
    if tree_pairs(emit_group(g)).contains(z) {
        assert(Seq::<Seq<char>>::empty() + z.0 =~= z.0);
        assert(z == shift_pair(Seq::empty(), z));
    }
}

/// The placements of a well-formed tree have `self`-free paths.
pub proof fn lemma_pairs_path_ok(g: Seq<NodeV>, at: Seq<Seq<char>>, z: PairV)
    requires
        group_wf(g),
        path_ok(at),
        group_pairs_at(g, at).contains(z),
    ensures
        path_ok(z.0),
    decreases g,
{
    lemma_group_pairs_member(g, at, z);
    let i = choose|i: int| 0 <= i < g.len() && #[trigger] node_pairs_at(g[i], at).contains(z);
    lemma_group_wf_index(g, i);
    match g[i] {
        NodeV::Leaf { .. } => {
            assert(z.0 == at);
        },
        NodeV::Parent { ident, children } => {
            assert(path_ok(at.push(ident))) by {
                assert(forall|k: int|
                    0 <= k < at.len() ==> at.push(ident)[k] == #[trigger] at[k]);
                assert(at.push(ident)[at.len() as int] == ident);
            }
            assert(decreases_to!(g => g[i]));
            assert(decreases_to!(g[i] => children));
            assert(decreases_to!(g => children));
            lemma_pairs_path_ok(children, at.push(ident), z);
        },
    }
}

/// Idempotence law, at the model level: decompose a merged tree's
/// serialized syntax back into pairs and merge them again, and the
/// placements are unchanged. What remains outside this statement is only
/// the host-language parser's round trip from rendered text back to syntax.
pub proof fn lemma_idempotence(ps: Seq<PairV>, qs: Seq<PairV>)
    requires
        paths_ok(ps),
        forall|x: PairV|
            #[trigger] qs.contains(x) <==> tree_pairs(emit_group(pairs_fold(ps))).contains(x),
    ensures
        group_pairs_at(pairs_fold(qs), Seq::empty()) == group_pairs_at(
            pairs_fold(ps),
            Seq::empty(),
        ),
{
    let t = pairs_fold(ps);
    lemma_fold_canon(ps);
    assert forall|x: PairV| #[trigger]
        qs.contains(x) implies group_pairs_at(t, Seq::empty()).contains(x) by {
        lemma_serialize_preserves_pairs(t, x);
    }
    assert(paths_ok(qs)) by {
        assert forall|i: int| 0 <= i < qs.len() implies path_ok((#[trigger] qs[i]).0) by {
            assert(qs.contains(qs[i]));
            assert(path_ok(Seq::<Seq<char>>::empty()));
            lemma_pairs_path_ok(t, Seq::empty(), qs[i]);
        }
    }
    assert(pair_set(qs) =~= group_pairs_at(t, Seq::empty())) by {
        assert forall|x: PairV|
            group_pairs_at(t, Seq::empty()).contains(x) implies pair_set(qs).contains(x) by {
            lemma_serialize_preserves_pairs(t, x);
        }
    }
    lemma_remerge_stable(t, qs);
}

/// A placement whose path ends at the group itself comes from a leaf child.
proof fn lemma_leaf_model(g: Seq<NodeV>, at: Seq<Seq<char>>, n: NameV)
    ensures
        group_pairs_at(g, at).contains((at, n)) <==> exists|i: int|
            0 <= i < g.len() && (#[trigger] g[i]).is_leaf_named(n),
{
    lemma_group_pairs_member(g, at, (at, n));
    if group_pairs_at(g, at).contains((at, n)) {
        let i = choose|i: int|
            0 <= i < g.len() && #[trigger] node_pairs_at(g[i], at).contains((at, n));
        match g[i] {
            NodeV::Leaf { name } => {
                assert(name == n);
                assert(g[i].is_leaf_named(n));
            },
            NodeV::Parent { ident, .. } => {
                lemma_node_pairs_prefix(g[i], at, (at, n));
                assert(at.push(ident).len() <= at.len());
            },
        }
    }
    if exists|i: int| 0 <= i < g.len() && (#[trigger] g[i]).is_leaf_named(n) {
        let i = choose|i: int| 0 <= i < g.len() && (#[trigger] g[i]).is_leaf_named(n);
        assert(node_pairs_at(g[i], at).contains((at, n)));
    }
}

/// An interior child's placements are exactly the group's placements below
/// the path through that child.
proof fn lemma_child_model(g: Seq<NodeV>, at: Seq<Seq<char>>, j: int, z: PairV)
    requires
        group_wf(g),
        0 <= j < g.len(),
        g[j] matches NodeV::Parent { .. },
    ensures
        ({
            let t = g[j]->ident;
            node_pairs_at(g[j], at).contains(z) <==> (group_pairs_at(g, at).contains(z)
                && is_prefix(at.push(t), z.0))
        }),
{
    let t = g[j]->ident;
    if node_pairs_at(g[j], at).contains(z) {
        lemma_group_pairs_member(g, at, z);
        lemma_node_pairs_prefix(g[j], at, z);
    }
    if group_pairs_at(g, at).contains(z) && is_prefix(at.push(t), z.0) {
        lemma_group_pairs_member(g, at, z);
        let i = choose|i: int|
            0 <= i < g.len() && #[trigger] node_pairs_at(g[i], at).contains(z);
        lemma_node_pairs_prefix(g[i], at, z);
        lemma_prefix_push(at, t, z.0);
        match g[i] {
            NodeV::Leaf { .. } => {
                assert(z.0 == at);
                assert(z.0.len() > at.len());
            },
            NodeV::Parent { ident, .. } => {
                lemma_prefix_push(at, ident, z.0);
                assert(ident == t);
                if i != j {
                    lemma_group_wf_index(g, i);
                    assert(siblings_ok(g[i], g[j]));
                }
                assert(i == j);
            },
        }
    }
}

/// The canonical sibling order relates every syntax to itself.
proof fn lemma_syn_le_refl(u: UseTreeV)
    ensures
        syn_le(u, u),
{
}

/// Height of a node: leaves have height zero.
pub open spec fn node_height(n: NodeV) -> nat
    decreases n,
{
    match n {
        NodeV::Leaf { .. } => 0,
        NodeV::Parent { children, .. } => group_height(children) + 1,
    }
}

/// Height of a group: the greatest height among its nodes.
pub open spec fn group_height(g: Seq<NodeV>) -> nat
    decreases g,
{
    if g.len() == 0 {
        0
    } else {
        let h0 = node_height(g[0]);
        let hr = group_height(g.subrange(1, g.len() as int));
        if h0 > hr {
            h0
        } else {
            hr
        }
    }
}

/// No node outgrows its group.
proof fn lemma_child_height(g: Seq<NodeV>, i: int)
    requires
        0 <= i < g.len(),
    ensures
        node_height(g[i]) <= group_height(g),
    decreases g.len(),
{
    if i > 0 {
        let rest = g.subrange(1, g.len() as int);
        lemma_child_height(rest, i - 1);
        assert(rest[i - 1] == g[i]);
    }
}

/// Two well-formed groups with the same placements serialize identically:
/// the placement model determines the canonical syntax.
pub proof fn lemma_model_determines_emit(g1: Seq<NodeV>, g2: Seq<NodeV>, at: Seq<Seq<char>>)
    requires
        group_wf(g1),
        group_wf(g2),
        forall|z: PairV|
            #![trigger group_pairs_at(g1, at).contains(z)]
            #![trigger group_pairs_at(g2, at).contains(z)]
            group_pairs_at(g1, at).contains(z) <==> group_pairs_at(g2, at).contains(z),
    ensures
        emit_group(g1) == emit_group(g2),
    decreases group_height(g1) + group_height(g2), 1int,
{
    broadcast use vstd::seq_lib::group_to_multiset_ensures;
    broadcast use vstd::multiset::group_multiset_axioms;

    let el1 = emit_list(g1);
    let el2 = emit_list(g2);
    lemma_emit_list_props(g1);
    lemma_emit_list_props(g2);

    // each child of either group emits the same syntax as some child of the
    // other: leaves by their placement at this level, interior nodes by the
    // equality of their subtree placements and this lemma one level down
    assert forall|i: int| 0 <= i < g1.len() implies exists|i2: int|
        0 <= i2 < g2.len() && emit_node(g2[i2]) == emit_node(#[trigger] g1[i]) by {
        lemma_match_across(g1, g2, at, i);
    }
    assert forall|i2: int| 0 <= i2 < g2.len() implies exists|i: int|
        0 <= i < g1.len() && emit_node(g1[i]) == emit_node(#[trigger] g2[i2]) by {
        lemma_match_across(g2, g1, at, i2);
    }

    // the emitted lists are duplicate-free: distinct siblings never share a
    // sort key, while equal syntax orders mutually
    assert(el1.no_duplicates()) by {
        lemma_wf_emit_distinct(g1);
        assert forall|i: int, j: int|
            0 <= i < el1.len() && 0 <= j < el1.len() && i != j implies el1[i] != el1[j] by {
            lemma_syn_le_refl(el1[i]);
        }
    }
    assert(el2.no_duplicates()) by {
        lemma_wf_emit_distinct(g2);
        assert forall|i: int, j: int|
            0 <= i < el2.len() && 0 <= j < el2.len() && i != j implies el2[i] != el2[j] by {
            lemma_syn_le_refl(el2[i]);
        }
    }
    el1.lemma_multiset_has_no_duplicates();
    el2.lemma_multiset_has_no_duplicates();

    assert(el1.to_multiset() =~= el2.to_multiset()) by {
        assert forall|x: UseTreeV| el1.to_multiset().count(x) == el2.to_multiset().count(
            x,
        ) by {
            if el1.to_multiset().contains(x) {
                let i = choose|i: int| 0 <= i < el1.len() && el1[i] == x;
                let i2 = choose|i2: int|
                    0 <= i2 < g2.len() && emit_node(g2[i2]) == emit_node(g1[i]);
                assert(el2[i2] == x);
                assert(el2.contains(x));
                assert(el2.to_multiset().contains(x));
            }
            if el2.to_multiset().contains(x) {
                let i2 = choose|i2: int| 0 <= i2 < el2.len() && el2[i2] == x;
                let i = choose|i: int|
                    0 <= i < g1.len() && emit_node(g1[i]) == emit_node(g2[i2]);
                assert(el1[i] == x);
                assert(el1.contains(x));
                assert(el1.to_multiset().contains(x));
            }
        }
    }
    lemma_groups_serialize_identically(g1, g2);
}

/// Each child of one group has a counterpart in the other group emitting
/// the same syntax, when the two groups hold the same placements.
proof fn lemma_match_across(g1: Seq<NodeV>, g2: Seq<NodeV>, at: Seq<Seq<char>>, i: int)
    requires
        group_wf(g1),
        group_wf(g2),
        0 <= i < g1.len(),
        forall|z: PairV|
            #![trigger group_pairs_at(g1, at).contains(z)]
            #![trigger group_pairs_at(g2, at).contains(z)]
            group_pairs_at(g1, at).contains(z) <==> group_pairs_at(g2, at).contains(z),
    ensures
        exists|i2: int| 0 <= i2 < g2.len() && emit_node(g2[i2]) == emit_node(g1[i]),
    decreases group_height(g1) + group_height(g2), 0int,
{
    lemma_group_wf_index(g1, i);
    match g1[i] {
        NodeV::Leaf { name } => {
            lemma_leaf_model(g1, at, name);
            assert(node_pairs_at(g1[i], at).contains((at, name)));
            lemma_group_pairs_member(g1, at, (at, name));
            assert(group_pairs_at(g2, at).contains((at, name)));
            lemma_leaf_model(g2, at, name);
            let i2 = choose|i2: int| 0 <= i2 < g2.len() && (#[trigger] g2[i2]).is_leaf_named(
                name,
            );
            assert(emit_node(g2[i2]) == emit_node(g1[i])) by {
                match g2[i2] {
                    NodeV::Leaf { name: n2 } => {
                        assert(n2 == name);
                    },
                    _ => {},
                }
            }
        },
        NodeV::Parent { ident, children } => {
            // the counterpart interior node exists in the other group
            lemma_group_pairs_inhabited(children, at.push(ident));
            let w = choose|w: PairV| group_pairs_at(children, at.push(ident)).contains(w);
            assert(node_pairs_at(g1[i], at).contains(w));
            lemma_group_pairs_member(g1, at, w);
            lemma_group_pairs_prefix(children, at.push(ident), w);
            assert(group_pairs_at(g2, at).contains(w));
            lemma_cover_parent(g2, at, ident);
            let j2 = parent_index(g2, ident);
            lemma_parent_index_props(g2, ident, 0);
            assert(j2 >= 0) by {
                assert(group_pairs_at(g2, at).contains(w) && is_prefix(at.push(ident), w.0));
            }
            lemma_group_wf_index(g2, j2);
            match g2[j2] {
                NodeV::Parent { ident: id2, children: ch2 } => {
                    assert(id2 == ident);
                    // the two subtrees hold the same placements
                    assert forall|z: PairV|
                        #![trigger group_pairs_at(children, at.push(ident)).contains(z)]
                        #![trigger group_pairs_at(ch2, at.push(ident)).contains(z)]
                        group_pairs_at(children, at.push(ident)).contains(z)
                            <==> group_pairs_at(ch2, at.push(ident)).contains(z) by {
                        lemma_child_model(g1, at, i, z);
                        lemma_child_model(g2, at, j2, z);
                    }
                    lemma_child_height(g1, i);
                    lemma_child_height(g2, j2);
                    assert(group_height(children) < group_height(g1));
                    assert(group_height(ch2) < group_height(g2));
                    lemma_model_determines_emit(children, ch2, at.push(ident));
                    assert(emit_node(g2[j2]) == emit_node(g1[i]));
                },
                NodeV::Leaf { .. } => {},
            }
        },
    }
}

/// Order-insensitivity carried through to the output: feeding the same
/// pairs to the merge tree in any two orders yields byte-identical
/// serialized text.
pub proof fn lemma_permutation_output(ps1: Seq<PairV>, ps2: Seq<PairV>)
    requires
        paths_ok(ps1),
        ps1.to_multiset() == ps2.to_multiset(),
    ensures
        emit_group(pairs_fold(ps1)) == emit_group(pairs_fold(ps2)),
        crate::render::render_tree(emit_group(pairs_fold(ps1))) == crate::render::render_tree(
            emit_group(pairs_fold(ps2)),
        ),
{
    broadcast use vstd::seq_lib::group_to_multiset_ensures;

    lemma_order_insensitivity(ps1, ps2);
    assert(paths_ok(ps2)) by {
        assert forall|i: int| 0 <= i < ps2.len() implies path_ok((#[trigger] ps2[i]).0) by {
            assert(ps2.to_multiset().contains(ps2[i]));
            assert(ps1.to_multiset().contains(ps2[i]));
            assert(ps1.contains(ps2[i]));
            let k = choose|k: int| 0 <= k < ps1.len() && ps1[k] == ps2[i];
        }
    }
    lemma_fold_canon(ps1);
    lemma_fold_canon(ps2);
    lemma_model_determines_emit(pairs_fold(ps1), pairs_fold(ps2), Seq::empty());
}

/// Whether a run of bucket entries is in key order.
pub open spec fn entries_sorted(s: Seq<EntryV>) -> bool {
    forall|i: int, j: int| 0 <= i < j < s.len() ==> key_le((#[trigger] s[i]).0, (#[trigger] s[j]).0)
}

/// Whether no two entries of a run share a key.
pub open spec fn entries_keys_distinct(s: Seq<EntryV>) -> bool {
    forall|i: int, j: int| 0 <= i < j < s.len() ==> (#[trigger] s[i]).0 != (#[trigger] s[j]).0
}

/// What the first-match index of a key means, position by position.
pub proof fn lemma_entry_index_props(s: Seq<EntryV>, key: KeyV, i: int)
    requires
        0 <= i <= s.len(),
    ensures
        ({
            let j = entry_index_from(s, key, i);
            ||| (j == -1 && forall|k: int| i <= k < s.len() ==> (#[trigger] s[k]).0 != key)
            ||| (i <= j < s.len() && s[j].0 == key && forall|k: int|
                i <= k < j ==> (#[trigger] s[k]).0 != key)
        }),
    decreases s.len() - i,
{
    if i < s.len() && s[i].0 != key {
        lemma_entry_index_props(s, key, i + 1);
    }
}

/// Distinct keys never merge: folding a pair under one key leaves every
/// other key's entry untouched, and the entry list keeps its keys pairwise
/// distinct.
pub proof fn lemma_bucket_add_distinct(s: Seq<EntryV>, key: KeyV, p: PairV)
    requires
        entries_keys_distinct(s),
    ensures
        entries_keys_distinct(bucket_add(s, key, p)),
        forall|i: int|
            0 <= i < s.len() && (#[trigger] s[i]).0 != key ==> bucket_add(s, key, p)[i] == s[i],
        forall|i: int| 0 <= i < s.len() ==> (#[trigger] bucket_add(s, key, p)[i]).0 == s[i].0,
{
    lemma_entry_index_props(s, key, 0);
    let j = entry_index(s, key);
    let r = bucket_add(s, key, p);
    if j >= 0 {
        assert forall|i: int, i2: int|
            0 <= i < i2 < r.len() implies (#[trigger] r[i]).0 != (#[trigger] r[i2]).0 by {
            assert(s[i].0 != s[i2].0);
        }
    } else {
        assert forall|i: int, i2: int|
            0 <= i < i2 < r.len() implies (#[trigger] r[i]).0 != (#[trigger] r[i2]).0 by {
            if i2 == s.len() {
                assert(s[i].0 != key);
            } else {
                assert(s[i].0 != s[i2].0);
            }
        }
    }
}

/// Whether every bucket of the grouping state has pairwise-distinct keys.
pub open spec fn buckets_distinct(b: BucketsV) -> bool {
    &&& entries_keys_distinct(b.std_entries)
    &&& entries_keys_distinct(b.external_entries)
    &&& entries_keys_distinct(b.crate_entries)
}

/// Folding one pair keeps every bucket's keys pairwise distinct.
pub proof fn lemma_buckets_add_distinct(b: BucketsV, key: KeyV, p: PairV)
    requires
        buckets_distinct(b),
    ensures
        buckets_distinct(buckets_add(b, key, p)),
{
    lemma_bucket_add_distinct(b.std_entries, key, p);
    lemma_bucket_add_distinct(b.external_entries, key, p);
    lemma_bucket_add_distinct(b.crate_entries, key, p);
}

/// Folding a run of pairs keeps every bucket's keys pairwise distinct.
pub proof fn lemma_buckets_add_pairs_distinct(b: BucketsV, key: KeyV, ps: Seq<PairV>)
    requires
        buckets_distinct(b),
    ensures
        buckets_distinct(buckets_add_pairs(b, key, ps)),
    decreases ps.len(),
{
    if ps.len() > 0 {
        lemma_buckets_add_pairs_distinct(b, key, ps.drop_last());
        lemma_buckets_add_distinct(buckets_add_pairs(b, key, ps.drop_last()), key, ps.last());
    }
}

/// The engine's grouping state always has pairwise-distinct keys in every
/// bucket: no two statements of one block ever share an import key.
pub proof fn lemma_engine_keys_distinct(items: Seq<crate::engine::UseItem>)
    ensures
        buckets_distinct(buckets_add_items(empty_buckets(), items)),
    decreases items.len(),
{
    if items.len() == 0 {
    } else {
        lemma_engine_keys_distinct(items.drop_last());
        lemma_buckets_add_pairs_distinct(
            buckets_add_items(empty_buckets(), items.drop_last()),
            items.last().key_v(),
            tree_pairs(items.last().tree.deep()),
        );
    }
}

/// Inserting into a key-ordered entry list keeps it ordered and adds
/// exactly the new entry.
pub proof fn lemma_entry_insert_ensures(s: Seq<EntryV>, e: EntryV)
    requires
        entries_sorted(s),
    ensures
        entries_sorted(entry_insert(s, e)),
        entry_insert(s, e).to_multiset() == s.to_multiset().insert(e),
        entry_insert(s, e).len() == s.len() + 1,
    decreases s.len(),
{
    broadcast use vstd::seq_lib::group_to_multiset_ensures;
    broadcast use vstd::multiset::group_multiset_axioms;

    let r = entry_insert(s, e);
    if s.len() == 0 {
        assert(r =~= s.insert(0, e));
        vstd::seq_lib::to_multiset_insert(s, 0, e);
    } else if !key_le(s[0].0, e.0) {
        assert(r =~= seq![e] + s);
        lemma_key_lt_trichotomy(s[0].0, e.0);
        assert(key_le(e.0, s[0].0));
        assert forall|i: int, j: int|
            0 <= i < j < r.len() implies key_le((#[trigger] r[i]).0, (#[trigger] r[j]).0) by {
            if i == 0 {
                if j > 1 {
                    lemma_key_le_transitive(e.0, s[0].0, s[j - 1].0);
                }
            }
        }
        assert(r =~= s.insert(0, e));
        vstd::seq_lib::to_multiset_insert(s, 0, e);
    } else {
        let tail = s.subrange(1, s.len() as int);
        assert(entries_sorted(tail)) by {
            assert(forall|i: int, j: int|
                0 <= i < j < tail.len() ==> key_le(
                    (#[trigger] tail[i]).0,
                    (#[trigger] tail[j]).0,
                ));
        }
        lemma_entry_insert_ensures(tail, e);
        let rt = entry_insert(tail, e);
        assert(r =~= seq![s[0]] + rt);
        assert forall|i: int, j: int|
            0 <= i < j < r.len() implies key_le((#[trigger] r[i]).0, (#[trigger] r[j]).0) by {
            if i == 0 {
                assert(rt.to_multiset().contains(r[j]));
                if tail.to_multiset().contains(r[j]) {
                    let k = choose|k: int| 0 <= k < tail.len() && tail[k] == r[j];
                    assert(key_le(s[0].0, tail[k].0));
                } else {
                    assert(r[j] == e);
                }
            }
        }
        assert(r.to_multiset() =~= s.to_multiset().insert(e)) by {
            assert(r =~= rt.insert(0, s[0]));
            vstd::seq_lib::to_multiset_insert(rt, 0, s[0]);
            assert(s =~= tail.insert(0, s[0]));
            vstd::seq_lib::to_multiset_insert(tail, 0, s[0]);
            assert(tail.to_multiset().insert(e).insert(s[0]) =~= tail.to_multiset().insert(
                s[0],
            ).insert(e));
        }
    }
}

/// Ordering an entry list keeps exactly its entries and puts them in key
/// order: each block's statements come out ordered by the key ordering.
pub proof fn lemma_sort_entries_ensures(s: Seq<EntryV>)
    ensures
        entries_sorted(sort_entries(s)),
        sort_entries(s).to_multiset() == s.to_multiset(),
        sort_entries(s).len() == s.len(),
    decreases s.len(),
{
    broadcast use vstd::seq_lib::group_to_multiset_ensures;

    if s.len() == 0 {
        assert(sort_entries(s).to_multiset() =~= s.to_multiset());
    } else {
        lemma_sort_entries_ensures(s.drop_last());
        lemma_entry_insert_ensures(sort_entries(s.drop_last()), s.last());
        assert(s =~= s.drop_last().push(s.last()));
        assert(s.to_multiset() =~= s.drop_last().to_multiset().insert(s.last()));
    }
}

/// A group holding one interior node serializes as that node's syntax.
proof fn lemma_singleton_parent_emit(a: Seq<char>, ch: Seq<NodeV>)
    ensures
        emit_group(seq![NodeV::Parent { ident: a, children: ch }]) == emit_node(
            NodeV::Parent { ident: a, children: ch },
        ),
{
    let n = NodeV::Parent { ident: a, children: ch };
    let g = seq![n];
    assert(g.subrange(1, 1) =~= Seq::<NodeV>::empty());
    assert(emit_list(g.subrange(1, 1)) =~= Seq::<UseTreeV>::empty());
    assert(emit_list(g) =~= seq![emit_node(n)]);
    assert(seq![emit_node(n)].drop_last() =~= Seq::<UseTreeV>::empty());
    assert(sort_syntax(Seq::<UseTreeV>::empty()) =~= Seq::<UseTreeV>::empty());
    assert(sort_syntax(seq![emit_node(n)]) =~= sorted_insert(Seq::empty(), emit_node(n)));
    assert(sorted_insert(Seq::<UseTreeV>::empty(), emit_node(n)) =~= seq![emit_node(n)]);
    assert(!is_self_syntax(emit_node(n)));
}

} // verus!
