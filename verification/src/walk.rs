//! The path-tree walker: decomposes one import's nested-group syntax into the
//! flat sequence of (prefix-path, leaf) pairs it denotes, depth-first.

use vstd::prelude::*;

use crate::name::{Name, NameV};

verus! {

/// The nested-group syntax of one import declaration's target: a path
/// segment followed by more syntax, a plain name, a rename, a wildcard, or a
/// braced group of subtrees.
#[derive(Debug)]
pub enum UseTree {
    Path { ident: String, tree: Box<UseTree> },
    Name { ident: String },
    Rename { ident: String, rename: String },
    Glob,
    Group { items: Vec<UseTree> },
}

/// Mathematical model of import syntax.
pub enum UseTreeV {
    Path { ident: Seq<char>, tree: Box<UseTreeV> },
    Name { ident: Seq<char> },
    Rename { ident: Seq<char>, alias: Seq<char> },
    Glob,
    Group { items: Seq<UseTreeV> },
}

impl UseTree {
    /// The model of this syntax tree.
    pub open spec fn deep(&self) -> UseTreeV
        decreases self,
    {
        match self {
            UseTree::Path { ident, tree } => UseTreeV::Path {
                ident: ident@,
                tree: Box::new(tree.deep()),
            },
            UseTree::Name { ident } => UseTreeV::Name { ident: ident@ },
            UseTree::Rename { ident, rename } => UseTreeV::Rename {
                ident: ident@,
                alias: rename@,
            },
            UseTree::Glob => UseTreeV::Glob,
            UseTree::Group { items } => UseTreeV::Group { items: trees_deep(items@) },
        }
    }
}

/// The models of a sequence of syntax trees, element by element.
pub open spec fn trees_deep(s: Seq<UseTree>) -> Seq<UseTreeV>
    decreases s,
{
    if s.len() == 0 {
        Seq::empty()
    } else {
        seq![s[0].deep()] + trees_deep(s.subrange(1, s.len() as int))
    }
}

/// `trees_deep` maps each tree of a sequence to its model.
pub proof fn lemma_trees_deep(s: Seq<UseTree>)
    ensures
        trees_deep(s).len() == s.len(),
        forall|i: int| 0 <= i < s.len() ==> trees_deep(s)[i] == s[i].deep(),
    decreases s.len(),
{
    if s.len() > 0 {
        lemma_trees_deep(s.subrange(1, s.len() as int));
    }
}

/// A decomposed pair: the interior path leading to a leaf, and the leaf name.
pub type PairV = (Seq<Seq<char>>, NameV);

/// Prefix every pair's path with one leading segment.
pub open spec fn prepend_all(id: Seq<char>, ps: Seq<PairV>) -> Seq<PairV> {
    ps.map_values(|p: PairV| (seq![id] + p.0, p.1))
}

/// The ordered (path, leaf) pairs denoted by one syntax tree, depth-first,
/// left-to-right, exactly mirroring the nesting.
pub open spec fn tree_pairs(t: UseTreeV) -> Seq<PairV>
    decreases t,
{
    match t {
        UseTreeV::Path { ident, tree } => prepend_all(ident, tree_pairs(*tree)),
        UseTreeV::Name { ident } => seq![
            (Seq::<Seq<char>>::empty(), NameV::Ident { text: ident }),
        ],
        UseTreeV::Rename { ident, alias } => seq![
            (Seq::<Seq<char>>::empty(), NameV::Rename { text: ident, alias: alias }),
        ],
        UseTreeV::Glob => seq![(Seq::<Seq<char>>::empty(), NameV::Glob)],
        UseTreeV::Group { items } => items_pairs(items),
    }
}

/// The pairs denoted by a sequence of subtrees, in order.
pub open spec fn items_pairs(s: Seq<UseTreeV>) -> Seq<PairV>
    decreases s,
{
    if s.len() == 0 {
        Seq::empty()
    } else {
        tree_pairs(s[0]) + items_pairs(s.subrange(1, s.len() as int))
    }
}

/// `items_pairs` distributes over concatenation.
pub proof fn lemma_items_pairs_concat(a: Seq<UseTreeV>, b: Seq<UseTreeV>)
    ensures
        items_pairs(a + b) == items_pairs(a) + items_pairs(b),
    decreases a.len(),
{
    if a.len() == 0 {
        assert(a + b =~= b);
        assert(items_pairs(a) =~= Seq::empty());
        assert(items_pairs(a) + items_pairs(b) =~= items_pairs(b));
    } else {
        let ab = a + b;
        assert(ab[0] == a[0]);
        assert(ab.subrange(1, ab.len() as int) =~= a.subrange(1, a.len() as int) + b);
        lemma_items_pairs_concat(a.subrange(1, a.len() as int), b);
        assert(items_pairs(a + b) =~= items_pairs(a) + items_pairs(b));
    }
}

/// The model of an executable pair list.
pub open spec fn pairs_view(s: Seq<(Vec<String>, Name)>) -> Seq<PairV> {
    s.map_values(|p: (Vec<String>, Name)| (p.0.deep_view(), p.1@))
}

/// A copy of a path holding the same segment strings.
pub fn clone_path(p: &Vec<String>) -> (r: Vec<String>)
    ensures
        r@.len() == p@.len(),
        forall|k: int| 0 <= k < p@.len() ==> r@[k] == p@[k],
        r.deep_view() == p.deep_view(),
{
    let mut r: Vec<String> = Vec::new();
    let mut i: usize = 0;
    while i < p.len()
        invariant
            i <= p@.len(),
            r@.len() == i,
            forall|k: int| 0 <= k < i ==> r@[k] == p@[k],
        decreases p@.len() - i,
    {
        r.push(p[i].clone());
        i = i + 1;
    }
    proof {
        assert(r.deep_view() =~= p.deep_view());
    }
    r
}

/// Decompose one import's syntax into its ordered (path, leaf) pairs.
#[verifier::loop_isolation(false)]
pub fn walk_use_tree(t: &UseTree) -> (r: Vec<(Vec<String>, Name)>)
    ensures
        pairs_view(r@) == tree_pairs(t.deep()),
    decreases *t,
{
    match t {
        UseTree::Path { ident, tree } => {
            let sub = walk_use_tree(tree);
            let ghost sv = pairs_view(sub@);
            let ghost goal = prepend_all(ident@, sv);
            let mut out: Vec<(Vec<String>, Name)> = Vec::new();
            let mut i: usize = 0;
            while i < sub.len()
                invariant
                    i <= sub@.len(),
                    sv == pairs_view(sub@),
                    goal == prepend_all(ident@, sv),
                    pairs_view(out@) == goal.take(i as int),
                decreases sub@.len() - i,
            {
                let (pp, n) = &sub[i];
                let mut np = clone_path(pp);
                np.insert(0, ident.clone());
                proof {
                    assert(np@ =~= seq![*ident] + np@.subrange(1, np@.len() as int));
                    assert(np.deep_view() =~= seq![ident@] + pp.deep_view()) by {
                        assert(np@[0] == *ident);
                        assert(forall|k: int|
                            1 <= k < np@.len() ==> np@[k] == pp@[k - 1]);
                    }
                    assert(sv[i as int] == (pp.deep_view(), n@));
                    assert(goal[i as int] == (seq![ident@] + pp.deep_view(), n@));
                }
                out.push((np, n.duplicate()));
                proof {
                    assert(pairs_view(out@) =~~= goal.take(i as int + 1));
                }
                i = i + 1;
            }
            proof {
                assert(goal.take(sub@.len() as int) =~= goal);
                assert(tree_pairs(t.deep()) == goal);
            }
            out
        },
        UseTree::Name { ident } => {
            let mut out: Vec<(Vec<String>, Name)> = Vec::new();
            out.push((Vec::new(), Name::Ident { ident: ident.clone() }));
            proof {
                assert(pairs_view(out@) =~~= tree_pairs(t.deep()));
            }
            out
        },
        UseTree::Rename { ident, rename } => {
            let mut out: Vec<(Vec<String>, Name)> = Vec::new();
            out.push(
                (Vec::new(), Name::Rename { ident: ident.clone(), rename: rename.clone() }),
            );
            proof {
                assert(pairs_view(out@) =~~= tree_pairs(t.deep()));
            }
            out
        },
        UseTree::Glob => {
            let mut out: Vec<(Vec<String>, Name)> = Vec::new();
            out.push((Vec::new(), Name::Glob));
            proof {
                assert(pairs_view(out@) =~~= tree_pairs(t.deep()));
            }
            out
        },
        UseTree::Group { items } => {
            let ghost iv = trees_deep(items@);
            proof {
                lemma_trees_deep(items@);
            }
            let mut out: Vec<(Vec<String>, Name)> = Vec::new();
            let mut i: usize = 0;
            while i < items.len()
                invariant
                    i <= items@.len(),
                    pairs_view(out@) == items_pairs(iv.take(i as int)),
                decreases items@.len() - i,
            {
                proof {
                    assert(decreases_to!(*t => items@[i as int]));
                }
                let mut sub = walk_use_tree(&items[i]);
                proof {
                    assert(iv.take(i as int + 1) =~= iv.take(i as int) + seq![iv[i as int]]);
                    lemma_items_pairs_concat(iv.take(i as int), seq![iv[i as int]]);
                    assert(seq![iv[i as int]].subrange(1, 1) =~= Seq::<UseTreeV>::empty());
                    assert(items_pairs(Seq::<UseTreeV>::empty()) =~= Seq::<PairV>::empty());
                    assert(items_pairs(seq![iv[i as int]]) =~= tree_pairs(iv[i as int]));
                    assert(iv[i as int] == items@[i as int].deep());
                }
                out.append(&mut sub);
                proof {
                    assert(pairs_view(out@) =~~= items_pairs(iv.take(i as int + 1)));
                }
                i = i + 1;
            }
            proof {
                assert(iv.take(items@.len() as int) =~= iv);
                assert(tree_pairs(t.deep()) == items_pairs(iv));
            }
            out
        },
    }
}

} // verus!
