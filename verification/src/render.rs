//! Text rendering: the purely structural projection of syntax to source
//! text.

use vstd::prelude::*;

use crate::keys::{KeyV, UseKey, VisV, Visibility};
use crate::walk::{trees_deep, UseTree, UseTreeV};

verus! {

/// The text of one syntax tree: `::`-joined segment chains, comma-separated
/// braced groups, ` as ` renames, and `*` wildcards.
pub open spec fn render_tree(u: UseTreeV) -> Seq<char>
    decreases u, 1int,
{
    match u {
        UseTreeV::Path { ident, tree } => ident + "::"@ + render_tree(*tree),
        UseTreeV::Name { ident } => ident,
        UseTreeV::Rename { ident, alias } => ident + " as "@ + alias,
        UseTreeV::Glob => "*"@,
        UseTreeV::Group { items } => "{"@ + render_items(items) + "}"@,
    }
}

/// The comma-separated text of a group's entries, in order.
pub open spec fn render_items(s: Seq<UseTreeV>) -> Seq<char>
    decreases s, 0int,
{
    if s.len() == 0 {
        Seq::empty()
    } else if s.len() == 1 {
        render_tree(s[0])
    } else {
        render_items(s.drop_last()) + ", "@ + render_tree(s.last())
    }
}

/// The text of a visibility, with its trailing space where one is rendered.
pub open spec fn vis_text(v: VisV) -> Seq<char> {
    match v {
        VisV::Inherited => Seq::empty(),
        VisV::Public => "pub "@,
        VisV::Restricted { in_token, leading_colon, segments } => "pub("@ + (if in_token {
            "in "@
        } else {
            Seq::empty()
        }) + (if leading_colon {
            "::"@
        } else {
            Seq::empty()
        }) + render_segments(segments) + ") "@,
    }
}

/// The `::`-joined text of a visibility path's segments.
pub open spec fn render_segments(s: Seq<Seq<char>>) -> Seq<char>
    decreases s.len(),
{
    if s.len() == 0 {
        Seq::empty()
    } else if s.len() == 1 {
        s[0]
    } else {
        render_segments(s.drop_last()) + "::"@ + s.last()
    }
}

/// The text of one whole import statement under the given key.
pub open spec fn stmt_text(key: KeyV, u: UseTreeV) -> Seq<char> {
    vis_text(key.vis) + "use "@ + (if key.leading_colon {
        "::"@
    } else {
        Seq::empty()
    }) + render_tree(u) + ";"@
}

/// Render one syntax tree as source text.
#[verifier::loop_isolation(false)]
pub fn render_use_tree(u: &UseTree) -> (s: String)
    ensures
        s@ == render_tree(u.deep()),
    decreases *u,
{
    match u {
        UseTree::Path { ident, tree } => {
            let mut s = ident.clone();
            s.append("::");
            let sub = render_use_tree(tree);
            s.append(sub.as_str());
            s
        },
        UseTree::Name { ident } => ident.clone(),
        UseTree::Rename { ident, rename } => {
            let mut s = ident.clone();
            s.append(" as ");
            s.append(rename.as_str());
            s
        },
        UseTree::Glob => String::from_str("*"),
        UseTree::Group { items } => {
            let ghost iv = trees_deep(items@);
            proof {
                crate::walk::lemma_trees_deep(items@);
            }
            let mut s = String::from_str("{");
            let mut i: usize = 0;
            while i < items.len()
                invariant
                    i <= items@.len(),
                    s@ == "{"@ + render_items(iv.take(i as int)),
                decreases items@.len() - i,
            {
                proof {
                    assert(decreases_to!(*u => items@[i as int]));
                }
                if i > 0 {
                    s.append(", ");
                }
                let sub = render_use_tree(&items[i]);
                s.append(sub.as_str());
                proof {
                    assert(iv.take(i as int + 1).drop_last() =~= iv.take(i as int));
                    assert(iv.take(i as int + 1).last() == iv[i as int]);
                    if i == 0 {
                        assert(render_items(iv.take(0)) =~= Seq::<char>::empty());
                        assert(s@ =~= "{"@ + render_items(iv.take(1)));
                    } else {
                        assert(s@ =~= "{"@ + render_items(iv.take(i as int + 1)));
                    }
                }
                i = i + 1;
            }
            s.append("}");
            proof {
                assert(iv.take(items@.len() as int) =~= iv);
                assert(s@ =~= render_tree(u.deep()));
            }
            s
        },
    }
}

/// Render a visibility path's segments as `::`-joined text.
#[verifier::loop_isolation(false)]
pub fn render_segments_exec(segments: &Vec<String>) -> (s: String)
    ensures
        s@ == render_segments(segments.deep_view()),
{
    let ghost sv = segments.deep_view();
    let mut s = String::new();
    let mut i: usize = 0;
    proof {
        assert(s@ =~= render_segments(sv.take(0)));
    }
    while i < segments.len()
        invariant
            i <= segments@.len(),
            sv.len() == segments@.len(),
            s@ == render_segments(sv.take(i as int)),
        decreases segments@.len() - i,
    {
        if i > 0 {
            s.append("::");
        }
        s.append(segments[i].as_str());
        proof {
            assert(sv[i as int] == segments@[i as int]@);
            assert(sv.take(i as int + 1).drop_last() =~= sv.take(i as int));
            assert(sv.take(i as int + 1).last() == sv[i as int]);
            if i == 0 {
                assert(render_segments(sv.take(0)) =~= Seq::<char>::empty());
                assert(s@ =~= render_segments(sv.take(1)));
            } else {
                assert(s@ =~= render_segments(sv.take(i as int + 1)));
            }
        }
        i = i + 1;
    }
    proof {
        assert(sv.take(sv.len() as int) =~= sv);
    }
    s
}

/// Render a visibility as source text.
pub fn render_visibility(v: &Visibility) -> (s: String)
    ensures
        s@ == vis_text(v@),
{
    match v {
        Visibility::Inherited => {
            let s = String::new();
            proof {
                assert(s@ =~= vis_text(v@));
            }
            s
        },
        Visibility::Public => String::from_str("pub "),
        Visibility::Restricted { in_token, leading_colon, segments } => {
            let mut s = String::from_str("pub(");
            if *in_token {
                s.append("in ");
            }
            if *leading_colon {
                s.append("::");
            }
            let seg = render_segments_exec(segments);
            s.append(seg.as_str());
            s.append(") ");
            proof {
                assert(s@ =~= vis_text(v@));
            }
            s
        },
    }
}

/// Render one whole import statement under the given key.
pub fn render_statement(key: &UseKey, u: &UseTree) -> (s: String)
    ensures
        s@ == stmt_text(key@, u.deep()),
{
    let mut s = render_visibility(&key.vis);
    s.append("use ");
    if key.leading_colon {
        s.append("::");
    }
    let t = render_use_tree(u);
    s.append(t.as_str());
    s.append(";");
    proof {
        assert(s@ =~= stmt_text(key@, u.deep()));
    }
    s
}

} // verus!
