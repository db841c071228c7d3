//! Categories and import keys: how declarations are bucketed and ordered.

use vstd::prelude::*;

use crate::lex::{lemma_lex_lt_transitive, lemma_lex_lt_trichotomy, lex_lt, str_eq, string_eq,
    string_lt};
use crate::name::{Name, NameV};

verus! {

/// The origin category of an import: standard library, external crate, or
/// own-crate-rooted.
#[derive(Debug, Clone, Copy, PartialEq, Eq, Structural)]
pub enum Category {
    Std,
    External,
    Crate,
}

/// Category of a root identifier: a fixed set of reserved words maps to the
/// standard-library and self-relative categories, everything else is external.
pub open spec fn category_of_text(t: Seq<char>) -> Category {
    if t == "std"@ || t == "core"@ || t == "alloc"@ {
        Category::Std
    } else if t == "self"@ || t == "super"@ || t == "crate"@ {
        Category::Crate
    } else {
        Category::External
    }
}

/// Category of one decomposed pair: decided by the first path segment, or by
/// the leaf identifier when the path is empty; wildcard leaves are external.
pub open spec fn category_of_pair(path: Seq<Seq<char>>, leaf: NameV) -> Category {
    if path.len() > 0 {
        category_of_text(path[0])
    } else {
        match leaf {
            NameV::Ident { text } => category_of_text(text),
            NameV::Rename { text, .. } => category_of_text(text),
            NameV::Glob => Category::External,
        }
    }
}

/// Decide the category of a root identifier.
pub fn category_of(first: &str) -> (c: Category)
    ensures
        c == category_of_text(first@),
{
    if str_eq(first, "std") || str_eq(first, "core") || str_eq(first, "alloc") {
        Category::Std
    } else if str_eq(first, "self") || str_eq(first, "super") || str_eq(first, "crate") {
        Category::Crate
    } else {
        Category::External
    }
}

/// Decide the category of one decomposed pair.
pub fn pair_category(path: &Vec<String>, leaf: &Name) -> (c: Category)
    ensures
        c == category_of_pair(path.deep_view(), leaf@),
{
    if path.len() > 0 {
        proof {
            assert(path.deep_view()[0] == path@[0]@);
        }
        category_of(path[0].as_str())
    } else {
        match leaf {
            Name::Ident { ident } => category_of(ident.as_str()),
            Name::Rename { ident, .. } => category_of(ident.as_str()),
            Name::Glob => Category::External,
        }
    }
}

/// The visibility of an import declaration: private, restricted to a path
/// (`pub(crate)`, `pub(in a::b)`), or public.
#[derive(Debug)]
pub enum Visibility {
    Inherited,
    Restricted { in_token: bool, leading_colon: bool, segments: Vec<String> },
    Public,
}

/// Mathematical model of a visibility.
pub enum VisV {
    Inherited,
    Restricted { in_token: bool, leading_colon: bool, segments: Seq<Seq<char>> },
    Public,
}

impl View for Visibility {
    type V = VisV;

    open spec fn view(&self) -> VisV {
        match self {
            Visibility::Inherited => VisV::Inherited,
            Visibility::Restricted { in_token, leading_colon, segments } => VisV::Restricted {
                in_token: *in_token,
                leading_colon: *leading_colon,
                segments: segments.deep_view(),
            },
            Visibility::Public => VisV::Public,
        }
    }
}

/// The key that partitions imports into separately merged trees: the
/// visibility and whether the path starts with a leading separator.
#[derive(Debug)]
pub struct UseKey {
    pub vis: Visibility,
    pub leading_colon: bool,
}

/// Mathematical model of an import key.
pub struct KeyV {
    pub vis: VisV,
    pub leading_colon: bool,
}

impl View for UseKey {
    type V = KeyV;

    open spec fn view(&self) -> KeyV {
        KeyV { vis: self.vis@, leading_colon: self.leading_colon }
    }
}

/// Strict order on booleans: `false` before `true`.
pub open spec fn bool_lt(a: bool, b: bool) -> bool {
    !a && b
}

/// Strict lexicographic order on segment paths, ordering the elements by
/// `lex_lt`.
pub open spec fn path_lt(a: Seq<Seq<char>>, b: Seq<Seq<char>>) -> bool
    decreases a.len(),
{
    if b.len() == 0 {
        false
    } else if a.len() == 0 {
        true
    } else if a[0] != b[0] {
        lex_lt(a[0], b[0])
    } else {
        path_lt(a.drop_first(), b.drop_first())
    }
}

/// Exactly one of `path_lt(a, b)`, `path_lt(b, a)`, `a == b` holds.
pub proof fn lemma_path_lt_trichotomy(a: Seq<Seq<char>>, b: Seq<Seq<char>>)
    ensures
        path_lt(a, b) || path_lt(b, a) || a == b,
        path_lt(a, b) ==> !path_lt(b, a) && a != b,
    decreases a.len(),
{
    if a.len() == 0 || b.len() == 0 {
        if a.len() == 0 && b.len() == 0 {
            assert(a =~= b);
        }
    } else if a[0] != b[0] {
        lemma_lex_lt_trichotomy(a[0], b[0]);
    } else {
        lemma_path_lt_trichotomy(a.drop_first(), b.drop_first());
        if a.drop_first() == b.drop_first() {
            assert(a =~= b) by {
                assert(a == seq![a[0]] + a.drop_first());
                assert(b == seq![b[0]] + b.drop_first());
            }
        }
    }
}

/// `path_lt` is transitive.
pub proof fn lemma_path_lt_transitive(a: Seq<Seq<char>>, b: Seq<Seq<char>>, c: Seq<Seq<char>>)
    requires
        path_lt(a, b),
        path_lt(b, c),
    ensures
        path_lt(a, c),
    decreases a.len(),
{
    if a.len() == 0 || b.len() == 0 || c.len() == 0 {
    } else {
        if a[0] == b[0] && b[0] == c[0] {
            lemma_path_lt_transitive(a.drop_first(), b.drop_first(), c.drop_first());
        } else if a[0] == b[0] {
            // a and b share a head; b's order against c decides
        } else if b[0] == c[0] {
        } else {
            lemma_lex_lt_transitive(a[0], b[0], c[0]);
            lemma_lex_lt_trichotomy(a[0], c[0]);
            if a[0] == c[0] {
                lemma_lex_lt_trichotomy(a[0], b[0]);
            }
        }
    }
}

/// Rank of a visibility in the key ordering: private first, then restricted,
/// then public.
pub open spec fn vis_rank(v: VisV) -> int {
    match v {
        VisV::Inherited => 0,
        VisV::Restricted { .. } => 1,
        VisV::Public => 2,
    }
}

/// Strict order on visibilities: by rank, and between two restricted
/// visibilities by in-token, leading separator, then path text.
pub open spec fn vis_lt(a: VisV, b: VisV) -> bool {
    ||| vis_rank(a) < vis_rank(b)
    ||| {
        &&& a matches VisV::Restricted { in_token: ai, leading_colon: al, segments: asg }
        &&& b matches VisV::Restricted { in_token: bi, leading_colon: bl, segments: bsg }
        &&& {
            ||| bool_lt(ai, bi)
            ||| (ai == bi && bool_lt(al, bl))
            ||| (ai == bi && al == bl && path_lt(asg, bsg))
        }
    }
}

/// Exactly one of `vis_lt(a, b)`, `vis_lt(b, a)`, `a == b` holds.
pub proof fn lemma_vis_lt_trichotomy(a: VisV, b: VisV)
    ensures
        vis_lt(a, b) || vis_lt(b, a) || a == b,
        vis_lt(a, b) ==> !vis_lt(b, a) && a != b,
{
    match (a, b) {
        (
            VisV::Restricted { segments: asg, .. },
            VisV::Restricted { segments: bsg, .. },
        ) => lemma_path_lt_trichotomy(asg, bsg),
        _ => (),
    }
}

/// `vis_lt` is transitive.
pub proof fn lemma_vis_lt_transitive(a: VisV, b: VisV, c: VisV)
    requires
        vis_lt(a, b),
        vis_lt(b, c),
    ensures
        vis_lt(a, c),
{
    match (a, b, c) {
        (
            VisV::Restricted { segments: asg, .. },
            VisV::Restricted { segments: bsg, .. },
            VisV::Restricted { segments: csg, .. },
        ) => {
            lemma_path_lt_trichotomy(asg, bsg);
            lemma_path_lt_trichotomy(bsg, csg);
            lemma_path_lt_trichotomy(asg, csg);
            if path_lt(asg, bsg) && path_lt(bsg, csg) {
                lemma_path_lt_transitive(asg, bsg, csg);
            }
        },
        _ => (),
    }
}

/// Strict total order on import keys: visibility first, then the leading
/// separator, absent before present.
pub open spec fn key_lt(a: KeyV, b: KeyV) -> bool {
    ||| vis_lt(a.vis, b.vis)
    ||| (a.vis == b.vis && bool_lt(a.leading_colon, b.leading_colon))
}

/// Reflexive order on import keys.
pub open spec fn key_le(a: KeyV, b: KeyV) -> bool {
    key_lt(a, b) || a == b
}

/// Import keys are totally ordered, and two keys compare as equal only when
/// visibility and leading separator are both identical: exactly one of
/// `key_lt(a, b)`, `key_lt(b, a)`, `a == b` holds.
pub proof fn lemma_key_lt_trichotomy(a: KeyV, b: KeyV)
    ensures
        key_lt(a, b) || key_lt(b, a) || a == b,
        key_lt(a, b) ==> !key_lt(b, a) && a != b,
{
    lemma_vis_lt_trichotomy(a.vis, b.vis);
}

/// `key_le` is transitive.
pub proof fn lemma_key_le_transitive(a: KeyV, b: KeyV, c: KeyV)
    requires
        key_le(a, b),
        key_le(b, c),
    ensures
        key_le(a, c),
{
    if key_lt(a, b) && key_lt(b, c) {
        if vis_lt(a.vis, b.vis) && vis_lt(b.vis, c.vis) {
            lemma_vis_lt_transitive(a.vis, b.vis, c.vis);
        }
    }
}

/// Decide equality of two segment paths.
pub fn path_eq_exec(a: &Vec<String>, b: &Vec<String>) -> (r: bool)
    ensures
        r == (a.deep_view() == b.deep_view()),
{
    if a.len() != b.len() {
        proof {
            assert(a.deep_view().len() == a@.len());
            assert(b.deep_view().len() == b@.len());
        }
        return false;
    }
    let mut i: usize = 0;
    while i < a.len()
        invariant
            i <= a@.len(),
            a@.len() == b@.len(),
            forall|k: int| 0 <= k < i ==> a.deep_view()[k] == b.deep_view()[k],
        decreases a@.len() - i,
    {
        proof {
            assert(a.deep_view()[i as int] == a@[i as int]@);
            assert(b.deep_view()[i as int] == b@[i as int]@);
        }
        if !string_eq(&a[i], &b[i]) {
            proof {
                assert(a.deep_view()[i as int] != b.deep_view()[i as int]);
            }
            return false;
        }
        i = i + 1;
    }
    proof {
        assert(a.deep_view() =~= b.deep_view());
    }
    true
}

/// Decide the strict lexicographic order of two segment paths.
#[verifier::loop_isolation(false)]
pub fn path_lt_exec(a: &Vec<String>, b: &Vec<String>) -> (r: bool)
    ensures
        r == path_lt(a.deep_view(), b.deep_view()),
{
    let ghost av = a.deep_view();
    let ghost bv = b.deep_view();
    let mut i: usize = 0;
    proof {
        assert(av.skip(0) =~= av);
        assert(bv.skip(0) =~= bv);
    }
    loop
        invariant
            i <= a@.len(),
            i <= b@.len(),
            av.len() == a@.len(),
            bv.len() == b@.len(),
            path_lt(av, bv) == path_lt(av.skip(i as int), bv.skip(i as int)),
        decreases a@.len() - i,
    {
        if i == b.len() {
            assert(bv.skip(i as int).len() == 0);
            return false;
        }
        if i == a.len() {
            assert(av.skip(i as int).len() == 0);
            return true;
        }
        proof {
            assert(av.skip(i as int)[0] == av[i as int]);
            assert(bv.skip(i as int)[0] == bv[i as int]);
            assert(av[i as int] == a@[i as int]@);
            assert(bv[i as int] == b@[i as int]@);
        }
        if !string_eq(&a[i], &b[i]) {
            return string_lt(&a[i], &b[i]);
        }
        proof {
            assert(av.skip(i as int).drop_first() =~= av.skip(i + 1));
            assert(bv.skip(i as int).drop_first() =~= bv.skip(i + 1));
        }
        i = i + 1;
    }
}

/// Decide equality of two visibilities.
pub fn vis_eq_exec(a: &Visibility, b: &Visibility) -> (r: bool)
    ensures
        r == (a@ == b@),
{
    match (a, b) {
        (Visibility::Inherited, Visibility::Inherited) => true,
        (Visibility::Public, Visibility::Public) => true,
        (
            Visibility::Restricted { in_token: ai, leading_colon: al, segments: asg },
            Visibility::Restricted { in_token: bi, leading_colon: bl, segments: bsg },
        ) => *ai == *bi && *al == *bl && path_eq_exec(asg, bsg),
        _ => false,
    }
}

/// Decide the strict order of two visibilities.
pub fn vis_lt_exec(a: &Visibility, b: &Visibility) -> (r: bool)
    ensures
        r == vis_lt(a@, b@),
{
    match (a, b) {
        (Visibility::Inherited, Visibility::Inherited) => false,
        (Visibility::Inherited, _) => true,
        (_, Visibility::Inherited) => false,
        (Visibility::Public, _) => false,
        (_, Visibility::Public) => true,
        (
            Visibility::Restricted { in_token: ai, leading_colon: al, segments: asg },
            Visibility::Restricted { in_token: bi, leading_colon: bl, segments: bsg },
        ) => {
            if *ai != *bi {
                !*ai
            } else if *al != *bl {
                !*al
            } else {
                path_lt_exec(asg, bsg)
            }
        },
    }
}

impl Visibility {
    /// A copy of this visibility whose model is the same.
    pub fn duplicate(&self) -> (r: Visibility)
        ensures
            r@ == self@,
    {
        match self {
            Visibility::Inherited => Visibility::Inherited,
            Visibility::Public => Visibility::Public,
            Visibility::Restricted { in_token, leading_colon, segments } => {
                let r = Visibility::Restricted {
                    in_token: *in_token,
                    leading_colon: *leading_colon,
                    segments: crate::walk::clone_path(segments),
                };
                proof {
                    assert(r@ == self@);
                }
                r
            },
        }
    }
}

impl UseKey {
    /// A copy of this key whose model is the same.
    pub fn duplicate(&self) -> (r: UseKey)
        ensures
            r@ == self@,
    {
        UseKey { vis: self.vis.duplicate(), leading_colon: self.leading_colon }
    }
}

/// Decide equality of two import keys.
pub fn key_eq_exec(a: &UseKey, b: &UseKey) -> (r: bool)
    ensures
        r == (a@ == b@),
{
    vis_eq_exec(&a.vis, &b.vis) && a.leading_colon == b.leading_colon
}

/// Decide the reflexive order of two import keys.
pub fn key_le_exec(a: &UseKey, b: &UseKey) -> (r: bool)
    ensures
        r == key_le(a@, b@),
{
    if vis_lt_exec(&a.vis, &b.vis) {
        true
    } else if vis_eq_exec(&a.vis, &b.vis) {
        if a.leading_colon == b.leading_colon {
            true
        } else {
            !a.leading_colon
        }
    } else {
        proof {
            lemma_vis_lt_trichotomy(a@.vis, b@.vis);
        }
        false
    }
}

} // verus!
