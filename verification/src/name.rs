//! Leaf names: the terminal targets of an import declaration.

use vstd::prelude::*;

verus! {

/// A leaf import target: a plain identifier, a wildcard, or a renamed
/// identifier (`ident as rename`).
#[derive(Debug, Clone)]
pub enum Name {
    Ident { ident: String },
    Glob,
    Rename { ident: String, rename: String },
}

/// Mathematical model of a leaf name: its identifier text as character
/// sequences.
pub enum NameV {
    Ident { text: Seq<char> },
    Glob,
    Rename { text: Seq<char>, alias: Seq<char> },
}

impl View for Name {
    type V = NameV;

    open spec fn view(&self) -> NameV {
        match self {
            Name::Ident { ident } => NameV::Ident { text: ident@ },
            Name::Glob => NameV::Glob,
            Name::Rename { ident, rename } => NameV::Rename { text: ident@, alias: rename@ },
        }
    }
}

impl Name {
    /// The synthesized self-leaf: a plain-name leaf for the identifier `self`,
    /// standing for "the prefix itself" inside a group.
    pub fn self_leaf() -> (n: Name)
        ensures
            n@ == (NameV::Ident { text: "self"@ }),
    {
        Name::Ident { ident: String::from_str("self") }
    }

    /// A copy of this name whose model is the same.
    pub fn duplicate(&self) -> (n: Name)
        ensures
            n@ == self@,
    {
        match self {
            Name::Ident { ident } => Name::Ident { ident: ident.clone() },
            Name::Glob => Name::Glob,
            Name::Rename { ident, rename } => Name::Rename {
                ident: ident.clone(),
                rename: rename.clone(),
            },
        }
    }
}

/// Whether two leaf names have the same model.
pub fn name_eq(a: &Name, b: &Name) -> (r: bool)
    ensures
        r == (a@ == b@),
{
    match (a, b) {
        (Name::Ident { ident: x }, Name::Ident { ident: y }) => crate::lex::string_eq(x, y),
        (Name::Glob, Name::Glob) => true,
        (
            Name::Rename { ident: x, rename: xr },
            Name::Rename { ident: y, rename: yr },
        ) => crate::lex::string_eq(x, y) && crate::lex::string_eq(xr, yr),
        _ => false,
    }
}

} // verus!
