use user_spray::{format_uses, UseItem, UseTree, Visibility};

fn conv_tree(t: &syn::UseTree) -> UseTree {
    match t {
        syn::UseTree::Path(p) => UseTree::Path {
            ident: p.ident.to_string(),
            tree: Box::new(conv_tree(&p.tree)),
        },
        syn::UseTree::Name(n) => UseTree::Name { ident: n.ident.to_string() },
        syn::UseTree::Rename(r) => UseTree::Rename {
            ident: r.ident.to_string(),
            rename: r.rename.to_string(),
        },
        syn::UseTree::Glob(_) => UseTree::Glob,
        syn::UseTree::Group(g) => UseTree::Group {
            items: g.items.iter().map(conv_tree).collect(),
        },
    }
}

fn conv_vis(v: &syn::Visibility) -> Visibility {
    match v {
        syn::Visibility::Public(_) => Visibility::Public,
        syn::Visibility::Inherited => Visibility::Inherited,
        syn::Visibility::Restricted(r) => Visibility::Restricted {
            in_token: r.in_token.is_some(),
            leading_colon: r.path.leading_colon.is_some(),
            segments: r.path.segments.iter().map(|s| s.ident.to_string()).collect(),
        },
    }
}

fn conv_items(src: &str) -> Vec<UseItem> {
    let file = syn::parse_file(src).unwrap();
    file.items
        .iter()
        .filter_map(|item| match item {
            syn::Item::Use(u) => {
                assert!(u.attrs.is_empty());
                Some(UseItem {
                    vis: conv_vis(&u.vis),
                    leading_colon: u.leading_colon.is_some(),
                    tree: conv_tree(&u.tree),
                })
            },
            _ => None,
        })
        .collect()
}

#[test]
fn format_is_a_fixed_point() {
    let src = "use std::io::Read;\nuse b::{self, c};\npub use x::*;\nuse std::io;\nuse crate::z;\nuse a;\nuse a::b2;\nuse core::fmt::{self, Debug};\n";
    let items = conv_items(src);
    let once = format_uses(&items);
    let twice = format_uses(&conv_items(&once));
    assert_eq!(once, twice);
}

#[test]
fn merges_across_declarations() {
    let src = "use std::io::Read;\nuse std::io::Write;\nuse std::fmt;\n";
    let out = format_uses(&conv_items(src));
    assert_eq!(out, "use std::{fmt, io::{Read, Write}};\n\n\n\n");
}
