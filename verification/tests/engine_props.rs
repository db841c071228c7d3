use user_spray::{
    category_of, format_uses, name_eq, render_statement, render_use_tree, str_eq, str_lt,
    Category, Name, Tree, UseItem, UseKey, UseTree, Visibility,
};

fn ident(s: &str) -> String {
    String::from(s)
}

fn segs(parts: &[&str]) -> Vec<String> {
    parts.iter().map(|p| String::from(*p)).collect()
}

fn plain(s: &str) -> Name {
    Name::Ident { ident: ident(s) }
}

fn insert_pairs(pairs: Vec<(Vec<String>, Name)>) -> Tree {
    let mut t = Tree::new();
    for (p, leaf) in &pairs {
        t = t.insert(p, leaf);
    }
    t
}

fn render_tree(t: &Tree) -> String {
    render_use_tree(&t.serialize())
}

#[test]
fn scenario_shared_prefixes() {
    let t = insert_pairs(vec![
        (segs(&["std"]), plain("a")),
        (segs(&["std", "b"]), plain("c")),
        (segs(&["std", "b"]), plain("d")),
        (segs(&["std", "b"]), plain("e")),
    ]);
    assert_eq!(render_tree(&t), "std::{a, b::{c, d, e}}");
}

#[test]
fn scenario_self_merge() {
    let t = insert_pairs(vec![
        (segs(&["std", "a"]), plain("c")),
        (segs(&["std"]), plain("a")),
    ]);
    assert_eq!(render_tree(&t), "std::a::{self, c}");
}

#[test]
fn scenario_self_merge_other_order() {
    let t = insert_pairs(vec![
        (segs(&["std"]), plain("a")),
        (segs(&["std", "a"]), plain("c")),
    ]);
    assert_eq!(render_tree(&t), "std::a::{self, c}");
}

#[test]
fn scenario_distinct_keys_never_merge() {
    let items = vec![
        UseItem {
            vis: Visibility::Inherited,
            leading_colon: false,
            tree: UseTree::Path {
                ident: ident("a"),
                tree: Box::new(UseTree::Name { ident: ident("b") }),
            },
        },
        UseItem {
            vis: Visibility::Public,
            leading_colon: false,
            tree: UseTree::Path {
                ident: ident("a"),
                tree: Box::new(UseTree::Name { ident: ident("b") }),
            },
        },
    ];
    let out = format_uses(&items);
    assert_eq!(out, "\nuse a::b;\npub use a::b;\n\n\n");
}

#[test]
fn permutations_render_identically() {
    let pairs = vec![
        (segs(&["std"]), plain("a")),
        (segs(&["std", "b"]), plain("c")),
        (segs(&["std", "b"]), plain("d")),
        (segs(&["std"]), plain("b")),
    ];
    let mut reversed = pairs.clone();
    reversed.reverse();
    let t1 = insert_pairs(pairs);
    let t2 = insert_pairs(reversed);
    assert_eq!(render_tree(&t1), render_tree(&t2));
    assert_eq!(render_tree(&t1), "std::{a, b::{self, c, d}}");
}

#[test]
fn duplicate_leaves_are_dropped() {
    let t = insert_pairs(vec![
        (segs(&["a"]), plain("b")),
        (segs(&["a"]), plain("b")),
    ]);
    assert_eq!(render_tree(&t), "a::b");
}

#[test]
fn singleton_group_collapses() {
    let t = insert_pairs(vec![(segs(&["a", "b"]), plain("c"))]);
    assert_eq!(render_tree(&t), "a::b::c");
}

#[test]
fn lone_self_group_keeps_braces() {
    let t = insert_pairs(vec![(segs(&["a"]), plain("self"))]);
    assert_eq!(render_tree(&t), "a::{self}");
}

#[test]
fn wildcard_sorts_last() {
    let t = insert_pairs(vec![
        (segs(&["x"]), Name::Glob),
        (segs(&["x"]), plain("a")),
        (segs(&["x"]), Name::Rename { ident: ident("b"), rename: ident("z") }),
    ]);
    assert_eq!(render_tree(&t), "x::{a, b as z, *}");
}

#[test]
fn rename_renders_with_as() {
    let t = insert_pairs(vec![
        (segs(&["x"]), Name::Rename { ident: ident("y"), rename: ident("z") }),
    ]);
    assert_eq!(render_tree(&t), "x::y as z");
}

#[test]
fn categories_of_roots() {
    assert_eq!(category_of("std"), Category::Std);
    assert_eq!(category_of("core"), Category::Std);
    assert_eq!(category_of("alloc"), Category::Std);
    assert_eq!(category_of("self"), Category::Crate);
    assert_eq!(category_of("super"), Category::Crate);
    assert_eq!(category_of("crate"), Category::Crate);
    assert_eq!(category_of("serde"), Category::External);
}

#[test]
fn category_blocks_in_fixed_order() {
    let items = vec![
        UseItem {
            vis: Visibility::Inherited,
            leading_colon: false,
            tree: UseTree::Path {
                ident: ident("serde"),
                tree: Box::new(UseTree::Name { ident: ident("Deserialize") }),
            },
        },
        UseItem {
            vis: Visibility::Inherited,
            leading_colon: false,
            tree: UseTree::Path {
                ident: ident("crate"),
                tree: Box::new(UseTree::Name { ident: ident("util") }),
            },
        },
        UseItem {
            vis: Visibility::Inherited,
            leading_colon: false,
            tree: UseTree::Path {
                ident: ident("std"),
                tree: Box::new(UseTree::Name { ident: ident("fmt") }),
            },
        },
    ];
    let out = format_uses(&items);
    assert_eq!(out, "use std::fmt;\n\nuse serde::Deserialize;\n\nuse crate::util;\n\n");
}

#[test]
fn top_level_group_splits_by_category() {
    let items = vec![UseItem {
        vis: Visibility::Inherited,
        leading_colon: false,
        tree: UseTree::Group {
            items: vec![
                UseTree::Path {
                    ident: ident("std"),
                    tree: Box::new(UseTree::Name { ident: ident("a") }),
                },
                UseTree::Path {
                    ident: ident("foo"),
                    tree: Box::new(UseTree::Name { ident: ident("b") }),
                },
            ],
        },
    }];
    let out = format_uses(&items);
    assert_eq!(out, "use std::a;\n\nuse foo::b;\n\n\n");
}

#[test]
fn empty_input_renders_blank_blocks() {
    let out = format_uses(&Vec::new());
    assert_eq!(out, "\n\n\n");
}

#[test]
fn restricted_visibility_renders() {
    let items = vec![UseItem {
        vis: Visibility::Restricted {
            in_token: true,
            leading_colon: false,
            segments: segs(&["a", "b"]),
        },
        leading_colon: false,
        tree: UseTree::Path {
            ident: ident("x"),
            tree: Box::new(UseTree::Name { ident: ident("y") }),
        },
    }];
    let out = format_uses(&items);
    assert_eq!(out, "\npub(in a::b) use x::y;\n\n\n");
}

#[test]
fn leading_colon_separates_keys() {
    let items = vec![
        UseItem {
            vis: Visibility::Inherited,
            leading_colon: true,
            tree: UseTree::Path {
                ident: ident("x"),
                tree: Box::new(UseTree::Name { ident: ident("y") }),
            },
        },
        UseItem {
            vis: Visibility::Inherited,
            leading_colon: false,
            tree: UseTree::Path {
                ident: ident("x"),
                tree: Box::new(UseTree::Name { ident: ident("z") }),
            },
        },
    ];
    let out = format_uses(&items);
    assert_eq!(out, "\nuse x::z;\nuse ::x::y;\n\n\n");
}

#[test]
fn render_statement_includes_key() {
    let key = UseKey { vis: Visibility::Public, leading_colon: true };
    let u = UseTree::Name { ident: ident("a") };
    assert_eq!(render_statement(&key, &u), "pub use ::a;");
}

#[test]
fn string_order_helpers() {
    assert!(str_eq("abc", "abc"));
    assert!(!str_eq("abc", "abd"));
    assert!(str_lt("abc", "abd"));
    assert!(str_lt("ab", "abc"));
    assert!(!str_lt("abc", "abc"));
    assert!(str_lt("B", "a"));
    assert!(name_eq(&plain("x"), &plain("x")));
    assert!(!name_eq(&plain("x"), &Name::Glob));
}

#[test]
fn bare_import_gives_one_empty_path_pair() {
    let pairs = user_spray::walk_use_tree(&UseTree::Name { ident: ident("foo") });
    assert_eq!(pairs.len(), 1);
    assert!(pairs[0].0.is_empty());
    assert!(name_eq(&pairs[0].1, &plain("foo")));
}
