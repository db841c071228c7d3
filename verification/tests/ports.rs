use user_spray::{walk_use_tree, Name, Tree, UseTree};

fn ident(s: &str) -> String {
    String::from(s)
}

fn name(s: &str) -> UseTree {
    UseTree::Name { ident: ident(s) }
}

fn path(s: &str, sub: UseTree) -> UseTree {
    UseTree::Path { ident: ident(s), tree: Box::new(sub) }
}

fn group(items: Vec<UseTree>) -> UseTree {
    UseTree::Group { items }
}

fn fold_tree(trees: Vec<UseTree>) -> Tree {
    let mut t = Tree::new();
    for tree in trees {
        let pairs = walk_use_tree(&tree);
        for (p, leaf) in &pairs {
            t = t.insert(p, leaf);
        }
    }
    t
}

#[test]
fn kaki() {
    let tree = fold_tree(vec![path("std", path("a", name("c"))), name("std")]);
    let _ = tree.serialize();
}

#[test]
fn test_visit() {
    let tree = path(
        "std",
        group(vec![name("a"), path("b", name("c")), path("d", group(vec![name("e"), name("f")]))]),
    );
    let pairs = walk_use_tree(&tree);
    let mut result: Vec<Vec<String>> = Vec::new();
    for (p, leaf) in &pairs {
        let mut full = p.clone();
        match leaf {
            Name::Ident { ident } => full.push(ident.clone()),
            _ => unreachable!(),
        }
        result.push(full);
    }
    let expected = vec![
        vec![ident("std"), ident("a")],
        vec![ident("std"), ident("b"), ident("c")],
        vec![ident("std"), ident("d"), ident("e")],
        vec![ident("std"), ident("d"), ident("f")],
    ];
    assert_eq!(result, expected);
}
