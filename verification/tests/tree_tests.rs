use commit_viz::data::Branch;
use commit_viz::names::{position_of, same_name, sorts_before};
use commit_viz::tree::{build_branch_tree, find_branch, link_at, Link, Visit};

fn branch(name: &str, is_default: bool, parent: Option<&str>) -> Branch {
    Branch { name: name.to_string(), is_default, parent_branch: parent.map(|p| p.to_string()) }
}

fn order_names(branches: &Vec<Branch>, default: &str) -> Vec<(String, usize)> {
    let tree = build_branch_tree(branches, &default.to_string());
    tree.order.iter().map(|v| (branches[v.branch].name.clone(), v.depth)).collect()
}

fn named(pairs: &[(&str, usize)]) -> Vec<(String, usize)> {
    pairs.iter().map(|(n, d)| (n.to_string(), *d)).collect()
}

#[test]
fn names_are_ordered_by_their_bytes() {
    let s = |t: &str| t.to_string();
    assert!(sorts_before(&s("a"), &s("b")));
    assert!(!sorts_before(&s("b"), &s("a")));
    assert!(!sorts_before(&s("a"), &s("a")));
    assert!(sorts_before(&s(""), &s("a")));
    assert!(!sorts_before(&s(""), &s("")));
    assert!(sorts_before(&s("feature/a"), &s("feature/a/sub")));
    assert!(sorts_before(&s("Zeta"), &s("alpha")));
    assert!(sorts_before(&s("z"), &s("\u{e9}")));
    assert!(same_name(&s("x"), &s("x")));
    assert!(!same_name(&s("x"), &s("y")));
}

#[test]
fn position_of_finds_the_first_place() {
    let names = vec!["a".to_string(), "b".to_string(), "a".to_string()];
    assert_eq!(position_of(&names, &"a".to_string()), Some(0));
    assert_eq!(position_of(&names, &"b".to_string()), Some(1));
    assert_eq!(position_of(&names, &"c".to_string()), None);
}

#[test]
fn traversal_is_depth_first_and_alphabetical() {
    let branches = vec![
        branch("main", true, None),
        branch("zeta", false, Some("feature/b")),
        branch("feature/b", false, Some("main")),
        branch("feature/a/sub", false, Some("feature/a")),
        branch("orphan", false, Some("ghost")),
        branch("feature/a", false, None),
    ];
    assert_eq!(
        order_names(&branches, "main"),
        named(&[
            ("feature/a", 0),
            ("feature/a/sub", 1),
            ("feature/b", 0),
            ("zeta", 1),
            ("orphan", 0)
        ])
    );
}

#[test]
fn children_are_listed_alphabetically_whatever_the_order_of_declaration() {
    let one = vec![
        branch("main", true, None),
        branch("c", false, None),
        branch("a", false, None),
        branch("b", false, None),
    ];
    let two = vec![
        branch("b", false, None),
        branch("a", false, None),
        branch("main", true, None),
        branch("c", false, None),
    ];
    let expected = named(&[("a", 0), ("b", 0), ("c", 0)]);
    assert_eq!(order_names(&one, "main"), expected);
    assert_eq!(order_names(&two, "main"), expected);
}

#[test]
fn a_deep_chain_is_listed_parent_first() {
    let branches = vec![
        branch("d", false, Some("c")),
        branch("c", false, Some("b")),
        branch("b", false, Some("a")),
        branch("a", false, None),
        branch("main", true, None),
    ];
    assert_eq!(order_names(&branches, "main"), named(&[("a", 0), ("b", 1), ("c", 2), ("d", 3)]));
}

#[test]
fn a_second_declaration_of_a_name_is_passed_over() {
    let branches = vec![
        branch("main", true, None),
        branch("twice", false, None),
        branch("twice", false, Some("other")),
        branch("other", false, None),
    ];
    let default = "main".to_string();
    assert_eq!(link_at(&branches, &default, 0), Link::Skip);
    assert_eq!(link_at(&branches, &default, 1), Link::Root);
    assert_eq!(link_at(&branches, &default, 2), Link::Skip);
    assert_eq!(link_at(&branches, &default, 3), Link::Root);
    assert_eq!(order_names(&branches, "main"), named(&[("other", 0), ("twice", 0)]));
}

#[test]
fn branches_whose_parents_form_a_ring_are_not_listed() {
    let branches = vec![
        branch("main", true, None),
        branch("a", false, Some("b")),
        branch("b", false, Some("a")),
        branch("self", false, Some("self")),
        branch("under-a", false, Some("a")),
        branch("fine", false, None),
    ];
    assert_eq!(order_names(&branches, "main"), named(&[("fine", 0)]));
}

#[test]
fn links_name_the_first_declaration_of_the_parent() {
    let branches = vec![
        branch("child", false, Some("parent")),
        branch("parent", false, Some("main")),
        branch("lost", false, Some("nowhere")),
        branch("main", true, None),
    ];
    let default = "main".to_string();
    assert_eq!(link_at(&branches, &default, 0), Link::Under(1));
    assert_eq!(link_at(&branches, &default, 1), Link::Root);
    assert_eq!(link_at(&branches, &default, 2), Link::Root);
    assert_eq!(link_at(&branches, &default, 3), Link::Skip);
    assert_eq!(find_branch(&branches, &"parent".to_string()), Some(1));
    assert_eq!(find_branch(&branches, &"nowhere".to_string()), None);
    let tree = build_branch_tree(&branches, &default);
    assert_eq!(tree.links, vec![Link::Under(1), Link::Root, Link::Root, Link::Skip]);
    assert_eq!(
        tree.order,
        vec![
            Visit { branch: 2, depth: 0 },
            Visit { branch: 1, depth: 0 },
            Visit { branch: 0, depth: 1 }
        ]
    );
}

#[test]
fn no_branches_no_traversal() {
    let tree = build_branch_tree(&Vec::new(), &"main".to_string());
    assert!(tree.order.is_empty());
    assert!(tree.links.is_empty());
}

#[test]
fn every_listed_branch_follows_its_parent() {
    let mut branches = vec![branch("main", true, None)];
    for i in 0..40usize {
        let parent = if i % 3 == 0 { None } else { Some(format!("b{}", (i * 7) % 40)) };
        branches.push(Branch { name: format!("b{}", i), is_default: false, parent_branch: parent });
    }
    let default = "main".to_string();
    let tree = build_branch_tree(&branches, &default);
    for (k, v) in tree.order.iter().enumerate() {
        match tree.links[v.branch] {
            Link::Root => assert_eq!(v.depth, 0),
            Link::Under(p) => {
                let j = tree.order.iter().position(|w| w.branch == p).unwrap();
                assert!(j < k);
                assert_eq!(v.depth, tree.order[j].depth + 1);
            }
            Link::Skip => panic!("a skipped declaration is listed"),
        }
    }
}

fn forest(size: usize, stride: usize) -> Vec<Branch> {
    let mut branches = vec![branch("main", true, None)];
    for i in 0..size {
        let parent = if i % 3 == 0 { None } else { Some(format!("b{}", (i * stride) % size)) };
        branches.push(Branch { name: format!("b{}", i), is_default: false, parent_branch: parent });
    }
    branches
}

fn leads_to_the_default_branch(links: &[Link], start: usize) -> bool {
    let mut at = start;
    for _ in 0..=links.len() {
        match links[at] {
            Link::Root => return true,
            Link::Under(p) => at = p,
            Link::Skip => return false,
        }
    }
    false
}

#[test]
fn no_branch_is_listed_twice() {
    for &(size, stride) in &[(40usize, 7usize), (25, 3), (12, 5), (60, 11)] {
        let branches = forest(size, stride);
        let tree = build_branch_tree(&branches, &"main".to_string());
        let mut seen = vec![false; branches.len()];
        for v in &tree.order {
            assert!(!seen[v.branch]);
            seen[v.branch] = true;
        }
    }
}

#[test]
fn a_branch_is_listed_exactly_if_its_parents_lead_to_the_default_branch() {
    for &(size, stride) in &[(40usize, 7usize), (25, 3), (12, 5), (60, 11)] {
        let branches = forest(size, stride);
        let tree = build_branch_tree(&branches, &"main".to_string());
        for i in 0..branches.len() {
            let listed = tree.order.iter().any(|v| v.branch == i);
            assert_eq!(listed, leads_to_the_default_branch(&tree.links, i));
        }
    }
}

#[test]
fn siblings_are_listed_in_the_order_of_their_names() {
    for &(size, stride) in &[(40usize, 7usize), (25, 3), (12, 5), (60, 11)] {
        let branches = forest(size, stride);
        let tree = build_branch_tree(&branches, &"main".to_string());
        for a in 0..tree.order.len() {
            for b in a + 1..tree.order.len() {
                let (x, y) = (tree.order[a].branch, tree.order[b].branch);
                if tree.links[x] == tree.links[y] {
                    assert!(sorts_before(&branches[x].name, &branches[y].name));
                }
            }
        }
    }
}
