use fastax::tree::Tree;
use fastax::{get_lca, is_lineage_pair, make_subtree, make_tree, Node};

fn node(id: i64, parent: i64, name: &str) -> Node {
    Node {
        tax_id: id,
        parent_tax_id: parent,
        rank: String::from("no rank"),
        division: String::from("Unassigned"),
        genetic_code: String::from("Standard"),
        mito_genetic_code: None,
        comments: None,
        names: vec![(String::from("scientific name"), vec![String::from(name)])],
        format_string: None,
    }
}

/// A root-first ancestry over the given ids, node `k` named `n<k>`.
fn lineage(ids: &[i64]) -> Vec<Node> {
    let mut out = Vec::new();
    for (i, id) in ids.iter().enumerate() {
        let parent = if i == 0 { *id } else { ids[i - 1] };
        out.push(node(*id, parent, &format!("n{}", id)));
    }
    out
}

fn named(tree: &mut Tree) {
    tree.set_format_string(String::from("%name"));
}

#[test]
fn lca_of_three_ancestries() {
    let a = lineage(&[1, 9, 99, 999]);
    let b = lineage(&[1, 9, 77]);
    let c = lineage(&[1, 5]);
    assert_eq!(get_lca(1, &a, &b).tax_id, 9);
    assert_eq!(get_lca(1, &a, &c).tax_id, 1);
    assert_eq!(get_lca(1, &b, &c).tax_id, 1);
    assert_eq!(get_lca(1, &b, &a).tax_id, 9);
}

#[test]
fn lca_of_ancestor_and_descendant() {
    let a = lineage(&[1, 9, 99]);
    let b = lineage(&[1, 9, 99, 999]);
    assert_eq!(get_lca(1, &a, &b).tax_id, 99);
    assert_eq!(get_lca(1, &a, &a).tax_id, 99);
}

#[test]
fn lca_with_the_root_is_the_root() {
    let root = lineage(&[1]);
    let b = lineage(&[1, 9, 99, 999]);
    assert_eq!(get_lca(1, &root, &b).tax_id, 1);
    assert_eq!(get_lca(1, &b, &root).tax_id, 1);
    assert_eq!(get_lca(1, &root, &root).tax_id, 1);
}

#[test]
fn chain_collapses_to_marked_leaf() {
    let mut tree = Tree::new(1, &lineage(&[1, 2, 3, 4]));
    tree.mark_nodes(&[4]);
    tree.simplify();
    assert_eq!(tree.children_of(1), vec![4]);
    assert!(tree.children_of(4).is_empty());
    named(&mut tree);
    assert_eq!(tree.to_newick(), "(n1,(n4));");
}

#[test]
fn branch_point_is_kept() {
    let mut tree = Tree::new(1, &lineage(&[1, 2, 3]));
    tree.add_nodes(&lineage(&[1, 2, 4]));
    tree.mark_nodes(&[3, 4]);
    tree.simplify();
    assert_eq!(tree.children_of(1), vec![2]);
    assert_eq!(tree.children_of(2), vec![3, 4]);
    named(&mut tree);
    assert_eq!(tree.to_newick(), "(n1,(n2,(n3,n4)));");
}

#[test]
fn merging_twice_equals_merging_once() {
    let path = lineage(&[1, 2, 3]);
    let mut once = Tree::new(1, &path);
    let mut twice = Tree::new(1, &path);
    twice.add_nodes(&path);
    named(&mut once);
    named(&mut twice);
    assert_eq!(once.to_newick(), twice.to_newick());
    assert_eq!(once.to_diagram(), twice.to_diagram());
    assert_eq!(twice.children_of(2), vec![3]);
}

#[test]
fn merge_order_does_not_matter() {
    let left = lineage(&[1, 2, 30, 31]);
    let right = lineage(&[1, 2, 20]);
    let mut a = Tree::new(1, &left);
    a.add_nodes(&right);
    let mut b = Tree::new(1, &right);
    b.add_nodes(&left);
    named(&mut a);
    named(&mut b);
    assert_eq!(a.to_newick(), b.to_newick());
    assert_eq!(a.to_diagram(), b.to_diagram());
    assert_eq!(a.to_newick(), "(n1,(n2,(n20,n30,(n31))));");
}

#[test]
fn rendering_is_repeatable() {
    let mut tree = make_tree(1, &[], &[lineage(&[1, 7, 8]), lineage(&[1, 6])]);
    named(&mut tree);
    let first = tree.to_newick();
    assert_eq!(first, tree.to_newick());
    assert_eq!(tree.to_diagram(), tree.to_diagram());
    assert_eq!(first, "(n1,(n6,n7,(n8)));");
}

#[test]
fn marked_nodes_survive_simplify() {
    let mut tree = Tree::new(1, &lineage(&[1, 2, 3, 4, 5]));
    tree.add_nodes(&lineage(&[1, 2, 3, 6]));
    tree.mark_nodes(&[4, 5, 6]);
    tree.simplify();
    assert_eq!(tree.children_of(1), vec![3]);
    assert_eq!(tree.children_of(3), vec![4, 6]);
    assert_eq!(tree.children_of(4), vec![5]);
    assert!(tree.is_marked(4) && tree.is_marked(5) && tree.is_marked(6));
}

#[test]
fn unmarked_inner_nodes_branch_after_simplify() {
    let mut tree = Tree::new(1, &lineage(&[1, 2, 3, 4, 10]));
    tree.add_nodes(&lineage(&[1, 2, 3, 4, 11]));
    tree.add_nodes(&lineage(&[1, 2, 12]));
    tree.mark_nodes(&[10, 11, 12]);
    tree.simplify();
    assert_eq!(tree.children_of(1), vec![2]);
    assert_eq!(tree.children_of(2), vec![4, 12]);
    assert_eq!(tree.children_of(4), vec![10, 11]);
}

#[test]
fn lone_root_simplifies_to_itself() {
    let mut tree = Tree::new(1, &lineage(&[1]));
    tree.simplify();
    assert!(tree.children_of(1).is_empty());
    named(&mut tree);
    assert_eq!(tree.to_newick(), "(n1);");
    assert_eq!(tree.to_diagram(), " \u{2500}\u{2500} n1\n");
}

#[test]
fn diagram_connectors() {
    let mut tree = Tree::new(1, &lineage(&[1, 2, 3]));
    tree.add_nodes(&lineage(&[1, 2, 4]));
    tree.add_nodes(&lineage(&[1, 5]));
    named(&mut tree);
    let expected = [
        " \u{2500}\u{252C}\u{2500} n1\n",
        "  \u{251C}\u{2500}\u{252C}\u{2500} n2\n",
        "  \u{2502} \u{251C}\u{2500}\u{2500} n3\n",
        "  \u{2502} \u{2514}\u{2500}\u{2500} n4\n",
        "  \u{2514}\u{2500}\u{2500} n5\n",
    ].concat();
    assert_eq!(tree.to_diagram(), expected);
}

#[test]
fn marked_nodes_are_bold_in_diagram() {
    let mut tree = Tree::new(1, &lineage(&[1, 2]));
    tree.mark_nodes(&[2]);
    named(&mut tree);
    assert_eq!(
        tree.to_diagram(),
        " \u{2500}\u{252C}\u{2500} n1\n  \u{2514}\u{2500}\u{2500} \u{1b}[1mn2\u{1b}[0m\n"
    );
    assert_eq!(tree.to_newick(), "(n1,(n2));");
}

#[test]
fn empty_genbank_list_still_renders_in_a_tree() {
    let mut nodes = lineage(&[1, 2]);
    nodes[1].names.push((String::from("genbank common name"), vec![]));
    let tree = Tree::new(1, &nodes);
    assert_eq!(tree.to_newick(), "(no rank: n1,(no rank: n2));");
    assert_eq!(tree.to_diagram(), " \u{2500}\u{252C}\u{2500} no rank: n1\n  \u{2514}\u{2500}\u{2500} no rank: n2\n");
}

#[test]
fn default_template_is_rank_and_name() {
    let tree = Tree::new(1, &lineage(&[1, 2]));
    assert_eq!(tree.to_newick(), "(no rank: n1,(no rank: n2));");
}

#[test]
fn node_template_is_used_unless_tree_sets_one() {
    let mut nodes = lineage(&[1, 2]);
    nodes[1].format_string = Some(String::from("%taxid/%rank"));
    let mut tree = Tree::new(1, &nodes);
    assert_eq!(tree.to_newick(), "(no rank: n1,(2/no rank));");
    tree.set_format_string(String::from("<%name %taxid>"));
    assert_eq!(tree.to_newick(), "(<n1 1>,(<n2 2>));");
}

#[test]
fn first_copy_of_an_id_wins() {
    let mut tree = Tree::new(1, &lineage(&[1, 2]));
    tree.add_nodes(&[node(2, 1, "other")]);
    named(&mut tree);
    assert_eq!(tree.to_newick(), "(n1,(n2));");
    assert_eq!(tree.node(2).unwrap().sci_name(), "n2");
    assert!(tree.node(3).is_none());
}

#[test]
fn subtree_rooted_at_given_node() {
    let root = node(10, 1, "n10");
    let nodes = vec![node(10, 1, "n10"), node(11, 10, "n11"), node(12, 10, "n12"), node(13, 12, "n13")];
    let mut tree = make_subtree(&root, &nodes);
    assert_eq!(tree.root(), 10);
    named(&mut tree);
    assert_eq!(tree.to_newick(), "(n10,(n11,n12,(n13)));");
    tree.simplify();
    assert_eq!(tree.to_newick(), "(n10,(n11,n13));");
}

#[test]
fn make_tree_marks_the_given_nodes() {
    let targets = vec![node(3, 2, "n3"), node(4, 2, "n4")];
    let mut tree = make_tree(1, &targets, &[lineage(&[1, 2, 3]), lineage(&[1, 2, 4])]);
    assert!(tree.is_marked(3) && tree.is_marked(4) && !tree.is_marked(2));
    tree.simplify();
    named(&mut tree);
    assert_eq!(tree.to_newick(), "(n1,(n2,(n3,n4)));");
}

#[test]
fn lineage_pairs_are_checked() {
    let a = lineage(&[1, 9, 99, 999]);
    let b = lineage(&[1, 9, 77]);
    assert!(is_lineage_pair(1, &a, &b));
    assert!(!is_lineage_pair(2, &a, &b));
    assert!(!is_lineage_pair(1, &a, &[]));
    let shifted = lineage(&[1, 5, 9]);
    assert!(!is_lineage_pair(1, &a, &shifted));
    let mut broken = lineage(&[1, 2, 3]);
    broken[2].parent_tax_id = 1;
    assert!(!is_lineage_pair(1, &a, &broken));
    let repeated = lineage(&[1, 2, 2]);
    assert!(!is_lineage_pair(1, &repeated, &b));
}

#[test]
fn cycles_are_detected() {
    let mut tree = Tree::new(1, &lineage(&[1, 2, 3, 4]));
    tree.add_nodes(&lineage(&[1, 2, 5]));
    assert!(tree.check_acyclic());
    assert!(Tree::new(1, &lineage(&[1])).check_acyclic());
    let looped = Tree::new(1, &[node(1, 1, "n1"), node(2, 3, "n2"), node(3, 2, "n3")]);
    assert!(!looped.check_acyclic());
    let self_loop_free = Tree::new(7, &[node(7, 7, "n7")]);
    assert!(self_loop_free.check_acyclic());
    let mut deep = Tree::new(1, &lineage(&[1, 2, 3, 4, 5, 6, 7, 8]));
    deep.add_nodes(&lineage(&[1, 2, 9, 10]));
    assert!(deep.check_acyclic());
    deep.add_nodes(&[node(2, 10, "n2")]);
    assert!(!deep.check_acyclic());
}
