//! A taxonomic tree engine: merging root-to-node ancestries into one graph,
//! marking points of interest, contracting unbranched chains, rendering, and
//! resolving least common ancestors.
use vstd::prelude::*;

pub mod laws;
pub mod node;
pub mod terms;
pub mod text;
pub mod tree;

pub use node::{Node, NodeView};
pub use terms::clean_term;
pub use tree::Tree;

use tree::{
    empty_model, lemma_ascending_set, lemma_single_choose, merged, ranks, simplified, views,
    with_edges, with_marks, with_nodes, TreeModel,
};

verus! {

/// `l` is an ancestry rooted at `root`: it starts with the root, which is its
/// own parent, and each later node's parent is the node before it.
pub open spec fn is_lineage(root: i64, l: Seq<NodeView>) -> bool {
    &&& l.len() > 0
    &&& l[0].tax_id == root
    &&& l[0].parent_tax_id == root
    &&& forall|j: int| 0 < j < l.len() ==> #[trigger] l[j].parent_tax_id == l[j - 1].tax_id
}

/// An id that occurs in both `a` and `b` occurs at the same depth.
pub open spec fn same_depths(a: Seq<NodeView>, b: Seq<NodeView>) -> bool {
    forall|i: int, j: int|
        0 <= i < a.len() && 0 <= j < b.len() && #[trigger] a[i].tax_id == #[trigger] b[j].tax_id
            ==> i == j
}

/// Two ancestries of one consistent taxonomy rooted at `root`.
pub open spec fn lineage_pair(root: i64, a: Seq<NodeView>, b: Seq<NodeView>) -> bool {
    &&& is_lineage(root, a)
    &&& is_lineage(root, b)
    &&& same_depths(a, a)
    &&& same_depths(b, b)
    &&& same_depths(a, b)
}

/// The simplified tree of two ancestries: seeded with the longer, merged
/// with the shorter, both ends marked.
pub open spec fn lca_tree(root: i64, a: Seq<NodeView>, b: Seq<NodeView>) -> TreeModel {
    let (first, second) = if a.len() >= b.len() {
        (a, b)
    } else {
        (b, a)
    };
    simplified(
        with_marks(
            merged(merged(empty_model(root), first), second),
            set![a.last().tax_id, b.last().tax_id],
        ),
    )
}

/// In a simplified tree of two marked ends: the root's only child, or the
/// root itself when it does not have exactly one child.
pub open spec fn lca_id(m: TreeModel) -> i64 {
    if m.kids.contains_key(m.root) && m.kids[m.root].len() == 1 {
        m.kids[m.root].choose()
    } else {
        m.root
    }
}

/// The least common ancestor of the ends of `a` and `b`: the root when it is
/// one of the ends, otherwise as read off their simplified tree.
pub open spec fn lca(root: i64, a: Seq<NodeView>, b: Seq<NodeView>) -> NodeView {
    let m = lca_tree(root, a, b);
    if a.last().tax_id == root || b.last().tax_id == root {
        m.nodes[root]
    } else {
        m.nodes[lca_id(m)]
    }
}

/// All the ancestries `ls` merged in order.
pub open spec fn merged_all(m: TreeModel, ls: Seq<Seq<NodeView>>) -> TreeModel
    decreases ls.len(),
{
    if ls.len() == 0 {
        m
    } else {
        merged(merged_all(m, ls.drop_last()), ls.last())
    }
}

/// The views of a sequence of ancestries.
pub open spec fn lineage_views(ls: Seq<Vec<Node>>) -> Seq<Seq<NodeView>> {
    ls.map_values(|l: Vec<Node>| views(l@))
}

/// The ids of some nodes.
pub open spec fn ids_of(s: Seq<Node>) -> Set<i64> {
    s.map_values(|n: Node| n.tax_id).to_set()
}

/// Every edge after a merge was there before or comes from a merged node.
pub(crate) proof fn lemma_with_edges_source(k: Map<i64, Set<i64>>, s: Seq<NodeView>, p: i64, c: i64)
    requires
        with_edges(k, s).contains_key(p),
        with_edges(k, s)[p].contains(c),
    ensures
        (k.contains_key(p) && k[p].contains(c)) || exists|i: int|
            0 <= i < s.len() && #[trigger] s[i].parent_tax_id == p && s[i].tax_id == c
                && c != p,
    decreases s.len(),
{
    if s.len() > 0 {
        let k1 = with_edges(k, s.drop_last());
        let n = s.last();
        if k1.contains_key(p) && k1[p].contains(c) {
            lemma_with_edges_source(k, s.drop_last(), p, c);
            if !(k.contains_key(p) && k[p].contains(c)) {
                let i = choose|i: int|
                    0 <= i < s.drop_last().len() && #[trigger] s.drop_last()[i].parent_tax_id
                        == p && s.drop_last()[i].tax_id == c && c != p;
                assert(s[i] == s.drop_last()[i]);
            }
        } else {
            assert(s[s.len() - 1] == n);
        }
    }
}

/// The depth-based ranking of the ids of two ancestries.
pub(crate) closed spec fn depth_rank(a: Seq<NodeView>, b: Seq<NodeView>) -> spec_fn(i64) -> nat {
    |x: i64|
        if exists|i: int| 0 <= i < a.len() && a[i].tax_id == x {
            (a.len() + b.len() - choose|i: int| 0 <= i < a.len() && a[i].tax_id == x) as nat
        } else if exists|j: int| 0 <= j < b.len() && b[j].tax_id == x {
            (a.len() + b.len() - choose|j: int| 0 <= j < b.len() && b[j].tax_id == x) as nat
        } else {
            0nat
        }
}

/// The id at depth `i` of either ancestry has rank `|a| + |b| - i`.
proof fn lemma_depth_rank(a: Seq<NodeView>, b: Seq<NodeView>, s: Seq<NodeView>, i: int)
    requires
        same_depths(a, a),
        same_depths(b, b),
        same_depths(a, b),
        s == a || s == b,
        0 <= i < s.len(),
    ensures
        depth_rank(a, b)(s[i].tax_id) == a.len() + b.len() - i,
{
    let x = s[i].tax_id;
    if exists|k: int| 0 <= k < a.len() && a[k].tax_id == x {
        let k = choose|k: int| 0 <= k < a.len() && a[k].tax_id == x;
        if s == a {
            assert(a[k].tax_id == a[i].tax_id);
        } else {
            assert(a[k].tax_id == b[i].tax_id);
        }
    } else {
        assert(s == b);
        let k = choose|k: int| 0 <= k < b.len() && b[k].tax_id == x;
        assert(b[k].tax_id == b[i].tax_id);
    }
}

/// The tree built from two consistent ancestries has no cycle.
pub(crate) proof fn lemma_lineages_acyclic(root: i64, a: Seq<NodeView>, b: Seq<NodeView>, s1: Seq<NodeView>, s2: Seq<NodeView>)
    requires
        lineage_pair(root, a, b),
        (s1 == a && s2 == b) || (s1 == b && s2 == a),
    ensures
        ranks(with_edges(with_edges(Map::empty(), s1), s2), depth_rank(a, b)),
{
    let h = depth_rank(a, b);
    let k = with_edges(with_edges(Map::empty(), s1), s2);
    assert forall|p: i64, c: i64| k.contains_key(p) && #[trigger] k[p].contains(c) implies h(c) < h(
        p,
    ) by {
        lemma_with_edges_source(with_edges(Map::empty(), s1), s2, p, c);
        let s = if exists|i: int|
            0 <= i < s2.len() && #[trigger] s2[i].parent_tax_id == p && s2[i].tax_id == c
                && c != p {
            s2
        } else {
            lemma_with_edges_source(Map::empty(), s1, p, c);
            s1
        };
        let i = choose|i: int|
            0 <= i < s.len() && #[trigger] s[i].parent_tax_id == p && s[i].tax_id == c && c != p;
        assert(i > 0);
        assert(s[i].parent_tax_id == s[i - 1].tax_id);
        lemma_depth_rank(a, b, s, i);
        lemma_depth_rank(a, b, s, i - 1);
    };
}

/// Whether `l` is an ancestry rooted at `root`.
fn check_lineage(root: i64, l: &[Node]) -> (r: bool)
    ensures
        r == is_lineage(root, views(l@)),
{
    let ghost v = views(l@);
    if l.len() == 0 {
        return false;
    }
    assert(v[0] == l@[0]@);
    if l[0].tax_id != root || l[0].parent_tax_id != root {
        return false;
    }
    let mut j: usize = 1;
    while j < l.len()
        invariant
            v == views(l@),
            v.len() == l@.len(),
            1 <= j <= l@.len(),
            forall|k: int| 0 < k < j ==> #[trigger] v[k].parent_tax_id == v[k - 1].tax_id,
        decreases l@.len() - j,
    {
        assert(v[j as int] == l@[j as int]@);
        assert(v[j - 1] == l@[j - 1]@);
        if l[j].parent_tax_id != l[j - 1].tax_id {
            assert(v[j as int].parent_tax_id != v[j - 1].tax_id);
            return false;
        }
        j = j + 1;
    }
    true
}

/// Whether every id shared by `a` and `b` sits at the same depth in both.
fn check_depths(a: &[Node], b: &[Node]) -> (r: bool)
    ensures
        r == same_depths(views(a@), views(b@)),
{
    let ghost va = views(a@);
    let ghost vb = views(b@);
    let mut i: usize = 0;
    while i < a.len()
        invariant
            va == views(a@),
            vb == views(b@),
            va.len() == a@.len(),
            vb.len() == b@.len(),
            i <= a@.len(),
            forall|x: int, y: int|
                0 <= x < i && 0 <= y < vb.len() && #[trigger] va[x].tax_id == #[trigger] vb[y].tax_id
                    ==> x == y,
        decreases a@.len() - i,
    {
        let mut j: usize = 0;
        assert(va[i as int] == a@[i as int]@);
        while j < b.len()
            invariant
                va == views(a@),
                vb == views(b@),
                va.len() == a@.len(),
                vb.len() == b@.len(),
                i < a@.len(),
                j <= b@.len(),
                forall|x: int, y: int|
                    0 <= x < i && 0 <= y < vb.len() && #[trigger] va[x].tax_id
                        == #[trigger] vb[y].tax_id ==> x == y,
                forall|y: int|
                    0 <= y < j && va[i as int].tax_id == #[trigger] vb[y].tax_id ==> i == y,
            decreases b@.len() - j,
        {
            assert(vb[j as int] == b@[j as int]@);
            if a[i].tax_id == b[j].tax_id && i != j {
                assert(va[i as int].tax_id == vb[j as int].tax_id);
                return false;
            }
            j = j + 1;
        }
        i = i + 1;
    }
    true
}

/// Whether `lineage1` and `lineage2` are ancestries of one consistent
/// taxonomy rooted at `root_id`, as [`get_lca`] requires.
pub fn is_lineage_pair(root_id: i64, lineage1: &[Node], lineage2: &[Node]) -> (r: bool)
    ensures
        r == lineage_pair(root_id, views(lineage1@), views(lineage2@)),
{
    check_lineage(root_id, lineage1) && check_lineage(root_id, lineage2) && check_depths(
        lineage1,
        lineage1,
    ) && check_depths(lineage2, lineage2) && check_depths(lineage1, lineage2)
}

/// A tree rooted at `root_id` holding every node of `lineages`, merged in
/// order, with the ids of `nodes` marked.
pub fn make_tree(root_id: i64, nodes: &[Node], lineages: &[Vec<Node>]) -> (r: Tree)
    requires
        lineages@.len() > 0,
    ensures
        r.wf(),
        r@ == with_marks(merged_all(empty_model(root_id), lineage_views(lineages@)), ids_of(nodes@)),
{
    let mut tree = Tree::new(root_id, &[]);
    assert(views(Seq::<Node>::empty()) =~= Seq::<NodeView>::empty());
    assert(tree@ == merged_all(empty_model(root_id), lineage_views(lineages@).subrange(0, 0))) by {
        assert(with_nodes(Map::empty(), Seq::<NodeView>::empty()) == Map::<i64, NodeView>::empty());
    };
    let mut i: usize = 0;
    while i < lineages.len()
        invariant
            i <= lineages@.len(),
            tree.wf(),
            tree@ == merged_all(empty_model(root_id), lineage_views(lineages@).subrange(0, i as int)),
        decreases lineages@.len() - i,
    {
        tree.add_nodes(lineages[i].as_slice());
        assert(lineage_views(lineages@).subrange(0, i + 1).drop_last() =~= lineage_views(lineages@).subrange(0, i as int));
        i = i + 1;
    }
    assert(lineage_views(lineages@).subrange(0, lineages@.len() as int) =~= lineage_views(lineages@));
    let mut ids: Vec<i64> = Vec::new();
    let mut j: usize = 0;
    while j < nodes.len()
        invariant
            j <= nodes@.len(),
            ids@ == nodes@.subrange(0, j as int).map_values(|n: Node| n.tax_id),
        decreases nodes@.len() - j,
    {
        ids.push(nodes[j].tax_id);
        assert(ids@ =~= nodes@.subrange(0, j + 1).map_values(|n: Node| n.tax_id));
        j = j + 1;
    }
    assert(nodes@.subrange(0, nodes@.len() as int) =~= nodes@);
    tree.mark_nodes(ids.as_slice());
    tree
}

/// A tree rooted at `root` holding `nodes` (typically `root` and its descendants).
pub fn make_subtree(root: &Node, nodes: &[Node]) -> (r: Tree)
    ensures
        r.wf(),
        r@ == merged(empty_model(root.tax_id), views(nodes@)),
{
    Tree::new(root.tax_id, nodes)
}

/// The least common ancestor of the last nodes of two ancestries rooted at
/// `root_id`: build their tree, mark both ends and simplify; the root's only
/// child is the answer, or the root itself when it branches.
pub fn get_lca(root_id: i64, lineage1: &[Node], lineage2: &[Node]) -> (r: Node)
    requires
        lineage_pair(root_id, views(lineage1@), views(lineage2@)),
    ensures
        r@ == lca(root_id, views(lineage1@), views(lineage2@)),
{
    let ghost a = views(lineage1@);
    let ghost b = views(lineage2@);
    let (first, second) = if lineage1.len() >= lineage2.len() {
        (lineage1, lineage2)
    } else {
        (lineage2, lineage1)
    };
    let mut tree = Tree::new(root_id, first);
    tree.add_nodes(second);
    let ends: Vec<i64> = vec![lineage1[lineage1.len() - 1].tax_id, lineage2[lineage2.len() - 1].tax_id];
    assert(ends@.to_set() =~= set![a.last().tax_id, b.last().tax_id]) by {
        assert(ends@[0] == a.last().tax_id);
        assert(ends@[1] == b.last().tax_id);
    };
    tree.mark_nodes(ends.as_slice());
    proof {
        let s1 = views(first@);
        let s2 = views(second@);
        assert(with_edges(Map::empty(), Seq::<NodeView>::empty()) == Map::<i64, Set<i64>>::empty());
        lemma_lineages_acyclic(root_id, a, b, s1, s2);
        assert(ranks(tree@.kids, depth_rank(a, b)));
        laws::lemma_nodes_grow(Map::empty(), s1);
        laws::lemma_nodes_grow(with_nodes(Map::empty(), s1), s2);
        assert(s1[0].tax_id == root_id);
    }
    tree.simplify();
    proof {
        tree.lemma_model_ok();
    }
    let root = tree.root();
    let kids = tree.children_of(root);
    proof {
        lemma_ascending_set(kids@);
    }
    let end1 = lineage1[lineage1.len() - 1].tax_id;
    let end2 = lineage2[lineage2.len() - 1].tax_id;
    assert(end1 == a.last().tax_id && end2 == b.last().tax_id);
    let pick = if end1 == root || end2 == root {
        root
    } else if kids.len() == 1 {
        proof {
            assert(kids@.to_set().contains(kids@[0]));
            lemma_single_choose(tree@.kids[root], kids@[0]);
        }
        kids[0]
    } else {
        root
    };
    assert(end1 == root || end2 == root || pick == lca_id(tree@));
    assert(tree@.nodes.contains_key(pick));
    tree.node(pick).unwrap().duplicate()
}

} // verus!
