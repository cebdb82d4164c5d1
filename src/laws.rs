//! Laws of the tree engine, stated over the models and proved.
use vstd::prelude::*;

use crate::node::NodeView;
use crate::{
    depth_rank, lca, lca_id, lca_tree, lemma_lineages_acyclic, lemma_with_edges_source,
    lineage_pair,
};
use crate::tree::{
    acyclic, contract, diagram, lemma_single_choose, merged, model_ok, newick, passes, rank,
    ranks, simplified, with_edge, with_edges, with_marks, with_node, with_nodes, empty_model,
    TreeModel,
};

verus! {

/// Nodes of `s` and `t` that share an id are the same node.
pub open spec fn agree(s: Seq<NodeView>, t: Seq<NodeView>) -> bool {
    forall|i: int, j: int|
        0 <= i < s.len() && 0 <= j < t.len() && #[trigger] s[i].tax_id == #[trigger] t[j].tax_id
            ==> s[i] == t[j]
}

/// `path` follows child edges of `kids`.
pub open spec fn is_path(kids: Map<i64, Set<i64>>, path: Seq<i64>) -> bool {
    &&& path.len() > 0
    &&& forall|i: int|
        0 <= i < path.len() - 1 ==> kids.contains_key(#[trigger] path[i]) && kids[path[i]].contains(
            path[i + 1],
        )
}

/// `b` can be reached from `a` along child edges.
pub open spec fn reaches(kids: Map<i64, Set<i64>>, a: i64, b: i64) -> bool {
    exists|path: Seq<i64>| is_path(kids, path) && path[0] == a && path.last() == b
}

/// No id is the child of two different parents.
pub open spec fn unique_parents(kids: Map<i64, Set<i64>>) -> bool {
    forall|p: i64, q: i64, c: i64|
        kids.contains_key(p) && kids.contains_key(q) && #[trigger] kids[p].contains(c)
            && #[trigger] kids[q].contains(c) ==> p == q
}

// ---------------------------------------------------------------------------
// Merging

pub(crate) proof fn lemma_edges_grow(k: Map<i64, Set<i64>>, s: Seq<NodeView>)
    ensures
        forall|p: i64, c: i64|
            k.contains_key(p) && #[trigger] k[p].contains(c) ==> with_edges(k, s).contains_key(p)
                && with_edges(k, s)[p].contains(c),
        forall|i: int|
            0 <= i < s.len() && s[i].tax_id != s[i].parent_tax_id ==> with_edges(
                k,
                s,
            ).contains_key(#[trigger] s[i].parent_tax_id) && with_edges(k, s)[s[i].parent_tax_id].contains(
                s[i].tax_id,
            ),
    decreases s.len(),
{
    if s.len() > 0 {
        lemma_edges_grow(k, s.drop_last());
        assert forall|i: int|
            0 <= i < s.len() && s[i].tax_id != s[i].parent_tax_id implies with_edges(
                k,
                s,
            ).contains_key(#[trigger] s[i].parent_tax_id) && with_edges(k, s)[s[i].parent_tax_id].contains(
                s[i].tax_id,
            ) by {
            if i < s.len() - 1 {
                assert(s.drop_last()[i] == s[i]);
            }
        };
    }
}

proof fn lemma_edges_present(k: Map<i64, Set<i64>>, s: Seq<NodeView>)
    requires
        forall|i: int|
            0 <= i < s.len() && s[i].tax_id != s[i].parent_tax_id ==> k.contains_key(
                #[trigger] s[i].parent_tax_id,
            ) && k[s[i].parent_tax_id].contains(s[i].tax_id),
    ensures
        with_edges(k, s) == k,
    decreases s.len(),
{
    if s.len() > 0 {
        assert forall|i: int|
            0 <= i < s.drop_last().len() && s.drop_last()[i].tax_id
                != s.drop_last()[i].parent_tax_id implies k.contains_key(
            #[trigger] s.drop_last()[i].parent_tax_id,
        ) && k[s.drop_last()[i].parent_tax_id].contains(s.drop_last()[i].tax_id) by {
            assert(s.drop_last()[i] == s[i]);
        };
        lemma_edges_present(k, s.drop_last());
        let n = s.last();
        assert(s[s.len() - 1] == n);
        if n.tax_id != n.parent_tax_id {
            assert(k[n.parent_tax_id].insert(n.tax_id) =~= k[n.parent_tax_id]);
            assert(with_edge(k, n) =~= k);
        }
    }
}

/// A merge keeps every stored node and stores an entry for each merged id.
pub(crate) proof fn lemma_nodes_grow(m: Map<i64, NodeView>, s: Seq<NodeView>)
    ensures
        forall|i: int| 0 <= i < s.len() ==> with_nodes(m, s).contains_key(#[trigger] s[i].tax_id),
        forall|id: i64| #[trigger] m.contains_key(id) ==> with_nodes(m, s).contains_key(id) && with_nodes(m, s)[id] == m[id],
    decreases s.len(),
{
    if s.len() > 0 {
        lemma_nodes_grow(m, s.drop_last());
        assert forall|i: int| 0 <= i < s.len() implies with_nodes(m, s).contains_key(
            #[trigger] s[i].tax_id,
        ) by {
            if i < s.len() - 1 {
                assert(s.drop_last()[i] == s[i]);
            }
        };
    }
}

proof fn lemma_nodes_present(m: Map<i64, NodeView>, s: Seq<NodeView>)
    requires
        forall|i: int| 0 <= i < s.len() ==> m.contains_key(#[trigger] s[i].tax_id),
    ensures
        with_nodes(m, s) == m,
    decreases s.len(),
{
    if s.len() > 0 {
        assert forall|i: int| 0 <= i < s.drop_last().len() implies m.contains_key(
            #[trigger] s.drop_last()[i].tax_id,
        ) by {
            assert(s.drop_last()[i] == s[i]);
        };
        lemma_nodes_present(m, s.drop_last());
        assert(s[s.len() - 1] == s.last());
    }
}

/// Merging the same nodes twice gives the same model as merging them once.
pub proof fn lemma_merge_idempotent(m: TreeModel, s: Seq<NodeView>)
    ensures
        merged(merged(m, s), s) == merged(m, s),
{
    lemma_edges_grow(m.kids, s);
    lemma_edges_present(with_edges(m.kids, s), s);
    lemma_nodes_grow(m.nodes, s);
    lemma_nodes_present(with_nodes(m.nodes, s), s);
}

proof fn lemma_edge_commute(k: Map<i64, Set<i64>>, a: NodeView, b: NodeView)
    ensures
        with_edge(with_edge(k, a), b) == with_edge(with_edge(k, b), a),
{
    let l = with_edge(with_edge(k, a), b);
    let r = with_edge(with_edge(k, b), a);
    assert(l =~= r) by {
        assert forall|p: i64| #[trigger] l.contains_key(p) implies r.contains_key(p) && l[p] =~= r[p] by {
        };
        assert forall|p: i64| #[trigger] r.contains_key(p) implies l.contains_key(p) by {
        };
    };
}

proof fn lemma_edge_through(k: Map<i64, Set<i64>>, a: NodeView, s: Seq<NodeView>)
    ensures
        with_edges(with_edge(k, a), s) == with_edge(with_edges(k, s), a),
    decreases s.len(),
{
    if s.len() > 0 {
        lemma_edge_through(k, a, s.drop_last());
        lemma_edge_commute(with_edges(k, s.drop_last()), a, s.last());
    }
}

proof fn lemma_edges_commute(k: Map<i64, Set<i64>>, s1: Seq<NodeView>, s2: Seq<NodeView>)
    ensures
        with_edges(with_edges(k, s1), s2) == with_edges(with_edges(k, s2), s1),
    decreases s1.len(),
{
    if s1.len() > 0 {
        lemma_edge_through(with_edges(k, s1.drop_last()), s1.last(), s2);
        lemma_edges_commute(k, s1.drop_last(), s2);
    }
}

proof fn lemma_node_commute(m: Map<i64, NodeView>, a: NodeView, b: NodeView)
    requires
        a.tax_id == b.tax_id ==> a == b,
    ensures
        with_node(with_node(m, a), b) == with_node(with_node(m, b), a),
{
    assert(with_node(with_node(m, a), b) =~= with_node(with_node(m, b), a));
}

proof fn lemma_node_through(m: Map<i64, NodeView>, a: NodeView, s: Seq<NodeView>)
    requires
        forall|j: int| 0 <= j < s.len() && #[trigger] s[j].tax_id == a.tax_id ==> s[j] == a,
    ensures
        with_nodes(with_node(m, a), s) == with_node(with_nodes(m, s), a),
    decreases s.len(),
{
    if s.len() > 0 {
        assert forall|j: int|
            0 <= j < s.drop_last().len() && #[trigger] s.drop_last()[j].tax_id == a.tax_id implies s.drop_last()[j]
            == a by {
            assert(s.drop_last()[j] == s[j]);
        };
        lemma_node_through(m, a, s.drop_last());
        assert(s[s.len() - 1] == s.last());
        lemma_node_commute(with_nodes(m, s.drop_last()), a, s.last());
    }
}

proof fn lemma_nodes_commute(m: Map<i64, NodeView>, s1: Seq<NodeView>, s2: Seq<NodeView>)
    requires
        agree(s1, s2),
    ensures
        with_nodes(with_nodes(m, s1), s2) == with_nodes(with_nodes(m, s2), s1),
    decreases s1.len(),
{
    if s1.len() > 0 {
        let a = s1.last();
        assert(s1[s1.len() - 1] == a);
        assert forall|j: int| 0 <= j < s2.len() && #[trigger] s2[j].tax_id == a.tax_id implies s2[j]
            == a by {
            assert(s1[s1.len() - 1].tax_id == s2[j].tax_id);
        };
        lemma_node_through(with_nodes(m, s1.drop_last()), a, s2);
        assert forall|i: int, j: int|
            0 <= i < s1.drop_last().len() && 0 <= j < s2.len() && #[trigger] s1.drop_last()[i].tax_id
                == #[trigger] s2[j].tax_id implies s1.drop_last()[i] == s2[j] by {
            assert(s1.drop_last()[i] == s1[i]);
        };
        lemma_nodes_commute(m, s1.drop_last(), s2);
    }
}

/// Merging two node sets in either order gives the same model, provided the
/// two sets agree on every id they share.
pub proof fn lemma_merge_commutes(m: TreeModel, s1: Seq<NodeView>, s2: Seq<NodeView>)
    requires
        agree(s1, s2),
    ensures
        merged(merged(m, s1), s2) == merged(merged(m, s2), s1),
{
    lemma_edges_commute(m.kids, s1, s2);
    lemma_nodes_commute(m.nodes, s1, s2);
}

/// The Newick-like text and the diagram of a tree do not depend on the order
/// in which two agreeing node sets were merged into it.
pub proof fn lemma_render_order_free(m: TreeModel, s1: Seq<NodeView>, s2: Seq<NodeView>)
    requires
        agree(s1, s2),
    ensures
        newick(merged(merged(m, s1), s2)) == newick(merged(merged(m, s2), s1)),
        diagram(merged(merged(m, s1), s2)) == diagram(merged(merged(m, s2), s1)),
{
    lemma_merge_commutes(m, s1, s2);
}

// ---------------------------------------------------------------------------
// Contraction

/// The unique child of a node that `passes`, one rank lower.
proof fn lemma_pass_step(m: TreeModel, c: i64, n: i64)
    requires
        model_ok(m),
        acyclic(m),
        passes(m, c),
        m.kids[c].contains(n),
    ensures
        m.kids[c].choose() == n,
        rank(m)(n) < rank(m)(c),
        contract(m, c) == contract(m, n),
{
    assert(ranks(m.kids, rank(m)));
    lemma_single_choose(m.kids[c], n);
}

/// Following a path down to a marked node, contraction stops on the path.
proof fn lemma_contract_on_path(m: TreeModel, p: Seq<i64>)
    requires
        model_ok(m),
        acyclic(m),
        is_path(m.kids, p),
        m.marked.contains(p.last()),
    ensures
        exists|k: int| 0 <= k < p.len() && contract(m, p[0]) == #[trigger] p[k],
    decreases p.len(),
{
    if passes(m, p[0]) {
        assert(p.len() > 1);
        assert(m.kids[p[0]].contains(p[1]));
        lemma_pass_step(m, p[0], p[1]);
        let q = p.drop_first();
        assert(is_path(m.kids, q)) by {
            assert forall|i: int| 0 <= i < q.len() - 1 implies m.kids.contains_key(#[trigger] q[i])
                && m.kids[q[i]].contains(q[i + 1]) by {
                assert(q[i] == p[i + 1]);
                assert(q[i + 1] == p[i + 2]);
            };
        };
        lemma_contract_on_path(m, q);
        let k = choose|k: int| 0 <= k < q.len() && contract(m, q[0]) == #[trigger] q[k];
        assert(p[k + 1] == q[k]);
    } else {
        assert(contract(m, p[0]) == p[0]);
    }
}

/// A path to a marked node survives contraction.
proof fn lemma_path_survives(m: TreeModel, p: Seq<i64>)
    requires
        model_ok(m),
        acyclic(m),
        is_path(m.kids, p),
        m.marked.contains(p.last()),
    ensures
        reaches(simplified(m).kids, p[0], p.last()),
    decreases p.len(),
{
    let s = simplified(m);
    if p.len() == 1 {
        let q = seq![p[0]];
        assert(is_path(s.kids, q));
    } else {
        let sub = p.drop_first();
        assert(is_path(m.kids, sub)) by {
            assert forall|i: int| 0 <= i < sub.len() - 1 implies m.kids.contains_key(
                #[trigger] sub[i],
            ) && m.kids[sub[i]].contains(sub[i + 1]) by {
                assert(sub[i] == p[i + 1]);
                assert(sub[i + 1] == p[i + 2]);
            };
        };
        lemma_contract_on_path(m, sub);
        let k = choose|k: int| 0 <= k < sub.len() && contract(m, sub[0]) == #[trigger] sub[k];
        let rest = sub.subrange(k, sub.len() as int);
        assert(is_path(m.kids, rest)) by {
            assert forall|i: int| 0 <= i < rest.len() - 1 implies m.kids.contains_key(
                #[trigger] rest[i],
            ) && m.kids[rest[i]].contains(rest[i + 1]) by {
                assert(rest[i] == sub[i + k]);
                assert(rest[i + 1] == sub[i + k + 1]);
            };
        };
        assert(rest.last() == p.last());
        lemma_path_survives(m, rest);
        let q = choose|q: Seq<i64>| is_path(s.kids, q) && q[0] == rest[0] && q.last() == rest.last();
        assert(m.kids[p[0]].contains(p[1]));
        assert(s.kids[p[0]].contains(contract(m, p[1])));
        let full = seq![p[0]] + q;
        assert(is_path(s.kids, full)) by {
            assert forall|i: int| 0 <= i < full.len() - 1 implies s.kids.contains_key(
                #[trigger] full[i],
            ) && s.kids[full[i]].contains(full[i + 1]) by {
                if i > 0 {
                    assert(full[i] == q[i - 1]);
                    assert(full[i + 1] == q[i]);
                }
            };
        };
        assert(full.last() == p.last());
    }
}

/// Every marked id that is reachable from the root stays reachable from the
/// root after simplification, and keeps its node.
pub proof fn lemma_marks_survive(m: TreeModel, x: i64)
    requires
        model_ok(m),
        acyclic(m),
        m.marked.contains(x),
        m.nodes.contains_key(x),
        reaches(m.kids, m.root, x),
    ensures
        reaches(simplified(m).kids, simplified(m).root, x),
        simplified(m).nodes.contains_key(x),
        simplified(m).marked.contains(x),
{
    let p = choose|p: Seq<i64>| is_path(m.kids, p) && p[0] == m.root && p.last() == x;
    lemma_path_survives(m, p);
}

/// `y` lies on the chain of unmarked single-child nodes that starts at `c`.
pub open spec fn on_chain(m: TreeModel, c: i64, y: i64) -> bool
    decreases rank(m)(c),
{
    y == c || (passes(m, c) && rank(m)(m.kids[c].choose()) < rank(m)(c) && on_chain(
        m,
        m.kids[c].choose(),
        y,
    ))
}

proof fn lemma_chain_ends(m: TreeModel, c: i64)
    requires
        model_ok(m),
        acyclic(m),
    ensures
        on_chain(m, c, contract(m, c)),
        !passes(m, contract(m, c)),
    decreases rank(m)(c),
{
    assert(ranks(m.kids, rank(m)));
    if passes(m, c) {
        let n = m.kids[c].choose();
        assert(m.kids[c].contains(n));
        lemma_chain_ends(m, n);
    }
}

proof fn lemma_chain_rank(m: TreeModel, c: i64, y: i64)
    requires
        model_ok(m),
        acyclic(m),
        on_chain(m, c, y),
    ensures
        rank(m)(y) <= rank(m)(c),
    decreases rank(m)(c),
{
    if y != c {
        lemma_chain_rank(m, m.kids[c].choose(), y);
    }
}

proof fn lemma_chain_parent(m: TreeModel, c: i64, y: i64)
    requires
        model_ok(m),
        acyclic(m),
        on_chain(m, c, y),
        y != c,
    ensures
        exists|q: i64| on_chain(m, c, q) && passes(m, q) && #[trigger] m.kids[q].contains(y),
    decreases rank(m)(c),
{
    let n = m.kids[c].choose();
    assert(m.kids[c].contains(n));
    if y == n {
        assert(on_chain(m, c, c));
    } else {
        lemma_chain_parent(m, n, y);
        let q = choose|q: i64| on_chain(m, n, q) && passes(m, q) && #[trigger] m.kids[q].contains(y);
        assert(on_chain(m, c, q));
    }
}

proof fn lemma_chains_meet(m: TreeModel, a: i64, b: i64)
    requires
        model_ok(m),
        acyclic(m),
        unique_parents(m.kids),
        contract(m, a) == contract(m, b),
    ensures
        on_chain(m, a, b) || on_chain(m, b, a),
    decreases rank(m)(a) + rank(m)(b),
{
    assert(ranks(m.kids, rank(m)));
    lemma_chain_ends(m, a);
    lemma_chain_ends(m, b);
    if !passes(m, a) {
        assert(contract(m, a) == a);
    } else if !passes(m, b) {
        assert(contract(m, b) == b);
    } else {
        let a1 = m.kids[a].choose();
        let b1 = m.kids[b].choose();
        assert(m.kids[a].contains(a1));
        assert(m.kids[b].contains(b1));
        lemma_chains_meet(m, a1, b1);
        if on_chain(m, a1, b1) {
            if b1 == a1 {
                assert(a == b);
            } else {
                lemma_chain_parent(m, a1, b1);
                let q = choose|q: i64|
                    on_chain(m, a1, q) && passes(m, q) && #[trigger] m.kids[q].contains(b1);
                assert(q == b);
            }
        } else {
            if a1 == b1 {
                assert(a == b);
            } else {
                lemma_chain_parent(m, b1, a1);
                let q = choose|q: i64|
                    on_chain(m, b1, q) && passes(m, q) && #[trigger] m.kids[q].contains(a1);
                assert(q == a);
            }
        }
    }
}

/// Distinct children of one node contract to distinct nodes.
proof fn lemma_contract_injective(m: TreeModel, x: i64, a: i64, b: i64)
    requires
        model_ok(m),
        acyclic(m),
        unique_parents(m.kids),
        m.kids.contains_key(x),
        m.kids[x].contains(a),
        m.kids[x].contains(b),
        a != b,
    ensures
        contract(m, a) != contract(m, b),
{
    assert(ranks(m.kids, rank(m)));
    if contract(m, a) == contract(m, b) {
        lemma_chains_meet(m, a, b);
        let (hi, lo) = if on_chain(m, a, b) {
            (a, b)
        } else {
            (b, a)
        };
        lemma_chain_parent(m, hi, lo);
        let q = choose|q: i64| on_chain(m, hi, q) && passes(m, q) && #[trigger] m.kids[q].contains(lo);
        assert(q == x);
        lemma_chain_rank(m, hi, x);
    }
}

/// After simplification every node reachable from the root, other than the
/// root, that is unmarked and has children has at least two children.
pub proof fn lemma_simplified_branches(m: TreeModel, x: i64)
    requires
        model_ok(m),
        acyclic(m),
        unique_parents(m.kids),
        reaches(simplified(m).kids, m.root, x),
        x != m.root,
        !m.marked.contains(x),
        simplified(m).kids.contains_key(x),
    ensures
        simplified(m).kids[x].len() >= 2,
{
    let s = simplified(m);
    let f = |c: i64| contract(m, c);
    let p = choose|p: Seq<i64>| is_path(s.kids, p) && p[0] == m.root && p.last() == x;
    assert(p.len() >= 2);
    let q = p[p.len() - 2];
    assert(s.kids[q].contains(x));
    let c = choose|c: i64| m.kids[q].contains(c) && f(c) == x;
    lemma_chain_ends(m, c);
    assert(!passes(m, x));
    assert(m.kids[x].len() >= 2);
    let a = m.kids[x].choose();
    assert(m.kids[x].contains(a));
    assert(m.kids[x].remove(a).len() >= 1);
    let b = m.kids[x].remove(a).choose();
    assert(m.kids[x].remove(a).contains(b));
    lemma_contract_injective(m, x, a, b);
    m.kids[x].lemma_map_finite(f);
    let pair = set![f(a), f(b)];
    assert(pair.subset_of(s.kids[x]));
    assert(pair.len() == 2);
    vstd::set_lib::lemma_len_subset(pair, s.kids[x]);
}

// ---------------------------------------------------------------------------
// Least common ancestors

/// `x` is the parent of `y` in one of the two ancestries.
pub open spec fn lineage_edge(a: Seq<NodeView>, b: Seq<NodeView>, x: i64, y: i64) -> bool {
    (exists|i: int| 1 <= i < a.len() && a[i - 1].tax_id == x && #[trigger] a[i].tax_id == y) || (
    exists|i: int| 1 <= i < b.len() && b[i - 1].tax_id == x && #[trigger] b[i].tax_id == y)
}

/// An id found in both ancestries has the same parent in both.
pub open spec fn one_parent_per_id(a: Seq<NodeView>, b: Seq<NodeView>) -> bool {
    forall|i: int, j: int|
        0 <= i < a.len() && 0 <= j < b.len() && #[trigger] a[i].tax_id == #[trigger] b[j].tax_id
            ==> a[i].parent_tax_id == b[j].parent_tax_id
}

/// The depth, scanning down from `j`, of the last id the two ancestries share
/// at the same depth.
pub open spec fn shared_from(a: Seq<NodeView>, b: Seq<NodeView>, j: int) -> int
    decreases a.len() - j,
{
    if 0 <= j && j + 1 < a.len() && j + 1 < b.len() && a[j + 1].tax_id == b[j + 1].tax_id {
        shared_from(a, b, j + 1)
    } else {
        j
    }
}

/// Each parent-to-child pair of the ancestries is an edge of their tree.
proof fn lemma_edge_present(
    root: i64,
    a: Seq<NodeView>,
    b: Seq<NodeView>,
    s1: Seq<NodeView>,
    s2: Seq<NodeView>,
    x: i64,
    y: i64,
)
    requires
        lineage_pair(root, a, b),
        (s1 == a && s2 == b) || (s1 == b && s2 == a),
        lineage_edge(a, b, x, y),
    ensures
        with_edges(with_edges(Map::empty(), s1), s2).contains_key(x) && with_edges(
            with_edges(Map::empty(), s1),
            s2,
        )[x].contains(y),
{
    let k1 = with_edges(Map::empty(), s1);
    let kk = with_edges(k1, s2);
    lemma_edges_grow(Map::empty(), s1);
    lemma_edges_grow(k1, s2);
    let s = if exists|i: int| 1 <= i < a.len() && a[i - 1].tax_id == x && #[trigger] a[i].tax_id == y {
        a
    } else {
        b
    };
    let i = choose|i: int| 1 <= i < s.len() && s[i - 1].tax_id == x && #[trigger] s[i].tax_id == y;
    assert(s[i].parent_tax_id == s[i - 1].tax_id);
    if s[i].tax_id == s[i].parent_tax_id {
        assert(s[i].tax_id == s[i - 1].tax_id);
    }
    if s == s1 {
        assert(k1.contains_key(s1[i].parent_tax_id) && k1[s1[i].parent_tax_id].contains(
            s1[i].tax_id,
        ));
    } else {
        assert(s2[i].tax_id != s2[i].parent_tax_id);
    }
}

/// The tree of two ancestries has exactly their parent-to-child edges.
proof fn lemma_lineage_edge(
    root: i64,
    a: Seq<NodeView>,
    b: Seq<NodeView>,
    s1: Seq<NodeView>,
    s2: Seq<NodeView>,
    kk: Map<i64, Set<i64>>,
    x: i64,
    y: i64,
)
    requires
        lineage_pair(root, a, b),
        (s1 == a && s2 == b) || (s1 == b && s2 == a),
        kk == with_edges(with_edges(Map::empty(), s1), s2),
    ensures
        (kk.contains_key(x) && kk[x].contains(y)) <==> lineage_edge(a, b, x, y),
{
    let k1 = with_edges(Map::empty(), s1);
    if kk.contains_key(x) && kk[x].contains(y) {
        lemma_with_edges_source(k1, s2, x, y);
        let s = if exists|i: int|
            0 <= i < s2.len() && #[trigger] s2[i].parent_tax_id == x && s2[i].tax_id == y && y
                != x {
            s2
        } else {
            lemma_with_edges_source(Map::empty(), s1, x, y);
            s1
        };
        let i = choose|i: int|
            0 <= i < s.len() && #[trigger] s[i].parent_tax_id == x && s[i].tax_id == y && y != x;
        assert(i > 0);
        assert(s[i].parent_tax_id == s[i - 1].tax_id);
    }
    if lineage_edge(a, b, x, y) {
        lemma_edge_present(root, a, b, s1, s2, x, y);
    }
}

/// The children of the id at depth `j` of either ancestry are the ids at
/// depth `j + 1` of the ancestries that pass through it.
proof fn lemma_edge_at(root: i64, a: Seq<NodeView>, b: Seq<NodeView>, l: Seq<NodeView>, j: int, y: i64)
    requires
        lineage_pair(root, a, b),
        l == a || l == b,
        0 <= j < l.len(),
    ensures
        lineage_edge(a, b, l[j].tax_id, y) <==> ((j + 1 < a.len() && a[j].tax_id == l[j].tax_id
            && y == a[j + 1].tax_id) || (j + 1 < b.len() && b[j].tax_id == l[j].tax_id && y == b[j
            + 1].tax_id)),
{
    let x = l[j].tax_id;
    if exists|i: int| 1 <= i < a.len() && a[i - 1].tax_id == x && #[trigger] a[i].tax_id == y {
        let i = choose|i: int| 1 <= i < a.len() && a[i - 1].tax_id == x && #[trigger] a[i].tax_id == y;
        if l == a {
            assert(a[i - 1].tax_id == a[j].tax_id);
        } else {
            assert(a[i - 1].tax_id == b[j].tax_id);
        }
        assert(i - 1 == j);
    }
    if exists|i: int| 1 <= i < b.len() && b[i - 1].tax_id == x && #[trigger] b[i].tax_id == y {
        let i = choose|i: int| 1 <= i < b.len() && b[i - 1].tax_id == x && #[trigger] b[i].tax_id == y;
        if l == b {
            assert(b[i - 1].tax_id == b[j].tax_id);
        } else {
            assert(a[j].tax_id == b[i - 1].tax_id);
        }
        assert(i - 1 == j);
    }
    if j + 1 < a.len() && a[j].tax_id == x && y == a[j + 1].tax_id {
        assert(1 <= j + 1 < a.len() && a[j + 1 - 1].tax_id == x && a[j + 1].tax_id == y);
    }
    if j + 1 < b.len() && b[j].tax_id == x && y == b[j + 1].tax_id {
        assert(1 <= j + 1 < b.len() && b[j + 1 - 1].tax_id == x && b[j + 1].tax_id == y);
    }
}

/// The shared depth found from `j` is a common prefix end.
proof fn lemma_shared_from(a: Seq<NodeView>, b: Seq<NodeView>, j: int)
    requires
        0 <= j < a.len(),
        j < b.len(),
    ensures
        j <= shared_from(a, b, j) < a.len(),
        shared_from(a, b, j) < b.len(),
        forall|i: int|
            j < i <= shared_from(a, b, j) ==> #[trigger] a[i].tax_id == b[i].tax_id,
        !(shared_from(a, b, j) + 1 < a.len() && shared_from(a, b, j) + 1 < b.len() && a[shared_from(
            a,
            b,
            j,
        ) + 1].tax_id == b[shared_from(a, b, j) + 1].tax_id),
    decreases a.len() - j,
{
    if j + 1 < a.len() && j + 1 < b.len() && a[j + 1].tax_id == b[j + 1].tax_id {
        lemma_shared_from(a, b, j + 1);
    }
}

/// Sharing an id at depth `i` means sharing every id above it.
proof fn lemma_shared_above(root: i64, a: Seq<NodeView>, b: Seq<NodeView>, i: int, k: int)
    requires
        lineage_pair(root, a, b),
        one_parent_per_id(a, b),
        0 <= k <= i < a.len(),
        i < b.len(),
        a[i].tax_id == b[i].tax_id,
    ensures
        a[k].tax_id == b[k].tax_id,
    decreases i - k,
{
    if k < i {
        assert(a[i].parent_tax_id == b[i].parent_tax_id);
        assert(a[i].parent_tax_id == a[i - 1].tax_id);
        assert(b[i].parent_tax_id == b[i - 1].tax_id);
        lemma_shared_above(root, a, b, i - 1, k);
    }
}

/// Along a run of unmarked nodes each with the next as only child,
/// contraction ends at the first node that does not pass.
proof fn lemma_follow_chain(m: TreeModel, l: Seq<NodeView>, i: int, e: int)
    requires
        acyclic(m),
        0 <= i <= e < l.len(),
        forall|j: int|
            i <= j < e ==> m.kids.contains_key(#[trigger] l[j].tax_id) && m.kids[l[j].tax_id]
                == set![l[j + 1].tax_id] && !m.marked.contains(l[j].tax_id),
        !passes(m, l[e].tax_id),
    ensures
        contract(m, l[i].tax_id) == l[e].tax_id,
    decreases e - i,
{
    if i < e {
        let x = l[i].tax_id;
        let y = l[i + 1].tax_id;
        assert(m.kids[x] == set![y]);
        assert(set![y].len() == 1);
        lemma_single_choose(m.kids[x], y);
        assert(ranks(m.kids, rank(m)));
        assert(m.kids[x].contains(y));
        lemma_follow_chain(m, l, i + 1, e);
    }
}

/// Every stored node sits under its own id.
proof fn lemma_nodes_keyed(m: Map<i64, NodeView>, s: Seq<NodeView>)
    requires
        forall|x: i64| #[trigger] m.contains_key(x) ==> m[x].tax_id == x,
    ensures
        forall|x: i64| #[trigger]
            with_nodes(m, s).contains_key(x) ==> with_nodes(m, s)[x].tax_id == x,
    decreases s.len(),
{
    if s.len() > 0 {
        lemma_nodes_keyed(m, s.drop_last());
    }
}

/// A node of the ancestries whose every continuation leads to one id has
/// exactly that child.
proof fn lemma_kids_one(
    root: i64,
    a: Seq<NodeView>,
    b: Seq<NodeView>,
    s1: Seq<NodeView>,
    s2: Seq<NodeView>,
    kk: Map<i64, Set<i64>>,
    l: Seq<NodeView>,
    j: int,
)
    requires
        lineage_pair(root, a, b),
        (s1 == a && s2 == b) || (s1 == b && s2 == a),
        kk == with_edges(with_edges(Map::empty(), s1), s2),
        l == a || l == b,
        0 <= j,
        j + 1 < l.len(),
        j + 1 < a.len() && a[j].tax_id == l[j].tax_id ==> a[j + 1].tax_id == l[j + 1].tax_id,
        j + 1 < b.len() && b[j].tax_id == l[j].tax_id ==> b[j + 1].tax_id == l[j + 1].tax_id,
    ensures
        kk.contains_key(l[j].tax_id),
        kk[l[j].tax_id] == set![l[j + 1].tax_id],
{
    let x = l[j].tax_id;
    let y0 = l[j + 1].tax_id;
    lemma_edge_at(root, a, b, l, j, y0);
    lemma_lineage_edge(root, a, b, s1, s2, kk, x, y0);
    assert forall|y: i64| kk[x].contains(y) <==> set![y0].contains(y) by {
        lemma_edge_at(root, a, b, l, j, y);
        lemma_lineage_edge(root, a, b, s1, s2, kk, x, y);
    };
    assert(kk[x] =~= set![y0]);
}

/// Where the two ancestries part, the shared node has both next ids as children.
proof fn lemma_kids_two(
    root: i64,
    a: Seq<NodeView>,
    b: Seq<NodeView>,
    s1: Seq<NodeView>,
    s2: Seq<NodeView>,
    kk: Map<i64, Set<i64>>,
    j: int,
)
    requires
        lineage_pair(root, a, b),
        (s1 == a && s2 == b) || (s1 == b && s2 == a),
        kk == with_edges(with_edges(Map::empty(), s1), s2),
        0 <= j,
        j + 1 < a.len(),
        j + 1 < b.len(),
        a[j].tax_id == b[j].tax_id,
    ensures
        kk.contains_key(a[j].tax_id),
        kk[a[j].tax_id] == set![a[j + 1].tax_id, b[j + 1].tax_id],
{
    let x = a[j].tax_id;
    lemma_edge_at(root, a, b, a, j, a[j + 1].tax_id);
    lemma_lineage_edge(root, a, b, s1, s2, kk, x, a[j + 1].tax_id);
    assert forall|y: i64| kk[x].contains(y) <==> set![a[j + 1].tax_id, b[j + 1].tax_id].contains(
        y,
    ) by {
        lemma_edge_at(root, a, b, a, j, y);
        lemma_lineage_edge(root, a, b, s1, s2, kk, x, y);
    };
    assert(kk[x] =~= set![a[j + 1].tax_id, b[j + 1].tax_id]);
}

/// Depths agree within and across the two ancestries `l` and `o`.
spec fn same_depths_of(a: Seq<NodeView>, b: Seq<NodeView>, l: Seq<NodeView>, o: Seq<NodeView>) -> bool {
    &&& forall|i: int, j: int|
        0 <= i < l.len() && 0 <= j < l.len() && #[trigger] l[i].tax_id == #[trigger] l[j].tax_id
            ==> i == j
    &&& forall|i: int, j: int|
        0 <= i < l.len() && 0 <= j < o.len() && #[trigger] l[i].tax_id == #[trigger] o[j].tax_id
            ==> i == j
}

/// The ancestry that seeds the tree of two ancestries: the longer one.
spec fn seed_of(a: Seq<NodeView>, b: Seq<NodeView>) -> Seq<NodeView> {
    if a.len() >= b.len() {
        a
    } else {
        b
    }
}

/// The ancestry merged second: the shorter one.
spec fn rest_of(a: Seq<NodeView>, b: Seq<NodeView>) -> Seq<NodeView> {
    if a.len() >= b.len() {
        b
    } else {
        a
    }
}

/// The tree of two ancestries with both ends marked, before contraction.
#[verifier::opaque]
spec fn marked_tree(root: i64, a: Seq<NodeView>, b: Seq<NodeView>) -> TreeModel {
    with_marks(
        merged(merged(empty_model(root), seed_of(a, b)), rest_of(a, b)),
        set![a.last().tax_id, b.last().tax_id],
    )
}

proof fn lemma_marked_tree(root: i64, a: Seq<NodeView>, b: Seq<NodeView>, k: int)
    requires
        lineage_pair(root, a, b),
        0 <= k < a.len(),
    ensures
        lca_tree(root, a, b) == simplified(marked_tree(root, a, b)),
        acyclic(marked_tree(root, a, b)),
        marked_tree(root, a, b).kids == with_edges(
            with_edges(Map::empty(), seed_of(a, b)),
            rest_of(a, b),
        ),
        marked_tree(root, a, b).marked == set![a.last().tax_id, b.last().tax_id],
        marked_tree(root, a, b).root == root,
        marked_tree(root, a, b).nodes.contains_key(a[k].tax_id),
        marked_tree(root, a, b).nodes[a[k].tax_id].tax_id == a[k].tax_id,
{
    let s1 = seed_of(a, b);
    let s2 = rest_of(a, b);
    let mm = marked_tree(root, a, b);
    reveal(marked_tree);
    lemma_lineages_acyclic(root, a, b, s1, s2);
    assert(ranks(mm.kids, depth_rank(a, b)));
    let n1 = with_nodes(Map::empty(), s1);
    lemma_nodes_keyed(Map::empty(), s1);
    lemma_nodes_keyed(n1, s2);
    lemma_nodes_grow(Map::empty(), s1);
    lemma_nodes_grow(n1, s2);
    if s1 == a {
        assert(n1.contains_key(s1[k].tax_id));
    } else {
        assert(with_nodes(n1, s2).contains_key(s2[k].tax_id));
    }
    assert(mm.marked =~= set![a.last().tax_id, b.last().tax_id]);
}

/// An inner node of one ancestry that leads on to one id only and is not the
/// end of the other ancestry: unmarked, with that id as its only child.
proof fn lemma_chain_node(
    root: i64,
    a: Seq<NodeView>,
    b: Seq<NodeView>,
    l: Seq<NodeView>,
    o: Seq<NodeView>,
    j: int,
)
    requires
        lineage_pair(root, a, b),
        (l == a && o == b) || (l == b && o == a),
        0 <= j,
        j + 1 < l.len(),
        j + 1 < o.len() && o[j].tax_id == l[j].tax_id ==> o[j + 1].tax_id == l[j + 1].tax_id,
        j + 1 < o.len() || j >= o.len() || o[j].tax_id != l[j].tax_id,
    ensures
        marked_tree(root, a, b).kids.contains_key(l[j].tax_id),
        marked_tree(root, a, b).kids[l[j].tax_id] == set![l[j + 1].tax_id],
        !marked_tree(root, a, b).marked.contains(l[j].tax_id),
{
    lemma_marked_tree(root, a, b, 0);
    assert(same_depths_of(a, b, l, o));
    if l[j].tax_id == l.last().tax_id {
        assert(l[j].tax_id == l[l.len() - 1].tax_id);
    }
    if l[j].tax_id == o.last().tax_id {
        assert(l[j].tax_id == o[o.len() - 1].tax_id);
    }
    lemma_kids_one(
        root,
        a,
        b,
        seed_of(a, b),
        rest_of(a, b),
        marked_tree(root, a, b).kids,
        l,
        j,
    );
}

/// The image of a one-element set.
proof fn lemma_image_one(s: Set<i64>, y: i64, f: spec_fn(i64) -> i64)
    requires
        s == set![y],
    ensures
        s.map(f) == set![f(y)],
{
    assert forall|z: i64| s.map(f).contains(z) <==> set![f(y)].contains(z) by {
        if z == f(y) {
            assert(s.contains(y));
        }
    };
    assert(s.map(f) =~= set![f(y)]);
}

/// The image of a two-element set.
proof fn lemma_image_two(s: Set<i64>, y: i64, z: i64, f: spec_fn(i64) -> i64)
    requires
        s == set![y, z],
    ensures
        s.map(f) == set![f(y), f(z)],
{
    assert forall|w: i64| s.map(f).contains(w) <==> set![f(y), f(z)].contains(w) by {
        if w == f(y) {
            assert(s.contains(y));
        }
        if w == f(z) {
            assert(s.contains(z));
        }
    };
    assert(s.map(f) =~= set![f(y), f(z)]);
}

/// The deepest shared id does not pass: it branches or ends an ancestry.
proof fn lemma_deep_stop(root: i64, a: Seq<NodeView>, b: Seq<NodeView>, k: int)
    requires
        lineage_pair(root, a, b),
        0 <= k < a.len(),
        k < b.len(),
        a[k].tax_id == b[k].tax_id,
        !(k + 1 < a.len() && k + 1 < b.len() && a[k + 1].tax_id == b[k + 1].tax_id),
    ensures
        !passes(marked_tree(root, a, b), a[k].tax_id),
{
    let mm = marked_tree(root, a, b);
    lemma_marked_tree(root, a, b, k);
    if k + 1 < a.len() && k + 1 < b.len() {
        lemma_kids_two(root, a, b, seed_of(a, b), rest_of(a, b), mm.kids, k);
        assert(set![a[k + 1].tax_id, b[k + 1].tax_id].len() == 2);
    } else if k + 1 == a.len() {
        assert(mm.marked.contains(a.last().tax_id));
    } else {
        assert(mm.marked.contains(b.last().tax_id));
    }
}

/// Where the ancestries share more than the root, the root's only child after
/// contraction is the deepest shared id.
proof fn lemma_lca_deep(root: i64, a: Seq<NodeView>, b: Seq<NodeView>, k: int)
    requires
        lineage_pair(root, a, b),
        one_parent_per_id(a, b),
        1 <= k < a.len(),
        k < b.len(),
        forall|i: int| 0 <= i <= k ==> #[trigger] a[i].tax_id == b[i].tax_id,
        !(k + 1 < a.len() && k + 1 < b.len() && a[k + 1].tax_id == b[k + 1].tax_id),
    ensures
        lca_id(simplified(marked_tree(root, a, b))) == a[k].tax_id,
{
    let la = a.len();
    let lb = b.len();
    let s1 = seed_of(a, b);
    let s2 = rest_of(a, b);
    let mm = marked_tree(root, a, b);
    let s = simplified(mm);
    lemma_marked_tree(root, a, b, k);
    let kk = mm.kids;
    let ea = a.last().tax_id;
    let eb = b.last().tax_id;
    assert(a[0].tax_id == root);
    lemma_kids_one(root, a, b, s1, s2, kk, a, 0);
    assert forall|j: int|
        1 <= j < k implies mm.kids.contains_key(#[trigger] a[j].tax_id) && mm.kids[a[j].tax_id]
        == set![a[j + 1].tax_id] && !mm.marked.contains(a[j].tax_id) by {
        assert(a[j + 1].tax_id == b[j + 1].tax_id);
        lemma_chain_node(root, a, b, a, b, j);
    };
    lemma_deep_stop(root, a, b, k);
    lemma_follow_chain(mm, a, 1, k);
    assert(s.kids.contains_key(root));
    assert(s.kids[root] == mm.kids[root].map(|c: i64| contract(mm, c)));
    lemma_image_one(mm.kids[root], a[1].tax_id, |c: i64| contract(mm, c));
    lemma_single_choose(s.kids[root], a[k].tax_id);
}

/// Where the ancestries share only the root and go on below it, the root keeps
/// two children after contraction.
proof fn lemma_lca_split(root: i64, a: Seq<NodeView>, b: Seq<NodeView>)
    requires
        lineage_pair(root, a, b),
        one_parent_per_id(a, b),
        a.len() >= 2,
        b.len() >= 2,
        forall|i: int| 1 <= i < a.len() && i < b.len() ==> #[trigger] a[i].tax_id != b[i].tax_id,
    ensures
        lca_id(simplified(marked_tree(root, a, b))) == root,
{
    let la = a.len();
    let lb = b.len();
    let s1 = seed_of(a, b);
    let s2 = rest_of(a, b);
    let mm = marked_tree(root, a, b);
    let s = simplified(mm);
    lemma_marked_tree(root, a, b, 0);
    let kk = mm.kids;
    let ea = a.last().tax_id;
    let eb = b.last().tax_id;
    lemma_kids_two(root, a, b, s1, s2, kk, 0);
    assert forall|j: int|
        1 <= j < la - 1 implies mm.kids.contains_key(#[trigger] a[j].tax_id) && mm.kids[a[j].tax_id]
        == set![a[j + 1].tax_id] && !mm.marked.contains(a[j].tax_id) by {
        if j < lb {
            assert(a[j].tax_id != b[j].tax_id);
        }
        lemma_chain_node(root, a, b, a, b, j);
    };
    assert forall|j: int|
        1 <= j < lb - 1 implies mm.kids.contains_key(#[trigger] b[j].tax_id) && mm.kids[b[j].tax_id]
        == set![b[j + 1].tax_id] && !mm.marked.contains(b[j].tax_id) by {
        if j < la {
            assert(a[j].tax_id != b[j].tax_id);
        }
        lemma_chain_node(root, a, b, b, a, j);
    };
    assert(mm.marked.contains(a[la - 1].tax_id));
    assert(mm.marked.contains(b[lb - 1].tax_id));
    lemma_follow_chain(mm, a, 1, la - 1);
    lemma_follow_chain(mm, b, 1, lb - 1);
    assert(ea != eb) by {
        if ea == eb {
            assert(a[la - 1].tax_id == b[lb - 1].tax_id);
        }
    };
    assert(s.kids.contains_key(root));
    assert(s.kids[root] == mm.kids[root].map(|c: i64| contract(mm, c)));
    lemma_image_two(mm.kids[root], a[1].tax_id, b[1].tax_id, |c: i64| contract(mm, c));
    assert(s.kids[root] == set![ea, eb]);
    assert(set![ea, eb].len() == 2);
}

/// When every id has one parent, the least common ancestor of two ancestries
/// (as `get_lca` returns it) is the deepest id they share: the last of their
/// common prefix.  In particular it is the root when one ancestry is the root
/// alone.
pub proof fn lemma_lca_is_deepest_shared(root: i64, a: Seq<NodeView>, b: Seq<NodeView>)
    requires
        lineage_pair(root, a, b),
        one_parent_per_id(a, b),
    ensures
        0 <= shared_from(a, b, 0) < a.len(),
        shared_from(a, b, 0) < b.len(),
        forall|i: int| 0 <= i <= shared_from(a, b, 0) ==> #[trigger] a[i].tax_id == b[i].tax_id,
        forall|i: int|
            shared_from(a, b, 0) < i < a.len() && i < b.len() ==> #[trigger] a[i].tax_id
                != b[i].tax_id,
        lca(root, a, b).tax_id == a[shared_from(a, b, 0)].tax_id,
{
    let k = shared_from(a, b, 0);
    lemma_shared_from(a, b, 0);
    assert forall|i: int| k < i < a.len() && i < b.len() implies #[trigger] a[i].tax_id
        != b[i].tax_id by {
        if a[i].tax_id == b[i].tax_id {
            lemma_shared_above(root, a, b, i, k + 1);
        }
    };
    assert(a[0].tax_id == root);
    lemma_marked_tree(root, a, b, k);
    lemma_marked_tree(root, a, b, 0);
    let la = a.len();
    let lb = b.len();
    if la == 1 || lb == 1 {
        assert(k == 0);
        assert(a.last().tax_id == root || b.last().tax_id == root);
    } else {
        assert(a.last().tax_id != root) by {
            if a.last().tax_id == root {
                assert(a[la - 1].tax_id == a[0].tax_id);
            }
        };
        assert(b.last().tax_id != root) by {
            if b.last().tax_id == root {
                assert(a[0].tax_id == b[lb - 1].tax_id);
            }
        };
        if k >= 1 {
            lemma_lca_deep(root, a, b, k);
        } else {
            lemma_lca_split(root, a, b);
        }
    }
}

} // verus!
