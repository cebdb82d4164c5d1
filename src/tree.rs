//! The taxonomy tree: ancestries merged into one id-keyed graph, marked
//! points of interest, contraction of unbranched chains, and rendering.
use std::collections::{HashMap, HashSet};
use vstd::prelude::*;

use crate::node::{opt_view, Node, NodeView};

verus! {

broadcast use vstd::std_specs::hash::group_hash_axioms;

/// The mathematical content of a [`Tree`].
pub struct TreeModel {
    /// The global root.
    pub root: i64,
    /// One node per id; the first inserted copy of an id wins.
    pub nodes: Map<i64, NodeView>,
    /// Parent id to the set of its child ids.
    pub kids: Map<i64, Set<i64>>,
    /// Protected ids.
    pub marked: Set<i64>,
    /// Display template set for the whole tree, if any.
    pub template: Option<Seq<char>>,
}

/// Strictly ascending, hence without repetition.
pub open spec fn ascending(s: Seq<i64>) -> bool {
    forall|i: int, j: int| 0 <= i < j < s.len() ==> s[i] < s[j]
}

/// The edge `node.parent_tax_id -> node.tax_id` added to `kids`, unless the
/// node is its own parent.
pub open spec fn with_edge(kids: Map<i64, Set<i64>>, n: NodeView) -> Map<i64, Set<i64>> {
    if n.tax_id == n.parent_tax_id {
        kids
    } else if kids.contains_key(n.parent_tax_id) {
        kids.insert(n.parent_tax_id, kids[n.parent_tax_id].insert(n.tax_id))
    } else {
        kids.insert(n.parent_tax_id, set![n.tax_id])
    }
}

/// The edges of all of `s`, added in order.
pub open spec fn with_edges(kids: Map<i64, Set<i64>>, s: Seq<NodeView>) -> Map<i64, Set<i64>>
    decreases s.len(),
{
    if s.len() == 0 {
        kids
    } else {
        with_edge(with_edges(kids, s.drop_last()), s.last())
    }
}

/// `n` stored under its id unless that id is already present.
pub open spec fn with_node(nodes: Map<i64, NodeView>, n: NodeView) -> Map<i64, NodeView> {
    if nodes.contains_key(n.tax_id) {
        nodes
    } else {
        nodes.insert(n.tax_id, n)
    }
}

/// All of `s` stored in order, the first copy of each id winning.
pub open spec fn with_nodes(nodes: Map<i64, NodeView>, s: Seq<NodeView>) -> Map<i64, NodeView>
    decreases s.len(),
{
    if s.len() == 0 {
        nodes
    } else {
        with_node(with_nodes(nodes, s.drop_last()), s.last())
    }
}

/// The model after merging the nodes `s`.
pub open spec fn merged(m: TreeModel, s: Seq<NodeView>) -> TreeModel {
    TreeModel { nodes: with_nodes(m.nodes, s), kids: with_edges(m.kids, s), ..m }
}

/// The model after marking `ids`.
pub open spec fn with_marks(m: TreeModel, ids: Set<i64>) -> TreeModel {
    TreeModel { marked: m.marked.union(ids), ..m }
}

/// The tree with root `root` and nothing else.
pub open spec fn empty_model(root: i64) -> TreeModel {
    TreeModel {
        root,
        nodes: Map::empty(),
        kids: Map::empty(),
        marked: Set::empty(),
        template: None,
    }
}

/// The views of a sequence of nodes.
pub open spec fn views(s: Seq<Node>) -> Seq<NodeView> {
    s.map_values(|n: Node| n@)
}

/// Properties every tree keeps: child sets are finite and non-empty, and every
/// child id has a node.
pub open spec fn model_ok(m: TreeModel) -> bool {
    &&& forall|p: i64| #[trigger]
        m.kids.contains_key(p) ==> m.kids[p].finite() && m.kids[p].len() > 0
    &&& forall|p: i64, c: i64|
        m.kids.contains_key(p) && #[trigger] m.kids[p].contains(c) ==> m.nodes.contains_key(c)
}

/// `h` strictly decreases from each parent to each of its children.
pub open spec fn ranks(kids: Map<i64, Set<i64>>, h: spec_fn(i64) -> nat) -> bool {
    forall|p: i64, c: i64| kids.contains_key(p) && #[trigger] kids[p].contains(c) ==> h(c) < h(p)
}

/// The child relation has no cycle: some ranking decreases along every edge.
pub open spec fn acyclic(m: TreeModel) -> bool {
    exists|h: spec_fn(i64) -> nat| ranks(m.kids, h)
}

/// A ranking of an acyclic model.
pub open spec fn rank(m: TreeModel) -> spec_fn(i64) -> nat {
    choose|h: spec_fn(i64) -> nat| ranks(m.kids, h)
}

/// `c` is contracted away: it has exactly one child and is not marked.
pub open spec fn passes(m: TreeModel, c: i64) -> bool {
    m.kids.contains_key(c) && m.kids[c].len() == 1 && !m.marked.contains(c)
}

/// The node that replaces `c` after contraction: the end of the chain of
/// unmarked single-child nodes that starts at `c`.  (In an acyclic model the
/// rank test always holds; it only keeps the definition total.)
pub open spec fn contract(m: TreeModel, c: i64) -> i64
    decreases rank(m)(c),
{
    if passes(m, c) {
        let n = m.kids[c].choose();
        if rank(m)(n) < rank(m)(c) {
            contract(m, n)
        } else {
            c
        }
    } else {
        c
    }
}

/// The model after contraction: each child is replaced by the end of its chain.
pub open spec fn simplified(m: TreeModel) -> TreeModel {
    TreeModel {
        kids: Map::new(
            |p: i64| m.kids.contains_key(p),
            |p: i64| m.kids[p].map(|c: i64| contract(m, c)),
        ),
        ..m
    }
}

/// A strictly ascending sequence holds each of its elements once.
pub proof fn lemma_ascending_set(v: Seq<i64>)
    requires
        ascending(v),
    ensures
        v.no_duplicates(),
        v.to_set().finite(),
        v.to_set().len() == v.len(),
{
    vstd::seq_lib::seq_to_set_is_finite(v);
    assert forall|i: int, j: int| 0 <= i < v.len() && 0 <= j < v.len() && i != j implies v[i]
        != v[j] by {
        if i < j {
            assert(v[i] < v[j]);
        } else {
            assert(v[j] < v[i]);
        }
    };
    v.unique_seq_to_set();
}

/// The only element of a one-element set is its `choose`.
pub proof fn lemma_single_choose(s: Set<i64>, x: i64)
    requires
        s.finite(),
        s.len() == 1,
        s.contains(x),
    ensures
        s.choose() == x,
{
    assert(s.remove(x).len() == 0);
    assert(s.remove(x) =~= Set::empty()) by {
        s.remove(x).lemma_len0_is_empty();
    };
    assert(s.contains(s.choose()));
    if s.choose() != x {
        assert(s.remove(x).contains(s.choose()));
    }
}

/// Contraction only moves down edges: the result ranks no higher, is `c`
/// itself or a child id, and so has a node whenever `c` has one.
pub proof fn lemma_contract_down(m: TreeModel, c: i64)
    requires
        model_ok(m),
        acyclic(m),
    ensures
        rank(m)(contract(m, c)) <= rank(m)(c),
        m.nodes.contains_key(c) ==> m.nodes.contains_key(contract(m, c)),
    decreases rank(m)(c),
{
    if passes(m, c) {
        let n = m.kids[c].choose();
        assert(m.kids[c].contains(n));
        if rank(m)(n) < rank(m)(c) {
            lemma_contract_down(m, n);
        }
    }
}

/// The ids of a finite set in ascending order.
pub open spec fn in_order(s: Set<i64>) -> Seq<i64> {
    choose|q: Seq<i64>| ascending(q) && q.to_set() == s
}

/// Every node has a scientific name to display.
pub open spec fn nodes_ok(m: TreeModel) -> bool {
    forall|id: i64| #[trigger] m.nodes.contains_key(id) ==> m.nodes[id].has_sci_name()
}

/// The template used for nodes that carry none of their own.
pub open spec fn default_template() -> Seq<char> {
    "%rank: %name"@
}

/// The template for `id`: the tree's, else the node's own, else the default.
pub open spec fn template_of(m: TreeModel, id: i64) -> Seq<char> {
    match m.template {
        Some(t) => t,
        None => match m.nodes[id].format_string {
            Some(t) => t,
            None => default_template(),
        },
    }
}

/// The display text of `id` in the tree.
pub open spec fn label(m: TreeModel, id: i64) -> Seq<char> {
    m.nodes[id].filled(template_of(m, id))
}

/// Newick-like text of the subtree at `id`: the node's text, then, when it has
/// children, `,(` + the children's texts joined by `,` + `)`.  Rendering
/// descends by rank, which in an acyclic model always decreases to a child.
pub open spec fn newick_of(m: TreeModel, id: i64) -> Seq<char>
    decreases rank(m)(id), 1nat, 0nat,
{
    label(m, id) + if m.kids.contains_key(id) {
        ",("@ + newick_list(m, id, in_order(m.kids[id])) + ")"@
    } else {
        Seq::empty()
    }
}

/// The Newick-like texts of the children `q` of `p`, joined by `,`.
pub open spec fn newick_list(m: TreeModel, p: i64, q: Seq<i64>) -> Seq<char>
    decreases rank(m)(p), 0nat, q.len(),
{
    if q.len() == 0 {
        Seq::empty()
    } else {
        let item = if rank(m)(q.last()) < rank(m)(p) {
            newick_of(m, q.last())
        } else {
            Seq::empty()
        };
        if q.len() == 1 {
            item
        } else {
            newick_list(m, p, q.drop_last()) + ","@ + item
        }
    }
}

/// The whole tree in Newick-like form: `(` + text of the root + `);`.
pub open spec fn newick(m: TreeModel) -> Seq<char> {
    "("@ + newick_of(m, m.root) + ");"@
}

/// `s` painted bold for a terminal.
pub open spec fn bold_text(s: Seq<char>) -> Seq<char> {
    seq!['\u{1b}', '[', '1', 'm'] + s + seq!['\u{1b}', '[', '0', 'm']
}

/// The text shown in the diagram for `id`: bold when marked.
pub open spec fn shown(m: TreeModel, id: i64) -> Seq<char> {
    if m.marked.contains(id) {
        bold_text(label(m, id))
    } else {
        label(m, id)
    }
}

/// Diagram lines of the subtree at `id`.  The line starts with `stem` and the
/// connector `conn`; the children's stem continues with a bar when `not_last`
/// (this node has later siblings) and a blank otherwise.
pub open spec fn diagram_of(
    m: TreeModel,
    id: i64,
    stem: Seq<char>,
    conn: Seq<char>,
    not_last: bool,
) -> Seq<char>
    decreases rank(m)(id), 1nat, 0nat,
{
    if m.kids.contains_key(id) {
        stem + conn + "\u{2500}\u{252C}\u{2500} "@ + shown(m, id) + "\n"@ + diagram_list(
            m,
            id,
            stem + (if not_last {
                "\u{2502}"@
            } else {
                " "@
            }) + " "@,
            in_order(m.kids[id]),
            m.kids[id].len(),
        )
    } else {
        stem + conn + "\u{2500}\u{2500} "@ + shown(m, id) + "\n"@
    }
}

/// Diagram lines of the first children `q` of `p`, out of `total`; the last
/// of all gets the closing connector.
pub open spec fn diagram_list(
    m: TreeModel,
    p: i64,
    stem: Seq<char>,
    q: Seq<i64>,
    total: nat,
) -> Seq<char>
    decreases rank(m)(p), 0nat, q.len(),
{
    if q.len() == 0 {
        Seq::empty()
    } else {
        let last = q.len() == total;
        let item = if rank(m)(q.last()) < rank(m)(p) {
            diagram_of(
                m,
                q.last(),
                stem,
                if last {
                    "\u{2514}"@
                } else {
                    "\u{251C}"@
                },
                !last,
            )
        } else {
            Seq::empty()
        };
        diagram_list(m, p, stem, q.drop_last(), total) + item
    }
}

/// The whole tree as an indented diagram, one line per node, depth first.
pub open spec fn diagram(m: TreeModel) -> Seq<char> {
    diagram_of(m, m.root, Seq::empty(), " "@, false)
}

/// Two ascending sequences with the same elements are equal.
pub proof fn lemma_ascending_unique(a: Seq<i64>, b: Seq<i64>)
    requires
        ascending(a),
        ascending(b),
        a.to_set() == b.to_set(),
    ensures
        a == b,
    decreases a.len(),
{
    lemma_ascending_set(a);
    lemma_ascending_set(b);
    if a.len() > 0 {
        assert(b.len() > 0);
        assert(a.to_set().contains(a[0]));
        assert(b.to_set().contains(b[0]));
        let k = choose|k: int| 0 <= k < b.len() && b[k] == a[0];
        let k2 = choose|k: int| 0 <= k < a.len() && a[k] == b[0];
        if k > 0 {
            assert(b[0] < b[k]);
        }
        if k2 > 0 {
            assert(a[0] < a[k2]);
        }
        assert(a[0] == b[0]);
        let a1 = a.drop_first();
        let b1 = b.drop_first();
        assert(a1.to_set() =~= b1.to_set()) by {
            assert forall|y: i64| a1.to_set().contains(y) implies b1.to_set().contains(y) by {
                let i = choose|i: int| 0 <= i < a1.len() && a1[i] == y;
                assert(a[0] < a[i + 1]);
                assert(b.to_set().contains(y));
                let j = choose|j: int| 0 <= j < b.len() && b[j] == y;
                assert(j != 0);
                assert(b1[j - 1] == y);
            };
            assert forall|y: i64| b1.to_set().contains(y) implies a1.to_set().contains(y) by {
                let i = choose|i: int| 0 <= i < b1.len() && b1[i] == y;
                assert(b[0] < b[i + 1]);
                assert(a.to_set().contains(y));
                let j = choose|j: int| 0 <= j < a.len() && a[j] == y;
                assert(j != 0);
                assert(a1[j - 1] == y);
            };
        };
        lemma_ascending_unique(a1, b1);
        assert(a =~= b) by {
            assert forall|i: int| 0 <= i < a.len() implies a[i] == b[i] by {
                if i > 0 {
                    assert(a[i] == a1[i - 1]);
                }
            };
        };
    } else {
        assert(b.len() == 0);
        assert(a =~= b);
    }
}

/// An ascending sequence is the ordered listing of its own elements.
proof fn lemma_in_order(v: Seq<i64>)
    requires
        ascending(v),
    ensures
        in_order(v.to_set()) == v,
{
    let q = in_order(v.to_set());
    assert(ascending(q) && q.to_set() == v.to_set());
    lemma_ascending_unique(q, v);
}

/// Relies on ansi_term's `Style::new().bold().paint(..)` and its `Display`:
/// a bold style writes the prefix `ESC[1m`, the text, then the reset `ESC[0m`.
#[verifier::external_body]
fn paint_bold(s: &str) -> (r: String)
    ensures
        r@ == bold_text(s@),
{
    ansi_term::Style::new().bold().paint(s).to_string()
}

/// The rank recorded for `x`, zero when none is.
pub open spec fn rank_in(done: Map<i64, usize>, x: i64) -> nat {
    if done.contains_key(x) {
        done[x] as nat
    } else {
        0
    }
}

/// Ranks recorded so far: only parents are ranked, each above all of its
/// children, which are leaves or ranked themselves; no rank exceeds the number
/// of ranked ids.
pub open spec fn ranked_ok(m: TreeModel, done: Map<i64, usize>) -> bool {
    &&& done.dom().finite()
    &&& forall|p: i64| #[trigger]
        done.contains_key(p) ==> m.kids.contains_key(p) && done[p] <= done.dom().len()
    &&& forall|p: i64, c: i64|
        done.contains_key(p) && #[trigger] m.kids[p].contains(c) ==> (!m.kids.contains_key(c)
            || done.contains_key(c)) && rank_in(done, c) < rank_in(done, p)
}

/// Every unranked parent has an unranked parent among its children.
pub open spec fn stuck(m: TreeModel, done: Map<i64, usize>) -> bool {
    forall|p: i64| #[trigger]
        m.kids.contains_key(p) && !done.contains_key(p) ==> exists|c: i64|
            #[trigger] m.kids[p].contains(c) && m.kids.contains_key(c) && !done.contains_key(c)
}

/// Under a ranking, every unranked parent of a stuck ranking has rank above
/// any bound `b`: so no such parent exists.
proof fn lemma_stuck_unbounded(
    m: TreeModel,
    done: Map<i64, usize>,
    h: spec_fn(i64) -> nat,
    b: nat,
    p: i64,
)
    requires
        ranks(m.kids, h),
        stuck(m, done),
        m.kids.contains_key(p),
        !done.contains_key(p),
    ensures
        h(p) > b,
    decreases b,
{
    let c = choose|c: i64|
        #[trigger] m.kids[p].contains(c) && m.kids.contains_key(c) && !done.contains_key(c);
    assert(h(c) < h(p));
    if b > 0 {
        lemma_stuck_unbounded(m, done, h, (b - 1) as nat, c);
    }
}

fn rank_of(done: &HashMap<i64, usize>, x: i64) -> (r: usize)
    ensures
        r as nat == rank_in(done@, x),
{
    match done.get(&x) {
        Some(v) => *v,
        None => 0,
    }
}

/// A taxonomy tree over nodes keyed by id.
pub struct Tree {
    root: i64,
    nodes: HashMap<i64, Node>,
    children: HashMap<i64, Vec<i64>>,
    parents: Vec<i64>,
    marked: HashSet<i64>,
    template: Option<String>,
}

impl View for Tree {
    type V = TreeModel;

    closed spec fn view(&self) -> TreeModel {
        TreeModel {
            root: self.root,
            nodes: Map::new(|id: i64| self.nodes@.contains_key(id), |id: i64| self.nodes@[id]@),
            kids: Map::new(
                |p: i64| self.children@.contains_key(p),
                |p: i64| self.children@[p]@.to_set(),
            ),
            marked: self.marked@,
            template: opt_view(self.template),
        }
    }
}

/// `v` with `x` inserted in ascending position, unless already present.
fn insert_sorted(v: Vec<i64>, x: i64) -> (r: Vec<i64>)
    requires
        ascending(v@),
    ensures
        ascending(r@),
        r@.to_set() == v@.to_set().insert(x),
        r@.len() > 0,
{
    let mut v = v;
    let mut pos: usize = 0;
    while pos < v.len() && v[pos] < x
        invariant
            pos <= v@.len(),
            ascending(v@),
            forall|j: int| 0 <= j < pos ==> v@[j] < x,
        decreases v@.len() - pos,
    {
        pos = pos + 1;
    }
    if pos < v.len() && v[pos] == x {
        assert(v@.to_set() =~= v@.to_set().insert(x)) by {
            assert(v@.contains(x));
        };
        return v;
    }
    let ghost old_v = v@;
    v.insert(pos, x);
    assert(v@ =~= old_v.insert(pos as int, x));
    assert(v@.to_set() =~= old_v.to_set().insert(x)) by {
        assert forall|y: i64| v@.contains(y) implies old_v.to_set().insert(x).contains(y) by {
            let k = choose|k: int| 0 <= k < v@.len() && v@[k] == y;
            if k < pos {
                assert(old_v[k] == y);
            } else if k > pos {
                assert(old_v[k - 1] == y);
            }
        };
        assert forall|y: i64| old_v.to_set().insert(x).contains(y) implies v@.contains(y) by {
            if y == x {
                assert(v@[pos as int] == x);
            } else {
                let k = choose|k: int| 0 <= k < old_v.len() && old_v[k] == y;
                if k < pos {
                    assert(v@[k] == y);
                } else {
                    assert(v@[k + 1] == y);
                }
            }
        };
    };
    v
}

impl Tree {
    /// Internal consistency of the representation.
    pub closed spec fn wf(&self) -> bool {
        &&& forall|p: i64| #[trigger]
            self.children@.contains_key(p) ==> ascending(self.children@[p]@)
                && self.children@[p]@.len() > 0
        &&& self.parents@.no_duplicates()
        &&& forall|p: i64|
            #![trigger self.children@.contains_key(p)]
            #![trigger self.parents@.contains(p)]
            self.children@.contains_key(p) <==> self.parents@.contains(p)
        &&& forall|p: i64, c: i64|
            self.children@.contains_key(p) && #[trigger] self.children@[p]@.contains(c)
                ==> self.nodes@.contains_key(c)
    }

    /// A well-formed tree's model keeps the invariants of [`model_ok`].
    pub proof fn lemma_model_ok(&self)
        requires
            self.wf(),
        ensures
            model_ok(self@),
    {
        assert forall|p: i64| #[trigger] self@.kids.contains_key(p) implies self@.kids[p].finite()
            && self@.kids[p].len() > 0 by {
            lemma_ascending_set(self.children@[p]@);
        };
        assert forall|p: i64, c: i64|
            self@.kids.contains_key(p) && #[trigger] self@.kids[p].contains(c) implies self@.nodes.contains_key(
            c,
        ) by {
            assert(self.children@[p]@.contains(c));
        };
    }

    /// A tree rooted at `root_id` holding the given nodes.
    pub fn new(root_id: i64, nodes: &[Node]) -> (r: Tree)
        ensures
            r.wf(),
            r@ == merged(empty_model(root_id), views(nodes@)),
    {
        let mut tree = Tree {
            root: root_id,
            nodes: HashMap::new(),
            children: HashMap::new(),
            parents: Vec::new(),
            marked: HashSet::new(),
            template: None,
        };
        assert(tree@ =~= empty_model(root_id)) by {
            assert(tree@.nodes =~= Map::empty());
            assert(tree@.kids =~= Map::empty());
        };
        tree.add_nodes(nodes);
        tree
    }

    /// Merge the given nodes: each unseen id is stored (a later copy of an id
    /// is ignored), and each node that is not its own parent becomes a child of
    /// its parent.
    pub fn add_nodes(&mut self, nodes: &[Node])
        requires
            old(self).wf(),
        ensures
            final(self).wf(),
            final(self)@ == merged(old(self)@, views(nodes@)),
    {
        let ghost s = views(nodes@);
        let ghost m0 = self@;
        let mut i: usize = 0;
        assert(s.subrange(0, 0) =~= Seq::<NodeView>::empty());
        while i < nodes.len()
            invariant
                i <= nodes@.len(),
                s == views(nodes@),
                self.wf(),
                self@ == merged(m0, s.subrange(0, i as int)),
            decreases nodes@.len() - i,
        {
            let n = &nodes[i];
            let ghost before = self@;
            let ghost old_children = self.children@;
            let ghost old_parents = self.parents@;
            let id = n.tax_id;
            if !self.nodes.contains_key(&id) {
                self.nodes.insert(id, n.duplicate());
            }
            if id != n.parent_tax_id {
                let p = n.parent_tax_id;
                match self.children.remove(&p) {
                    Some(v) => {
                        let w = insert_sorted(v, id);
                        self.children.insert(p, w);
                    },
                    None => {
                        let w: Vec<i64> = vec![id];
                        assert(w@.to_set() =~= set![id]) by {
                            assert(w@[0] == id);
                        };
                        self.children.insert(p, w);
                        self.parents.push(p);
                    },
                }
            }
            proof {
                let t = s.subrange(0, i + 1);
                assert(t.drop_last() =~= s.subrange(0, i as int));
                assert(t.last() == nodes@[i as int]@);
                assert(self@.nodes =~= with_node(before.nodes, nodes@[i as int]@));
                assert(self@.kids =~= with_edge(before.kids, nodes@[i as int]@));
                assert(self@ =~= merged(m0, t));
                assert forall|q: i64|
                    #![trigger self.children@.contains_key(q)]
                    #![trigger self.parents@.contains(q)]
                    self.children@.contains_key(q) <==> self.parents@.contains(q) by {
                    if q != n.parent_tax_id || id == n.parent_tax_id {
                        assert(self.children@.contains_key(q) == old_children.contains_key(q));
                        assert(self.parents@.contains(q) == old_parents.contains(q)) by {
                            if self.parents@.contains(q) && !old_parents.contains(q) {
                                let k = choose|k: int|
                                    0 <= k < self.parents@.len() && self.parents@[k] == q;
                                assert(k == old_parents.len());
                            }
                            if old_parents.contains(q) {
                                let k = choose|k: int|
                                    0 <= k < old_parents.len() && old_parents[k] == q;
                                assert(self.parents@[k] == q);
                            }
                        };
                    } else {
                        assert(self.children@.contains_key(q));
                        if old_children.contains_key(q) {
                            assert(old_parents.contains(q));
                            let k = choose|k: int|
                                0 <= k < old_parents.len() && old_parents[k] == q;
                            assert(self.parents@[k] == q);
                        } else {
                            assert(self.parents@[self.parents@.len() - 1] == q);
                        }
                    }
                };
                assert(self.parents@.no_duplicates()) by {
                    if self.parents@.len() != old_parents.len() {
                        assert(!old_parents.contains(n.parent_tax_id));
                        assert(self.parents@ == old_parents.push(n.parent_tax_id));
                    }
                };
                assert forall|p: i64, c: i64|
                    self.children@.contains_key(p) && #[trigger] self.children@[p]@.contains(c)
                        implies self.nodes@.contains_key(c) by {
                    if old_children.contains_key(p) && old_children[p]@.contains(c) {
                    } else {
                        assert(self@.kids[p].contains(c));
                    }
                };
            }
            i = i + 1;
        }
        assert(s.subrange(0, nodes@.len() as int) =~= s);
    }

    /// Mark the given ids.
    pub fn mark_nodes(&mut self, taxids: &[i64])
        requires
            old(self).wf(),
        ensures
            final(self).wf(),
            final(self)@ == with_marks(old(self)@, taxids@.to_set()),
    {
        let ghost m0 = self@;
        let mut i: usize = 0;
        assert(taxids@.subrange(0, 0).to_set() =~= Set::<i64>::empty());
        assert(m0.marked.union(Set::<i64>::empty()) =~= m0.marked);
        while i < taxids.len()
            invariant
                i <= taxids@.len(),
                self.wf(),
                self@ == with_marks(m0, taxids@.subrange(0, i as int).to_set()),
            decreases taxids@.len() - i,
        {
            self.marked.insert(taxids[i]);
            proof {
                assert(taxids@.subrange(0, i + 1).to_set() =~= taxids@.subrange(
                    0,
                    i as int,
                ).to_set().insert(taxids@[i as int])) by {
                    let a = taxids@.subrange(0, i + 1);
                    let b = taxids@.subrange(0, i as int);
                    assert forall|y: i64| a.contains(y) implies b.to_set().insert(
                        taxids@[i as int],
                    ).contains(y) by {
                        let k = choose|k: int| 0 <= k < a.len() && a[k] == y;
                        if k < i {
                            assert(b[k] == y);
                        }
                    };
                    assert forall|y: i64| b.to_set().insert(taxids@[i as int]).contains(y) implies a.contains(
                        y,
                    ) by {
                        if y == taxids@[i as int] {
                            assert(a[i as int] == y);
                        } else {
                            let k = choose|k: int| 0 <= k < b.len() && b[k] == y;
                            assert(a[k] == y);
                        }
                    };
                };
                assert(self@.marked =~= m0.marked.union(taxids@.subrange(0, i + 1).to_set()));
                assert(self@ =~= with_marks(m0, taxids@.subrange(0, i + 1).to_set()));
            }
            i = i + 1;
        }
        assert(taxids@.subrange(0, taxids@.len() as int) =~= taxids@);
    }

    /// Use `format_string` as the display template of every node of the tree.
    pub fn set_format_string(&mut self, format_string: String)
        requires
            old(self).wf(),
        ensures
            final(self).wf(),
            final(self)@ == (TreeModel { template: Some(format_string@), ..old(self)@ }),
    {
        self.template = Some(format_string);
    }

    /// The end of the chain of unmarked single-child nodes starting at `c`.
    fn follow(&self, c: i64) -> (r: i64)
        requires
            self.wf(),
            acyclic(self@),
        ensures
            r == contract(self@, c),
    {
        let ghost m = self@;
        let ghost h = rank(m);
        let mut cur = c;
        loop
            invariant
                self.wf(),
                m == self@,
                h == rank(m),
                ranks(m.kids, h),
                contract(m, cur) == contract(m, c),
            decreases h(cur),
        {
            match self.children.get(&cur) {
                Some(v) => {
                    proof {
                        lemma_ascending_set(v@);
                    }
                    if v.len() == 1 && !self.marked.contains(&cur) {
                        let next = v[0];
                        proof {
                            assert(m.kids[cur] == v@.to_set());
                            assert(v@.to_set().contains(next)) by {
                                assert(v@[0] == next);
                            };
                            lemma_single_choose(m.kids[cur], next);
                        }
                        cur = next;
                    } else {
                        return cur;
                    }
                },
                None => {
                    return cur;
                },
            }
        }
    }

    /// The contracted children of `v`, ascending.
    fn contract_all(&self, v: &Vec<i64>) -> (r: Vec<i64>)
        requires
            self.wf(),
            acyclic(self@),
            v@.len() > 0,
        ensures
            ascending(r@),
            r@.len() > 0,
            r@.to_set() == v@.to_set().map(|c: i64| contract(self@, c)),
    {
        let ghost f = |c: i64| contract(self@, c);
        let mut r: Vec<i64> = Vec::new();
        let mut j: usize = 0;
        assert(v@.subrange(0, 0).to_set().map(f) =~= Set::<i64>::empty());
        assert(r@.to_set() =~= Set::<i64>::empty());
        while j < v.len()
            invariant
                self.wf(),
                acyclic(self@),
                j <= v@.len(),
                ascending(r@),
                j > 0 ==> r@.len() > 0,
                f == (|c: i64| contract(self@, c)),
                r@.to_set() == v@.subrange(0, j as int).to_set().map(f),
            decreases v@.len() - j,
        {
            let d = self.follow(v[j]);
            r = insert_sorted(r, d);
            proof {
                let a = v@.subrange(0, j + 1);
                let b = v@.subrange(0, j as int);
                assert(a.to_set() =~= b.to_set().insert(v@[j as int])) by {
                    assert forall|y: i64| a.contains(y) implies b.to_set().insert(
                        v@[j as int],
                    ).contains(y) by {
                        let k = choose|k: int| 0 <= k < a.len() && a[k] == y;
                        if k < j {
                            assert(b[k] == y);
                        }
                    };
                    assert forall|y: i64| b.to_set().insert(v@[j as int]).contains(y) implies a.contains(
                        y,
                    ) by {
                        if y == v@[j as int] {
                            assert(a[j as int] == y);
                        } else {
                            let k = choose|k: int| 0 <= k < b.len() && b[k] == y;
                            assert(a[k] == y);
                        }
                    };
                };
                assert(a.to_set().map(f) =~= b.to_set().map(f).insert(d)) by {
                    assert forall|y: i64| a.to_set().map(f).contains(y) implies b.to_set().map(
                        f,
                    ).insert(d).contains(y) by {
                        let x = choose|x: i64| a.to_set().contains(x) && f(x) == y;
                        if x != v@[j as int] {
                            assert(b.to_set().contains(x));
                        }
                    };
                    assert forall|y: i64| b.to_set().map(f).insert(d).contains(y) implies a.to_set().map(
                        f,
                    ).contains(y) by {
                        if y == d {
                            assert(a.to_set().contains(v@[j as int]));
                        } else {
                            let x = choose|x: i64| b.to_set().contains(x) && f(x) == y;
                            assert(a.to_set().contains(x));
                        }
                    };
                };
            }
            j = j + 1;
        }
        assert(v@.subrange(0, v@.len() as int) =~= v@);
        r
    }

    /// Contract every chain of unmarked single-child nodes: each child is
    /// replaced by the first node of its chain that is marked or has zero or
    /// several children.
    pub fn simplify(&mut self)
        requires
            old(self).wf(),
            acyclic(old(self)@),
        ensures
            final(self).wf(),
            final(self)@ == simplified(old(self)@),
            acyclic(final(self)@),
    {
        let ghost m0 = self@;
        proof {
            self.lemma_model_ok();
        }
        let mut fresh: HashMap<i64, Vec<i64>> = HashMap::new();
        let mut i: usize = 0;
        while i < self.parents.len()
            invariant
                self.wf(),
                acyclic(self@),
                m0 == self@,
                i <= self.parents@.len(),
                forall|q: i64| #[trigger]
                    fresh@.contains_key(q) <==> self.parents@.subrange(0, i as int).contains(q),
                forall|q: i64| #[trigger]
                    fresh@.contains_key(q) ==> ascending(fresh@[q]@) && fresh@[q]@.len() > 0
                        && fresh@[q]@.to_set() == m0.kids[q].map(|c: i64| contract(m0, c)),
            decreases self.parents@.len() - i,
        {
            let p = self.parents[i];
            assert(self.parents@.contains(p));
            let v = self.children.get(&p).unwrap();
            let w = self.contract_all(v);
            fresh.insert(p, w);
            proof {
                assert forall|q: i64| #[trigger]
                    fresh@.contains_key(q) <==> self.parents@.subrange(0, i + 1).contains(q) by {
                    let a = self.parents@.subrange(0, i + 1);
                    let b = self.parents@.subrange(0, i as int);
                    if b.contains(q) {
                        let k = choose|k: int| 0 <= k < b.len() && b[k] == q;
                        assert(a[k] == q);
                    }
                    if a.contains(q) && q != p {
                        let k = choose|k: int| 0 <= k < a.len() && a[k] == q;
                        assert(b[k] == q);
                    }
                    if q == p {
                        assert(a[i as int] == q);
                    }
                };
            }
            i = i + 1;
        }
        assert(self.parents@.subrange(0, self.parents@.len() as int) =~= self.parents@);
        self.children = fresh;
        proof {
            let m1 = self@;
            assert(m1.kids =~= simplified(m0).kids);
            assert(m1 =~= simplified(m0));
            assert forall|p: i64, c: i64|
                self.children@.contains_key(p) && #[trigger] self.children@[p]@.contains(c)
                    implies self.nodes@.contains_key(c) by {
                assert(m1.kids[p].contains(c));
                let x = choose|x: i64| m0.kids[p].contains(x) && contract(m0, x) == c;
                lemma_contract_down(m0, x);
            };
            let h = rank(m0);
            assert(ranks(m1.kids, h)) by {
                assert forall|p: i64, c: i64|
                    m1.kids.contains_key(p) && #[trigger] m1.kids[p].contains(c) implies h(c) < h(
                        p,
                    ) by {
                    let x = choose|x: i64| m0.kids[p].contains(x) && contract(m0, x) == c;
                    lemma_contract_down(m0, x);
                };
            };
        }
    }
    /// The display text of `id` in this tree.
    fn label(&self, id: i64) -> (r: String)
        requires
            self.wf(),
            nodes_ok(self@),
            self@.nodes.contains_key(id),
        ensures
            r@ == label(self@, id),
    {
        let node = self.nodes.get(&id).unwrap();
        assert(self@.nodes[id] == node@);
        let t: &str = match &self.template {
            Some(t) => t.as_str(),
            None => match &node.format_string {
                Some(t) => t.as_str(),
                None => "%rank: %name",
            },
        };
        node.fill_template(t)
    }

    fn newick_into(&self, out: &mut String, id: i64)
        requires
            self.wf(),
            acyclic(self@),
            nodes_ok(self@),
            self@.nodes.contains_key(id),
        ensures
            final(out)@ == old(out)@ + newick_of(self@, id),
        decreases rank(self@)(id),
    {
        let ghost m = self@;
        assert(ranks(m.kids, rank(m)));
        let text = self.label(id);
        out.append(text.as_str());
        match self.children.get(&id) {
            Some(v) => {
                proof {
                    lemma_in_order(v@);
                }
                let ghost base = out@;
                out.append(",(");
                let mut j: usize = 0;
                while j < v.len()
                    invariant
                        self.wf(),
                        acyclic(self@),
                        nodes_ok(self@),
                        m == self@,
                        ranks(m.kids, rank(m)),
                        m.kids.contains_key(id),
                        m.kids[id] == v@.to_set(),
                        j <= v@.len(),
                        out@ == base + ",("@ + newick_list(m, id, v@.subrange(0, j as int)),
                    decreases v@.len() - j,
                {
                    if j > 0 {
                        out.append(",");
                    }
                    assert(v@.to_set().contains(v@[j as int]));
                    self.newick_into(out, v[j]);
                    proof {
                        let q = v@.subrange(0, j + 1);
                        assert(q.drop_last() =~= v@.subrange(0, j as int));
                        assert(q.last() == v@[j as int]);
                        assert(out@ =~= base + ",("@ + newick_list(m, id, q));
                    }
                    j = j + 1;
                }
                out.append(")");
                assert(v@.subrange(0, v@.len() as int) =~= v@);
                assert(final(out)@ =~= old(out)@ + newick_of(self@, id));
            },
            None => {
                assert(final(out)@ =~= old(out)@ + newick_of(self@, id));
            },
        }
    }

    /// The tree as `(` + root text + `);`, where a node with children is written
    /// as its text, then `,(`, its children's texts joined by `,` in ascending
    /// id order, and `)`.
    pub fn to_newick(&self) -> (r: String)
        requires
            self.wf(),
            acyclic(self@),
            nodes_ok(self@),
            self@.nodes.contains_key(self@.root),
        ensures
            r@ == newick(self@),
    {
        let mut out = String::new();
        out.append("(");
        self.newick_into(&mut out, self.root);
        out.append(");");
        assert(out@ =~= newick(self@));
        out
    }

    fn diagram_into(&self, out: &mut String, id: i64, stem: &String, conn: &str, not_last: bool)
        requires
            self.wf(),
            acyclic(self@),
            nodes_ok(self@),
            self@.nodes.contains_key(id),
        ensures
            final(out)@ == old(out)@ + diagram_of(self@, id, stem@, conn@, not_last),
        decreases rank(self@)(id),
    {
        let ghost m = self@;
        assert(ranks(m.kids, rank(m)));
        let text = self.label(id);
        let shown_text = if self.marked.contains(&id) {
            paint_bold(text.as_str())
        } else {
            text
        };
        out.append(stem.as_str());
        out.append(conn);
        match self.children.get(&id) {
            Some(v) => {
                proof {
                    lemma_in_order(v@);
                    lemma_ascending_set(v@);
                }
                out.append("\u{2500}\u{252C}\u{2500} ");
                out.append(shown_text.as_str());
                out.append("\n");
                let ghost base = out@;
                let mut inner = stem.clone();
                if not_last {
                    inner.append("\u{2502}");
                } else {
                    inner.append(" ");
                }
                inner.append(" ");
                let n = v.len();
                let mut j: usize = 0;
                assert(v@.subrange(0, 0) =~= Seq::<i64>::empty());
                assert(base + Seq::<char>::empty() =~= base);
                while j < n
                    invariant
                        self.wf(),
                        acyclic(self@),
                        nodes_ok(self@),
                        m == self@,
                        ranks(m.kids, rank(m)),
                        m.kids.contains_key(id),
                        m.kids[id] == v@.to_set(),
                        n == v@.len(),
                        n == m.kids[id].len(),
                        j <= n,
                        out@ == base + diagram_list(m, id, inner@, v@.subrange(0, j as int), n as nat),
                    decreases n - j,
                {
                    assert(v@.to_set().contains(v@[j as int]));
                    let ghost before = out@;
                    if j + 1 == n {
                        self.diagram_into(out, v[j], &inner, "\u{2514}", false);
                    } else {
                        self.diagram_into(out, v[j], &inner, "\u{251C}", true);
                    }
                    proof {
                        let q = v@.subrange(0, j + 1);
                        assert(q.drop_last() =~= v@.subrange(0, j as int));
                        assert(q.last() == v@[j as int]);
                        assert(out@ =~= base + diagram_list(m, id, inner@, q, n as nat));
                    }
                    j = j + 1;
                }
                assert(v@.subrange(0, v@.len() as int) =~= v@);
                assert(final(out)@ =~= old(out)@ + diagram_of(self@, id, stem@, conn@, not_last));
            },
            None => {
                out.append("\u{2500}\u{2500} ");
                out.append(shown_text.as_str());
                out.append("\n");
                assert(final(out)@ =~= old(out)@ + diagram_of(self@, id, stem@, conn@, not_last));
            },
        }
    }

    /// The tree as an indented diagram: depth first from the root, children in
    /// ascending id order, marked nodes in bold.
    pub fn to_diagram(&self) -> (r: String)
        requires
            self.wf(),
            acyclic(self@),
            nodes_ok(self@),
            self@.nodes.contains_key(self@.root),
        ensures
            r@ == diagram(self@),
    {
        let mut out = String::new();
        let stem = String::new();
        self.diagram_into(&mut out, self.root, &stem, " ", false);
        assert(out@ =~= diagram(self@));
        out
    }
    /// The root id.
    pub fn root(&self) -> (r: i64)
        ensures
            r == self@.root,
    {
        self.root
    }

    /// The node stored under `id`, if any.
    pub fn node(&self, id: i64) -> (r: Option<&Node>)
        ensures
            match r {
                Some(n) => self@.nodes.contains_key(id) && n@ == self@.nodes[id],
                None => !self@.nodes.contains_key(id),
            },
    {
        self.nodes.get(&id)
    }

    /// The children of `id` in ascending order (empty for a leaf).
    pub fn children_of(&self, id: i64) -> (r: Vec<i64>)
        requires
            self.wf(),
        ensures
            ascending(r@),
            self@.kids.contains_key(id) ==> r@ == in_order(self@.kids[id]) && r@.to_set()
                == self@.kids[id],
            !self@.kids.contains_key(id) ==> r@.len() == 0,
    {
        match self.children.get(&id) {
            Some(v) => {
                proof {
                    lemma_in_order(v@);
                }
                let r = v.clone();
                assert(r@ =~= v@);
                r
            },
            None => Vec::new(),
        }
    }

    /// Whether `id` is marked.
    pub fn is_marked(&self, id: i64) -> (r: bool)
        ensures
            r == self@.marked.contains(id),
    {
        self.marked.contains(&id)
    }
    /// Ranked ids are a subset of the parents, so fewer than all of them when
    /// `p` is an unranked parent.
    proof fn lemma_ranked_count(&self, done: Map<i64, usize>)
        requires
            self.wf(),
            ranked_ok(self@, done),
        ensures
            done.dom().len() <= self.parents@.len(),
            forall|p: i64|
                self@.kids.contains_key(p) && !done.contains_key(p) ==> done.dom().len()
                    < self.parents@.len(),
    {
        let ps = self.parents@.to_set();
        self.parents@.unique_seq_to_set();
        assert(done.dom().subset_of(ps)) by {
            assert forall|x: i64| done.dom().contains(x) implies ps.contains(x) by {
                assert(self.children@.contains_key(x));
            };
        };
        vstd::set_lib::lemma_len_subset(done.dom(), ps);
        assert forall|p: i64|
            self@.kids.contains_key(p) && !done.contains_key(p) implies done.dom().len()
                < self.parents@.len() by {
            assert(ps.contains(p));
            assert(done.dom().subset_of(ps.remove(p)));
            vstd::set_lib::lemma_len_subset(done.dom(), ps.remove(p));
        };
    }

    /// The highest rank among the children of `p`, or `None` when some child
    /// is an unranked parent.
    fn top_child_rank(&self, done: &HashMap<i64, usize>, p: i64) -> (r: Option<usize>)
        requires
            self.wf(),
            self@.kids.contains_key(p),
            ranked_ok(self@, done@),
        ensures
            match r {
                Some(top) => top as nat <= done@.dom().len() && forall|c: i64| #[trigger]
                    self@.kids[p].contains(c) ==> (!self@.kids.contains_key(c)
                        || done@.contains_key(c)) && rank_in(done@, c) <= top,
                None => exists|c: i64|
                    #[trigger] self@.kids[p].contains(c) && self@.kids.contains_key(c)
                        && !done@.contains_key(c),
            },
    {
        let v = self.children.get(&p).unwrap();
        let mut top: usize = 0;
        let mut j: usize = 0;
        while j < v.len()
            invariant
                self.wf(),
                ranked_ok(self@, done@),
                self@.kids.contains_key(p),
                self@.kids[p] == v@.to_set(),
                j <= v@.len(),
                top as nat <= done@.dom().len(),
                forall|k: int|
                    0 <= k < j ==> (!self@.kids.contains_key(#[trigger] v@[k])
                        || done@.contains_key(v@[k])) && rank_in(done@, v@[k]) <= top,
            decreases v@.len() - j,
        {
            let c = v[j];
            assert(v@.to_set().contains(c));
            if self.children.contains_key(&c) && !done.contains_key(&c) {
                return None;
            }
            let rc = rank_of(done, c);
            if rc > top {
                top = rc;
            }
            j = j + 1;
        }
        assert forall|c: i64| #[trigger] self@.kids[p].contains(c) implies (
        !self@.kids.contains_key(c) || done@.contains_key(c)) && rank_in(done@, c) <= top by {
            assert(v@.contains(c));
        };
        Some(top)
    }

    /// One pass over the parents: each unranked parent whose children are all
    /// leaves or ranked is ranked one above its highest child.
    fn rank_round(&self, done: &mut HashMap<i64, usize>) -> (progress: bool)
        requires
            self.wf(),
            ranked_ok(self@, old(done)@),
        ensures
            ranked_ok(self@, final(done)@),
            progress ==> final(done)@.dom().len() > old(done)@.dom().len(),
            !progress ==> final(done)@ == old(done)@ && stuck(self@, final(done)@),
    {
        let ghost start = done@;
        let mut progress = false;
        let mut i: usize = 0;
        while i < self.parents.len()
            invariant
                self.wf(),
                ranked_ok(self@, done@),
                i <= self.parents@.len(),
                progress ==> done@.dom().len() > start.dom().len(),
                !progress ==> done@ == start,
                !progress ==> forall|k: int|
                    0 <= k < i && !done@.contains_key(#[trigger] self.parents@[k]) ==> exists|
                        c: i64,
                    |
                        #[trigger] self@.kids[self.parents@[k]].contains(c)
                            && self@.kids.contains_key(c) && !done@.contains_key(c),
            decreases self.parents@.len() - i,
        {
            let p = self.parents[i];
            assert(self.parents@.contains(p));
            if !done.contains_key(&p) {
                match self.top_child_rank(done, p) {
                    Some(top) => {
                        proof {
                            self.lemma_ranked_count(done@);
                        }
                        let ghost before = done@;
                        done.insert(p, top + 1);
                        proof {
                            assert(done@.dom() =~= before.dom().insert(p));
                            assert forall|q: i64, c: i64|
                                done@.contains_key(q) && #[trigger] self@.kids[q].contains(c)
                                    implies (!self@.kids.contains_key(c) || done@.contains_key(c))
                                    && rank_in(done@, c) < rank_in(done@, q) by {
                                if q != p {
                                    assert(before.contains_key(q));
                                    assert(c != p);
                                }
                            };
                        }
                        progress = true;
                    },
                    None => {},
                }
            }
            i = i + 1;
        }
        proof {
            if !progress {
                assert forall|p: i64| #[trigger]
                    self@.kids.contains_key(p) && !done@.contains_key(p) implies exists|c: i64|
                    #[trigger] self@.kids[p].contains(c) && self@.kids.contains_key(c)
                        && !done@.contains_key(c) by {
                    assert(self.parents@.contains(p));
                    let k = choose|k: int| 0 <= k < self.parents@.len() && self.parents@[k] == p;
                };
            }
        }
        progress
    }

    /// Whether the child relation is free of cycles.  Parents are ranked once
    /// all their children are leaves or ranked; the relation is acyclic exactly
    /// when every parent gets a rank.
    pub fn check_acyclic(&self) -> (r: bool)
        requires
            self.wf(),
        ensures
            r == acyclic(self@),
    {
        let mut done: HashMap<i64, usize> = HashMap::new();
        assert(done@.dom() =~= Set::<i64>::empty());
        loop
            invariant
                self.wf(),
                ranked_ok(self@, done@),
                done@.dom().len() <= self.parents@.len(),
            ensures
                ranked_ok(self@, done@),
                stuck(self@, done@),
            decreases self.parents@.len() - done@.dom().len(),
        {
            let progress = self.rank_round(&mut done);
            proof {
                self.lemma_ranked_count(done@);
            }
            if !progress {
                break;
            }
        }
        let mut i: usize = 0;
        while i < self.parents.len()
            invariant
                self.wf(),
                ranked_ok(self@, done@),
                stuck(self@, done@),
                i <= self.parents@.len(),
                forall|k: int| 0 <= k < i ==> done@.contains_key(#[trigger] self.parents@[k]),
            decreases self.parents@.len() - i,
        {
            let p = self.parents[i];
            if !done.contains_key(&p) {
                proof {
                    assert(self.parents@.contains(p));
                    if acyclic(self@) {
                        let h = rank(self@);
                        lemma_stuck_unbounded(self@, done@, h, h(p), p);
                    }
                }
                return false;
            }
            i = i + 1;
        }
        proof {
            let f = |x: i64| rank_in(done@, x);
            assert forall|p: i64, c: i64|
                self@.kids.contains_key(p) && #[trigger] self@.kids[p].contains(c) implies f(c)
                < f(p) by {
                assert(self.parents@.contains(p));
                let k = choose|k: int| 0 <= k < self.parents@.len() && self.parents@[k] == p;
                assert(done@.contains_key(self.parents@[k]));
            };
            assert(ranks(self@.kids, f));
        }
        true
    }
}

} // verus!
