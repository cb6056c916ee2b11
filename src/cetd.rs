//! The density tree: a mirror of a document's retained nodes, each with the
//! text metrics of its whole retained subtree, and the selection of the
//! longest run of qualifying nodes.
use vstd::prelude::*;
use crate::dom::{element_named, is_element_named, Dom};
use crate::tree::{
    add_counts, cap_counts, excluded, is_excluded, lemma_capped_sum, local_counts,
    local_metrics, zero_counts, Counts, NodeMetrics,
};
use crate::DomExtractionError;

verus! {

/// A node of the density tree: the document node it mirrors and its metrics.
#[derive(Clone, Copy, Debug)]
pub struct DensityNode {
    pub node_id: usize,
    pub metrics: NodeMetrics,
}

impl DensityNode {
    /// A node for `node_id` with all metrics zero.
    pub fn new(node_id: usize) -> (r: Self)
        ensures
            r.node_id == node_id,
            r.metrics.counts() == zero_counts(),
    {
        DensityNode { node_id, metrics: NodeMetrics::new() }
    }
}

/// The parent of document node `i` is an anchor element.
pub open spec fn parent_is_anchor(dom: Dom, i: int) -> bool {
    match dom.parents@[i] {
        Some(p) => p < dom.len() && is_element_named(dom.kinds@[p as int], "a"@),
        None => false,
    }
}

/// The metrics of document node `i` over its retained subtree: its own
/// counts plus those of its retained children; link characters also count
/// all its characters where its parent is an anchor.
pub open spec fn subtree_counts(dom: Dom, i: int) -> Counts
    decreases dom.len() - i, dom.kids(i).len() + 1,
{
    if 0 <= i < dom.len() {
        let kids = kids_counts(dom, i, dom.kids(i).len() as int);
        let own = local_counts(dom.kinds@[i]);
        let chars = kids.0 + own.0;
        (chars, kids.1 + own.1, kids.2 + if parent_is_anchor(dom, i) {
            chars
        } else {
            0
        }, kids.3 + own.3)
    } else {
        zero_counts()
    }
}

/// The summed subtree metrics of the retained ones among the first `m`
/// children of node `i`.
pub open spec fn kids_counts(dom: Dom, i: int, m: int) -> Counts
    decreases dom.len() - i, m,
{
    if m <= 0 || m > dom.kids(i).len() || i < 0 {
        zero_counts()
    } else {
        let c = dom.kids(i)[m - 1] as int;
        add_counts(
            kids_counts(dom, i, m - 1),
            if i < c < dom.len() && !is_excluded(dom.kinds@[c]) {
                subtree_counts(dom, c)
            } else {
                zero_counts()
            },
        )
    }
}

/// The retained ones among the first `m` children of node `i`, in order.
pub open spec fn retained_kids(dom: Dom, i: int, m: int) -> Seq<usize>
    decreases m,
{
    if m <= 0 || m > dom.kids(i).len() {
        Seq::empty()
    } else {
        let c = dom.kids(i)[m - 1];
        if is_excluded(dom.kinds@[c as int]) {
            retained_kids(dom, i, m - 1)
        } else {
            retained_kids(dom, i, m - 1).push(c)
        }
    }
}

/// All retained children of node `i`.
pub open spec fn retained_children(dom: Dom, i: int) -> Seq<usize> {
    retained_kids(dom, i, dom.kids(i).len() as int)
}

/// The retained subtree of document node `i` in pre-order: the node, then
/// the retained subtree of each retained child in turn.
pub open spec fn retained_preorder(dom: Dom, i: int) -> Seq<usize>
    decreases dom.len() - i, dom.kids(i).len() + 1,
{
    if 0 <= i < dom.len() {
        seq![i as usize] + kids_preorder(dom, i, dom.kids(i).len() as int)
    } else {
        Seq::empty()
    }
}

/// The retained subtrees, in pre-order, of the retained ones among the first
/// `m` children of node `i`, one after another.
pub open spec fn kids_preorder(dom: Dom, i: int, m: int) -> Seq<usize>
    decreases dom.len() - i, m,
{
    if m <= 0 || m > dom.kids(i).len() || i < 0 {
        Seq::empty()
    } else {
        let c = dom.kids(i)[m - 1] as int;
        kids_preorder(dom, i, m - 1) + if i < c < dom.len() && !is_excluded(dom.kinds@[c]) {
            retained_preorder(dom, c)
        } else {
            Seq::empty()
        }
    }
}

/// Subtree metrics are never negative.
proof fn lemma_subtree_counts_nonneg(dom: Dom, i: int)
    ensures
        subtree_counts(dom, i).0 >= 0 && subtree_counts(dom, i).1 >= 0 && subtree_counts(
            dom,
            i,
        ).2 >= 0 && subtree_counts(dom, i).3 >= 0,
    decreases dom.len() - i, dom.kids(i).len() + 1,
{
    if 0 <= i < dom.len() {
        lemma_kids_counts_nonneg(dom, i, dom.kids(i).len() as int);
    }
}

proof fn lemma_kids_counts_nonneg(dom: Dom, i: int, m: int)
    ensures
        kids_counts(dom, i, m).0 >= 0 && kids_counts(dom, i, m).1 >= 0 && kids_counts(
            dom,
            i,
            m,
        ).2 >= 0 && kids_counts(dom, i, m).3 >= 0,
    decreases dom.len() - i, m,
{
    if !(m <= 0 || m > dom.kids(i).len() || i < 0) {
        lemma_kids_counts_nonneg(dom, i, m - 1);
        let c = dom.kids(i)[m - 1] as int;
        if i < c < dom.len() && !is_excluded(dom.kinds@[c]) {
            lemma_subtree_counts_nonneg(dom, c);
        }
    }
}

/// Holding each of two non-negative counts in 32 bits, then their sum,
/// gives the 32-bit hold of the exact sum, component by component.
proof fn lemma_cap_add_counts(a: Counts, b: Counts)
    requires
        a.0 >= 0 && a.1 >= 0 && a.2 >= 0 && a.3 >= 0,
        b.0 >= 0 && b.1 >= 0 && b.2 >= 0 && b.3 >= 0,
    ensures
        cap_counts(add_counts(cap_counts(a), cap_counts(b))) == cap_counts(add_counts(a, b)),
{
    lemma_capped_sum(a.0, b.0);
    lemma_capped_sum(a.1, b.1);
    lemma_capped_sum(a.2, b.2);
    lemma_capped_sum(a.3, b.3);
}

/// A tree of density nodes in construction order (pre-order): node `t` has
/// parent `parents[t]` and children `children[t]`; node 0 is the root.
#[derive(Debug)]
pub struct DensityTree {
    pub nodes: Vec<DensityNode>,
    pub parents: Vec<Option<usize>>,
    pub children: Vec<Vec<usize>>,
}

impl DensityTree {
    /// Number of nodes.
    pub open spec fn len(&self) -> int {
        self.nodes@.len() as int
    }

    /// The child list of node `t`.
    pub open spec fn kids(&self, t: int) -> Seq<usize> {
        self.children@[t]@
    }

    /// The document nodes that the nodes mirror, in order.
    pub open spec fn node_ids(&self) -> Seq<usize> {
        self.nodes@.map_values(|n: DensityNode| n.node_id)
    }

    /// The document node that node `t` mirrors.
    pub open spec fn dom_id(&self, t: int) -> int {
        self.nodes@[t].node_id as int
    }

    /// Node `t` is finished against `dom`: it mirrors a document node, holds
    /// that node's subtree metrics, and its children, which come after it
    /// and name it as parent, mirror that node's retained children in order.
    pub open spec fn finished(&self, dom: Dom, t: int) -> bool {
        &&& 0 <= self.dom_id(t) < dom.len()
        &&& self.nodes@[t].metrics.counts() == cap_counts(subtree_counts(dom, self.dom_id(t)))
        &&& self.kids(t).len() == retained_children(dom, self.dom_id(t)).len()
        &&& forall|k: int|
            0 <= k < self.kids(t).len() ==> {
                let u = #[trigger] self.kids(t)[k] as int;
                &&& t < u < self.len()
                &&& self.parents@[u] == Some(t as usize)
                &&& self.dom_id(u) == retained_children(dom, self.dom_id(t))[k] as int
            }
    }

    /// The arrays agree in length, every node comes after its parent, and
    /// every node is finished against `dom`.
    pub open spec fn mirrors(&self, dom: Dom) -> bool {
        &&& self.parents@.len() == self.len()
        &&& self.children@.len() == self.len()
        &&& forall|t: int| 0 <= t < self.len() ==> #[trigger] self.finished(dom, t)
        &&& forall|t: int|
            0 <= t < self.len() && #[trigger] self.parents@[t] is Some ==> self.parents@[t]->0 < t
    }

    /// A tree of one node for `node_id`, with all metrics zero.
    pub fn new(node_id: usize) -> (r: Self)
        ensures
            r.len() == 1,
            r.nodes@[0].node_id == node_id,
            r.nodes@[0].metrics.counts() == zero_counts(),
            r.parents@ == seq![None::<usize>],
            r.kids(0).len() == 0,
            r.children@.len() == 1,
    {
        DensityTree {
            nodes: vec![DensityNode::new(node_id)],
            parents: vec![None],
            children: vec![Vec::new()],
        }
    }
}

/// Tests whether the parent of document node `i` is an anchor element.
fn parent_anchor(dom: &Dom, i: usize) -> (r: bool)
    requires
        dom.wf(),
        i < dom.len(),
    ensures
        r == parent_is_anchor(*dom, i as int),
{
    match dom.parents[i] {
        Some(p) => p < dom.kinds.len() && element_named(&dom.kinds[p], "a"),
        None => false,
    }
}

/// Appends a node for document node `node`, under `parent`, and then its
/// retained subtree in pre-order; folds each finished child's metrics into
/// it, then its own, then counts its characters as link characters where
/// its document parent is an anchor. Returns the new node's index.
fn build_subtree(dom: &Dom, node: usize, parent: Option<usize>, tree: &mut DensityTree) -> (t:
    usize)
    requires
        dom.wf(),
        node < dom.len(),
        old(tree).parents@.len() == old(tree).len(),
        old(tree).children@.len() == old(tree).len(),
        parent matches Some(p) ==> p < old(tree).len(),
    ensures
        t == old(tree).len(),
        final(tree).len() > t,
        final(tree).parents@.len() == final(tree).len(),
        final(tree).children@.len() == final(tree).len(),
        forall|j: int|
            0 <= j < t ==> {
                &&& final(tree).nodes@[j] == old(tree).nodes@[j]
                &&& final(tree).parents@[j] == old(tree).parents@[j]
                &&& final(tree).children@[j] == old(tree).children@[j]
            },
        final(tree).nodes@[t as int].node_id == node,
        final(tree).parents@[t as int] == parent,
        forall|j: int| t <= j < final(tree).len() ==> #[trigger] final(tree).finished(*dom, j),
        forall|j: int|
            t < j < final(tree).len() ==> #[trigger] final(tree).parents@[j] is Some && t
                <= final(tree).parents@[j]->0 < j,
        final(tree).node_ids().subrange(t as int, final(tree).len()) == retained_preorder(
            *dom,
            node as int,
        ),
    decreases dom.len() - node,
{
    let t = tree.nodes.len();
    tree.nodes.push(DensityNode::new(node));
    tree.parents.push(parent);
    tree.children.push(Vec::new());
    let ghost entry = *old(tree);
    let mut acc = NodeMetrics::new();
    let mut m: usize = 0;
    proof {
        assert(tree.node_ids().subrange(t as int, tree.len()) =~= seq![node]);
        assert(kids_preorder(*dom, node as int, 0) =~= Seq::<usize>::empty());
        assert(seq![node] + Seq::<usize>::empty() =~= seq![node]);
        assert(kids_counts(*dom, node as int, 0) == zero_counts());
        assert(retained_kids(*dom, node as int, 0) =~= Seq::<usize>::empty());
    }
    while m < dom.children[node].len()
        invariant
            dom.wf(),
            node < dom.len(),
            t == entry.len(),
            tree.len() > t,
            tree.parents@.len() == tree.len(),
            tree.children@.len() == tree.len(),
            forall|j: int|
                0 <= j < t ==> tree.nodes@[j] == entry.nodes@[j] && tree.parents@[j]
                    == entry.parents@[j] && tree.children@[j] == entry.children@[j],
            tree.nodes@[t as int].node_id == node,
            tree.parents@[t as int] == parent,
            m <= dom.kids(node as int).len(),
            tree.kids(t as int).len() == retained_kids(*dom, node as int, m as int).len(),
            forall|k: int|
                0 <= k < tree.kids(t as int).len() ==> {
                    let u = #[trigger] tree.kids(t as int)[k] as int;
                    &&& t < u < tree.len()
                    &&& tree.parents@[u] == Some(t)
                    &&& tree.dom_id(u) == retained_kids(*dom, node as int, m as int)[k] as int
                },
            forall|j: int| t < j < tree.len() ==> #[trigger] tree.finished(*dom, j),
            forall|j: int|
                t < j < tree.len() ==> #[trigger] tree.parents@[j] is Some && t
                    <= tree.parents@[j]->0 < j,
            tree.node_ids().subrange(t as int, tree.len()) == seq![node] + kids_preorder(
                *dom,
                node as int,
                m as int,
            ),
            acc.counts() == cap_counts(kids_counts(*dom, node as int, m as int)),
        decreases dom.kids(node as int).len() - m,
    {
        let c = dom.children[node][m];
        assert(dom.kids(node as int)[m as int] == c);
        proof {
            lemma_kids_counts_nonneg(*dom, node as int, m as int);
            lemma_subtree_counts_nonneg(*dom, c as int);
        }
        if !excluded(&dom.kinds[c]) {
            let ghost before = *tree;
            let ct = build_subtree(dom, c, Some(t), tree);
            let cm = tree.nodes[ct].metrics;
            proof {
                assert(tree.finished(*dom, ct as int));
                assert(kids_counts(*dom, node as int, m + 1) == add_counts(
                    kids_counts(*dom, node as int, m as int),
                    subtree_counts(*dom, c as int),
                ));
                lemma_cap_add_counts(
                    kids_counts(*dom, node as int, m as int),
                    subtree_counts(*dom, c as int),
                );
            }
            acc.combine(&cm);
            let ghost mid = *tree;
            tree.children[t].push(ct);
            proof {
                assert forall|j: int| t < j < tree.len() implies #[trigger] tree.finished(
                    *dom,
                    j,
                ) by {
                    if j < ct {
                        assert(before.finished(*dom, j));
                        assert(tree.kids(j) == before.kids(j));
                        assert(tree.nodes@[j] == before.nodes@[j]);
                        assert forall|k: int| 0 <= k < tree.kids(j).len() implies {
                            let u = #[trigger] tree.kids(j)[k] as int;
                            &&& j < u < tree.len()
                            &&& tree.parents@[u] == Some(j as usize)
                            &&& tree.dom_id(u) == retained_children(*dom, tree.dom_id(j))[k] as int
                        } by {
                            assert(before.kids(j)[k] == tree.kids(j)[k]);
                        }
                    } else {
                        assert(mid.finished(*dom, j));
                        assert(tree.kids(j) == mid.kids(j));
                    }
                }
                assert forall|k: int| 0 <= k < tree.kids(t as int).len() implies {
                    let u = #[trigger] tree.kids(t as int)[k] as int;
                    &&& t < u < tree.len()
                    &&& tree.parents@[u] == Some(t)
                    &&& tree.dom_id(u) == retained_kids(*dom, node as int, m + 1)[k] as int
                } by {
                    if k < before.kids(t as int).len() {
                        assert(tree.kids(t as int)[k] == before.kids(t as int)[k]);
                    }
                }
                assert forall|j: int|
                    t < j < tree.len() implies #[trigger] tree.parents@[j] is Some && t
                        <= tree.parents@[j]->0 < j by {
                    if j < ct {
                        assert(before.parents@[j] == tree.parents@[j]);
                    }
                }
                assert(kids_preorder(*dom, node as int, m + 1) == kids_preorder(
                    *dom,
                    node as int,
                    m as int,
                ) + retained_preorder(*dom, c as int));
                assert(tree.node_ids().subrange(t as int, ct as int) =~= before.node_ids().subrange(
                    t as int,
                    before.len(),
                ));
                assert(tree.node_ids().subrange(t as int, tree.len()) =~= tree.node_ids().subrange(
                    t as int,
                    ct as int,
                ) + tree.node_ids().subrange(ct as int, tree.len()));
            }
        } else {
            proof {
                assert(add_counts(kids_counts(*dom, node as int, m as int), zero_counts())
                    == kids_counts(*dom, node as int, m as int));
                assert(kids_preorder(*dom, node as int, m + 1) =~= kids_preorder(
                    *dom,
                    node as int,
                    m as int,
                ));
            }
        }
        m = m + 1;
    }
    let own = local_metrics(&dom.kinds[node]);
    proof {
        lemma_kids_counts_nonneg(*dom, node as int, m as int);
        lemma_cap_add_counts(
            kids_counts(*dom, node as int, m as int),
            local_counts(dom.kinds@[node as int]),
        );
    }
    acc.combine(&own);
    if parent_anchor(dom, node) {
        proof {
            let kids = kids_counts(*dom, node as int, m as int);
            lemma_capped_sum(kids.2, kids.0 + own.char_count);
        }
        acc.link_char_count = acc.link_char_count.saturating_add(acc.char_count);
    }
    let ghost last = *tree;
    tree.nodes.set(t, DensityNode { node_id: node, metrics: acc });
    proof {
        assert forall|j: int| t < j < tree.len() implies #[trigger] tree.finished(*dom, j) by {
            assert(last.finished(*dom, j));
        }
        assert(tree.finished(*dom, t as int));
        assert(tree.node_ids() =~= last.node_ids());
        assert(retained_preorder(*dom, node as int) == seq![node] + kids_preorder(
            *dom,
            node as int,
            m as int,
        ));
    }
    t
}

/// Every node of a density tree holds, as its character and tag counts, the
/// totals over the retained subtree of the document node it mirrors,
/// recomputed from the document alone, wherever those totals fit in 32 bits.
pub proof fn lemma_counts_are_subtree_totals(tree: DensityTree, dom: Dom, t: int)
    requires
        tree.mirrors(dom),
        0 <= t < tree.len(),
        subtree_counts(dom, tree.dom_id(t)).0 <= u32::MAX,
        subtree_counts(dom, tree.dom_id(t)).1 <= u32::MAX,
    ensures
        tree.nodes@[t].metrics.char_count == subtree_counts(dom, tree.dom_id(t)).0,
        tree.nodes@[t].metrics.tag_count == subtree_counts(dom, tree.dom_id(t)).1,
{
    assert(tree.finished(dom, t));
}

/// Node `i` and its retained subtree hold no anchor element.
pub open spec fn anchor_free(dom: Dom, i: int) -> bool
    decreases dom.len() - i, dom.kids(i).len() + 1,
{
    0 <= i < dom.len() && !is_element_named(dom.kinds@[i], "a"@) && kids_anchor_free(
        dom,
        i,
        dom.kids(i).len() as int,
    )
}

/// The retained subtrees of the first `m` children of node `i` hold no
/// anchor element.
pub open spec fn kids_anchor_free(dom: Dom, i: int, m: int) -> bool
    decreases dom.len() - i, m,
{
    if m <= 0 || m > dom.kids(i).len() || i < 0 {
        true
    } else {
        let c = dom.kids(i)[m - 1] as int;
        kids_anchor_free(dom, i, m - 1) && (i < c < dom.len() && !is_excluded(dom.kinds@[c])
            ==> anchor_free(dom, c))
    }
}

/// Below a node that is no anchor and holds none, no character is link
/// text.
proof fn lemma_anchor_free_no_link_text(dom: Dom, i: int)
    requires
        dom.wf(),
        anchor_free(dom, i),
        !parent_is_anchor(dom, i),
    ensures
        subtree_counts(dom, i).2 == 0,
    decreases dom.len() - i, dom.kids(i).len() + 1,
{
    lemma_kids_no_link_text(dom, i, dom.kids(i).len() as int);
}

proof fn lemma_kids_no_link_text(dom: Dom, i: int, m: int)
    requires
        dom.wf(),
        0 <= i < dom.len(),
        !is_element_named(dom.kinds@[i], "a"@),
        kids_anchor_free(dom, i, m),
    ensures
        kids_counts(dom, i, m).2 == 0,
    decreases dom.len() - i, m,
{
    if !(m <= 0 || m > dom.kids(i).len()) {
        lemma_kids_no_link_text(dom, i, m - 1);
        let c = dom.kids(i)[m - 1] as int;
        if i < c < dom.len() && !is_excluded(dom.kinds@[c]) {
            assert(dom.parents@[c] == Some(i as usize));
            lemma_anchor_free_no_link_text(dom, c);
        }
    }
}

/// Under an anchor, each retained child subtree free of anchors is link text
/// throughout, so the children's link characters equal their characters.
proof fn lemma_kids_all_link_text(dom: Dom, a: int, m: int)
    requires
        dom.wf(),
        0 <= a < dom.len(),
        is_element_named(dom.kinds@[a], "a"@),
        kids_anchor_free(dom, a, m),
    ensures
        kids_counts(dom, a, m).2 == kids_counts(dom, a, m).0,
    decreases m,
{
    if !(m <= 0 || m > dom.kids(a).len()) {
        lemma_kids_all_link_text(dom, a, m - 1);
        let c = dom.kids(a)[m - 1] as int;
        if a < c < dom.len() && !is_excluded(dom.kinds@[c]) {
            assert(dom.parents@[c] == Some(a as usize));
            assert(parent_is_anchor(dom, c));
            assert(anchor_free(dom, c));
            assert(kids_anchor_free(dom, c, dom.kids(c).len() as int));
            lemma_kids_no_link_text(dom, c, dom.kids(c).len() as int);
            let sc = subtree_counts(dom, c);
            assert(sc.2 == kids_counts(dom, c, dom.kids(c).len() as int).2 + sc.0);
        }
        assert(kids_counts(dom, a, m) == add_counts(
            kids_counts(dom, a, m - 1),
            if a < c < dom.len() && !is_excluded(dom.kinds@[c]) {
                subtree_counts(dom, c)
            } else {
                zero_counts()
            },
        ));
    }
}

/// A node of the density tree that mirrors an anchor whose retained subtree
/// holds no further anchor, and whose parent is no anchor, has all its
/// characters counted as link characters.
pub proof fn lemma_anchor_text_is_link_text(tree: DensityTree, dom: Dom, t: int)
    requires
        dom.wf(),
        tree.mirrors(dom),
        0 <= t < tree.len(),
        is_element_named(dom.kinds@[tree.dom_id(t)], "a"@),
        !parent_is_anchor(dom, tree.dom_id(t)),
        kids_anchor_free(dom, tree.dom_id(t), dom.kids(tree.dom_id(t)).len() as int),
    ensures
        tree.nodes@[t].metrics.link_char_count == tree.nodes@[t].metrics.char_count,
{
    let a = tree.dom_id(t);
    assert(tree.finished(dom, t));
    lemma_kids_all_link_text(dom, a, dom.kids(a).len() as int);
}

impl DensityTree {
    /// Builds the density tree of the subtree at document node `node_id`:
    /// one node per retained document node, in pre-order, each holding the
    /// metrics of its retained subtree.
    pub fn build_density_tree(dom: &Dom, node_id: usize) -> (r: DensityTree)
        requires
            dom.wf(),
            node_id < dom.len(),
        ensures
            r.mirrors(*dom),
            r.len() >= 1,
            r.nodes@[0].node_id == node_id,
            r.parents@[0] is None,
            forall|t: int| 0 < t < r.len() ==> #[trigger] r.parents@[t] is Some,
            r.node_ids() == retained_preorder(*dom, node_id as int),
    {
        let mut tree = DensityTree { nodes: Vec::new(), parents: Vec::new(), children: Vec::new() };
        build_subtree(dom, node_id, None, &mut tree);
        assert(tree.node_ids().subrange(0, tree.len()) =~= tree.node_ids());
        tree
    }

    /// Builds the density tree of the document's first `body` element.
    pub fn from_document(document: &Dom) -> (r: Result<DensityTree, DomExtractionError>)
        requires
            document.wf(),
        ensures
            document.find_body_spec() is None ==> r == Err::<DensityTree, DomExtractionError>(
                DomExtractionError::NoBodyElement,
            ),
            document.find_body_spec() matches Some(b) ==> (r matches Ok(tree) && tree.mirrors(
                *document,
            ) && tree.nodes@[0].node_id == b && tree.parents@[0] is None && (forall|t: int|
                0 < t < tree.len() ==> #[trigger] tree.parents@[t] is Some) && tree.node_ids()
                == retained_preorder(*document, b as int)),
    {
        match document.find_body() {
            Some(b) => Ok(DensityTree::build_density_tree(document, b)),
            None => Err(DomExtractionError::NoBodyElement),
        }
    }
}

} // verus!
