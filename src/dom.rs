//! The document model: a parsed HTML document as an arena of nodes, indexed
//! in document order.
use vstd::prelude::*;
use crate::unicode::{joined, str_equal, texts_of, trim_text, trimmed};
use crate::DomExtractionError;
use ego_tree::iter::Edge;
use scraper::Node;

verus! {

/// What a document node is.
#[derive(Debug)]
pub enum DomKind {
    /// The document root.
    Document,
    /// An element, with its tag name and its `href` attribute, if any.
    Element { name: String, href: Option<String> },
    /// A text node.
    Text(String),
    /// A comment.
    Comment,
    /// Anything else (doctype, processing instruction, fragment root).
    Other,
}

/// One step of a walk through a document tree: a node is entered (with what
/// it is) or the node entered last and not yet left is left.
#[derive(Debug)]
pub enum DomEvent {
    Open(DomKind),
    Close,
}

/// A document tree. Node `i` has kind `kinds[i]`, parent `parents[i]` and
/// children `children[i]`, in document order; node `0` is the root.
#[derive(Debug)]
pub struct Dom {
    pub kinds: Vec<DomKind>,
    pub parents: Vec<Option<usize>>,
    pub children: Vec<Vec<usize>>,
}

impl Dom {
    /// Number of nodes.
    pub open spec fn len(&self) -> int {
        self.kinds@.len() as int
    }

    /// The child list of node `i`.
    pub open spec fn kids(&self, i: int) -> Seq<usize> {
        self.children@[i]@
    }

    /// The arrays agree in length; every child comes after its parent, names
    /// it as parent, and each child list is in increasing order.
    pub open spec fn wf(&self) -> bool {
        &&& self.parents@.len() == self.len()
        &&& self.children@.len() == self.len()
        &&& forall|i: int, k: int|
            0 <= i < self.len() && 0 <= k < self.kids(i).len() ==> i < #[trigger] self.kids(
                i,
            )[k] < self.len() && self.parents@[self.kids(i)[k] as int] == Some(i as usize)
        &&& forall|i: int, k: int, l: int|
            0 <= i < self.len() && 0 <= k < l < self.kids(i).len() ==> #[trigger] self.kids(
                i,
            )[k] < #[trigger] self.kids(i)[l]
        &&& forall|c: int|
            0 <= c < self.len() && #[trigger] self.parents@[c] is Some ==> {
                let p = self.parents@[c]->0 as int;
                0 <= p < c && self.kids(p).contains(c as usize)
            }
    }
}

/// Opens minus closes among the first `k` events.
pub open spec fn depth(ev: Seq<DomEvent>, k: int) -> int
    decreases k,
{
    if k <= 0 {
        0
    } else {
        depth(ev, k - 1) + if ev[k - 1] is Open {
            1int
        } else {
            -1int
        }
    }
}

/// The events walk one tree: they start by entering the root, leave it last,
/// and never leave a node that was not entered.
pub open spec fn balanced(ev: Seq<DomEvent>) -> bool {
    &&& ev.len() > 0
    &&& depth(ev, ev.len() as int) == 0
    &&& forall|k: int| 0 < k < ev.len() ==> #[trigger] depth(ev, k) > 0
}

/// Number of nodes entered among the first `k` events.
pub open spec fn open_count(ev: Seq<DomEvent>, k: int) -> nat
    decreases k,
{
    if k <= 0 {
        0
    } else {
        open_count(ev, k - 1) + if ev[k - 1] is Open {
            1nat
        } else {
            0nat
        }
    }
}

/// The nodes entered and not yet left after the first `k` events, outermost
/// first, each named by its index (the order in which it was entered).
pub open spec fn open_path(ev: Seq<DomEvent>, k: int) -> Seq<nat>
    decreases k,
{
    if k <= 0 {
        Seq::empty()
    } else if ev[k - 1] is Open {
        open_path(ev, k - 1).push(open_count(ev, k - 1))
    } else {
        open_path(ev, k - 1).drop_last()
    }
}

/// The parent of the node entered by event `k`: the innermost node still
/// open when it is entered.
pub open spec fn parent_at(ev: Seq<DomEvent>, k: int) -> Option<usize> {
    let path = open_path(ev, k);
    if path.len() == 0 {
        None
    } else {
        Some(path.last() as usize)
    }
}

/// `d` is the tree that the events walk: one node per entering event, in that
/// order, with its kind and the parent that the walk gives it.
pub open spec fn decodes(ev: Seq<DomEvent>, d: Dom) -> bool {
    &&& d.wf()
    &&& d.len() == open_count(ev, ev.len() as int)
    &&& forall|k: int|
        0 <= k < ev.len() && #[trigger] ev[k] is Open ==> {
            let i = open_count(ev, k) as int;
            &&& d.kinds@[i] == ev[k]->Open_0
            &&& d.parents@[i] == parent_at(ev, k)
        }
}

/// A node entered at event `j` has a smaller index than every node entered
/// after it.
proof fn lemma_open_count_grows(ev: Seq<DomEvent>, j: int, k: int)
    requires
        0 <= j < k <= ev.len(),
        ev[j] is Open,
    ensures
        open_count(ev, j) < open_count(ev, k),
    decreases k - j,
{
    if k > j + 1 {
        lemma_open_count_grows(ev, j, k - 1);
    }
}

impl Dom {
    /// Rebuilds the tree that a walk of open and close events describes.
    /// Returns `None` exactly when the events do not walk a single tree.
    pub fn from_events(events: Vec<DomEvent>) -> (r: Option<Dom>)
        ensures
            r is Some <==> balanced(events@),
            r is Some ==> decodes(events@, r->0),
    {
        let ghost ev = events@;
        let n_ev = events.len();
        let mut kinds: Vec<DomKind> = Vec::new();
        let mut parents: Vec<Option<usize>> = Vec::new();
        let mut children: Vec<Vec<usize>> = Vec::new();
        let mut path: Vec<usize> = Vec::new();
        let mut k: usize = 0;
        for e in it: events
            invariant
                it.seq() == ev,
                k == it.index(),
                n_ev == ev.len(),
                k <= n_ev,
                kinds@.len() == open_count(ev, k as int),
                (Dom { kinds, parents, children }).wf(),
                path@.len() == open_path(ev, k as int).len(),
                path@.len() == depth(ev, k as int),
                forall|j: int|
                    0 <= j < path@.len() ==> path@[j] as nat == open_path(ev, k as int)[j]
                        && path@[j] < kinds@.len(),
                forall|j: int| 0 < j < k ==> #[trigger] depth(ev, j) > 0,
                forall|j: int|
                    0 <= j < k && #[trigger] ev[j] is Open ==> {
                        let i = open_count(ev, j) as int;
                        &&& kinds@[i] == ev[j]->Open_0
                        &&& parents@[i] == parent_at(ev, j)
                    },
        {
            let ghost old_dom = Dom { kinds, parents, children };
            proof {
                assert(e == ev[k as int]);
                assert(depth(ev, k + 1) == depth(ev, k as int) + if ev[k as int] is Open {
                    1int
                } else {
                    -1int
                });
                assert(open_count(ev, k + 1) == open_count(ev, k as int) + if ev[k as int] is Open {
                    1nat
                } else {
                    0nat
                });
                assert forall|j: int| 0 <= j < k && #[trigger] ev[j] is Open implies open_count(
                    ev,
                    j,
                ) < open_count(ev, k as int) by {
                    lemma_open_count_grows(ev, j, k as int);
                }
            }
            match e {
                DomEvent::Open(kind) => {
                    if path.len() == 0 && k > 0 {
                        return None;
                    }
                    let i = kinds.len();
                    let parent = if path.len() == 0 {
                        None
                    } else {
                        Some(path[path.len() - 1])
                    };
                    kinds.push(kind);
                    parents.push(parent);
                    children.push(Vec::new());
                    match parent {
                        Some(p) => {
                            children[p].push(i);
                        },
                        None => {},
                    }
                    path.push(i);
                    proof {
                        let d = Dom { kinds, parents, children };
                        assert forall|c: int, m: int|
                            0 <= c < d.len() && 0 <= m < d.kids(c).len() implies c < #[trigger] d.kids(
                                c,
                            )[m] < d.len() && d.parents@[d.kids(c)[m] as int] == Some(
                                c as usize,
                            ) by {
                            if c < i && m < old_dom.kids(c).len() {
                                assert(d.kids(c)[m] == old_dom.kids(c)[m]);
                            }
                        }
                        assert forall|c: int, m: int, l: int|
                            0 <= c < d.len() && 0 <= m < l < d.kids(c).len() implies #[trigger] d.kids(
                                c,
                            )[m] < #[trigger] d.kids(c)[l] by {
                            if c < i && l < old_dom.kids(c).len() {
                                assert(d.kids(c)[m] == old_dom.kids(c)[m]);
                                assert(d.kids(c)[l] == old_dom.kids(c)[l]);
                            } else if c < i {
                                assert(d.kids(c)[m] == old_dom.kids(c)[m]);
                            }
                        }
                        assert forall|c: int|
                            0 <= c < d.len() && #[trigger] d.parents@[c] is Some implies {
                                let q = d.parents@[c]->0 as int;
                                0 <= q < c && d.kids(q).contains(c as usize)
                            } by {
                            if c < i {
                                let q = d.parents@[c]->0 as int;
                                let w = choose|w: int|
                                    0 <= w < old_dom.kids(q).len() && old_dom.kids(q)[w]
                                        == c as usize;
                                assert(d.kids(q)[w] == c as usize);
                            } else {
                                let q = d.parents@[c]->0 as int;
                                assert(d.kids(q).last() == c as usize);
                            }
                        }
                        assert(d.wf());
                    }
                },
                DomEvent::Close => {
                    if path.len() == 0 {
                        proof {
                            if balanced(ev) && k + 1 < n_ev {
                                assert(depth(ev, k + 1) > 0);
                            }
                        }
                        return None;
                    }
                    path.pop();
                },
            }
            k = k + 1;
        }
        if path.len() > 0 || n_ev == 0 {
            return None;
        }
        Some(Dom { kinds, parents, children })
    }
}

/// The walk of the tree that the HTML parser makes of a text.
pub uninterp spec fn html_events_of(html: Seq<char>) -> Seq<DomEvent>;

/// Relies on scraper::Html::parse_document, walked by ego_tree's `traverse`:
/// the parsed document as open and close events, in document order, each
/// node read as a `DomKind` (element name and `href`, text, and so on). The
/// parser accepts any text; `traverse` walks the one tree from its document
/// root, leaving each node after all below it.
#[verifier::external_body]
fn parse_html_events(html: &str) -> (r: Vec<DomEvent>)
    ensures
        r@ == html_events_of(html@),
        balanced(r@),
        r@[0] matches DomEvent::Open(DomKind::Document),
{
    let document = scraper::Html::parse_document(html);
    let events = document.tree.root().traverse().map(|edge| match edge {
        Edge::Open(node) => DomEvent::Open(match node.value() {
            Node::Document => DomKind::Document,
            Node::Comment(_) => DomKind::Comment,
            Node::Text(t) => DomKind::Text(t.to_string()),
            Node::Element(e) => DomKind::Element {
                name: e.name().to_string(),
                href: e.attr("href").map(|h| h.to_string()),
            },
            _ => DomKind::Other,
        }),
        Edge::Close(_) => DomEvent::Close,
    });
    events.collect()
}

/// Parses an HTML text into a document tree, rooted at the document node.
pub fn build_dom(html: &str) -> (r: Dom)
    ensures
        r.wf(),
        decodes(html_events_of(html@), r),
        r.len() >= 1,
        r.kinds@[0] is Document,
{
    let events = parse_html_events(html);
    proof {
        let ev = events@;
        assert(ev[0] is Open);
        assert(open_count(ev, 0) == 0);
        assert(open_count(ev, 1) == 1);
        lemma_open_count_grows(ev, 0, ev.len() as int);
    }
    match Dom::from_events(events) {
        Some(d) => d,
        None => Dom { kinds: Vec::new(), parents: Vec::new(), children: Vec::new() },
    }
}

/// `k` is an element with tag name `name`.
pub open spec fn is_element_named(k: DomKind, name: Seq<char>) -> bool {
    match k {
        DomKind::Element { name: n, .. } => n@ == name,
        _ => false,
    }
}

/// Tests whether `k` is an element with tag name `name`.
pub fn element_named(k: &DomKind, name: &str) -> (r: bool)
    ensures
        r == is_element_named(*k, name@),
{
    match k {
        DomKind::Element { name: n, .. } => str_equal(n.as_str(), name),
        _ => false,
    }
}

impl Dom {
    /// The first `body` element in document order, if any.
    pub open spec fn find_body_spec(&self) -> Option<usize> {
        if exists|i: int| 0 <= i < self.len() && is_element_named(#[trigger] self.kinds@[i], "body"@) {
            let i = choose|i: int|
                0 <= i < self.len() && is_element_named(#[trigger] self.kinds@[i], "body"@) && forall|
                    j: int,
                | 0 <= j < i ==> !is_element_named(#[trigger] self.kinds@[j], "body"@);
            Some(i as usize)
        } else {
            None
        }
    }

    /// Number of nodes.
    pub fn node_count(&self) -> (r: usize)
        ensures
            r == self.len(),
    {
        self.kinds.len()
    }

    /// The first `body` element in document order.
    pub fn find_body(&self) -> (r: Option<usize>)
        ensures
            r == self.find_body_spec(),
            r matches Some(i) ==> (i < self.len() && is_element_named(self.kinds@[i as int], "body"@)
                && forall|j: int| 0 <= j < i ==> !is_element_named(#[trigger] self.kinds@[j], "body"@)),
            r is None ==> forall|j: int|
                0 <= j < self.len() ==> !is_element_named(#[trigger] self.kinds@[j], "body"@),
    {
        let mut i: usize = 0;
        while i < self.kinds.len()
            invariant
                i <= self.len(),
                forall|j: int| 0 <= j < i ==> !is_element_named(#[trigger] self.kinds@[j], "body"@),
            decreases self.len() - i,
        {
            if element_named(&self.kinds[i], "body") {
                return Some(i);
            }
            i = i + 1;
        }
        None
    }
}

/// Looks a node id up: `Ok` with the id where the document holds it.
pub fn get_node_by_id(node_id: usize, document: &Dom) -> (r: Result<usize, DomExtractionError>)
    ensures
        node_id < document.len() ==> r == Ok::<usize, DomExtractionError>(node_id),
        node_id >= document.len() ==> r == Err::<usize, DomExtractionError>(
            DomExtractionError::NodeAccessError(node_id),
        ),
{
    if node_id < document.kinds.len() {
        Ok(node_id)
    } else {
        Err(DomExtractionError::NodeAccessError(node_id))
    }
}

/// The trimmed text a node holds itself, if it is a text node with any.
pub open spec fn own_text(k: DomKind) -> Seq<Seq<char>> {
    match k {
        DomKind::Text(t) => if trimmed(t@).len() > 0 {
            seq![trimmed(t@)]
        } else {
            Seq::empty()
        },
        _ => Seq::empty(),
    }
}

/// The non-empty trimmed texts of node `i` and its descendants, in document
/// order.
pub open spec fn subtree_texts(dom: Dom, i: int) -> Seq<Seq<char>>
    decreases dom.len() - i, dom.kids(i).len() + 1,
{
    if 0 <= i < dom.len() {
        own_text(dom.kinds@[i]) + kids_texts(dom, i, dom.kids(i).len() as int)
    } else {
        Seq::empty()
    }
}

/// The texts of the first `m` children of node `i` and their descendants.
pub open spec fn kids_texts(dom: Dom, i: int, m: int) -> Seq<Seq<char>>
    decreases dom.len() - i, m,
{
    if m <= 0 || m > dom.kids(i).len() || i < 0 {
        Seq::empty()
    } else {
        let c = dom.kids(i)[m - 1] as int;
        kids_texts(dom, i, m - 1) + if i < c < dom.len() {
            subtree_texts(dom, c)
        } else {
            Seq::empty()
        }
    }
}

fn collect_texts(dom: &Dom, i: usize, out: &mut Vec<String>)
    requires
        dom.wf(),
        i < dom.len(),
    ensures
        texts_of(final(out)@) == texts_of(old(out)@) + subtree_texts(*dom, i as int),
    decreases dom.len() - i,
{
    let ghost start = texts_of(out@);
    match &dom.kinds[i] {
        DomKind::Text(t) => {
            let tt = trim_text(t.as_str());
            if tt.unicode_len() > 0 {
                let owned = tt.to_string();
                proof {
                    vstd::string::to_string_from_display_ensures_for_str(tt, owned);
                }
                out.push(owned);
            }
        },
        _ => {},
    }
    proof {
        assert(texts_of(out@) =~= start + own_text(dom.kinds@[i as int]));
    }
    let ghost mid = texts_of(out@);
    let mut m: usize = 0;
    while m < dom.children[i].len()
        invariant
            dom.wf(),
            i < dom.len(),
            m <= dom.kids(i as int).len(),
            texts_of(out@) == mid + kids_texts(*dom, i as int, m as int),
        decreases dom.kids(i as int).len() - m,
    {
        let c = dom.children[i][m];
        assert(dom.kids(i as int)[m as int] == c);
        collect_texts(dom, c, out);
        proof {
            assert(mid + kids_texts(*dom, i as int, m + 1) =~= mid + kids_texts(
                *dom,
                i as int,
                m as int,
            ) + subtree_texts(*dom, c as int));
        }
        m = m + 1;
    }
    proof {
        assert(start + subtree_texts(*dom, i as int) =~= start + own_text(dom.kinds@[i as int])
            + kids_texts(*dom, i as int, m as int));
    }
}

/// The text of a node and its descendants: every non-empty trimmed text
/// node, in document order, joined by single spaces.
pub fn get_node_text(node_id: usize, document: &Dom) -> (r: Result<String, DomExtractionError>)
    requires
        document.wf(),
    ensures
        node_id < document.len() ==> (r matches Ok(s) && s@ == joined(
            subtree_texts(*document, node_id as int),
        )),
        node_id >= document.len() ==> r == Err::<String, DomExtractionError>(
            DomExtractionError::NodeAccessError(node_id),
        ),
{
    let id = get_node_by_id(node_id, document)?;
    let mut parts: Vec<String> = Vec::new();
    collect_texts(document, id, &mut parts);
    proof {
        assert(texts_of(Seq::<String>::empty()) =~= Seq::<Seq<char>>::empty());
        assert(Seq::<Seq<char>>::empty() + subtree_texts(*document, id as int) =~= subtree_texts(
            *document,
            id as int,
        ));
    }
    Ok(crate::unicode::join_with_spaces(&parts))
}

/// The trimmed `href` a node holds itself, if it is an element with one.
pub open spec fn own_link(k: DomKind) -> Seq<Seq<char>> {
    match k {
        DomKind::Element { href: Some(h), .. } => seq![trimmed(h@)],
        _ => Seq::empty(),
    }
}

/// The trimmed `href` attributes of node `i` and its descendants, in
/// document order.
pub open spec fn subtree_links(dom: Dom, i: int) -> Seq<Seq<char>>
    decreases dom.len() - i, dom.kids(i).len() + 1,
{
    if 0 <= i < dom.len() {
        own_link(dom.kinds@[i]) + kids_links(dom, i, dom.kids(i).len() as int)
    } else {
        Seq::empty()
    }
}

/// The links of the first `m` children of node `i` and their descendants.
pub open spec fn kids_links(dom: Dom, i: int, m: int) -> Seq<Seq<char>>
    decreases dom.len() - i, m,
{
    if m <= 0 || m > dom.kids(i).len() || i < 0 {
        Seq::empty()
    } else {
        let c = dom.kids(i)[m - 1] as int;
        kids_links(dom, i, m - 1) + if i < c < dom.len() {
            subtree_links(dom, c)
        } else {
            Seq::empty()
        }
    }
}

fn collect_links(dom: &Dom, i: usize, out: &mut Vec<String>)
    requires
        dom.wf(),
        i < dom.len(),
    ensures
        texts_of(final(out)@) == texts_of(old(out)@) + subtree_links(*dom, i as int),
    decreases dom.len() - i,
{
    let ghost start = texts_of(out@);
    match &dom.kinds[i] {
        DomKind::Element { href: Some(h), .. } => {
            let tt = trim_text(h.as_str());
            let owned = tt.to_string();
            proof {
                vstd::string::to_string_from_display_ensures_for_str(tt, owned);
            }
            out.push(owned);
        },
        _ => {},
    }
    proof {
        assert(texts_of(out@) =~= start + own_link(dom.kinds@[i as int]));
    }
    let ghost mid = texts_of(out@);
    let mut m: usize = 0;
    while m < dom.children[i].len()
        invariant
            dom.wf(),
            i < dom.len(),
            m <= dom.kids(i as int).len(),
            texts_of(out@) == mid + kids_links(*dom, i as int, m as int),
        decreases dom.kids(i as int).len() - m,
    {
        let c = dom.children[i][m];
        assert(dom.kids(i as int)[m as int] == c);
        collect_links(dom, c, out);
        proof {
            assert(mid + kids_links(*dom, i as int, m + 1) =~= mid + kids_links(
                *dom,
                i as int,
                m as int,
            ) + subtree_links(*dom, c as int));
        }
        m = m + 1;
    }
    proof {
        assert(start + subtree_links(*dom, i as int) =~= start + own_link(dom.kinds@[i as int])
            + kids_links(*dom, i as int, m as int));
    }
}

/// The trimmed `href` attributes of a node and its descendants, in document
/// order.
pub fn get_node_links(node_id: usize, document: &Dom) -> (r: Result<
    Vec<String>,
    DomExtractionError,
>)
    requires
        document.wf(),
    ensures
        node_id < document.len() ==> (r matches Ok(v) && texts_of(v@) == subtree_links(
            *document,
            node_id as int,
        )),
        node_id >= document.len() ==> r == Err::<Vec<String>, DomExtractionError>(
            DomExtractionError::NodeAccessError(node_id),
        ),
{
    let id = get_node_by_id(node_id, document)?;
    let mut links: Vec<String> = Vec::new();
    collect_links(document, id, &mut links);
    proof {
        assert(texts_of(Seq::<String>::empty()) =~= Seq::<Seq<char>>::empty());
        assert(Seq::<Seq<char>>::empty() + subtree_links(*document, id as int) =~= subtree_links(
            *document,
            id as int,
        ));
    }
    Ok(links)
}

} // verus!
