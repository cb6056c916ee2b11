//! Per-node text metrics and the metrics extractor.
use vstd::prelude::*;
use crate::dom::{element_named, is_element_named, Dom, DomKind};
use crate::unicode::{capped, count_graphemes, grapheme_count, trim_text, trimmed};

verus! {

/// Text metrics of a node: characters (grapheme clusters) of text, tags,
/// characters of link text, and link tags. Each count stays at `u32::MAX`
/// once it gets there.
#[derive(Clone, Copy, Debug, PartialEq, Eq, Structural)]
pub struct NodeMetrics {
    pub char_count: u32,
    pub tag_count: u32,
    pub link_char_count: u32,
    pub link_tag_count: u32,
}

/// Four counts in the order characters, tags, link characters, link tags.
pub type Counts = (int, int, int, int);

/// Component-wise sum.
pub open spec fn add_counts(a: Counts, b: Counts) -> Counts {
    (a.0 + b.0, a.1 + b.1, a.2 + b.2, a.3 + b.3)
}

/// Each component held in 32 bits.
pub open spec fn cap_counts(a: Counts) -> Counts {
    (capped(a.0), capped(a.1), capped(a.2), capped(a.3))
}

/// All four counts zero.
pub open spec fn zero_counts() -> Counts {
    (0, 0, 0, 0)
}

/// Adding counts that were each held in 32 bits, and holding the sum in 32
/// bits, gives the 32-bit hold of the exact sum.
pub proof fn lemma_capped_sum(x: int, y: int)
    requires
        x >= 0,
        y >= 0,
    ensures
        capped(capped(x) + capped(y)) == capped(x + y),
{
}

impl NodeMetrics {
    /// The four counts.
    pub open spec fn counts(&self) -> Counts {
        (
            self.char_count as int,
            self.tag_count as int,
            self.link_char_count as int,
            self.link_tag_count as int,
        )
    }

    /// All counts zero.
    pub fn new() -> (r: Self)
        ensures
            r.counts() == zero_counts(),
    {
        NodeMetrics { char_count: 0, tag_count: 0, link_char_count: 0, link_tag_count: 0 }
    }

    /// Adds the counts of `other` (a child's) to these.
    pub fn combine(&mut self, other: &NodeMetrics)
        ensures
            final(self).counts() == cap_counts(add_counts(old(self).counts(), other.counts())),
    {
        self.char_count = self.char_count.saturating_add(other.char_count);
        self.tag_count = self.tag_count.saturating_add(other.tag_count);
        self.link_char_count = self.link_char_count.saturating_add(other.link_char_count);
        self.link_tag_count = self.link_tag_count.saturating_add(other.link_tag_count);
    }
}

/// An anchor, button or select element: a navigation-like tag.
pub open spec fn is_link_tag(k: DomKind) -> bool {
    is_element_named(k, "a"@) || is_element_named(k, "button"@) || is_element_named(k, "select"@)
}

/// A node that the density tree leaves out with all below it: the document
/// root, a comment, or a script, style or noscript element.
pub open spec fn is_excluded(k: DomKind) -> bool {
    k is Document || k is Comment || is_element_named(k, "script"@) || is_element_named(
        k,
        "style"@,
    ) || is_element_named(k, "noscript"@)
}

/// The counts a node has of itself: a text node its grapheme clusters
/// (trimmed), an element one tag, and one link tag if it is a link tag.
pub open spec fn local_counts(k: DomKind) -> Counts {
    match k {
        DomKind::Text(t) => (capped(grapheme_count(trimmed(t@)) as int), 0, 0, 0),
        DomKind::Element { .. } => (0, 1, 0, if is_link_tag(k) {
            1
        } else {
            0
        }),
        _ => zero_counts(),
    }
}

/// Tests whether a node is left out of the density tree.
pub fn excluded(k: &DomKind) -> (r: bool)
    ensures
        r == is_excluded(*k),
{
    match k {
        DomKind::Document => true,
        DomKind::Comment => true,
        DomKind::Element { .. } => element_named(k, "script") || element_named(k, "style")
            || element_named(k, "noscript"),
        _ => false,
    }
}

/// The metrics a node has of itself, its descendants not counted.
pub fn local_metrics(k: &DomKind) -> (r: NodeMetrics)
    ensures
        r.counts() == local_counts(*k),
{
    match k {
        DomKind::Text(t) => {
            let n = count_graphemes(trim_text(t.as_str()));
            NodeMetrics { char_count: n, tag_count: 0, link_char_count: 0, link_tag_count: 0 }
        },
        DomKind::Element { .. } => {
            let link = element_named(k, "a") || element_named(k, "button") || element_named(
                k,
                "select",
            );
            NodeMetrics {
                char_count: 0,
                tag_count: 1,
                link_char_count: 0,
                link_tag_count: if link {
                    1
                } else {
                    0
                },
            }
        },
        _ => NodeMetrics::new(),
    }
}

/// A child that `get_children` lists: neither left out of the density tree
/// nor a text node that is all white space.
pub open spec fn is_listed_child(k: DomKind) -> bool {
    match k {
        DomKind::Text(t) => trimmed(t@).len() > 0,
        _ => !is_excluded(k),
    }
}

/// Reads a document node by node: its own metrics, the children that carry
/// content, its parent.
pub trait TreeBuilder {
    fn build_metrics(&self, node_id: usize) -> NodeMetrics;

    fn get_children(&self, node_id: usize) -> Vec<usize>;

    fn get_parent(&self, node_id: usize) -> Option<usize>;
}

/// Reads metrics and structure of a parsed document.
pub struct HtmlTreeBuilder<'a> {
    document: &'a Dom,
}

impl<'a> HtmlTreeBuilder<'a> {
    /// The document read.
    pub closed spec fn doc(&self) -> Dom {
        *self.document
    }

    #[verifier::type_invariant]
    spec fn inv(&self) -> bool {
        self.document.wf()
    }

    pub fn new(document: &'a Dom) -> (r: Self)
        requires
            document.wf(),
        ensures
            r.doc() == *document,
    {
        HtmlTreeBuilder { document }
    }
}

impl<'a> TreeBuilder for HtmlTreeBuilder<'a> {
    /// The node's own metrics, its descendants not counted; all zero for an
    /// unknown id.
    fn build_metrics(&self, node_id: usize) -> (r: NodeMetrics)
        ensures
            node_id < self.doc().len() ==> r.counts() == local_counts(
                self.doc().kinds@[node_id as int],
            ),
            node_id >= self.doc().len() ==> r.counts() == zero_counts(),
    {
        if node_id < self.document.kinds.len() {
            local_metrics(&self.document.kinds[node_id])
        } else {
            NodeMetrics::new()
        }
    }

    /// The node's children that carry content, in document order: no
    /// excluded node and no white-space text. None for an unknown id.
    fn get_children(&self, node_id: usize) -> (r: Vec<usize>)
        ensures
            node_id >= self.doc().len() ==> r@.len() == 0,
            node_id < self.doc().len() ==> r@ == self.doc().kids(node_id as int).filter(
                |c: usize| is_listed_child(self.doc().kinds@[c as int]),
            ),
    {
        proof {
            use_type_invariant(self);
        }
        let dom = self.document;
        let mut r: Vec<usize> = Vec::new();
        if node_id >= dom.kinds.len() {
            return r;
        }
        let ghost kids = dom.kids(node_id as int);
        let ghost keep = |c: usize| is_listed_child(dom.kinds@[c as int]);
        let mut m: usize = 0;
        while m < dom.children[node_id].len()
            invariant
                dom.wf(),
                node_id < dom.len(),
                kids == dom.kids(node_id as int),
                keep == (|c: usize| is_listed_child(dom.kinds@[c as int])),
                m <= kids.len(),
                r@ == kids.subrange(0, m as int).filter(keep),
            decreases kids.len() - m,
        {
            let c = dom.children[node_id][m];
            proof {
                assert(kids.subrange(0, m + 1) =~= kids.subrange(0, m as int).push(c));
                kids.subrange(0, m as int).lemma_filter_push(c, keep);
            }
            let k = &dom.kinds[c];
            let listed = match k {
                DomKind::Text(t) => trim_text(t.as_str()).unicode_len() > 0,
                _ => !excluded(k),
            };
            assert(listed == keep(c));
            if listed {
                r.push(c);
            }
            m = m + 1;
        }
        proof {
            assert(kids.subrange(0, m as int) =~= kids);
        }
        r
    }

    /// The node's parent; none for the root or an unknown id.
    fn get_parent(&self, node_id: usize) -> (r: Option<usize>)
        ensures
            node_id >= self.doc().len() ==> r is None,
            node_id < self.doc().len() ==> r == self.doc().parents@[node_id as int],
    {
        proof {
            use_type_invariant(self);
        }
        if node_id < self.document.kinds.len() {
            self.document.parents[node_id]
        } else {
            None
        }
    }
}

} // verus!
