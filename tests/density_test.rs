use dom_content_extraction::dom::DomEvent;
use dom_content_extraction::markdown::{find_content_container, markdown_from_html, nearest_element};
use dom_content_extraction::region::longest_run;
use dom_content_extraction::{
    build_dom, get_node_by_id, get_node_links, get_node_text, DensityTree, Dom, DomExtractionError,
    DomKind,
};

fn denom(v: u32) -> f32 {
    if v == 0 { 1.0 } else { v as f32 }
}

/// The composite text density of a node, given the body's metrics, in f32.
fn composite_density(ci: u32, ti: u32, lci: u32, lti: u32, cb: u32, lcb: u32) -> f32 {
    if ci == 0 {
        return 0.0;
    }
    let c = ci as f32;
    let t = denom(ti);
    let nlc = denom(ci.saturating_sub(lci));
    let lc = lci as f32;
    let b = denom(cb);
    let lb = lcb as f32;
    let lt = denom(lti);
    let log_base = ((c / nlc) * lc + (lb / b) * c + std::f32::consts::E).ln();
    ((c / lb) * (t / lt)).log(log_base) * (c / t)
}

/// Which nodes of the tree qualify for the content region, by the density
/// threshold over the ancestors of the node with the largest density sum.
fn qualifying(tree: &DensityTree) -> Vec<bool> {
    let body = tree.nodes[0].metrics;
    let density: Vec<f32> = tree
        .nodes
        .iter()
        .map(|n| {
            let m = n.metrics;
            composite_density(m.char_count, m.tag_count, m.link_char_count, m.link_tag_count, body.char_count, body.link_char_count)
        })
        .collect();
    let sums: Vec<f32> = tree.children.iter().map(|ks| ks.iter().map(|&k| density[k]).sum()).collect();
    let mut best = 0;
    for i in 0..sums.len() {
        if sums[i] > sums[best] {
            best = i;
        }
    }
    let ancestors = tree.ancestors(best);
    let threshold = if ancestors.is_empty() {
        density[best]
    } else {
        ancestors.iter().map(|&a| density[a]).sum::<f32>() / ancestors.len() as f32
    };
    (0..tree.nodes.len()).map(|i| density[i] >= threshold && sums[i] > 0.0).collect()
}

fn nth_element(dom: &Dom, tag: &str, nth: usize) -> usize {
    let mut seen = 0;
    for (i, kind) in dom.kinds.iter().enumerate() {
        if let DomKind::Element { name, .. } = kind {
            if name == tag {
                if seen == nth {
                    return i;
                }
                seen += 1;
            }
        }
    }
    panic!("no such element");
}

#[test]
fn test_document_node_handling() {
    let html = r#"<!DOCTYPE html><html><body><div>Test</div></body></html>"#;
    let document = build_dom(html);
    assert!(matches!(document.kinds[0], DomKind::Document));

    let density_tree = DensityTree::build_density_tree(&document, 0);
    assert!(!density_tree.children[0].is_empty());
    let text_nodes = density_tree.nodes.iter().filter(|n| n.metrics.char_count > 0).count();
    assert!(text_nodes > 0);
}

#[test]
fn counts_are_totals_over_retained_subtree() {
    let html = "<body><div><p>Hello world</p><script>var x = 1;</script><!-- note --><p>Bye</p></div></body>";
    let document = build_dom(html);
    let tree = DensityTree::from_document(&document).unwrap();
    // body, div, p, text, p, text
    assert_eq!(tree.nodes.len(), 6);
    let root = tree.nodes[0].metrics;
    assert_eq!(root.char_count, 14);
    assert_eq!(root.tag_count, 4);
    assert_eq!(root.link_char_count, 0);
    let div = tree.nodes[1].metrics;
    assert_eq!(div.char_count, 14);
    assert_eq!(div.tag_count, 3);
    assert_eq!(tree.children[1], vec![2, 4]);
    assert_eq!(tree.parents[4], Some(1));
    // pre-order over the retained nodes: document order, script and comment left out
    let ids: Vec<usize> = tree.nodes.iter().map(|n| n.node_id).collect();
    assert!(ids.windows(2).all(|w| w[0] < w[1]));
    for (t, n) in tree.nodes.iter().enumerate().skip(1) {
        assert!(tree.parents[t].is_some());
        assert!(matches!(document.kinds[n.node_id], DomKind::Element { .. } | DomKind::Text(_)));
    }
}

#[test]
fn anchor_text_counts_as_link_text() {
    let html = "<body><p>Plain paragraph text</p><div><a href=\"/x\">Home page</a></div></body>";
    let document = build_dom(html);
    let tree = DensityTree::from_document(&document).unwrap();
    let a = nth_element(&document, "a", 0);
    let t = tree.nodes.iter().position(|n| n.node_id == a).unwrap();
    let m = tree.nodes[t].metrics;
    assert_eq!(m.char_count, 9);
    assert_eq!(m.link_char_count, m.char_count);
    assert_eq!(m.link_tag_count, 1);
    let div = tree.parents[t].unwrap();
    assert_eq!(tree.nodes[div].metrics.link_char_count, tree.nodes[div].metrics.char_count);

    let body = tree.nodes[0].metrics;
    let p = tree.children[0][0];
    let pm = tree.nodes[p].metrics;
    let dp = composite_density(pm.char_count, pm.tag_count, pm.link_char_count, pm.link_tag_count, body.char_count, body.link_char_count);
    let dm = tree.nodes[div].metrics;
    let dd = composite_density(dm.char_count, dm.tag_count, dm.link_char_count, dm.link_tag_count, body.char_count, body.link_char_count);
    assert!(dd < dp);
}

#[test]
fn extracts_article_not_navigation() {
    let html = "<body><nav><a href=\"/\">Menu</a></nav><article><p>Here is text</p></article></body>";
    let document = build_dom(html);
    let tree = DensityTree::from_document(&document).unwrap();
    let q = qualifying(&tree);
    let content = tree.extract_content(&document, &q).unwrap();
    assert!(content.contains("Here is text"));
    assert!(!content.contains("Menu"));
}

#[test]
fn body_of_only_script_gives_empty_content() {
    let html = "<html><body>\n<script>console.log(\"empty\")</script>\n</body></html>";
    let document = build_dom(html);
    let tree = DensityTree::from_document(&document).unwrap();
    assert!(tree.nodes.iter().all(|n| n.metrics.char_count == 0));
    let q = qualifying(&tree);
    assert!(q.iter().all(|b| !*b));
    assert_eq!(tree.extract_content(&document, &q).unwrap(), "");
}

#[test]
fn runs_are_not_bridged_and_longer_wins() {
    // two qualifying runs split by one node that does not qualify
    let q = vec![true, true, false, true, true, true];
    assert_eq!(longest_run(&q), (3, 3));
    let q = vec![true, true, true, false, true, true];
    assert_eq!(longest_run(&q), (0, 3));
    // equal runs: the first wins
    let q = vec![false, true, true, false, true, true];
    assert_eq!(longest_run(&q), (1, 2));
    assert_eq!(longest_run(&vec![false, false]), (0, 0));
    assert_eq!(longest_run(&Vec::new()), (0, 0));
}

#[test]
fn extraction_keeps_each_text_once() {
    let html = "<body><div><p>Alpha beta</p></div></body>";
    let document = build_dom(html);
    let tree = DensityTree::from_document(&document).unwrap();
    // body, div, p, text: div and p hold the same text
    let q = vec![false, true, true, false];
    assert_eq!(tree.extract_content(&document, &q).unwrap(), "Alpha beta");
    let q = vec![true, true, true, true];
    assert_eq!(tree.extract_content(&document, &q).unwrap(), "Alpha beta");
}

#[test]
fn extraction_against_another_document_fails() {
    let html = "<body><div><p>Alpha beta</p><p>Gamma</p></div></body>";
    let document = build_dom(html);
    let tree = DensityTree::from_document(&document).unwrap();
    let small = build_dom("");
    let q = vec![true; tree.nodes.len()];
    let last = tree.nodes[tree.nodes.len() - 1].node_id;
    assert!(last >= small.kinds.len());
    match tree.extract_content(&small, &q) {
        Err(DomExtractionError::NodeAccessError(_)) => {}
        other => panic!("expected an access error, got {:?}", other),
    }
}

#[test]
fn node_text_and_links() {
    let html = "<body><div> One <a href=\" /a \">Two</a><p>Three</p><a href=\"b\">  </a></div></body>";
    let document = build_dom(html);
    let div = nth_element(&document, "div", 0);
    assert_eq!(get_node_text(div, &document).unwrap(), "One Two Three");
    assert_eq!(get_node_links(div, &document).unwrap(), vec!["/a".to_string(), "b".to_string()]);
    assert_eq!(get_node_text(99_999, &document), Err(DomExtractionError::NodeAccessError(99_999)));
    assert!(matches!(get_node_links(99_999, &document), Err(DomExtractionError::NodeAccessError(99_999))));
    assert_eq!(get_node_by_id(div, &document), Ok(div));
}

#[test]
fn events_must_walk_one_tree() {
    let text = |s: &str| DomEvent::Open(DomKind::Text(s.to_string()));
    let ok = vec![DomEvent::Open(DomKind::Document), text("x"), DomEvent::Close, DomEvent::Close];
    let dom = Dom::from_events(ok).unwrap();
    assert_eq!(dom.kinds.len(), 2);
    assert_eq!(dom.parents, vec![None, Some(0)]);
    assert_eq!(dom.children, vec![vec![1], vec![]]);

    assert!(Dom::from_events(vec![]).is_none());
    assert!(Dom::from_events(vec![DomEvent::Close]).is_none());
    assert!(Dom::from_events(vec![DomEvent::Open(DomKind::Document)]).is_none());
    let two_roots = vec![DomEvent::Open(DomKind::Document), DomEvent::Close, DomEvent::Open(DomKind::Comment), DomEvent::Close];
    assert!(Dom::from_events(two_roots).is_none());
}

#[test]
fn document_without_body_is_refused() {
    let events = vec![DomEvent::Open(DomKind::Document), DomEvent::Close];
    let dom = Dom::from_events(events).unwrap();
    assert!(matches!(DensityTree::from_document(&dom), Err(DomExtractionError::NoBodyElement)));
}

#[test]
fn tree_ancestors_run_from_root() {
    let document = build_dom("<body><div><p>Deep</p></div></body>");
    let tree = DensityTree::from_document(&document).unwrap();
    // body, div, p, text
    assert_eq!(tree.ancestors(3), vec![0, 1, 2]);
    assert!(tree.ancestors(0).is_empty());
    let single = DensityTree::new(7);
    assert_eq!(single.nodes.len(), 1);
    assert_eq!(single.nodes[0].node_id, 7);
}

#[test]
fn container_and_markdown() {
    let html = "<body><article><h1>Main Article</h1><p>This is the main content.</p></article></body>";
    let document = build_dom(html);
    let p = nth_element(&document, "p", 0);
    let text = document.children[p][0];
    let article = nth_element(&document, "article", 0);
    assert_eq!(find_content_container(text, &document), Ok(article));
    assert_eq!(nearest_element(text, &document), Ok(p));
    assert_eq!(find_content_container(10_000, &document), Err(DomExtractionError::NodeAccessError(10_000)));
    let md = markdown_from_html("<h1>Main Article</h1><p>This is the main content.</p><script>x()</script>");
    assert!(md.contains("Main Article"));
    assert!(md.contains("main content"));
    assert!(!md.contains("x()"));
    assert!(!md.starts_with(' ') && !md.ends_with('\n'));
}
