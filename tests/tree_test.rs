use dom_content_extraction::{build_dom, Dom, DomKind, HtmlTreeBuilder, NodeMetrics, TreeBuilder};

const TEST_HTML: &str = r#"
        <html>
        <body>
            <div class="content">
                Some text here
                <a href="\#">A link</a>
                <p>More content</p>
                <button>Click me</button>
                <script>console.log('skip');</script>
                <style>.skip{}</style>
            </div>
            <div class="sidebar">
                <select>
                    <option>Option 1</option>
                </select>
            </div>
        </body>
        </html>
    "#;

fn nth_element(dom: &Dom, tag: &str, nth: usize) -> usize {
    let mut seen = 0;
    for (i, kind) in dom.kinds.iter().enumerate() {
        if let DomKind::Element { name, .. } = kind {
            if name == tag {
                if seen == nth {
                    return i;
                }
                seen += 1;
            }
        }
    }
    panic!("no such element");
}

#[test]
fn test_body_selector_initialization() {
    let document = build_dom("");
    assert!(document.find_body().is_some());
}

#[test]
fn test_document_always_has_body() {
    let test_cases = [
        "",
        "<div>No body here</div>",
        "<<<>>>",
        "Plain text",
        "<html><div>No explicit body</div></html>",
    ];

    for html in test_cases {
        let document = build_dom(html);
        let bodies = document
            .kinds
            .iter()
            .filter(|k| matches!(k, DomKind::Element { name, .. } if name == "body"))
            .count();
        assert_eq!(bodies, 1, "HTML parser should always provide a body tag");
    }
}

#[test]
fn test_node_metrics() {
    let document = build_dom(TEST_HTML);
    let builder = HtmlTreeBuilder::new(&document);
    let content_div = nth_element(&document, "div", 0);

    let metrics = builder.build_metrics(content_div);
    assert_eq!(metrics.char_count, 0);
    assert_eq!(metrics.tag_count, 1);
    assert_eq!(metrics.link_tag_count, 0);
}

#[test]
fn test_get_children_filters() {
    let document = build_dom(TEST_HTML);
    let builder = HtmlTreeBuilder::new(&document);
    let body = document.find_body().unwrap();

    let children = builder.get_children(body);
    assert_eq!(children.len(), 2);
}

#[test]
fn test_link_metrics() {
    let document = build_dom(TEST_HTML);
    let builder = HtmlTreeBuilder::new(&document);

    let link = nth_element(&document, "a", 0);
    let metrics = builder.build_metrics(link);
    assert_eq!(metrics.link_tag_count, 1);

    let button = nth_element(&document, "button", 0);
    let metrics = builder.build_metrics(button);
    assert_eq!(metrics.link_tag_count, 1);

    let select = nth_element(&document, "select", 0);
    let metrics = builder.build_metrics(select);
    assert_eq!(metrics.link_tag_count, 1);
}

#[test]
fn test_text_metrics() {
    let document = build_dom(TEST_HTML);
    let builder = HtmlTreeBuilder::new(&document);
    let content_div = nth_element(&document, "div", 0);
    let text_node = document.children[content_div][0];

    let metrics = builder.build_metrics(text_node);
    assert_eq!(metrics.char_count, 14);
    assert_eq!(metrics.tag_count, 0);
    assert_eq!(metrics.link_tag_count, 0);
}

#[test]
fn test_get_parent() {
    let document = build_dom(TEST_HTML);
    let builder = HtmlTreeBuilder::new(&document);
    let content_div = nth_element(&document, "div", 0);

    let parent = builder.get_parent(content_div);
    assert!(parent.is_some());
    let body = nth_element(&document, "body", 0);
    assert_eq!(parent.unwrap(), body);
}

#[test]
fn get_children_and_parent_of_unknown_id() {
    let document = build_dom(TEST_HTML);
    let builder = HtmlTreeBuilder::new(&document);
    assert!(builder.get_children(10_000).is_empty());
    assert_eq!(builder.get_parent(10_000), None);
    assert_eq!(builder.build_metrics(10_000), NodeMetrics::new());
}

#[test]
fn text_metrics_count_graphemes_not_bytes() {
    let document = build_dom("<body><p>  café 👩‍💻 </p></body>");
    let builder = HtmlTreeBuilder::new(&document);
    let p = nth_element(&document, "p", 0);
    let text = document.children[p][0];
    assert_eq!(builder.build_metrics(text).char_count, 6);
}

#[test]
fn combine_adds_and_saturates() {
    let mut a = NodeMetrics { char_count: 3, tag_count: 1, link_char_count: 0, link_tag_count: 1 };
    let b = NodeMetrics { char_count: 4, tag_count: 2, link_char_count: 5, link_tag_count: 0 };
    a.combine(&b);
    assert_eq!(a, NodeMetrics { char_count: 7, tag_count: 3, link_char_count: 5, link_tag_count: 1 });

    let mut big = NodeMetrics { char_count: u32::MAX - 1, tag_count: 0, link_char_count: 0, link_tag_count: 0 };
    big.combine(&NodeMetrics { char_count: 5, tag_count: 0, link_char_count: 0, link_tag_count: 0 });
    assert_eq!(big.char_count, u32::MAX);
    assert_eq!(NodeMetrics::new(), NodeMetrics { char_count: 0, tag_count: 0, link_char_count: 0, link_tag_count: 0 });
}
