//! Locating the container of the densest node and rendering markup as
//! Markdown.
use vstd::prelude::*;
use crate::dom::{element_named, is_element_named, Dom, DomKind};
use crate::unicode::{trim_text, trimmed};
use crate::DomExtractionError;

verus! {

/// An element that usually wraps content: article, main, section, div or
/// content.
pub open spec fn is_container(k: DomKind) -> bool {
    is_element_named(k, "article"@) || is_element_named(k, "main"@) || is_element_named(
        k,
        "section"@,
    ) || is_element_named(k, "div"@) || is_element_named(k, "content"@)
}

/// Where a walk up from node `i` of at most `steps` parents stops: at the
/// first container parent, at the root, or after the last step.
pub open spec fn climb(dom: Dom, i: int, steps: nat) -> int
    decreases steps,
{
    if steps == 0 || !(0 <= i < dom.len()) {
        i
    } else {
        match dom.parents@[i] {
            Some(p) => if is_container(dom.kinds@[p as int]) {
                p as int
            } else {
                climb(dom, p as int, (steps - 1) as nat)
            },
            None => i,
        }
    }
}

/// Node `i` if it is an element or the root, else the first such node above
/// it.
pub open spec fn settle(dom: Dom, i: int) -> int
    decreases i,
{
    if 0 <= i < dom.len() && !(dom.kinds@[i] is Element) {
        match dom.parents@[i] {
            Some(p) => if p < i {
                settle(dom, p as int)
            } else {
                i
            },
            None => i,
        }
    } else {
        i
    }
}

/// Node `i` if it is an element, else the nearest element above it.
pub open spec fn element_at_or_above(dom: Dom, i: int) -> Option<int>
    decreases i,
{
    if !(0 <= i < dom.len()) {
        None
    } else if dom.kinds@[i] is Element {
        Some(i)
    } else {
        match dom.parents@[i] {
            Some(p) => if p < i {
                element_at_or_above(dom, p as int)
            } else {
                None
            },
            None => None,
        }
    }
}

fn is_container_kind(k: &DomKind) -> (r: bool)
    ensures
        r == is_container(*k),
{
    element_named(k, "article") || element_named(k, "main") || element_named(k, "section")
        || element_named(k, "div") || element_named(k, "content")
}

fn is_element_kind(k: &DomKind) -> (r: bool)
    ensures
        r == (*k is Element),
{
    match k {
        DomKind::Element { .. } => true,
        _ => false,
    }
}

/// The element whose markup stands for the content around node `node_id`:
/// walk up at most five parents, stopping at the first container, then on
/// up to the nearest element. Fails where the id is unknown or the walk ends
/// on a node that is no element.
pub fn find_content_container(node_id: usize, document: &Dom) -> (r: Result<
    usize,
    DomExtractionError,
>)
    requires
        document.wf(),
    ensures
        node_id >= document.len() ==> r == Err::<usize, DomExtractionError>(
            DomExtractionError::NodeAccessError(node_id),
        ),
        node_id < document.len() ==> {
            let e = settle(*document, climb(*document, node_id as int, 5));
            &&& document.kinds@[e] is Element ==> r == Ok::<usize, DomExtractionError>(
                e as usize,
            )
            &&& !(document.kinds@[e] is Element) ==> r == Err::<usize, DomExtractionError>(
                DomExtractionError::NodeAccessError(node_id),
            )
        },
{
    if node_id >= document.kinds.len() {
        return Err(DomExtractionError::NodeAccessError(node_id));
    }
    let mut current = node_id;
    let mut steps: usize = 5;
    let mut done = false;
    while steps > 0 && !done
        invariant
            document.wf(),
            current < document.len(),
            steps <= 5,
            done ==> current as int == climb(*document, node_id as int, 5),
            !done ==> climb(*document, current as int, steps as nat) == climb(
                *document,
                node_id as int,
                5,
            ),
        decreases steps,
    {
        match document.parents[current] {
            Some(p) => {
                if is_container_kind(&document.kinds[p]) {
                    done = true;
                }
                current = p;
            },
            None => {
                done = true;
            },
        }
        steps = steps - 1;
    }
    let mut node = current;
    loop
        invariant
            document.wf(),
            node < document.len(),
            settle(*document, node as int) == settle(
                *document,
                climb(*document, node_id as int, 5),
            ),
        decreases node,
    {
        if is_element_kind(&document.kinds[node]) {
            return Ok(node);
        }
        match document.parents[node] {
            Some(p) => {
                node = p;
            },
            None => {
                return Err(DomExtractionError::NodeAccessError(node_id));
            },
        }
    }
}

/// The element at or nearest above node `node_id`. Fails where the id is
/// unknown or no element stands there or above.
pub fn nearest_element(node_id: usize, document: &Dom) -> (r: Result<usize, DomExtractionError>)
    requires
        document.wf(),
    ensures
        element_at_or_above(*document, node_id as int) matches Some(e) ==> r == Ok::<
            usize,
            DomExtractionError,
        >(e as usize),
        element_at_or_above(*document, node_id as int) is None ==> r == Err::<
            usize,
            DomExtractionError,
        >(DomExtractionError::NodeAccessError(node_id)),
{
    if node_id >= document.kinds.len() {
        return Err(DomExtractionError::NodeAccessError(node_id));
    }
    let mut node = node_id;
    loop
        invariant
            document.wf(),
            node < document.len(),
            element_at_or_above(*document, node as int) == element_at_or_above(
                *document,
                node_id as int,
            ),
        decreases node,
    {
        if is_element_kind(&document.kinds[node]) {
            return Ok(node);
        }
        match document.parents[node] {
            Some(p) => {
                node = p;
            },
            None => {
                return Err(DomExtractionError::NodeAccessError(node_id));
            },
        }
    }
}

/// The Markdown that a converter skipping the elements named in `skip`
/// makes of an HTML fragment.
pub uninterp spec fn markdown_of(html: Seq<char>, skip: Seq<Seq<char>>) -> Seq<char>;

/// Relies on htmd's `HtmlToMarkdown::builder().skip_tags(..).build()` and
/// its `convert`. `skip_tags` panics on an empty list; `convert` parses the
/// whole fragment and never returns its error.
#[verifier::external_body]
fn convert_markdown(html: &str, skip: &Vec<String>) -> (r: String)
    requires
        skip@.len() > 0,
    ensures
        r@ == markdown_of(html@, skip@.map_values(|s: String| s@)),
{
    let tags: Vec<&str> = skip.iter().map(|s| s.as_str()).collect();
    htmd::HtmlToMarkdown::builder().skip_tags(tags).build().convert(html).unwrap_or_default()
}

/// The tags whose elements Markdown rendering leaves out.
pub open spec fn skipped_tags() -> Seq<Seq<char>> {
    seq!["script"@, "style"@]
}

/// Renders markup (that of the container found for the densest node) as
/// Markdown, script and style elements left out, trimmed.
pub fn markdown_from_html(inner_html: &str) -> (r: String)
    ensures
        r@ == trimmed(markdown_of(inner_html@, skipped_tags())),
{
    let script = "script".to_string();
    let style = "style".to_string();
    proof {
        vstd::string::to_string_from_display_ensures_for_str("script", script);
        vstd::string::to_string_from_display_ensures_for_str("style", style);
    }
    let skip = vec![script, style];
    proof {
        assert(skip@.map_values(|s: String| s@) =~= skipped_tags());
    }
    let md = convert_markdown(inner_html, &skip);
    let t = trim_text(md.as_str());
    let out = t.to_string();
    proof {
        vstd::string::to_string_from_display_ensures_for_str(t, out);
    }
    out
}

} // verus!
