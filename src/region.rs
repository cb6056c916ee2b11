//! Region selection: the longest run of consecutive qualifying nodes in the
//! density tree's construction order, and the text of such a run.
use vstd::prelude::*;
use crate::cetd::DensityTree;
use crate::dom::{get_node_text, subtree_texts, Dom};
use crate::unicode::{collapsed, join_with_spaces, joined, nfc_of, normalize_text, texts_of};
use crate::DomExtractionError;

verus! {

/// Entries `a` up to (not including) `b` of `q` are all true.
pub open spec fn all_true(q: Seq<bool>, a: int, b: int) -> bool {
    forall|j: int| a <= j < b ==> q[j]
}

/// `(start, len)` is the longest run of consecutive true entries of `q`,
/// the first of the longest where several are equally long, and `(0, 0)`
/// where `q` holds no true entry.
pub open spec fn is_longest_run(q: Seq<bool>, start: int, len: int) -> bool {
    &&& 0 <= start
    &&& 0 <= len
    &&& start + len <= q.len()
    &&& all_true(q, start, start + len)
    &&& forall|a: int, b: int|
        0 <= a <= b <= q.len() && #[trigger] all_true(q, a, b) ==> b - a <= len
    &&& forall|a: int| 0 <= a < start ==> !#[trigger] all_true(q, a, a + len)
    &&& len == 0 ==> start == 0
}

/// Finds the longest run of consecutive true entries, the first among the
/// longest; `(0, 0)` when there is none.
pub fn longest_run(q: &Vec<bool>) -> (r: (usize, usize))
    ensures
        is_longest_run(q@, r.0 as int, r.1 as int),
{
    let n = q.len();
    let mut best_start: usize = 0;
    let mut best_len: usize = 0;
    let mut cur_len: usize = 0;
    let mut i: usize = 0;
    while i < n
        invariant
            n == q@.len(),
            i <= n,
            cur_len <= i,
            all_true(q@, i - cur_len, i as int),
            i - cur_len > 0 ==> !q@[i - cur_len - 1],
            best_start + best_len <= i - cur_len,
            all_true(q@, best_start as int, best_start + best_len),
            best_len == 0 ==> best_start == 0,
            forall|a: int, b: int|
                0 <= a <= b <= i && #[trigger] all_true(q@, a, b) && a < i - cur_len ==> b - a
                    <= best_len,
            forall|a: int| 0 <= a < best_start ==> !#[trigger] all_true(q@, a, a + best_len),
        decreases n - i,
    {
        if q[i] {
            cur_len = cur_len + 1;
            proof {
                assert forall|a: int, b: int|
                    0 <= a <= b <= i + 1 && #[trigger] all_true(q@, a, b) && a < i + 1 - cur_len
                        implies b - a <= best_len by {
                    if b == i + 1 && a < b {
                        if a < i + 1 - cur_len {
                            assert(q@[i + 1 - cur_len - 1]);
                        }
                    } else {
                        assert(all_true(q@, a, b));
                    }
                }
            }
        } else {
            if cur_len > best_len {
                proof {
                    let s = i - cur_len;
                    assert forall|a: int| 0 <= a < s implies !#[trigger] all_true(
                        q@,
                        a,
                        a + cur_len,
                    ) by {
                        if all_true(q@, a, a + cur_len) {
                            if a + cur_len <= s {
                                assert(all_true(q@, a, a + cur_len));
                            } else {
                                assert(q@[s - 1]);
                            }
                        }
                    }
                }
                best_start = i - cur_len;
                best_len = cur_len;
            }
            cur_len = 0;
            proof {
                assert forall|a: int, b: int|
                    0 <= a <= b <= i + 1 && #[trigger] all_true(q@, a, b) && a < i + 1
                        implies b - a <= best_len by {
                    if b == i + 1 && a < b {
                        assert(!q@[i as int]);
                    } else if a < i - cur_len {
                    } else {
                        assert(all_true(q@, a, b));
                    }
                }
            }
        }
        i = i + 1;
    }
    if cur_len > best_len {
        proof {
            let s = n - cur_len;
            assert forall|a: int| 0 <= a < s implies !#[trigger] all_true(q@, a, a + cur_len) by {
                if all_true(q@, a, a + cur_len) {
                    if a + cur_len <= s {
                        assert(all_true(q@, a, a + cur_len));
                    } else {
                        assert(q@[s - 1]);
                    }
                }
            }
        }
        best_start = n - cur_len;
        best_len = cur_len;
    }
    (best_start, best_len)
}

/// The texts in order, each kept only where it occurs first.
pub open spec fn first_occurrences(s: Seq<Seq<char>>) -> Seq<Seq<char>>
    decreases s.len(),
{
    if s.len() == 0 {
        Seq::empty()
    } else if s.drop_last().contains(s.last()) {
        first_occurrences(s.drop_last())
    } else {
        first_occurrences(s.drop_last()).push(s.last())
    }
}

/// Keeping first occurrences keeps every text that occurs.
proof fn lemma_first_occurrences_contains(s: Seq<Seq<char>>, x: Seq<char>)
    ensures
        first_occurrences(s).contains(x) <==> s.contains(x),
    decreases s.len(),
{
    if s.len() > 0 {
        let init = s.drop_last();
        lemma_first_occurrences_contains(init, x);
        assert(s =~= init.push(s.last()));
        if s.contains(x) && x != s.last() {
            let i = choose|i: int| 0 <= i < s.len() && s[i] == x;
            assert(init[i] == x);
        }
        if init.contains(x) {
            let i = choose|i: int| 0 <= i < init.len() && init[i] == x;
            assert(s[i] == x);
        }
        if !init.contains(s.last()) {
            assert(first_occurrences(s).last() == s.last());
            let f = first_occurrences(init);
            if f.contains(x) {
                let i = choose|i: int| 0 <= i < f.len() && f[i] == x;
                assert(f.push(s.last())[i] == x);
            }
            if f.push(s.last()).contains(x) && x != s.last() {
                let i = choose|i: int| 0 <= i < f.len() + 1 && f.push(s.last())[i] == x;
                assert(f[i] == x);
            }
        }
    }
}

/// The text of each tree node of the run `start..start + len`, in order.
pub open spec fn run_texts(tree: DensityTree, dom: Dom, start: int, len: int) -> Seq<Seq<char>> {
    Seq::new(len as nat, |k: int| joined(subtree_texts(dom, tree.dom_id(start + k))))
}

/// Every tree node of the run mirrors a node that the document holds.
pub open spec fn run_resolves(tree: DensityTree, dom: Dom, start: int, len: int) -> bool {
    forall|k: int| 0 <= k < len ==> #[trigger] tree.dom_id(start + k) < dom.len()
}

/// The extracted text of a run: the texts of its nodes, each kept once,
/// joined by spaces and normalised; empty for an empty run.
pub open spec fn run_content(tree: DensityTree, dom: Dom, start: int, len: int) -> Seq<char> {
    if len == 0 {
        Seq::empty()
    } else {
        collapsed(nfc_of(joined(first_occurrences(run_texts(tree, dom, start, len)))))
    }
}

fn contains_text(v: &Vec<String>, x: &String) -> (r: bool)
    ensures
        r == texts_of(v@).contains(x@),
{
    let mut j: usize = 0;
    while j < v.len()
        invariant
            j <= v.len(),
            forall|i: int| 0 <= i < j ==> v@[i]@ != x@,
        decreases v.len() - j,
    {
        if v[j] == *x {
            assert(texts_of(v@)[j as int] == x@);
            return true;
        }
        j = j + 1;
    }
    proof {
        if texts_of(v@).contains(x@) {
            let i = choose|i: int| 0 <= i < texts_of(v@).len() && texts_of(v@)[i] == x@;
            assert(v@[i]@ == x@);
        }
    }
    false
}

/// `r` is what extracting the run `start..start + len` gives: its content
/// where every node resolves, else the access error of the first node that
/// does not.
pub open spec fn run_result(
    tree: DensityTree,
    dom: Dom,
    start: int,
    len: int,
    r: Result<String, DomExtractionError>,
) -> bool {
    &&& run_resolves(tree, dom, start, len) ==> (r matches Ok(s) && s@ == run_content(
        tree,
        dom,
        start,
        len,
    ))
    &&& !run_resolves(tree, dom, start, len) ==> exists|k: int|
        0 <= k < len && run_resolves(tree, dom, start, k) && tree.dom_id(start + k) >= dom.len()
            && r == Err::<String, DomExtractionError>(
            DomExtractionError::NodeAccessError(tree.nodes@[start + k].node_id),
        )
}

/// The text of the run `start..start + len` of tree nodes: the text of
/// each node's document subtree, each distinct text once in run order,
/// joined by spaces and normalised. Fails on the first node whose document
/// id the document does not hold.
pub fn extract_run_text(tree: &DensityTree, document: &Dom, start: usize, len: usize) -> (r:
    Result<String, DomExtractionError>)
    requires
        document.wf(),
        start + len <= tree.len(),
    ensures
        run_result(*tree, *document, start as int, len as int, r),
{
    let ghost texts = run_texts(*tree, *document, start as int, len as int);
    let mut uniques: Vec<String> = Vec::new();
    let mut k: usize = 0;
    while k < len
        invariant
            document.wf(),
            start + len <= tree.len(),
            k <= len,
            texts == run_texts(*tree, *document, start as int, len as int),
            run_resolves(*tree, *document, start as int, k as int),
            texts_of(uniques@) == first_occurrences(texts.subrange(0, k as int)),
        decreases len - k,
    {
        let n = tree.nodes.len();
        assert(start + k < n);
        let id = tree.nodes[start + k].node_id;
        match get_node_text(id, document) {
            Ok(text) => {
                let seen = contains_text(&uniques, &text);
                proof {
                    let pre = texts.subrange(0, k as int);
                    assert(texts.subrange(0, k + 1).drop_last() =~= pre);
                    assert(texts.subrange(0, k + 1).last() == text@);
                    lemma_first_occurrences_contains(pre, text@);
                }
                if !seen {
                    let ghost prev = uniques@;
                    let ghost tv = text@;
                    uniques.push(text);
                    proof {
                        assert(texts_of(uniques@) =~= texts_of(prev).push(tv));
                    }
                }
            },
            Err(e) => {
                proof {
                    assert(tree.dom_id(start + k) >= document.len());
                    assert(!run_resolves(*tree, *document, start as int, len as int));
                    assert(tree.dom_id(start + k) == tree.dom_id(start as int + k as int));
                }
                return Err(e);
            },
        }
        k = k + 1;
    }
    proof {
        assert(texts.subrange(0, len as int) =~= texts);
    }
    if len == 0 {
        return Ok(String::new());
    }
    let joined_text = join_with_spaces(&uniques);
    Ok(normalize_text(joined_text.as_str()))
}

impl DensityTree {
    /// Extracts the main content: the text of the longest run of
    /// consecutive nodes, in construction order, whose entry in `qualifies`
    /// is true (the first such run among equally long ones). Empty where no
    /// node qualifies.
    pub fn extract_content(&self, document: &Dom, qualifies: &Vec<bool>) -> (r: Result<
        String,
        DomExtractionError,
    >)
        requires
            document.wf(),
            qualifies@.len() == self.len(),
        ensures
            exists|start: int, len: int|
                is_longest_run(qualifies@, start, len) && run_result(
                    *self,
                    *document,
                    start,
                    len,
                    r,
                ),
    {
        let (start, len) = longest_run(qualifies);
        extract_run_text(self, document, start, len)
    }

    /// The strict ancestors of node `t`, from the root down to its parent.
    pub open spec fn ancestor_path(&self, t: int) -> Seq<usize>
        decreases t,
    {
        if 0 <= t < self.parents@.len() {
            match self.parents@[t] {
                Some(p) => if p < t {
                    self.ancestor_path(p as int).push(p)
                } else {
                    Seq::empty()
                },
                None => Seq::empty(),
            }
        } else {
            Seq::empty()
        }
    }

    /// Lists the strict ancestors of node `t`, from the root down to its
    /// parent; empty for the root.
    pub fn ancestors(&self, t: usize) -> (r: Vec<usize>)
        requires
            t < self.parents@.len(),
        ensures
            r@ == self.ancestor_path(t as int),
        decreases t,
    {
        match self.parents[t] {
            Some(p) => if p < t {
                let mut r = self.ancestors(p);
                r.push(p);
                r
            } else {
                Vec::new()
            },
            None => Vec::new(),
        }
    }
}

/// A run that the selection returns never reaches across a node that does
/// not qualify: every node inside it qualifies.
pub proof fn lemma_run_never_bridges(q: Seq<bool>, start: int, len: int, j: int)
    requires
        is_longest_run(q, start, len),
        start <= j < start + len,
    ensures
        q[j],
{
}

/// Of two separate runs of qualifying nodes, the selection takes one that is
/// at least as long as either, and never the later of two equally long ones.
pub proof fn lemma_longer_run_wins(q: Seq<bool>, start: int, len: int, a1: int, b1: int, a2: int, b2: int)
    requires
        is_longest_run(q, start, len),
        0 <= a1 <= b1 < a2 <= b2 <= q.len(),
        all_true(q, a1, b1),
        all_true(q, a2, b2),
    ensures
        len >= b1 - a1,
        len >= b2 - a2,
        b1 - a1 == len && len > 0 ==> start <= a1,
{
    if b1 - a1 == len && len > 0 && start > a1 {
        assert(all_true(q, a1, a1 + len));
    }
}

/// Where no node qualifies, the extracted content is empty.
pub proof fn lemma_no_qualifying_node_empty(tree: DensityTree, dom: Dom, q: Seq<bool>, start: int, len: int)
    requires
        is_longest_run(q, start, len),
        forall|j: int| 0 <= j < q.len() ==> !q[j],
    ensures
        len == 0,
        run_resolves(tree, dom, start, len),
        run_content(tree, dom, start, len) == Seq::<char>::empty(),
{
    if len > 0 {
        assert(q[start]);
    }
}

} // verus!
