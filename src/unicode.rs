//! Unicode-aware text measures and whitespace normalisation.
use vstd::prelude::*;
use unicode_normalization::UnicodeNormalization;
use unicode_segmentation::UnicodeSegmentation;

verus! {

/// The characters that carry Unicode's White_Space property.
pub open spec fn is_white_space(c: char) -> bool {
    ('\u{9}' <= c && c <= '\u{d}') || c == ' ' || c == '\u{85}' || c == '\u{a0}'
        || c == '\u{1680}' || ('\u{2000}' <= c && c <= '\u{200a}') || c == '\u{2028}'
        || c == '\u{2029}' || c == '\u{202f}' || c == '\u{205f}' || c == '\u{3000}'
}

/// Tests whether `c` is a White_Space character.
pub fn char_is_white_space(c: char) -> (r: bool)
    ensures
        r == is_white_space(c),
{
    ('\u{9}' <= c && c <= '\u{d}') || c == ' ' || c == '\u{85}' || c == '\u{a0}' || c == '\u{1680}'
        || ('\u{2000}' <= c && c <= '\u{200a}') || c == '\u{2028}' || c == '\u{2029}' || c
        == '\u{202f}' || c == '\u{205f}' || c == '\u{3000}'
}

/// Number of extended grapheme clusters in a text.
pub uninterp spec fn grapheme_count(s: Seq<char>) -> nat;

/// Relies on unicode_segmentation's `graphemes(text, true)`: the number of
/// extended grapheme clusters. Each cluster holds at least one code point,
/// and a non-empty text holds at least one cluster.
#[verifier::external_body]
fn grapheme_len(text: &str) -> (r: usize)
    ensures
        r == grapheme_count(text@),
        r <= text@.len(),
        text@.len() > 0 ==> r >= 1,
{
    UnicodeSegmentation::graphemes(text, true).count()
}

/// The canonical composition (NFC) of a text.
pub uninterp spec fn nfc_of(s: Seq<char>) -> Seq<char>;

/// Relies on unicode_normalization's `nfc`: the NFC form of the text.
#[verifier::external_body]
fn nfc_string(text: &str) -> (r: String)
    ensures
        r@ == nfc_of(text@),
{
    text.nfc().collect::<String>()
}

/// A count held in 32 bits: the value, or `u32::MAX` where it does not fit.
pub open spec fn capped(n: int) -> int {
    if n > u32::MAX as int {
        u32::MAX as int
    } else {
        n
    }
}

/// Counts the grapheme clusters (user-perceived characters) in `text`.
pub fn count_graphemes(text: &str) -> (r: u32)
    ensures
        r == capped(grapheme_count(text@) as int),
{
    let n = grapheme_len(text);
    if n > u32::MAX as usize {
        u32::MAX
    } else {
        n as u32
    }
}

/// Counts the Unicode code points in `text`.
pub fn count_code_points(text: &str) -> (r: u32)
    ensures
        r == capped(text@.len() as int),
{
    let n = text.unicode_len();
    if n > u32::MAX as usize {
        u32::MAX
    } else {
        n as u32
    }
}

/// Relies on String::push: appends one character.
#[verifier::external_body]
fn push_char(s: &mut String, c: char)
    ensures
        final(s)@ == old(s)@.push(c),
{
    s.push(c)
}

/// The words of a text, in order: its maximal runs of characters that are
/// not white space.
pub open spec fn words(s: Seq<char>) -> Seq<Seq<char>>
    decreases s.len(),
{
    if s.len() == 0 {
        Seq::empty()
    } else {
        let w = words(s.drop_last());
        let c = s.last();
        if is_white_space(c) {
            w
        } else if s.len() > 1 && !is_white_space(s[s.len() - 2]) {
            w.drop_last().push(w.last().push(c))
        } else {
            w.push(seq![c])
        }
    }
}

/// The words of a text joined by single spaces.
pub open spec fn collapsed(s: Seq<char>) -> Seq<char> {
    joined(words(s))
}

/// A text that ends in a character other than white space has a word.
proof fn lemma_words_nonempty(s: Seq<char>)
    requires
        s.len() > 0,
        !is_white_space(s.last()),
    ensures
        words(s).len() > 0,
{
}

/// Appending a character to the last fragment appends it to the join.
proof fn lemma_joined_extend(fs: Seq<Seq<char>>, c: char)
    requires
        fs.len() > 0,
    ensures
        joined(fs.drop_last().push(fs.last().push(c))) == joined(fs).push(c),
{
    let g = fs.drop_last().push(fs.last().push(c));
    assert(g.drop_last() =~= fs.drop_last());
    assert(g.last() == fs.last().push(c));
    if fs.len() == 1 {
        assert(joined(g) == g[0]);
    } else {
        assert(joined(g) =~= joined(fs).push(c));
    }
}

/// Joins the white-space-separated words of `text` with single spaces.
pub fn collapse_whitespace(text: &str) -> (r: String)
    ensures
        r@ == collapsed(text@),
{
    let mut out = String::new();
    let mut started = false;
    let mut prev_white = true;
    let n = text.unicode_len();
    let mut i: usize = 0;
    proof {
        assert(text@.subrange(0, 0) =~= Seq::<char>::empty());
    }
    while i < n
        invariant
            n == text@.len(),
            i <= n,
            out@ == joined(words(text@.subrange(0, i as int))),
            started <==> words(text@.subrange(0, i as int)).len() > 0,
            prev_white <==> (i == 0 || is_white_space(text@[i - 1])),
        decreases n - i,
    {
        let c = text.get_char(i);
        let ghost pre = text@.subrange(0, i as int);
        let ghost next = text@.subrange(0, i + 1);
        proof {
            assert(next.drop_last() =~= pre);
            assert(next.last() == c);
            if i > 0 {
                assert(next[next.len() - 2] == text@[i - 1]);
                assert(pre.last() == text@[i - 1]);
            }
        }
        if char_is_white_space(c) {
            prev_white = true;
        } else {
            if prev_white {
                if started {
                    push_char(&mut out, ' ');
                }
                push_char(&mut out, c);
                proof {
                    let w = words(pre);
                    assert(words(next) == w.push(seq![c]));
                    let g = w.push(seq![c]);
                    assert(g.drop_last() =~= w);
                    assert(g.last() == seq![c]);
                    if w.len() > 0 {
                        assert(out@ =~= joined(g));
                    } else {
                        assert(joined(w) =~= Seq::<char>::empty());
                        assert(joined(g) == g[0]);
                        assert(out@ =~= joined(g));
                    }
                }
            } else {
                push_char(&mut out, c);
                proof {
                    lemma_words_nonempty(pre);
                    lemma_joined_extend(words(pre), c);
                }
            }
            started = true;
            prev_white = false;
        }
        i = i + 1;
    }
    proof {
        assert(text@.subrange(0, n as int) =~= text@);
    }
    out
}

/// Normalises `text` to NFC and collapses its white space.
pub fn normalize_text(text: &str) -> (r: String)
    ensures
        r@ == collapsed(nfc_of(text@)),
{
    let normalized = nfc_string(text);
    collapse_whitespace(normalized.as_str())
}

/// The text without its leading white space.
pub open spec fn trim_start(s: Seq<char>) -> Seq<char>
    decreases s.len(),
{
    if s.len() > 0 && is_white_space(s[0]) {
        trim_start(s.drop_first())
    } else {
        s
    }
}

/// The text without its trailing white space.
pub open spec fn trim_end(s: Seq<char>) -> Seq<char>
    decreases s.len(),
{
    if s.len() > 0 && is_white_space(s.last()) {
        trim_end(s.drop_last())
    } else {
        s
    }
}

/// The text without white space at either end.
pub open spec fn trimmed(s: Seq<char>) -> Seq<char> {
    trim_end(trim_start(s))
}

/// The part of `text` without white space at either end.
pub fn trim_text(text: &str) -> (r: &str)
    ensures
        r@ == trimmed(text@),
{
    let n = text.unicode_len();
    let mut a: usize = 0;
    proof {
        assert(text@.subrange(0, n as int) =~= text@);
    }
    while a < n && char_is_white_space(text.get_char(a))
        invariant
            n == text@.len(),
            a <= n,
            trim_start(text@) == trim_start(text@.subrange(a as int, n as int)),
        decreases n - a,
    {
        proof {
            assert(text@.subrange(a as int, n as int).drop_first()
                =~= text@.subrange(a + 1, n as int));
        }
        a = a + 1;
    }
    let mut b: usize = n;
    while b > a && char_is_white_space(text.get_char(b - 1))
        invariant
            n == text@.len(),
            a <= b <= n,
            trimmed(text@) == trim_end(text@.subrange(a as int, b as int)),
        decreases b - a,
    {
        proof {
            assert(text@.subrange(a as int, b as int).drop_last()
                =~= text@.subrange(a as int, b - 1));
        }
        b = b - 1;
    }
    text.substring_char(a, b)
}

/// The fragments joined with one space between neighbours.
pub open spec fn joined(fs: Seq<Seq<char>>) -> Seq<char>
    decreases fs.len(),
{
    if fs.len() == 0 {
        Seq::empty()
    } else if fs.len() == 1 {
        fs[0]
    } else {
        joined(fs.drop_last()) + seq![' '] + fs.last()
    }
}

/// The texts that a list of strings holds.
pub open spec fn texts_of(v: Seq<String>) -> Seq<Seq<char>> {
    v.map_values(|f: String| f@)
}

/// Joins the fragments with one space between neighbours.
pub fn join_with_spaces(fragments: &Vec<String>) -> (r: String)
    ensures
        r@ == joined(texts_of(fragments@)),
{
    let mut out = String::new();
    let mut k: usize = 0;
    while k < fragments.len()
        invariant
            k <= fragments.len(),
            out@ == joined(texts_of(fragments@).subrange(0, k as int)),
        decreases fragments.len() - k,
    {
        let ghost fs = texts_of(fragments@);
        if k > 0 {
            push_char(&mut out, ' ');
        }
        out.append(fragments[k].as_str());
        proof {
            assert(fs.subrange(0, k + 1).drop_last() =~= fs.subrange(0, k as int));
            if k == 0 {
                assert(out@ =~= fs.subrange(0, 1)[0]);
            }
        }
        k = k + 1;
    }
    proof {
        assert(texts_of(fragments@).subrange(0, k as int) =~= texts_of(fragments@));
    }
    out
}

/// Joins the fragments with single spaces, then normalises the result.
pub fn join_text_fragments(fragments: Vec<String>) -> (r: String)
    ensures
        r@ == collapsed(nfc_of(joined(texts_of(fragments@)))),
{
    let joined_text = join_with_spaces(&fragments);
    normalize_text(joined_text.as_str())
}

/// Compares two texts character by character.
pub fn str_equal(a: &str, b: &str) -> (r: bool)
    ensures
        r == (a@ == b@),
{
    let n = a.unicode_len();
    if n != b.unicode_len() {
        return false;
    }
    let mut i: usize = 0;
    while i < n
        invariant
            n == a@.len() == b@.len(),
            i <= n,
            forall|j: int| 0 <= j < i ==> a@[j] == b@[j],
        decreases n - i,
    {
        if a.get_char(i) != b.get_char(i) {
            return false;
        }
        i = i + 1;
    }
    proof {
        assert(a@ =~= b@);
    }
    true
}

/// Counted as Latin: ASCII and the Latin-1 letters.
pub open spec fn is_latin_char(c: char) -> bool {
    c <= '\u{7f}' || ('\u{c0}' <= c && c <= '\u{ff}')
}

/// Counted as Han: the block from CJK punctuation to the unified ideographs.
pub open spec fn is_cjk_char(c: char) -> bool {
    '\u{3000}' <= c && c <= '\u{9fff}'
}

/// Counted as Cyrillic: the basic Cyrillic block.
pub open spec fn is_cyrillic_char(c: char) -> bool {
    '\u{400}' <= c && c <= '\u{4ff}'
}

/// How many characters of `s` satisfy `p`.
pub open spec fn count_where(s: Seq<char>, p: spec_fn(char) -> bool) -> nat
    decreases s.len(),
{
    if s.len() == 0 {
        0
    } else {
        count_where(s.drop_last(), p) + if p(s.last()) { 1nat } else { 0nat }
    }
}

/// The script that most characters of `s` belong to; Latin unless Han or
/// Cyrillic strictly outnumbers both others.
pub open spec fn primary_script(s: Seq<char>) -> Seq<char> {
    let latin = count_where(s, |c: char| is_latin_char(c));
    let cjk = count_where(s, |c: char| is_cjk_char(c));
    let cyrillic = count_where(s, |c: char| is_cyrillic_char(c));
    if cjk > latin && cjk > cyrillic {
        "Han"@
    } else if cyrillic > latin && cyrillic > cjk {
        "Cyrillic"@
    } else {
        "Latin"@
    }
}

/// Names the most common script of `text`: "Han", "Cyrillic" or "Latin".
pub fn detect_primary_script(text: &str) -> (r: &'static str)
    ensures
        r@ == primary_script(text@),
{
    let n = text.unicode_len();
    let mut latin: usize = 0;
    let mut cjk: usize = 0;
    let mut cyrillic: usize = 0;
    let mut i: usize = 0;
    while i < n
        invariant
            n == text@.len(),
            i <= n,
            latin == count_where(text@.subrange(0, i as int), |c: char| is_latin_char(c)),
            cjk == count_where(text@.subrange(0, i as int), |c: char| is_cjk_char(c)),
            cyrillic == count_where(
                text@.subrange(0, i as int),
                |c: char| is_cyrillic_char(c),
            ),
            latin <= i && cjk <= i && cyrillic <= i,
        decreases n - i,
    {
        let c = text.get_char(i);
        proof {
            assert(text@.subrange(0, i + 1).drop_last() =~= text@.subrange(0, i as int));
        }
        if c <= '\u{7f}' || ('\u{c0}' <= c && c <= '\u{ff}') {
            latin = latin + 1;
        }
        if '\u{3000}' <= c && c <= '\u{9fff}' {
            cjk = cjk + 1;
        }
        if '\u{400}' <= c && c <= '\u{4ff}' {
            cyrillic = cyrillic + 1;
        }
        i = i + 1;
    }
    proof {
        assert(text@.subrange(0, n as int) =~= text@);
    }
    if cjk > latin && cjk > cyrillic {
        "Han"
    } else if cyrillic > latin && cyrillic > cjk {
        "Cyrillic"
    } else {
        "Latin"
    }
}

} // verus!
