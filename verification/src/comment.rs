//! Comment lines: splitting a source line into indentation, marker and text, recognizing
//! hierarchical (list, heading, fence) markers, and deciding whether two lines may be joined.
use vstd::prelude::*;
use crate::text::{
    chars_of, contains_chars, contains_seq, fence, fence_chars, is_ascii_alpha, is_ascii_digit,
    leading_ws, leading_ws_count, lemma_leading_ws_bound, matches_at, prefix_vec, slice_vec,
    starts_with, starts_with_chars, string_of,
};

verus! {

/// A parsed comment line, split into its constituent parts.
///
/// For example, the line `    /// hello world` is parsed as indent `"    "`, marker `"///"` and
/// text `"hello world"`.
#[derive(Debug, Clone)]
pub struct CommentLine {
    /// Leading whitespace before the comment marker.
    pub indent: String,
    /// The comment marker (`//`, `///`, or `//!`).
    pub marker: String,
    /// The text content after the marker and optional space.
    pub text: String,
}

/// The abstract content of a comment line.
pub struct CommentSpec {
    pub indent: Seq<char>,
    pub marker: Seq<char>,
    pub text: Seq<char>,
}

impl View for CommentLine {
    type V = CommentSpec;

    open spec fn view(&self) -> CommentSpec {
        CommentSpec { indent: self.indent@, marker: self.marker@, text: self.text@ }
    }
}

/// A comment line held as character vectors, as the formatter works on it.
pub struct CommentParts {
    pub indent: Vec<char>,
    pub marker: Vec<char>,
    pub text: Vec<char>,
}

impl View for CommentParts {
    type V = CommentSpec;

    open spec fn view(&self) -> CommentSpec {
        CommentSpec { indent: self.indent@, marker: self.marker@, text: self.text@ }
    }
}

pub open spec fn doc_marker() -> Seq<char> {
    seq!['/', '/', '/']
}

pub open spec fn bang_marker() -> Seq<char> {
    seq!['/', '/', '!']
}

pub open spec fn plain_marker() -> Seq<char> {
    seq!['/', '/']
}

/// The marker that `t` starts with, trying the longer markers first.
pub open spec fn marker_of(t: Seq<char>) -> Option<Seq<char>> {
    if starts_with(t, doc_marker()) {
        Some(doc_marker())
    } else if starts_with(t, bang_marker()) {
        Some(bang_marker())
    } else if starts_with(t, plain_marker()) {
        Some(plain_marker())
    } else {
        None
    }
}

/// Drops one leading space, if there is one.
pub open spec fn strip_one_space(r: Seq<char>) -> Seq<char> {
    if r.len() > 0 && r[0] == ' ' {
        r.drop_first()
    } else {
        r
    }
}

/// The comment that `line` holds, if it holds one: the leading whitespace is the indent, then a
/// marker must follow, and the text is what follows the marker less one optional space.
pub open spec fn parse_comment(line: Seq<char>) -> Option<CommentSpec> {
    let k = leading_ws(line);
    let t = line.skip(k as int);
    match marker_of(t) {
        Some(m) => Some(
            CommentSpec {
                indent: line.take(k as int),
                marker: m,
                text: strip_one_space(t.skip(m.len() as int)),
            },
        ),
        None => None,
    }
}

/// Length of the run of `c` at the start of `s`.
pub open spec fn run_len(s: Seq<char>, c: char) -> nat
    decreases s.len(),
{
    if s.len() > 0 && s[0] == c {
        1 + run_len(s.drop_first(), c)
    } else {
        0
    }
}

/// Number of leading ASCII digits.
pub open spec fn leading_digits(s: Seq<char>) -> nat
    decreases s.len(),
{
    if s.len() > 0 && is_ascii_digit(s[0]) {
        1 + leading_digits(s.drop_first())
    } else {
        0
    }
}

/// Whether `t` begins with a markdown-style structural marker: `#`, `*`, `-`, a code fence, a
/// single letter followed by `.`, or one or more digits followed by `.`.
pub open spec fn starts_hier(t: Seq<char>) -> bool {
    ||| t.len() > 0 && (t[0] == '#' || t[0] == '*' || t[0] == '-')
    ||| starts_with(t, fence())
    ||| t.len() > 1 && is_ascii_alpha(t[0]) && t[1] == '.'
    ||| t.len() > 0 && is_ascii_digit(t[0]) && leading_digits(t) < t.len() && t[leading_digits(
        t,
    ) as int] == '.'
}

/// Width of the hierarchical marker prefix of `t` (`- ` is 2, `1. ` is 3, `10. ` is 4, `## ` is
/// 3), or 0 when `t` does not start with such a prefix.
pub open spec fn marker_width(t: Seq<char>) -> nat {
    let h = run_len(t, '#');
    let d = leading_digits(t);
    if t.len() > 0 && t[0] == '#' && h < t.len() && t[h as int] == ' ' {
        h + 1
    } else if t.len() >= 2 && (t[0] == '-' || t[0] == '*') && t[1] == ' ' {
        2
    } else if t.len() >= 3 && is_ascii_alpha(t[0]) && t[1] == '.' && t[2] == ' ' {
        3
    } else if t.len() > 0 && is_ascii_digit(t[0]) && d + 1 < t.len() && t[d as int] == '.' && t[d
        + 1 as int] == ' ' {
        d + 2
    } else {
        0
    }
}

/// Whether two adjacent comment lines are joined: same marker and indentation, neither text blank,
/// the next text does not start with a hierarchical marker, and neither text holds a code fence.
pub open spec fn combinable(cur: CommentSpec, next: CommentSpec) -> bool {
    &&& cur.marker == next.marker
    &&& cur.indent == next.indent
    &&& cur.text.len() > 0
    &&& next.text.len() > 0
    &&& !starts_hier(next.text)
    &&& !contains_seq(cur.text, fence())
    &&& !contains_seq(next.text, fence())
}

pub proof fn lemma_run_len_bound(s: Seq<char>, c: char)
    ensures
        run_len(s, c) <= s.len(),
        forall|k: int| 0 <= k < run_len(s, c) ==> #[trigger] s[k] == c,
        run_len(s, c) < s.len() ==> s[run_len(s, c) as int] != c,
    decreases s.len(),
{
    if s.len() > 0 && s[0] == c {
        lemma_run_len_bound(s.drop_first(), c);
        assert forall|k: int| 0 <= k < run_len(s, c) implies #[trigger] s[k] == c by {
            if k > 0 {
                assert(s[k] == s.drop_first()[k - 1]);
            }
        }
    }
}

pub proof fn lemma_leading_digits_bound(s: Seq<char>)
    ensures
        leading_digits(s) <= s.len(),
        forall|k: int| 0 <= k < leading_digits(s) ==> is_ascii_digit(#[trigger] s[k]),
        leading_digits(s) < s.len() ==> !is_ascii_digit(s[leading_digits(s) as int]),
    decreases s.len(),
{
    if s.len() > 0 && is_ascii_digit(s[0]) {
        lemma_leading_digits_bound(s.drop_first());
        assert forall|k: int| 0 <= k < leading_digits(s) implies is_ascii_digit(#[trigger] s[k]) by {
            if k > 0 {
                assert(s[k] == s.drop_first()[k - 1]);
            }
        }
    }
}

/// Length of the run of `c` at the start of `s`.
pub fn run_len_of(s: &[char], c: char) -> (n: usize)
    ensures
        n == run_len(s@, c),
{
    let mut i: usize = 0;
    assert(s@.skip(0) =~= s@);
    while i < s.len() && s[i] == c
        invariant
            i <= s.len(),
            run_len(s@, c) == i + run_len(s@.skip(i as int), c),
        decreases s.len() - i,
    {
        assert(s@.skip(i as int).drop_first() =~= s@.skip(i + 1));
        i = i + 1;
    }
    i
}

/// Number of leading ASCII digits.
pub fn leading_digits_of(s: &[char]) -> (n: usize)
    ensures
        n == leading_digits(s@),
{
    let mut i: usize = 0;
    assert(s@.skip(0) =~= s@);
    while i < s.len() && ('0' <= s[i] && s[i] <= '9')
        invariant
            i <= s.len(),
            leading_digits(s@) == i + leading_digits(s@.skip(i as int)),
        decreases s.len() - i,
    {
        assert(s@.skip(i as int).drop_first() =~= s@.skip(i + 1));
        i = i + 1;
    }
    i
}

fn is_alpha(c: char) -> (b: bool)
    ensures
        b == is_ascii_alpha(c),
{
    ('a' <= c && c <= 'z') || ('A' <= c && c <= 'Z')
}

fn is_digit(c: char) -> (b: bool)
    ensures
        b == is_ascii_digit(c),
{
    '0' <= c && c <= '9'
}

/// The marker at the start of `t`, longest first.
fn marker_at_start(t: &[char]) -> (m: Option<Vec<char>>)
    ensures
        match m {
            Some(v) => marker_of(t@) == Some(v@),
            None => marker_of(t@) is None,
        },
{
    let doc = vec!['/', '/', '/'];
    let bang = vec!['/', '/', '!'];
    let plain = vec!['/', '/'];
    assert(doc@ =~= doc_marker());
    assert(bang@ =~= bang_marker());
    assert(plain@ =~= plain_marker());
    if starts_with_chars(t, &doc) {
        Some(doc)
    } else if starts_with_chars(t, &bang) {
        Some(bang)
    } else if starts_with_chars(t, &plain) {
        Some(plain)
    } else {
        None
    }
}

/// Parses a line held as characters into its comment parts, or `None` for a non-comment line.
pub fn parse_comment_chars(line: &[char]) -> (r: Option<CommentParts>)
    ensures
        match r {
            Some(p) => parse_comment(line@) == Some(p@),
            None => parse_comment(line@) is None,
        },
{
    let k = leading_ws_count(line);
    proof {
        lemma_leading_ws_bound(line@);
    }
    let t = slice_vec(line, k, line.len());
    assert(t@ =~= line@.skip(k as int));
    match marker_at_start(&t) {
        Some(m) => {
            let indent = prefix_vec(line, k);
            let ml = m.len();
            let start = if ml < t.len() && t[ml] == ' ' {
                ml + 1
            } else {
                ml
            };
            let text = slice_vec(&t, start, t.len());
            assert(text@ =~= strip_one_space(t@.skip(ml as int)));
            Some(CommentParts { indent, marker: m, text })
        },
        None => None,
    }
}

/// Parses a source line into a [`CommentLine`] if it contains a recognized comment marker.
///
/// Returns `None` for non-comment lines.
pub fn parse_comment_line(line: &str) -> (r: Option<CommentLine>)
    ensures
        match r {
            Some(c) => parse_comment(line@) == Some(c@),
            None => parse_comment(line@) is None,
        },
{
    let chars = chars_of(line);
    match parse_comment_chars(&chars) {
        Some(p) => Some(
            CommentLine {
                indent: string_of(&p.indent),
                marker: string_of(&p.marker),
                text: string_of(&p.text),
            },
        ),
        None => None,
    }
}

/// Whether `t` begins with a hierarchical marker.
pub fn starts_hier_chars(t: &[char]) -> (b: bool)
    ensures
        b == starts_hier(t@),
{
    if t.len() > 0 && (t[0] == '#' || t[0] == '*' || t[0] == '-') {
        return true;
    }
    let f = fence_chars();
    if starts_with_chars(t, &f) {
        return true;
    }
    if t.len() > 0 && is_alpha(t[0]) {
        return t.len() > 1 && t[1] == '.';
    }
    if t.len() > 0 && is_digit(t[0]) {
        let d = leading_digits_of(t);
        proof {
            lemma_leading_digits_bound(t@);
        }
        return d < t.len() && t[d] == '.';
    }
    false
}

/// Returns `true` if `text` begins with a markdown-style structural marker.
///
/// Recognized markers: `#`, `*`, `-`, `` ``` ``, a single letter followed by `.` (e.g. `A.`, `a.`),
/// or one or more digits followed by `.` (e.g. `1.`, `10.`, `100.`).
pub fn starts_with_hierarchical_marker(text: &str) -> (b: bool)
    ensures
        b == starts_hier(text@),
{
    let chars = chars_of(text);
    starts_hier_chars(&chars)
}

/// Width of the hierarchical marker prefix of `t`, or 0.
pub fn marker_width_chars(t: &[char]) -> (w: usize)
    ensures
        w == marker_width(t@),
{
    let h = run_len_of(t, '#');
    proof {
        lemma_run_len_bound(t@, '#');
        lemma_leading_digits_bound(t@);
    }
    if t.len() > 0 && t[0] == '#' && h < t.len() && t[h] == ' ' {
        return h + 1;
    }
    if t.len() >= 2 && (t[0] == '-' || t[0] == '*') && t[1] == ' ' {
        return 2;
    }
    if t.len() >= 3 && is_alpha(t[0]) && t[1] == '.' && t[2] == ' ' {
        return 3;
    }
    let d = leading_digits_of(t);
    if t.len() > 0 && is_digit(t[0]) && d < t.len() - 1 && t[d] == '.' && t[d + 1] == ' ' {
        return d + 2;
    }
    0
}

/// Returns the width of a hierarchical marker prefix (e.g. `- ` → 2, `1. ` → 3, `10. ` → 4,
/// `## ` → 3).
///
/// Returns 0 if the text does not start with a recognized marker.
pub fn hierarchical_marker_width(text: &str) -> (w: usize)
    ensures
        w == marker_width(text@),
{
    let chars = chars_of(text);
    marker_width_chars(&chars)
}

/// Whether two comment lines held as characters are joined.
pub fn combinable_parts(current: &CommentParts, next: &CommentParts) -> (b: bool)
    ensures
        b == combinable(current@, next@),
{
    if !crate::text::chars_eq(&current.marker, &next.marker) || !crate::text::chars_eq(&current.indent, &next.indent) {
        return false;
    }
    if current.text.len() == 0 || next.text.len() == 0 {
        return false;
    }
    if starts_hier_chars(&next.text) {
        return false;
    }
    let f = fence_chars();
    !contains_chars(&current.text, &f) && !contains_chars(&next.text, &f)
}

/// Determines whether two adjacent comment lines should be combined.
///
/// Lines are combined when they share the same marker and indentation, neither is blank, the next
/// line doesn't start with a hierarchical marker, and neither line contains a code fence.
pub fn can_combine(current: &CommentLine, next: &CommentLine) -> (b: bool)
    ensures
        b == combinable(current@, next@),
{
    let cur = CommentParts {
        indent: chars_of(current.indent.as_str()),
        marker: chars_of(current.marker.as_str()),
        text: chars_of(current.text.as_str()),
    };
    let nxt = CommentParts {
        indent: chars_of(next.indent.as_str()),
        marker: chars_of(next.marker.as_str()),
        text: chars_of(next.text.as_str()),
    };
    combinable_parts(&cur, &nxt)
}

/// A text that starts with a hierarchical marker prefix of positive width starts with a
/// hierarchical marker, and the prefix never runs past the text.
pub proof fn marker_width_implies_marker(t: Seq<char>)
    ensures
        marker_width(t) <= t.len(),
        marker_width(t) > 0 ==> starts_hier(t),
{
    lemma_run_len_bound(t, '#');
    lemma_leading_digits_bound(t);
}

/// A blank comment line never joins its neighbour, in either position.
pub proof fn blank_lines_never_combine(cur: CommentSpec, next: CommentSpec)
    requires
        cur.text.len() == 0 || next.text.len() == 0,
    ensures
        !combinable(cur, next),
{
}

/// A line whose text opens with a hierarchical marker — a heading `#`, a bullet `*` or `-`, a
/// lettered item `a.`, a numbered item `12.`, or a code fence — is never joined onto the line
/// before it.
pub proof fn marker_lines_never_join(cur: CommentSpec, next: CommentSpec)
    ensures
        next.text.len() > 0 && (next.text[0] == '#' || next.text[0] == '*' || next.text[0] == '-')
            ==> !combinable(cur, next),
        next.text.len() > 1 && is_ascii_alpha(next.text[0]) && next.text[1] == '.' ==> !combinable(
            cur,
            next,
        ),
        forall|d: int|
            1 <= d < next.text.len() && (forall|q: int| 0 <= q < d ==> is_ascii_digit(
                #[trigger] next.text[q],
            )) && next.text[d] == '.' ==> !combinable(cur, next),
        next.text.len() >= 3 && next.text[0] == '`' && next.text[1] == '`' && next.text[2] == '`'
            ==> !combinable(cur, next),
{
    let t = next.text;
    lemma_leading_digits_bound(t);
    assert forall|d: int|
        1 <= d < t.len() && (forall|q: int| 0 <= q < d ==> is_ascii_digit(#[trigger] t[q]))
            && t[d] == '.' implies !combinable(cur, next) by {
        let ld = leading_digits(t) as int;
        if ld < d {
            assert(is_ascii_digit(t[ld]));
        } else if ld > d {
            assert(is_ascii_digit(t[d]));
        }
        assert(is_ascii_digit(t[0]));
        assert(starts_hier(t));
    }
    if t.len() >= 3 && t[0] == '`' && t[1] == '`' && t[2] == '`' {
        assert(t.take(3) =~= fence());
    }
}

} // verus!
