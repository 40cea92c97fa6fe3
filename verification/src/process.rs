//! Reformatting a whole source text: runs of combinable comment lines are joined and rewrapped,
//! everything else (code, and comment lines inside fenced code blocks) passes through.
use vstd::prelude::*;
use crate::comment::{
    CommentParts, CommentSpec, combinable, combinable_parts, marker_width, marker_width_chars,
    parse_comment, parse_comment_chars,
};
use crate::lines::{assemble, assemble_lines, ends_with_newline, lines_of, split_lines};
use crate::text::{
    is_ws, join, leading_ws, lemma_leading_ws_bound, lemma_trim_end_noop, lemma_trim_end_prefix, lemma_trim_end_width, append_chars, chars_of, concat_chars, fence, fence_chars, leading_ws_count, seqs_of,
    slice_vec, spaces, starts_with, starts_with_chars, string_of, strings_of, strings_view,
    text_width, trim_end, trim_end_vec, trim_start, width_sat,
};
use crate::tokenize::tokenize;
use crate::wrap::{space, wrap_groups, wrap_text_chars, wrapped};

verus! {

/// A recorded change: `(line_number, old_lines, new_lines)`.
pub type Change = (usize, Vec<String>, Vec<String>);

/// A change as numbers and texts: the 1-based number of its first line, the lines it replaces,
/// and the lines that replace them.
pub type ChangeSpec = (int, Seq<Seq<char>>, Seq<Seq<char>>);

pub open spec fn change_view(c: Change) -> ChangeSpec {
    (c.0 as int, strings_view(c.1@), strings_view(c.2@))
}

pub open spec fn changes_view(v: Seq<Change>) -> Seq<ChangeSpec> {
    v.map_values(|c: Change| change_view(c))
}

/// The comment `c` with its text replaced.
pub open spec fn with_text(c: CommentSpec, text: Seq<char>) -> CommentSpec {
    CommentSpec { indent: c.indent, marker: c.marker, text }
}

/// Joins to `combined` (the text gathered so far for comment `c`) each following line from `j`
/// on while it is a comment that may be combined, with one space and the line's text stripped of
/// leading whitespace. Gives the first line not taken and the gathered text.
pub open spec fn combine_from(
    lines: Seq<Seq<char>>,
    c: CommentSpec,
    j: int,
    combined: Seq<char>,
) -> (int, Seq<char>)
    decreases lines.len() - j,
{
    if 0 <= j < lines.len() {
        match parse_comment(lines[j]) {
            Some(next) => if combinable(with_text(c, combined), next) {
                combine_from(lines, c, j + 1, combined + space() + trim_start(next.text))
            } else {
                (j, combined)
            },
            None => (j, combined),
        }
    } else {
        (j, combined)
    }
}

/// The lines written for comment `c` whose gathered text is `combined`: a blank comment keeps only
/// its indent and marker; a comment whose single line fits within `max_width` is written on one
/// line; otherwise its text is wrapped, continuation lines being indented past a hierarchical
/// marker.
pub open spec fn render_group(c: CommentSpec, combined: Seq<char>, max_width: nat) -> Seq<
    Seq<char>,
> {
    let base = c.indent + c.marker;
    let prefix = base + space();
    let full = prefix + combined;
    if combined.len() == 0 {
        seq![trim_end(base)]
    } else if text_width(full) > max_width {
        let mw = marker_width(combined);
        let cont = if mw > 0 {
            prefix + spaces(mw)
        } else {
            prefix
        };
        wrapped(combined, prefix, cont, max_width)
    } else {
        seq![trim_end(full)]
    }
}

/// Output lines and changes, and where each output line comes from: `Some(p)` when it is input
/// line `p` passed through unchanged (code, or a comment inside a code block), `None` when it was
/// written for a comment group.
pub struct Processed {
    pub lines: Seq<Seq<char>>,
    pub changes: Seq<ChangeSpec>,
    pub origins: Seq<Option<int>>,
}

/// Whether `line` is a comment whose text opens or closes a code block.
pub open spec fn is_fence_line(line: Seq<char>) -> bool {
    match parse_comment(line) {
        Some(c) => starts_with(c.text, fence()),
        None => false,
    }
}

/// Processes the lines from `i` on, `in_code` telling whether a code block is open.
pub open spec fn process_from(lines: Seq<Seq<char>>, max_width: nat, i: int, in_code: bool) -> Processed
    decreases lines.len() - i,
{
    if i < 0 || i >= lines.len() {
        Processed { lines: Seq::empty(), changes: Seq::empty(), origins: Seq::empty() }
    } else {
        let code = if is_fence_line(lines[i]) {
            !in_code
        } else {
            in_code
        };
        match parse_comment(lines[i]) {
            Some(c) => if code {
                let rest = process_from(lines, max_width, i + 1, code);
                Processed {
                    lines: seq![lines[i]] + rest.lines,
                    changes: rest.changes,
                    origins: seq![Some(i)] + rest.origins,
                }
            } else {
                let (j, combined) = combine_from(lines, c, i + 1, c.text);
                proof {
                    lemma_combine_bounds(lines, c, i + 1, c.text);
                }
                let new_lines = render_group(c, combined, max_width);
                let orig = lines.subrange(i, j);
                let rest = process_from(lines, max_width, j, code);
                Processed {
                    lines: new_lines + rest.lines,
                    changes: if new_lines == orig {
                        rest.changes
                    } else {
                        seq![(i + 1, orig, new_lines)] + rest.changes
                    },
                    origins: Seq::new(new_lines.len(), |k: int| None) + rest.origins,
                }
            },
            None => {
                let rest = process_from(lines, max_width, i + 1, code);
                Processed {
                    lines: seq![lines[i]] + rest.lines,
                    changes: rest.changes,
                    origins: seq![Some(i)] + rest.origins,
                }
            },
        }
    }
}

/// The result of processing the lines of a text.
pub open spec fn process_lines(lines: Seq<Seq<char>>, max_width: nat) -> Processed {
    process_from(lines, max_width, 0, false)
}

/// The reformatted text: the processed lines joined by line feeds, ending with one when the input
/// did.
pub open spec fn processed_text(content: Seq<char>, max_width: nat) -> Seq<char> {
    assemble(process_lines(lines_of(content), max_width).lines, ends_with_newline(content))
}

pub proof fn lemma_combine_bounds(lines: Seq<Seq<char>>, c: CommentSpec, j: int, combined: Seq<char>)
    requires
        0 <= j <= lines.len(),
    ensures
        j <= combine_from(lines, c, j, combined).0 <= lines.len(),
    decreases lines.len() - j,
{
    if 0 <= j < lines.len() {
        match parse_comment(lines[j]) {
            Some(next) => if combinable(with_text(c, combined), next) {
                lemma_combine_bounds(lines, c, j + 1, combined + space() + trim_start(next.text));
            },
            None => {},
        }
    }
}

/// Gathers the text of the comment run that starts with comment `c` on the line before `start`.
fn combine_run(lines: &Vec<Vec<char>>, c: &CommentParts, start: usize) -> (r: (usize, Vec<char>))
    requires
        start <= lines.len(),
    ensures
        (r.0 as int, r.1@) == combine_from(seqs_of(lines@), c@, start as int, c@.text),
        start <= r.0 <= lines.len(),
{
    let ghost ls = seqs_of(lines@);
    let mut j = start;
    let mut combined = crate::text::copy_chars(&c.text);
    while j < lines.len()
        invariant
            start <= j <= lines.len(),
            ls == seqs_of(lines@),
            combine_from(ls, c@, j as int, combined@) == combine_from(
                ls,
                c@,
                start as int,
                c@.text,
            ),
        decreases lines.len() - j,
    {
        assert(ls[j as int] == lines@[j as int]@);
        match parse_comment_chars(&lines[j]) {
            Some(next) => {
                let cur = CommentParts {
                    indent: crate::text::copy_chars(&c.indent),
                    marker: crate::text::copy_chars(&c.marker),
                    text: crate::text::copy_chars(&combined),
                };
                assert(cur@ == with_text(c@, combined@));
                if combinable_parts(&cur, &next) {
                    let ghost before = combined@;
                    combined.push(' ');
                    let k = leading_ws_count(&next.text);
                    proof {
                        crate::text::lemma_leading_ws_bound(next.text@);
                    }
                    let rest = slice_vec(&next.text, k, next.text.len());
                    append_chars(&mut combined, &rest);
                    assert(combined@ =~= before + space() + trim_start(next@.text));
                    j = j + 1;
                } else {
                    return (j, combined);
                }
            },
            None => {
                return (j, combined);
            },
        }
    }
    (j, combined)
}

/// `n` spaces.
fn spaces_vec(n: usize) -> (r: Vec<char>)
    ensures
        r@ == spaces(n as nat),
{
    let mut r: Vec<char> = Vec::new();
    let mut k: usize = 0;
    while k < n
        invariant
            k <= n,
            r@ == spaces(k as nat),
        decreases n - k,
    {
        r.push(' ');
        k = k + 1;
        assert(r@ =~= spaces(k as nat));
    }
    r
}

/// The lines written for comment `c` with gathered text `combined`.
fn render_group_chars(c: &CommentParts, combined: &Vec<char>, max_width: usize) -> (r: Vec<
    Vec<char>,
>)
    ensures
        seqs_of(r@) == render_group(c@, combined@, max_width as nat),
{
    let base = concat_chars(&c.indent, &c.marker);
    if combined.len() == 0 {
        let t = trim_end_vec(&base);
        let ghost tv = t@;
        let v = vec![t];
        assert(seqs_of(v@) =~= seq![tv]);
        return v;
    }
    let sp = vec![' '];
    assert(sp@ =~= space());
    let prefix = concat_chars(&base, &sp);
    let full = concat_chars(&prefix, combined);
    let w = width_sat(&full);
    if w > max_width as u128 {
        let mw = marker_width_chars(combined);
        let cont = if mw > 0 {
            let sps = spaces_vec(mw);
            concat_chars(&prefix, &sps)
        } else {
            crate::text::copy_chars(&prefix)
        };
        wrap_text_chars(combined, &prefix, &cont, max_width)
    } else {
        let t = trim_end_vec(&full);
        let ghost tv = t@;
        let v = vec![t];
        assert(seqs_of(v@) =~= seq![tv]);
        v
    }
}

fn lines_equal(a: &Vec<Vec<char>>, b: &Vec<Vec<char>>) -> (r: bool)
    ensures
        r == (seqs_of(a@) == seqs_of(b@)),
{
    if a.len() != b.len() {
        assert(seqs_of(a@).len() != seqs_of(b@).len());
        return false;
    }
    let mut k: usize = 0;
    while k < a.len()
        invariant
            a.len() == b.len(),
            k <= a.len(),
            forall|m: int| 0 <= m < k ==> seqs_of(a@)[m] == seqs_of(b@)[m],
        decreases a.len() - k,
    {
        if !crate::text::chars_eq(&a[k], &b[k]) {
            assert(seqs_of(a@)[k as int] != seqs_of(b@)[k as int]);
            return false;
        }
        k = k + 1;
    }
    assert(seqs_of(a@) =~= seqs_of(b@));
    true
}

/// A copy of `lines[from..to]`.
fn copy_lines(lines: &Vec<Vec<char>>, from: usize, to: usize) -> (r: Vec<Vec<char>>)
    requires
        from <= to <= lines.len(),
    ensures
        seqs_of(r@) == seqs_of(lines@).subrange(from as int, to as int),
{
    let mut r: Vec<Vec<char>> = Vec::new();
    let mut k = from;
    while k < to
        invariant
            from <= k <= to <= lines.len(),
            seqs_of(r@) == seqs_of(lines@).subrange(from as int, k as int),
        decreases to - k,
    {
        let ghost before = seqs_of(r@);
        let l = crate::text::copy_chars(&lines[k]);
        let ghost lv = l@;
        r.push(l);
        assert(seqs_of(r@) =~= before.push(lv));
        assert(lv == seqs_of(lines@)[k as int]);
        assert(seqs_of(r@) =~= seqs_of(lines@).subrange(from as int, k + 1));
        k = k + 1;
    }
    r
}

/// Appends all of `b` to `a`.
fn append_lines(a: &mut Vec<Vec<char>>, b: Vec<Vec<char>>)
    ensures
        seqs_of(final(a)@) == seqs_of(old(a)@) + seqs_of(b@),
{
    let ghost start = seqs_of(a@);
    let ghost bs = seqs_of(b@);
    let mut b = b;
    let mut rev: Vec<Vec<char>> = Vec::new();
    while b.len() > 0
        invariant
            seqs_of(b@) + seqs_of(rev@).reverse() == bs,
        decreases b.len(),
    {
        let ghost bb = seqs_of(b@);
        let ghost rr = seqs_of(rev@);
        let x = b.pop().unwrap();
        rev.push(x);
        assert(seqs_of(b@) + seqs_of(rev@).reverse() =~= bs) by {
            assert(bb =~= seqs_of(b@).push(x@));
            assert(seqs_of(rev@) =~= rr.push(x@));
            assert(seqs_of(rev@).reverse() =~= seq![x@] + rr.reverse());
        }
    }
    assert(seqs_of(rev@).reverse() =~= bs);
    while rev.len() > 0
        invariant
            seqs_of(a@) + seqs_of(rev@).reverse() == start + bs,
        decreases rev.len(),
    {
        let ghost aa = seqs_of(a@);
        let ghost rr = seqs_of(rev@);
        let x = rev.pop().unwrap();
        a.push(x);
        assert(seqs_of(a@) + seqs_of(rev@).reverse() =~= start + bs) by {
            assert(rr =~= seqs_of(rev@).push(x@));
            assert(seqs_of(a@) =~= aa.push(x@));
            assert(rr.reverse() =~= seq![x@] + seqs_of(rev@).reverse());
        }
    }
    assert(seqs_of(rev@).reverse() =~= Seq::<Seq<char>>::empty());
    assert(seqs_of(a@) =~= start + bs);
}

/// Processes lines held as characters; see [`process_content`].
pub fn process_lines_chars(lines: &Vec<Vec<char>>, max_width: usize) -> (r: (
    Vec<Vec<char>>,
    Vec<Change>,
))
    ensures
        seqs_of(r.0@) == process_lines(seqs_of(lines@), max_width as nat).lines,
        changes_view(r.1@) == process_lines(seqs_of(lines@), max_width as nat).changes,
{
    let ghost ls = seqs_of(lines@);
    let ghost mw = max_width as nat;
    let mut result: Vec<Vec<char>> = Vec::new();
    let mut changes: Vec<Change> = Vec::new();
    let mut i: usize = 0;
    let mut in_code = false;
    assert(seqs_of(result@) + process_from(ls, mw, 0, false).lines =~= process_lines(ls, mw).lines);
    assert(changes_view(changes@) + process_from(ls, mw, 0, false).changes =~= process_lines(
        ls,
        mw,
    ).changes);
    while i < lines.len()
        invariant
            i <= lines.len(),
            ls == seqs_of(lines@),
            mw == max_width as nat,
            seqs_of(result@) + process_from(ls, mw, i as int, in_code).lines == process_lines(
                ls,
                mw,
            ).lines,
            changes_view(changes@) + process_from(ls, mw, i as int, in_code).changes
                == process_lines(ls, mw).changes,
        decreases lines.len() - i,
    {
        let ghost old_result = seqs_of(result@);
        let ghost old_changes = changes_view(changes@);
        let ghost old_code = in_code;
        assert(ls[i as int] == lines@[i as int]@);
        let parsed = parse_comment_chars(&lines[i]);
        match parsed {
            None => {
                let l = crate::text::copy_chars(&lines[i]);
                result.push(l);
                proof {
                    let rest = process_from(ls, mw, i + 1, in_code);
                    assert(seqs_of(result@) =~= old_result.push(ls[i as int]));
                    assert(seqs_of(result@) + rest.lines =~= old_result + (seq![ls[i as int]]
                        + rest.lines));
                }
                i = i + 1;
            },
            Some(c) => {
                let f = fence_chars();
                if starts_with_chars(&c.text, &f) {
                    in_code = !in_code;
                }
                assert(in_code == if is_fence_line(ls[i as int]) {
                    !old_code
                } else {
                    old_code
                });
                if in_code {
                    let l = crate::text::copy_chars(&lines[i]);
                    result.push(l);
                    proof {
                        let rest = process_from(ls, mw, i + 1, in_code);
                        assert(seqs_of(result@) =~= old_result.push(ls[i as int]));
                        assert(seqs_of(result@) + rest.lines =~= old_result + (seq![ls[i as int]]
                            + rest.lines));
                    }
                    i = i + 1;
                } else {
                    let (j, combined) = combine_run(lines, &c, i + 1);
                    let new_lines = render_group_chars(&c, &combined, max_width);
                    let orig = copy_lines(lines, i, j);
                    let ghost nl = seqs_of(new_lines@);
                    let ghost ol = seqs_of(orig@);
                    if !lines_equal(&new_lines, &orig) {
                        let removed = strings_of(&orig);
                        let added = strings_of(&new_lines);
                        let change: Change = (i + 1, removed, added);
                        changes.push(change);
                        proof {
                            assert(changes_view(changes@) =~= old_changes.push(
                                (i + 1, ol, nl),
                            ));
                        }
                    }
                    append_lines(&mut result, new_lines);
                    proof {
                        let rest = process_from(ls, mw, j as int, in_code);
                        assert(seqs_of(result@) + rest.lines =~= old_result + (nl + rest.lines));
                        if nl != ol {
                            assert(changes_view(changes@) + rest.changes =~= old_changes + (seq![
                                (i + 1, ol, nl),
                            ] + rest.changes));
                        }
                    }
                    i = j;
                }
            },
        }
    }
    assert(seqs_of(result@) =~= seqs_of(result@) + process_from(ls, mw, i as int, in_code).lines);
    assert(changes_view(changes@) =~= changes_view(changes@) + process_from(
        ls,
        mw,
        i as int,
        in_code,
    ).changes);
    (result, changes)
}

/// Processes an entire file's content, combining and wrapping comments.
///
/// Returns the reformatted content and a list of [`Change`] tuples describing what was modified.
/// Lines inside code blocks (`` ``` ``) are passed through unchanged.
pub fn process_content(content: &str, max_width: usize) -> (r: (String, Vec<Change>))
    ensures
        r.0@ == processed_text(content@, max_width as nat),
        changes_view(r.1@) == process_lines(lines_of(content@), max_width as nat).changes,
{
    let chars = chars_of(content);
    let lines = split_lines(&chars);
    let (out_lines, changes) = process_lines_chars(&lines, max_width);
    let nl = chars.len() > 0 && chars[chars.len() - 1] == '\n';
    let text = assemble_lines(&out_lines, nl);
    (string_of(&text), changes)
}

proof fn lemma_unchanged_from(lines: Seq<Seq<char>>, max_width: nat, i: int, in_code: bool)
    requires
        0 <= i <= lines.len(),
    ensures
        process_from(lines, max_width, i, in_code).changes.len() == 0 ==> process_from(
            lines,
            max_width,
            i,
            in_code,
        ).lines == lines.subrange(i, lines.len() as int),
    decreases lines.len() - i,
{
    if i < lines.len() {
        let code = if is_fence_line(lines[i]) {
            !in_code
        } else {
            in_code
        };
        let r = process_from(lines, max_width, i, in_code);
        match parse_comment(lines[i]) {
            Some(c) => if code {
                lemma_unchanged_from(lines, max_width, i + 1, code);
                assert(seq![lines[i]] + lines.subrange(i + 1, lines.len() as int) =~= lines.subrange(
                    i,
                    lines.len() as int,
                ));
            } else {
                let (j, combined) = combine_from(lines, c, i + 1, c.text);
                lemma_combine_bounds(lines, c, i + 1, c.text);
                lemma_unchanged_from(lines, max_width, j, code);
                let new_lines = render_group(c, combined, max_width);
                if new_lines == lines.subrange(i, j) {
                    assert(lines.subrange(i, j) + lines.subrange(j, lines.len() as int)
                        =~= lines.subrange(i, lines.len() as int));
                }
            },
            None => {
                lemma_unchanged_from(lines, max_width, i + 1, code);
                assert(seq![lines[i]] + lines.subrange(i + 1, lines.len() as int) =~= lines.subrange(
                    i,
                    lines.len() as int,
                ));
            },
        }
    } else {
        assert(lines.subrange(i, lines.len() as int) =~= Seq::<Seq<char>>::empty());
    }
}

/// When no change is reported, the output lines are the input lines.
pub proof fn no_change_means_same_lines(lines: Seq<Seq<char>>, max_width: nat)
    ensures
        process_lines(lines, max_width).changes.len() == 0 ==> process_lines(
            lines,
            max_width,
        ).lines == lines,
{
    lemma_unchanged_from(lines, max_width, 0, false);
    assert(lines.subrange(0, lines.len() as int) =~= lines);
}

/// When no change is reported for a text without carriage returns, the reformatted text is the
/// text itself: the tool reports every edit it makes.
pub proof fn no_change_means_same_text(content: Seq<char>, max_width: nat)
    requires
        forall|k: int| 0 <= k < content.len() ==> #[trigger] content[k] != '\r',
    ensures
        process_lines(lines_of(content), max_width).changes.len() == 0 ==> processed_text(
            content,
            max_width,
        ) == content,
{
    no_change_means_same_lines(lines_of(content), max_width);
    crate::lines::lines_roundtrip(content);
}

proof fn lemma_no_comment_from(lines: Seq<Seq<char>>, max_width: nat, i: int, in_code: bool)
    requires
        0 <= i <= lines.len(),
        forall|k: int| 0 <= k < lines.len() ==> parse_comment(#[trigger] lines[k]) is None,
    ensures
        process_from(lines, max_width, i, in_code).changes.len() == 0,
    decreases lines.len() - i,
{
    if i < lines.len() {
        assert(parse_comment(lines[i]) is None);
        assert(!is_fence_line(lines[i]));
        lemma_no_comment_from(lines, max_width, i + 1, in_code);
    }
}

/// A text in which no line is a comment comes out unchanged (up to `\r\n` line endings, which
/// become `\n`) and no change is reported for it.
pub proof fn code_without_comments_is_untouched(content: Seq<char>, max_width: nat)
    requires
        forall|k: int|
            0 <= k < lines_of(content).len() ==> parse_comment(#[trigger] lines_of(content)[k]) is None,
    ensures
        process_lines(lines_of(content), max_width).changes.len() == 0,
        process_lines(lines_of(content), max_width).lines == lines_of(content),
        (forall|k: int| 0 <= k < content.len() ==> #[trigger] content[k] != '\r') ==> processed_text(
            content,
            max_width,
        ) == content,
{
    lemma_no_comment_from(lines_of(content), max_width, 0, false);
    no_change_means_same_lines(lines_of(content), max_width);
    if forall|k: int| 0 <= k < content.len() ==> #[trigger] content[k] != '\r' {
        crate::lines::lines_roundtrip(content);
    }
}

/// Inside an open code block, a line that does not open or close it is copied as it is, the block
/// stays open, and the line contributes no change.
pub proof fn code_block_lines_pass_through(
    lines: Seq<Seq<char>>,
    max_width: nat,
    i: int,
)
    requires
        0 <= i < lines.len(),
        !is_fence_line(lines[i]),
    ensures
        process_from(lines, max_width, i, true).lines == seq![lines[i]] + process_from(
            lines,
            max_width,
            i + 1,
            true,
        ).lines,
        process_from(lines, max_width, i, true).changes == process_from(
            lines,
            max_width,
            i + 1,
            true,
        ).changes,
{
}

/// No line ends in whitespace.
pub open spec fn all_trimmed(ls: Seq<Seq<char>>) -> bool {
    forall|k: int| 0 <= k < ls.len() ==> (#[trigger] ls[k]).len() == 0 || !is_ws(ls[k].last())
}

proof fn lemma_render_group_trimmed(c: CommentSpec, combined: Seq<char>, max_width: nat)
    ensures
        all_trimmed(render_group(c, combined, max_width)),
        render_group(c, combined, max_width).len() > 0,
{
    let base = c.indent + c.marker;
    let prefix = base + space();
    let full = prefix + combined;
    let r = render_group(c, combined, max_width);
    if combined.len() == 0 {
        lemma_trim_end_prefix(base);
        assert(r[0] == trim_end(base));
    } else if text_width(full) > max_width {
        let mw = marker_width(combined);
        let cont = if mw > 0 {
            prefix + spaces(mw)
        } else {
            prefix
        };
        crate::wrap::wrapped_lines_laws(combined, prefix, cont, max_width);
    } else {
        lemma_trim_end_prefix(full);
        assert(r[0] == trim_end(full));
    }
}

/// Indentation and marker of the comment on `line` (empty for a non-comment line).
pub open spec fn comment_base(line: Seq<char>) -> Seq<char> {
    match parse_comment(line) {
        Some(c) => c.indent + c.marker,
        None => Seq::empty(),
    }
}

proof fn lemma_trim_keeps_base(base: Seq<char>, rest: Seq<char>)
    requires
        base.len() > 0,
        !is_ws(base.last()),
    ensures
        starts_with(trim_end(base + rest), base),
        trim_end(base + rest).len() == base.len() || (rest.len() > 0 && trim_end(base + rest)[
            base.len() as int] == rest[0]),
{
    let s = base + rest;
    lemma_trim_end_prefix(s);
    let t = trim_end(s);
    if t.len() < base.len() {
        assert(s[base.len() - 1] == base.last());
        assert(is_ws(s[base.len() - 1]));
    }
    assert(t.take(base.len() as int) =~= base);
    if t.len() > base.len() {
        assert(t[base.len() as int] == s[base.len() as int]);
    }
}

pub(crate) proof fn lemma_parsed_marker(line: Seq<char>)
    requires
        parse_comment(line) is Some,
    ensures
        parse_comment(line)->0.marker.len() > 0,
        !is_ws(parse_comment(line)->0.marker.last()),
{
    let m = parse_comment(line)->0.marker;
    assert(m =~= seq!['/', '/', '/'] || m =~= seq!['/', '/', '!'] || m =~= seq!['/', '/']);
}

/// What is written for one comment: lines that keep the comment's indentation and marker and end
/// in no whitespace; a blank comment becomes its bare indent and marker; a comment whose one-line
/// form fits within `max_width` is written as that one line; any other comment is wrapped, with
/// its words kept in order and every line of several words within `max_width`.
pub proof fn comment_rendering_laws(c: CommentSpec, combined: Seq<char>, max_width: nat)
    requires
        c.marker.len() > 0,
        !is_ws(c.marker.last()),
    ensures
        ({
            let base = c.indent + c.marker;
            let full = base + space() + combined;
            let r = render_group(c, combined, max_width);
            &&& r.len() > 0
            &&& all_trimmed(r)
            &&& forall|k: int| 0 <= k < r.len() ==> starts_with(#[trigger] r[k], base)
            &&& forall|k: int|
                0 <= k < r.len() ==> (#[trigger] r[k]).len() == base.len() || r[k][base.len() as int]
                    == ' '
            &&& combined.len() == 0 ==> r == seq![base]
            &&& combined.len() > 0 && text_width(full) <= max_width ==> r == seq![trim_end(full)]
                && text_width(r[0]) <= max_width
            &&& combined.len() > 0 && text_width(full) > max_width && tokenize(combined).len()
                > 0 ==> {
                let prefix = base + space();
                let mw = marker_width(combined);
                let cont = if mw > 0 {
                    prefix + spaces(mw)
                } else {
                    prefix
                };
                let g = wrap_groups(
                    tokenize(combined),
                    text_width(prefix),
                    text_width(cont),
                    max_width,
                );
                &&& r.len() == g.len()
                &&& g.flatten() == tokenize(combined)
                &&& forall|k: int|
                    0 <= k < g.len() && (#[trigger] g[k]).len() > 1 ==> text_width(r[k])
                        <= max_width
            }
        }),
{
    let base = c.indent + c.marker;
    let prefix = base + space();
    let full = prefix + combined;
    let r = render_group(c, combined, max_width);
    assert(base.last() == c.marker.last());
    lemma_render_group_trimmed(c, combined, max_width);
    if combined.len() == 0 {
        lemma_trim_end_noop(base);
        assert(r == seq![base]);
        assert(starts_with(base, base)) by {
            assert(base.take(base.len() as int) =~= base);
        }
    } else if text_width(full) > max_width {
        let mw = marker_width(combined);
        let cont = if mw > 0 {
            prefix + spaces(mw)
        } else {
            prefix
        };
        crate::wrap::wrapped_lines_laws(combined, prefix, cont, max_width);
        let words = tokenize(combined);
        if words.len() == 0 {
            assert(r[0] == trim_end(prefix));
            assert(prefix =~= base + space());
            lemma_trim_keeps_base(base, space());
            assert(r.len() == 1);
        } else {
            let g = wrap_groups(words, text_width(prefix), text_width(cont), max_width);
            assert forall|k: int| 0 <= k < r.len() implies starts_with(#[trigger] r[k], base) && (
            r[k].len() == base.len() || r[k][base.len() as int] == ' ') by {
                let lp = crate::wrap::line_prefix(k, prefix, cont);
                let body = join(g[k], space());
                assert(r[k] == trim_end(lp + body));
                if k == 0 || mw == 0 {
                    assert(lp + body =~= base + (space() + body));
                    lemma_trim_keeps_base(base, space() + body);
                } else {
                    assert(lp + body =~= base + (space() + spaces(mw) + body));
                    lemma_trim_keeps_base(base, space() + spaces(mw) + body);
                }
            }
        }
    } else {
        assert(r == seq![trim_end(full)]);
        assert(full =~= base + (space() + combined));
        lemma_trim_keeps_base(base, space() + combined);
        lemma_trim_end_width(full);
    }
}

/// What one change reported from line `i` on satisfies.
pub open spec fn change_shape(lines: Seq<Seq<char>>, i: int, ch: ChangeSpec) -> bool {
    &&& i + 1 <= ch.0
    &&& ch.1.len() >= 1
    &&& ch.2.len() >= 1
    &&& ch.0 - 1 + ch.1.len() <= lines.len()
    &&& ch.1 == lines.subrange(ch.0 - 1, ch.0 - 1 + ch.1.len())
    &&& ch.1 != ch.2
    &&& all_trimmed(ch.2)
    &&& parse_comment(ch.1[0]) is Some
    &&& forall|j: int|
        1 <= j < ch.1.len() ==> joinable_line(#[trigger] ch.1[j], parse_comment(ch.1[0])->0)
    &&& forall|j: int|
        0 <= j < ch.2.len() ==> starts_with(#[trigger] ch.2[j], comment_base(ch.1[0])) && parse_comment(
            ch.2[j],
        ) is Some && parse_comment(ch.2[j])->0.indent == parse_comment(ch.1[0])->0.indent
            && parse_comment(ch.2[j])->0.marker == parse_comment(ch.1[0])->0.marker
}

/// What every change reported from line `i` on satisfies.
pub open spec fn changes_ok(lines: Seq<Seq<char>>, i: int, changes: Seq<ChangeSpec>) -> bool {
    &&& forall|k: int| 0 <= k < changes.len() ==> change_shape(lines, i, #[trigger] changes[k])
    &&& forall|k: int, m: int|
        0 <= k < m < changes.len() ==> (#[trigger] changes[k]).0 + changes[k].1.len() <= (
        #[trigger] changes[m]).0
}

proof fn lemma_changes_from(lines: Seq<Seq<char>>, max_width: nat, i: int, in_code: bool)
    requires
        0 <= i <= lines.len(),
    ensures
        changes_ok(lines, i, process_from(lines, max_width, i, in_code).changes),
    decreases lines.len() - i,
{
    if i < lines.len() {
        let code = if is_fence_line(lines[i]) {
            !in_code
        } else {
            in_code
        };
        match parse_comment(lines[i]) {
            Some(c) => if code {
                lemma_changes_from(lines, max_width, i + 1, code);
            } else {
                let (j, combined) = combine_from(lines, c, i + 1, c.text);
                lemma_combine_bounds(lines, c, i + 1, c.text);
                lemma_changes_from(lines, max_width, j, code);
                let new_lines = render_group(c, combined, max_width);
                let orig = lines.subrange(i, j);
                let rest = process_from(lines, max_width, j, code).changes;
                if new_lines != orig {
                    lemma_render_group_trimmed(c, combined, max_width);
                    lemma_parsed_marker(lines[i]);
                    comment_rendering_laws(c, combined, max_width);
                    lemma_combined_lines(lines, c, i + 1, c.text);
                    assert(orig[0] == lines[i]);
                    let all = seq![(i + 1, orig, new_lines)] + rest;
                    assert(all[0] == (i + 1, orig, new_lines));
                    assert forall|jj: int| 1 <= jj < orig.len() implies joinable_line(
                        #[trigger] orig[jj],
                        parse_comment(orig[0])->0,
                    ) by {
                        assert(orig[jj] == lines[i + jj]);
                    }
                    assert forall|jj: int| 0 <= jj < new_lines.len() implies starts_with(
                        #[trigger] new_lines[jj],
                        comment_base(orig[0]),
                    ) && parse_comment(new_lines[jj]) is Some && parse_comment(new_lines[jj])->0.indent
                        == parse_comment(orig[0])->0.indent && parse_comment(new_lines[jj])->0.marker
                        == parse_comment(orig[0])->0.marker by {
                        lemma_base_line_parses(lines[i], new_lines[jj]);
                    }
                    assert(change_shape(lines, i, all[0]));
                    assert forall|k: int| 0 <= k < all.len() implies change_shape(
                        lines,
                        i,
                        #[trigger] all[k],
                    ) by {
                        if k > 0 {
                            assert(all[k] == rest[k - 1]);
                            assert(change_shape(lines, j, rest[k - 1]));
                        }
                    }
                    assert forall|k: int, m: int| 0 <= k < m < all.len() implies (
                    #[trigger] all[k]).0 + all[k].1.len() <= (#[trigger] all[m]).0 by {
                        assert(all[m] == rest[m - 1]);
                        assert(change_shape(lines, j, rest[m - 1]));
                        if k > 0 {
                            assert(all[k] == rest[k - 1]);
                        }
                    }
                } else {
                    assert forall|k: int| 0 <= k < rest.len() implies change_shape(
                        lines,
                        i,
                        #[trigger] rest[k],
                    ) by {
                        assert(change_shape(lines, j, rest[k]));
                    }
                }
            },
            None => {
                lemma_changes_from(lines, max_width, i + 1, code);
            },
        }
    }
}

/// Every reported change is a real edit that check mode can show faithfully: its old lines are the
/// input lines found at its (1-based) line number, they differ from the new lines, the new lines
/// keep the indentation and marker of the comment they replace and have no trailing whitespace,
/// and changes come in order without overlapping.
pub proof fn changes_describe_edits(lines: Seq<Seq<char>>, max_width: nat)
    ensures
        changes_ok(lines, 0, process_lines(lines, max_width).changes),
{
    lemma_changes_from(lines, max_width, 0, false);
}

/// A line that is not a comment.
pub open spec fn is_code_line(l: Seq<char>) -> bool {
    parse_comment(l) is None
}

pub open spec fn code_lines() -> spec_fn(Seq<char>) -> bool {
    |l: Seq<char>| is_code_line(l)
}

proof fn lemma_leading_ws_exact(s: Seq<char>, k: int)
    requires
        0 <= k < s.len(),
        forall|m: int| 0 <= m < k ==> is_ws(#[trigger] s[m]),
        !is_ws(s[k]),
    ensures
        leading_ws(s) == k,
    decreases k,
{
    if k > 0 {
        let d = s.drop_first();
        assert forall|m: int| 0 <= m < k - 1 implies is_ws(#[trigger] d[m]) by {
            assert(d[m] == s[m + 1]);
        }
        assert(d[k - 1] == s[k]);
        assert(is_ws(s[0]));
        lemma_leading_ws_exact(d, k - 1);
    }
}

/// A line made of the indentation and marker of a comment line, alone or followed by a space, is
/// a comment line with that same indentation and marker.
pub(crate) proof fn lemma_base_line_parses(line: Seq<char>, l: Seq<char>)
    requires
        parse_comment(line) is Some,
        starts_with(l, comment_base(line)),
        l.len() == comment_base(line).len() || l[comment_base(line).len() as int] == ' ',
    ensures
        parse_comment(l) is Some,
        parse_comment(l)->0.indent == parse_comment(line)->0.indent,
        parse_comment(l)->0.marker == parse_comment(line)->0.marker,
        parse_comment(l)->0.text == crate::comment::strip_one_space(
            l.skip(comment_base(line).len() as int),
        ),
{
    let c = parse_comment(line)->0;
    let k = leading_ws(line) as int;
    lemma_leading_ws_bound(line);
    let base = c.indent + c.marker;
    let m = c.marker;
    assert(m =~= seq!['/', '/', '/'] || m =~= seq!['/', '/', '!'] || m =~= seq!['/', '/']);
    assert(c.indent == line.take(k));
    assert(l.take(base.len() as int) == base);
    assert forall|q: int| 0 <= q < k implies is_ws(#[trigger] l[q]) by {
        assert(l[q] == l.take(base.len() as int)[q]);
        assert(base[q] == c.indent[q]);
        assert(c.indent[q] == line[q]);
    }
    assert forall|q: int| 0 <= q < m.len() implies #[trigger] l[k + q] == m[q] by {
        assert(l[k + q] == l.take(base.len() as int)[k + q]);
        assert(base[k + q] == m[q]);
    }
    assert(l[k + 0] == m[0]);
    assert(m[0] == '/');
    lemma_leading_ws_exact(l, k);
    let t = l.skip(k);
    assert forall|q: int| 0 <= q < m.len() implies #[trigger] t.take(m.len() as int)[q] == m[q] by {
        assert(t[q] == l[k + q]);
    }
    assert(t.take(m.len() as int) =~= m);
    assert(t.len() == m.len() || t[m.len() as int] == ' ');
    assert(l.take(k) =~= c.indent);
    assert(t.skip(m.len() as int) =~= l.skip(base.len() as int));
    if m =~= seq!['/', '/'] {
        assert(!starts_with(t, crate::comment::doc_marker()));
        assert(!starts_with(t, crate::comment::bang_marker()));
    } else if m =~= seq!['/', '/', '!'] {
        assert(!starts_with(t, crate::comment::doc_marker()));
    }
}

/// The lines that a comment's run gathers after its first line are comments with the same indent
/// and marker, with text, and none of them is a fence.
pub open spec fn joinable_line(line: Seq<char>, c: CommentSpec) -> bool {
    &&& parse_comment(line) is Some
    &&& parse_comment(line)->0.indent == c.indent
    &&& parse_comment(line)->0.marker == c.marker
    &&& parse_comment(line)->0.text.len() > 0
    &&& !is_fence_line(line)
    &&& !crate::comment::starts_hier(parse_comment(line)->0.text)
}

pub(crate) proof fn lemma_combined_lines(lines: Seq<Seq<char>>, c: CommentSpec, j: int, combined: Seq<char>)
    requires
        0 <= j <= lines.len(),
    ensures
        forall|k: int|
            j <= k < combine_from(lines, c, j, combined).0 ==> joinable_line(#[trigger] lines[k], c),
    decreases lines.len() - j,
{
    if 0 <= j < lines.len() {
        match parse_comment(lines[j]) {
            Some(next) => if combinable(with_text(c, combined), next) {
                lemma_combined_lines(lines, c, j + 1, combined + space() + trim_start(next.text));
                assert(!starts_with(next.text, fence()));
            },
            None => {},
        }
    }
}

proof fn lemma_no_code(s: Seq<Seq<char>>)
    requires
        forall|k: int| 0 <= k < s.len() ==> parse_comment(#[trigger] s[k]) is Some,
    ensures
        s.filter(code_lines()) == Seq::<Seq<char>>::empty(),
    decreases s.len(),
{
    reveal(Seq::filter);
    if s.len() > 0 {
        let d = s.drop_last();
        assert forall|k: int| 0 <= k < d.len() implies parse_comment(#[trigger] d[k]) is Some by {
            assert(d[k] == s[k]);
        }
        lemma_no_code(d);
        assert(s.last() == s[s.len() - 1]);
    }
}

proof fn lemma_code_preserved_from(lines: Seq<Seq<char>>, max_width: nat, i: int, in_code: bool)
    requires
        0 <= i <= lines.len(),
    ensures
        process_from(lines, max_width, i, in_code).lines.filter(code_lines()) == lines.subrange(
            i,
            lines.len() as int,
        ).filter(code_lines()),
    decreases lines.len() - i,
{
    let f = code_lines();
    let tail = lines.subrange(i, lines.len() as int);
    if i < lines.len() {
        let code = if is_fence_line(lines[i]) {
            !in_code
        } else {
            in_code
        };
        match parse_comment(lines[i]) {
            Some(c) => if code {
                lemma_code_preserved_from(lines, max_width, i + 1, code);
                let rest = process_from(lines, max_width, i + 1, code);
                assert(tail =~= seq![lines[i]] + lines.subrange(i + 1, lines.len() as int));
                Seq::filter_distributes_over_add(seq![lines[i]], rest.lines, f);
                Seq::filter_distributes_over_add(
                    seq![lines[i]],
                    lines.subrange(i + 1, lines.len() as int),
                    f,
                );
            } else {
                let (j, combined) = combine_from(lines, c, i + 1, c.text);
                lemma_combine_bounds(lines, c, i + 1, c.text);
                lemma_combined_lines(lines, c, i + 1, c.text);
                lemma_code_preserved_from(lines, max_width, j, code);
                let new_lines = render_group(c, combined, max_width);
                let rest = process_from(lines, max_width, j, code);
                lemma_parsed_marker(lines[i]);
                comment_rendering_laws(c, combined, max_width);
                assert forall|k: int| 0 <= k < new_lines.len() implies parse_comment(
                    #[trigger] new_lines[k],
                ) is Some by {
                    lemma_base_line_parses(lines[i], new_lines[k]);
                }
                lemma_no_code(new_lines);
                let head = lines.subrange(i, j);
                assert forall|k: int| 0 <= k < head.len() implies parse_comment(
                    #[trigger] head[k],
                ) is Some by {
                    assert(head[k] == lines[i + k]);
                    if k > 0 {
                        assert(joinable_line(lines[i + k], c));
                    }
                }
                lemma_no_code(head);
                assert(tail =~= head + lines.subrange(j, lines.len() as int));
                Seq::filter_distributes_over_add(new_lines, rest.lines, f);
                Seq::filter_distributes_over_add(head, lines.subrange(j, lines.len() as int), f);
                assert(Seq::<Seq<char>>::empty() + rest.lines.filter(f) =~= rest.lines.filter(f));
                assert(Seq::<Seq<char>>::empty() + lines.subrange(j, lines.len() as int).filter(f)
                    =~= lines.subrange(j, lines.len() as int).filter(f));
            },
            None => {
                lemma_code_preserved_from(lines, max_width, i + 1, code);
                let rest = process_from(lines, max_width, i + 1, code);
                assert(tail =~= seq![lines[i]] + lines.subrange(i + 1, lines.len() as int));
                Seq::filter_distributes_over_add(seq![lines[i]], rest.lines, f);
                Seq::filter_distributes_over_add(
                    seq![lines[i]],
                    lines.subrange(i + 1, lines.len() as int),
                    f,
                );
            },
        }
    } else {
        assert(tail =~= Seq::<Seq<char>>::empty());
        assert(process_from(lines, max_width, i, in_code).lines =~= Seq::<Seq<char>>::empty());
    }
}

/// Code is never touched: the lines that are not comments come out exactly as they went in, in
/// the same order, with none dropped and none added.
pub proof fn code_lines_are_preserved(lines: Seq<Seq<char>>, max_width: nat)
    ensures
        process_lines(lines, max_width).lines.filter(code_lines()) == lines.filter(code_lines()),
{
    lemma_code_preserved_from(lines, max_width, 0, false);
    assert(lines.subrange(0, lines.len() as int) =~= lines);
}

/// The lines from `i` on with each change's old lines replaced by its new lines.
pub open spec fn spliced(lines: Seq<Seq<char>>, changes: Seq<ChangeSpec>, i: int) -> Seq<Seq<char>>
    decreases changes.len(),
{
    if changes.len() == 0 {
        lines.subrange(i, lines.len() as int)
    } else {
        let ch = changes[0];
        lines.subrange(i, ch.0 - 1) + ch.2 + spliced(lines, changes.drop_first(), ch.0 - 1 + ch.1.len())
    }
}

proof fn lemma_spliced_skip(lines: Seq<Seq<char>>, changes: Seq<ChangeSpec>, i: int, j: int)
    requires
        0 <= i <= j <= lines.len(),
        changes_ok(lines, j, changes),
    ensures
        spliced(lines, changes, i) == lines.subrange(i, j) + spliced(lines, changes, j),
{
    if changes.len() == 0 {
        assert(lines.subrange(i, lines.len() as int) =~= lines.subrange(i, j) + lines.subrange(
            j,
            lines.len() as int,
        ));
    } else {
        let ch = changes[0];
        assert(change_shape(lines, j, ch));
        assert(lines.subrange(i, ch.0 - 1) =~= lines.subrange(i, j) + lines.subrange(j, ch.0 - 1));
        let tail = ch.2 + spliced(lines, changes.drop_first(), ch.0 - 1 + ch.1.len());
        assert(lines.subrange(i, ch.0 - 1) + tail =~= lines.subrange(i, j) + (lines.subrange(
            j,
            ch.0 - 1,
        ) + tail));
        assert(spliced(lines, changes, i) == lines.subrange(i, ch.0 - 1) + tail);
        assert(spliced(lines, changes, j) == lines.subrange(j, ch.0 - 1) + tail);
    }
}

proof fn lemma_spliced_from(lines: Seq<Seq<char>>, max_width: nat, i: int, in_code: bool)
    requires
        0 <= i <= lines.len(),
    ensures
        process_from(lines, max_width, i, in_code).lines == spliced(
            lines,
            process_from(lines, max_width, i, in_code).changes,
            i,
        ),
    decreases lines.len() - i,
{
    if i < lines.len() {
        let code = if is_fence_line(lines[i]) {
            !in_code
        } else {
            in_code
        };
        match parse_comment(lines[i]) {
            Some(c) => if code {
                lemma_spliced_from(lines, max_width, i + 1, code);
                lemma_changes_from(lines, max_width, i + 1, code);
                let rest = process_from(lines, max_width, i + 1, code);
                lemma_spliced_skip(lines, rest.changes, i, i + 1);
                assert(lines.subrange(i, i + 1) =~= seq![lines[i]]);
            } else {
                let (j, combined) = combine_from(lines, c, i + 1, c.text);
                lemma_combine_bounds(lines, c, i + 1, c.text);
                lemma_spliced_from(lines, max_width, j, code);
                lemma_changes_from(lines, max_width, j, code);
                let rest = process_from(lines, max_width, j, code);
                let new_lines = render_group(c, combined, max_width);
                let orig = lines.subrange(i, j);
                if new_lines == orig {
                    lemma_spliced_skip(lines, rest.changes, i, j);
                } else {
                    let all = seq![(i + 1, orig, new_lines)] + rest.changes;
                    assert(all[0] == (i + 1, orig, new_lines));
                    assert(all.drop_first() =~= rest.changes);
                    assert(lines.subrange(i, i) =~= Seq::<Seq<char>>::empty());
                    assert(spliced(lines, all, i) == lines.subrange(i, i) + new_lines + spliced(
                        lines,
                        rest.changes,
                        j,
                    ));
                    assert(spliced(lines, all, i) =~= new_lines + rest.lines);
                }
            },
            None => {
                lemma_spliced_from(lines, max_width, i + 1, code);
                lemma_changes_from(lines, max_width, i + 1, code);
                let rest = process_from(lines, max_width, i + 1, code);
                lemma_spliced_skip(lines, rest.changes, i, i + 1);
                assert(lines.subrange(i, i + 1) =~= seq![lines[i]]);
            },
        }
    } else {
        assert(process_from(lines, max_width, i, in_code).changes =~= Seq::<ChangeSpec>::empty());
    }
}

/// The output is the input with the old lines of each reported change replaced by its new lines,
/// and every change is well formed: its old lines are the input lines at its line number, they are
/// all comments with the same indentation and marker, its new lines are not empty, differ from
/// the old ones, carry that indentation and marker, parse as comments with them and end in no
/// whitespace, and changes come in order without overlapping.
pub proof fn output_is_input_with_changes_applied(lines: Seq<Seq<char>>, max_width: nat)
    ensures
        process_lines(lines, max_width).lines == spliced(
            lines,
            process_lines(lines, max_width).changes,
            0,
        ),
        changes_ok(lines, 0, process_lines(lines, max_width).changes),
{
    lemma_spliced_from(lines, max_width, 0, false);
    lemma_changes_from(lines, max_width, 0, false);
}

/// Number of fence lines among the first `n` lines.
pub open spec fn fences_upto(lines: Seq<Seq<char>>, n: int) -> nat
    decreases n,
{
    if n <= 0 {
        0
    } else {
        fences_upto(lines, n - 1) + if is_fence_line(lines[n - 1]) {
            1nat
        } else {
            0nat
        }
    }
}

/// Line `i` is a comment inside a code block: an odd number of fence lines come up to and
/// including it (an opening fence is inside, its closing fence outside).
pub open spec fn in_code_block(lines: Seq<Seq<char>>, i: int) -> bool {
    parse_comment(lines[i]) is Some && fences_upto(lines, i + 1) % 2 == 1
}

/// Change `ch` replaces input line `i`.
pub open spec fn covers(ch: ChangeSpec, i: int) -> bool {
    ch.0 - 1 <= i < ch.0 - 1 + ch.1.len()
}

proof fn lemma_no_fences_between(lines: Seq<Seq<char>>, a: int, b: int)
    requires
        0 <= a <= b <= lines.len(),
        forall|k: int| a <= k < b ==> !is_fence_line(#[trigger] lines[k]),
    ensures
        fences_upto(lines, b) == fences_upto(lines, a),
    decreases b - a,
{
    if b > a {
        lemma_no_fences_between(lines, a, b - 1);
        assert(!is_fence_line(lines[b - 1]));
    }
}

proof fn lemma_code_from(lines: Seq<Seq<char>>, max_width: nat, i: int, in_code: bool)
    requires
        0 <= i <= lines.len(),
        in_code == (fences_upto(lines, i) % 2 == 1),
    ensures
        forall|k: int, q: int|
            0 <= k < process_from(lines, max_width, i, in_code).changes.len() && #[trigger] covers(
                process_from(lines, max_width, i, in_code).changes[k],
                q,
            ) ==> !in_code_block(lines, q),
    decreases lines.len() - i,
{
    if i < lines.len() {
        let code = if is_fence_line(lines[i]) {
            !in_code
        } else {
            in_code
        };
        assert(fences_upto(lines, i + 1) == fences_upto(lines, i) + if is_fence_line(lines[i]) {
            1nat
        } else {
            0nat
        });
        assert(code == (fences_upto(lines, i + 1) % 2 == 1));
        match parse_comment(lines[i]) {
            Some(c) => if code {
                lemma_code_from(lines, max_width, i + 1, code);
                let rest = process_from(lines, max_width, i + 1, code).changes;
                let all = process_from(lines, max_width, i, in_code).changes;
                assert(all == rest);
                assert forall|k: int, q: int|
                    0 <= k < all.len() && #[trigger] covers(all[k], q) implies !in_code_block(
                    lines,
                    q,
                ) by {
                    assert(covers(rest[k], q));
                }
            } else {
                let (j, combined) = combine_from(lines, c, i + 1, c.text);
                lemma_combine_bounds(lines, c, i + 1, c.text);
                lemma_combined_lines(lines, c, i + 1, c.text);
                assert forall|k: int| i + 1 <= k < j implies !is_fence_line(#[trigger] lines[k]) by {
                    assert(joinable_line(lines[k], c));
                }
                lemma_no_fences_between(lines, i + 1, j);
                lemma_code_from(lines, max_width, j, code);
                let rest = process_from(lines, max_width, j, code).changes;
                let all = process_from(lines, max_width, i, in_code).changes;
                assert forall|k: int, q: int|
                    0 <= k < all.len() && #[trigger] covers(all[k], q) implies !in_code_block(
                    lines,
                    q,
                ) by {
                    if render_group(c, combined, max_width) != lines.subrange(i, j) && k == 0 {
                        assert(all[0].0 == i + 1 && all[0].1.len() == j - i);
                        if q > i {
                            lemma_no_fences_between(lines, i + 1, q + 1);
                        }
                    } else if render_group(c, combined, max_width) != lines.subrange(i, j) {
                        assert(all[k] == rest[k - 1]);
                        assert(covers(rest[k - 1], q));
                    } else {
                        assert(all[k] == rest[k]);
                        assert(covers(rest[k], q));
                    }
                }
            },
            None => {
                lemma_code_from(lines, max_width, i + 1, code);
                let rest = process_from(lines, max_width, i + 1, code).changes;
                let all = process_from(lines, max_width, i, in_code).changes;
                assert(all == rest);
                assert forall|k: int, q: int|
                    0 <= k < all.len() && #[trigger] covers(all[k], q) implies !in_code_block(
                    lines,
                    q,
                ) by {
                    assert(covers(rest[k], q));
                }
            },
        }
    }
}

/// No change ever touches a code block: every line that a change replaces is outside fenced code,
/// so the fences and the lines between them are written out exactly as they came in.
pub proof fn code_blocks_are_never_changed(lines: Seq<Seq<char>>, max_width: nat)
    ensures
        forall|k: int, q: int|
            0 <= k < process_lines(lines, max_width).changes.len() && #[trigger] covers(
                process_lines(lines, max_width).changes[k],
                q,
            ) ==> !in_code_block(lines, q),
{
    lemma_code_from(lines, max_width, 0, false);
}

/// Line `i` is a blank comment (a marker with no text) outside any code block.
pub open spec fn blank_separator(lines: Seq<Seq<char>>, i: int) -> bool {
    &&& 0 <= i < lines.len()
    &&& parse_comment(lines[i]) is Some
    &&& parse_comment(lines[i])->0.text.len() == 0
    &&& !in_code_block(lines, i)
}

/// What happens to a blank separator line: it is never merged with a neighbour; either no change
/// touches it and it already is its bare indent and marker, or exactly that line is replaced by its
/// bare indent and marker.
pub open spec fn separator_kept(lines: Seq<Seq<char>>, changes: Seq<ChangeSpec>, i: int) -> bool {
    &&& forall|k: int|
        0 <= k < changes.len() && #[trigger] covers(changes[k], i) ==> changes[k] == (
            i + 1,
            seq![lines[i]],
            seq![comment_base(lines[i])],
        )
    &&& (forall|k: int| 0 <= k < changes.len() ==> !#[trigger] covers(changes[k], i)) ==> lines[i]
        == comment_base(lines[i])
}

proof fn lemma_blank_from(lines: Seq<Seq<char>>, max_width: nat, i0: int, in_code: bool, i: int)
    requires
        0 <= i0 <= i,
        blank_separator(lines, i),
        in_code == (fences_upto(lines, i0) % 2 == 1),
    ensures
        separator_kept(lines, process_from(lines, max_width, i0, in_code).changes, i),
    decreases lines.len() - i0,
{
    let all = process_from(lines, max_width, i0, in_code).changes;
    let code = if is_fence_line(lines[i0]) {
        !in_code
    } else {
        in_code
    };
    assert(fences_upto(lines, i0 + 1) == fences_upto(lines, i0) + if is_fence_line(lines[i0]) {
        1nat
    } else {
        0nat
    });
    match parse_comment(lines[i0]) {
        Some(c) => if code {
            assert(i0 < i);
            lemma_blank_from(lines, max_width, i0 + 1, code, i);
            let rest = process_from(lines, max_width, i0 + 1, code).changes;
            assert(all == rest);
        } else {
            let (j, combined) = combine_from(lines, c, i0 + 1, c.text);
            lemma_combine_bounds(lines, c, i0 + 1, c.text);
            lemma_combined_lines(lines, c, i0 + 1, c.text);
            lemma_changes_from(lines, max_width, j, code);
            let new_lines = render_group(c, combined, max_width);
            let orig = lines.subrange(i0, j);
            let rest = process_from(lines, max_width, j, code).changes;
            if i0 == i {
                let base = c.indent + c.marker;
                assert(j == i + 1) by {
                    if j > i + 1 {
                        assert(combine_from(lines, c, i0 + 1, c.text) == (j, combined));
                        match parse_comment(lines[i0 + 1]) {
                            Some(next) => {
                                assert(!combinable(with_text(c, c.text), next));
                            },
                            None => {},
                        }
                    }
                }
                assert(combined == c.text);
                lemma_parsed_marker(lines[i]);
                assert(base.last() == c.marker.last());
                lemma_trim_end_noop(base);
                assert(new_lines == seq![base]);
                assert(orig =~= seq![lines[i]]);
                assert forall|k: int| 0 <= k < rest.len() implies !#[trigger] covers(rest[k], i) by {
                    assert(change_shape(lines, j, rest[k]));
                }
                if new_lines == orig {
                    assert(all == rest);
                    assert(lines[i] == orig[0]);
                } else {
                    assert(all[0] == (i + 1, orig, new_lines));
                    assert forall|k: int|
                        0 <= k < all.len() && #[trigger] covers(all[k], i) implies all[k] == (
                        i + 1,
                        seq![lines[i]],
                        seq![comment_base(lines[i])],
                    ) by {
                        if k > 0 {
                            assert(all[k] == rest[k - 1]);
                        }
                    }
                    assert(covers(all[0], i));
                }
            } else {
                assert(j <= i) by {
                    if j > i {
                        assert(joinable_line(lines[i], c));
                    }
                }
                lemma_combined_lines(lines, c, i0 + 1, c.text);
                assert forall|k: int| i0 + 1 <= k < j implies !is_fence_line(#[trigger] lines[k]) by {
                    assert(joinable_line(lines[k], c));
                }
                lemma_no_fences_between(lines, i0 + 1, j);
                lemma_blank_from(lines, max_width, j, code, i);
                if new_lines == orig {
                    assert(all == rest);
                } else {
                    assert(all[0] == (i0 + 1, orig, new_lines));
                    assert(!covers(all[0], i));
                    assert forall|k: int|
                        0 <= k < all.len() && #[trigger] covers(all[k], i) implies all[k] == (
                        i + 1,
                        seq![lines[i]],
                        seq![comment_base(lines[i])],
                    ) by {
                        assert(all[k] == rest[k - 1]);
                        assert(covers(rest[k - 1], i));
                    }
                    if forall|k: int| 0 <= k < all.len() ==> !#[trigger] covers(all[k], i) {
                        assert forall|k: int| 0 <= k < rest.len() implies !#[trigger] covers(
                            rest[k],
                            i,
                        ) by {
                            assert(all[k + 1] == rest[k]);
                            assert(!covers(all[k + 1], i));
                        }
                    }
                }
            }
        },
        None => {
            assert(i0 < i);
            lemma_blank_from(lines, max_width, i0 + 1, code, i);
            let rest = process_from(lines, max_width, i0 + 1, code).changes;
            assert(all == rest);
        },
    }
}

/// A blank comment line outside code blocks separates paragraphs: it is never merged with a
/// neighbour, and comes out as its bare indent and marker.
pub proof fn blank_comment_lines_separate(lines: Seq<Seq<char>>, max_width: nat, i: int)
    requires
        blank_separator(lines, i),
    ensures
        separator_kept(lines, process_lines(lines, max_width).changes, i),
{
    lemma_blank_from(lines, max_width, 0, false, i);
}

proof fn lemma_last_from(lines: Seq<Seq<char>>, max_width: nat, i: int, in_code: bool)
    requires
        0 <= i < lines.len(),
    ensures
        process_from(lines, max_width, i, in_code).lines.len() > 0,
        lines.last().len() > 0 && lines.last().last() != '\n' ==> process_from(
            lines,
            max_width,
            i,
            in_code,
        ).lines.last().len() > 0 && process_from(lines, max_width, i, in_code).lines.last().last()
            != '\n',
    decreases lines.len() - i,
{
    let out = process_from(lines, max_width, i, in_code).lines;
    let code = if is_fence_line(lines[i]) {
        !in_code
    } else {
        in_code
    };
    match parse_comment(lines[i]) {
        Some(c) => if code {
            if i + 1 < lines.len() {
                lemma_last_from(lines, max_width, i + 1, code);
            } else {
                assert(process_from(lines, max_width, i + 1, code).lines =~= Seq::<Seq<char>>::empty());
                assert(out =~= seq![lines[i]]);
            }
        } else {
            let (j, combined) = combine_from(lines, c, i + 1, c.text);
            lemma_combine_bounds(lines, c, i + 1, c.text);
            let new_lines = render_group(c, combined, max_width);
            lemma_parsed_marker(lines[i]);
            comment_rendering_laws(c, combined, max_width);
            if j < lines.len() {
                lemma_last_from(lines, max_width, j, code);
            } else {
                assert(process_from(lines, max_width, j, code).lines =~= Seq::<Seq<char>>::empty());
                assert(out =~= new_lines);
                let l = new_lines.last();
                assert(l == new_lines[new_lines.len() - 1]);
                assert(starts_with(l, c.indent + c.marker));
                assert(l.len() > 0);
            }
        },
        None => {
            if i + 1 < lines.len() {
                lemma_last_from(lines, max_width, i + 1, code);
            } else {
                assert(process_from(lines, max_width, i + 1, code).lines =~= Seq::<Seq<char>>::empty());
                assert(out =~= seq![lines[i]]);
            }
        },
    }
}

proof fn lemma_join_last(ls: Seq<Seq<char>>, sep: Seq<char>)
    requires
        ls.len() > 0,
        ls.last().len() > 0,
    ensures
        join(ls, sep).len() > 0,
        join(ls, sep).last() == ls.last().last(),
{
    if ls.len() > 1 {
        assert(join(ls, sep) == join(ls.drop_last(), sep) + sep + ls.last());
    }
}

/// The output ends with a line feed exactly when the input does.
pub proof fn final_newline_is_kept(content: Seq<char>, max_width: nat)
    ensures
        crate::lines::ends_with_newline(processed_text(content, max_width))
            == crate::lines::ends_with_newline(content),
{
    let ls = lines_of(content);
    let out = process_lines(ls, max_width).lines;
    let nl = crate::lines::ends_with_newline(content);
    let t = processed_text(content, max_width);
    if nl {
        assert(t == join(out, crate::lines::newline()) + crate::lines::newline());
    } else {
        assert(t == join(out, crate::lines::newline()) + Seq::<char>::empty());
        assert(t =~= join(out, crate::lines::newline()));
        if content.len() == 0 {
            assert(ls =~= Seq::<Seq<char>>::empty());
            assert(out =~= Seq::<Seq<char>>::empty());
        } else {
            let p = crate::lines::split_fold(content);
            let q = crate::lines::split_fold(content.drop_last());
            assert(p.cur == q.cur.push(content.last()));
            assert(ls == p.done.push(p.cur));
            assert(ls.last() == p.cur);
            assert(p.cur.last() == content.last());
            lemma_last_from(ls, max_width, 0, false);
            lemma_join_last(out, crate::lines::newline());
        }
    }
}

/// Trimming the end of a text that starts with a part ending in a non-whitespace character
/// trims only what follows that part.
pub(crate) proof fn lemma_trim_end_after(base: Seq<char>, y: Seq<char>)
    requires
        base.len() > 0,
        !is_ws(base.last()),
    ensures
        trim_end(base + y) == base + trim_end(y),
    decreases y.len(),
{
    if y.len() > 0 && is_ws(y.last()) {
        assert((base + y).drop_last() =~= base + y.drop_last());
        lemma_trim_end_after(base, y.drop_last());
    } else {
        if y.len() == 0 {
            assert(base + y =~= base);
        }
    }
}

/// An output line fits: it is within `max_width`, or the text of its comment is at most one word.
pub open spec fn within_width(l: Seq<char>, max_width: nat) -> bool {
    ||| text_width(l) <= max_width
    ||| parse_comment(l) is Some && tokenize(parse_comment(l)->0.text).len() <= 1
}

/// Output line `k` is accounted for by its origin: a line passed through is the input line it
/// names, which is code or a comment inside a code block; a line written for a comment group
/// fits.
pub open spec fn origin_ok(
    lines: Seq<Seq<char>>,
    out: Seq<Seq<char>>,
    origins: Seq<Option<int>>,
    k: int,
    max_width: nat,
) -> bool {
    match origins[k] {
        Some(p) => 0 <= p < lines.len() && out[k] == lines[p] && (parse_comment(lines[p]) is None
            || in_code_block(lines, p)),
        None => within_width(out[k], max_width),
    }
}

pub(crate) proof fn lemma_trim_space()
    ensures
        trim_end(space()) == Seq::<char>::empty(),
{
    assert(is_ws(' '));
    assert(space().last() == ' ');
    assert(space().drop_last() =~= Seq::<char>::empty());
    assert(trim_end(Seq::<char>::empty()) == Seq::<char>::empty());
    assert(trim_end(space()) == trim_end(space().drop_last()));
}

/// A line made of a comment's base, a space, `m` more spaces and one word (whose spans never
/// hold unprotected whitespace) carries a comment text of at most one word once trimmed.
proof fn lemma_lone_word_text(base: Seq<char>, m: nat, word: Seq<char>)
    requires
        base.len() > 0,
        !is_ws(base.last()),
        crate::tokenize::scan(word).ok,
    ensures
        tokenize(
            crate::comment::strip_one_space(
                trim_end(base + (space() + spaces(m) + word)).skip(base.len() as int),
            ),
        ).len() <= 1,
{
    let y = space() + spaces(m) + word;
    lemma_trim_end_after(base, y);
    let z = trim_end(y);
    crate::text::lemma_trim_end_prefix(y);
    assert(trim_end(base + y).skip(base.len() as int) =~= z);
    let text = crate::comment::strip_one_space(z);
    if z.len() == 0 {
        assert(text =~= Seq::<char>::empty());
        assert(tokenize(Seq::<char>::empty()) == Seq::<Seq<char>>::empty());
    } else {
        let ln = z.len() - 1;
        assert(z[0] == y[0]);
        let sw = spaces(m) + word;
        assert(text =~= sw.take(ln));
        if ln <= m {
            assert(sw.take(ln) =~= spaces(ln as nat) + word.take(0));
            crate::tokenize::lemma_scan_ok_prefix(word, 0);
            crate::tokenize::lemma_spaces_then_word(ln as nat, word.take(0));
        } else {
            assert(sw.take(ln) =~= spaces(m) + word.take(ln - m));
            crate::tokenize::lemma_scan_ok_prefix(word, ln - m);
            crate::tokenize::lemma_spaces_then_word(m, word.take(ln - m));
        }
    }
}

proof fn lemma_wrapped_line_width(
    base: Seq<char>,
    prefix: Seq<char>,
    cont: Seq<char>,
    mw: nat,
    combined: Seq<char>,
    max_width: nat,
    k: int,
)
    requires
        base.len() > 0,
        !is_ws(base.last()),
        prefix == base + space(),
        mw == 0 ==> cont == prefix,
        mw > 0 ==> cont == prefix + spaces(mw),
        0 <= k < wrapped(combined, prefix, cont, max_width).len(),
    ensures
        ({
            let l = wrapped(combined, prefix, cont, max_width)[k];
            ||| text_width(l) <= max_width
            ||| tokenize(crate::comment::strip_one_space(l.skip(base.len() as int))).len() <= 1
        }),
{
    let r = wrapped(combined, prefix, cont, max_width);
    let words = tokenize(combined);
    if words.len() == 0 {
        assert(r[k] == trim_end(prefix));
        lemma_trim_end_after(base, space());
        lemma_trim_space();
        assert(r[k] =~= base);
        assert(r[k].skip(base.len() as int) =~= Seq::<char>::empty());
        assert(tokenize(Seq::<char>::empty()) == Seq::<Seq<char>>::empty());
    } else {
        let g = wrap_groups(words, text_width(prefix), text_width(cont), max_width);
        assert(r.len() == g.len());
        assert(r[k] == crate::wrap::render_line(k, g[k], prefix, cont));
        if g[k].len() > 1 {
            assert(text_width(r[k]) <= max_width) by {
                crate::wrap::wrapped_lines_laws(combined, prefix, cont, max_width);
            }
        } else {
            let a = crate::wrap::words_before(g, k) as int;
            assert(g[k].len() == 1 && 0 <= a < words.len() && g[k][0] == words[a]) by {
                crate::wrap::wrap_groups_laws(words, text_width(prefix), text_width(cont), max_width);
                crate::wrap::lemma_group_range(g, words, k);
                assert(g[k][0] == words.subrange(a, a + 1)[0]);
            }
            let word = g[k][0];
            assert(crate::tokenize::scan(word).ok) by {
                crate::tokenize::spans_are_never_split(combined);
            }
            let m: nat = if k == 0 || mw == 0 {
                0
            } else {
                mw
            };
            let lp = crate::wrap::line_prefix(k, prefix, cont);
            let body = join(g[k], space());
            assert(body == word);
            assert(lp + body =~= base + (space() + spaces(m) + word));
            lemma_lone_word_text(base, m, word);
        }
    }
}

proof fn lemma_render_width(line: Seq<char>, combined: Seq<char>, max_width: nat)
    requires
        parse_comment(line) is Some,
    ensures
        forall|k: int|
            0 <= k < render_group(parse_comment(line)->0, combined, max_width).len()
                ==> within_width(
                #[trigger] render_group(parse_comment(line)->0, combined, max_width)[k],
                max_width,
            ),
{
    let c = parse_comment(line)->0;
    let base = c.indent + c.marker;
    let prefix = base + space();
    let full = prefix + combined;
    let r = render_group(c, combined, max_width);
    lemma_parsed_marker(line);
    assert(base.last() == c.marker.last());
    comment_rendering_laws(c, combined, max_width);
    assert(comment_base(line) == base);
    assert forall|k: int| 0 <= k < r.len() implies within_width(#[trigger] r[k], max_width) by {
        lemma_base_line_parses(line, r[k]);
        if combined.len() == 0 {
            assert(r[k] == base);
            assert(r[k].skip(base.len() as int) =~= Seq::<char>::empty());
            assert(tokenize(Seq::<char>::empty()) == Seq::<Seq<char>>::empty());
        } else if text_width(full) > max_width {
            let mw = marker_width(combined);
            let cont = if mw > 0 {
                prefix + spaces(mw)
            } else {
                prefix
            };
            lemma_wrapped_line_width(base, prefix, cont, mw, combined, max_width, k);
        }
    }
}

proof fn lemma_width_from(lines: Seq<Seq<char>>, max_width: nat, i: int, in_code: bool)
    requires
        0 <= i <= lines.len(),
        in_code == (fences_upto(lines, i) % 2 == 1),
    ensures
        ({
            let r = process_from(lines, max_width, i, in_code);
            &&& r.origins.len() == r.lines.len()
            &&& forall|k: int|
                0 <= k < r.lines.len() ==> #[trigger] origin_ok(
                    lines,
                    r.lines,
                    r.origins,
                    k,
                    max_width,
                )
        }),
    decreases lines.len() - i,
{
    if i < lines.len() {
        let code = if is_fence_line(lines[i]) {
            !in_code
        } else {
            in_code
        };
        assert(fences_upto(lines, i + 1) == fences_upto(lines, i) + if is_fence_line(lines[i]) {
            1nat
        } else {
            0nat
        });
        assert(code == (fences_upto(lines, i + 1) % 2 == 1));
        let r = process_from(lines, max_width, i, in_code);
        match parse_comment(lines[i]) {
            Some(c) => if code {
                lemma_width_from(lines, max_width, i + 1, code);
                let rest = process_from(lines, max_width, i + 1, code);
                assert(in_code_block(lines, i));
                assert forall|k: int| 0 <= k < r.lines.len() implies #[trigger] origin_ok(
                    lines,
                    r.lines,
                    r.origins,
                    k,
                    max_width,
                ) by {
                    if k > 0 {
                        assert(r.lines[k] == rest.lines[k - 1]);
                        assert(r.origins[k] == rest.origins[k - 1]);
                        assert(origin_ok(lines, rest.lines, rest.origins, k - 1, max_width));
                    }
                }
            } else {
                let (j, combined) = combine_from(lines, c, i + 1, c.text);
                lemma_combine_bounds(lines, c, i + 1, c.text);
                lemma_combined_lines(lines, c, i + 1, c.text);
                assert forall|k: int| i + 1 <= k < j implies !is_fence_line(#[trigger] lines[k]) by {
                    assert(joinable_line(lines[k], c));
                }
                lemma_no_fences_between(lines, i + 1, j);
                lemma_width_from(lines, max_width, j, code);
                lemma_render_width(lines[i], combined, max_width);
                let nl = render_group(c, combined, max_width);
                let rest = process_from(lines, max_width, j, code);
                assert(r.lines == nl + rest.lines);
                assert forall|k: int| 0 <= k < r.lines.len() implies #[trigger] origin_ok(
                    lines,
                    r.lines,
                    r.origins,
                    k,
                    max_width,
                ) by {
                    if k < nl.len() {
                        assert(r.lines[k] == nl[k]);
                        assert(r.origins[k] is None);
                    } else {
                        assert(r.lines[k] == rest.lines[k - nl.len()]);
                        assert(r.origins[k] == rest.origins[k - nl.len()]);
                        assert(origin_ok(lines, rest.lines, rest.origins, k - nl.len(), max_width));
                    }
                }
            },
            None => {
                lemma_width_from(lines, max_width, i + 1, code);
                let rest = process_from(lines, max_width, i + 1, code);
                assert forall|k: int| 0 <= k < r.lines.len() implies #[trigger] origin_ok(
                    lines,
                    r.lines,
                    r.origins,
                    k,
                    max_width,
                ) by {
                    if k > 0 {
                        assert(r.lines[k] == rest.lines[k - 1]);
                        assert(r.origins[k] == rest.origins[k - 1]);
                        assert(origin_ok(lines, rest.lines, rest.origins, k - 1, max_width));
                    }
                }
            },
        }
    }
}

/// Every output line fits, according to where it comes from: a line written for a comment group
/// is within `max_width`, or its comment text is a single word (or none) that no wrapping could
/// shorten; every other output line is the input line it comes from, which is code or a comment
/// inside a code block, passed through unchanged.
pub proof fn output_lines_fit_width(lines: Seq<Seq<char>>, max_width: nat)
    ensures
        ({
            let r = process_lines(lines, max_width);
            &&& r.origins.len() == r.lines.len()
            &&& forall|k: int|
                0 <= k < r.lines.len() ==> #[trigger] origin_ok(
                    lines,
                    r.lines,
                    r.origins,
                    k,
                    max_width,
                )
        }),
{
    lemma_width_from(lines, max_width, 0, false);
}

/// Gathering a comment run goes as far as it can: it stops at the end of the text, at a line that
/// is not a comment, or at a comment that cannot be joined onto the text gathered so far — never
/// before a line that could still be joined.
pub proof fn gathering_goes_as_far_as_it_can(
    lines: Seq<Seq<char>>,
    c: CommentSpec,
    j: int,
    combined: Seq<char>,
)
    requires
        0 <= j <= lines.len(),
    ensures
        ({
            let (e, g) = combine_from(lines, c, j, combined);
            ||| e == lines.len()
            ||| parse_comment(lines[e]) is None
            ||| !combinable(with_text(c, g), parse_comment(lines[e])->0)
        }),
    decreases lines.len() - j,
{
    if j < lines.len() {
        match parse_comment(lines[j]) {
            Some(next) => if combinable(with_text(c, combined), next) {
                gathering_goes_as_far_as_it_can(
                    lines,
                    c,
                    j + 1,
                    combined + space() + trim_start(next.text),
                );
            },
            None => {},
        }
    }
}

/// A line whose comment text opens with a heading `#` or a bullet `*` or `-` is never gathered
/// into the comment above it: in every change, no old line after the first is such a line.
pub proof fn marker_lines_start_their_own_group(lines: Seq<Seq<char>>, max_width: nat)
    ensures
        forall|k: int, j: int|
            0 <= k < process_lines(lines, max_width).changes.len() && 1 <= j
                < process_lines(lines, max_width).changes[k].1.len() ==> ({
                let t = parse_comment(#[trigger] process_lines(lines, max_width).changes[k].1[j])->0.text;
                !(t.len() > 0 && (t[0] == '#' || t[0] == '*' || t[0] == '-'))
            }),
{
    lemma_changes_from(lines, max_width, 0, false);
    let cs = process_lines(lines, max_width).changes;
    assert forall|k: int, j: int| 0 <= k < cs.len() && 1 <= j < cs[k].1.len() implies ({
        let t = parse_comment(#[trigger] cs[k].1[j])->0.text;
        !(t.len() > 0 && (t[0] == '#' || t[0] == '*' || t[0] == '-'))
    }) by {
        assert(change_shape(lines, 0, cs[k]));
        assert(joinable_line(cs[k].1[j], parse_comment(cs[k].1[0])->0));
    }
}

} // verus!
