//! Reading the reformatted text back: its lines are exactly the processed lines, so what holds of
//! the processed lines holds of the lines a reader of the output sees.
use vstd::prelude::*;
use crate::comment::{combinable, marker_width, parse_comment, CommentSpec};
use crate::lines::{
    assembled_lines_split_back, ends_with_newline, lines_have_no_breaks, lines_of, no_break,
    no_cr_cr_lf, no_cr_end, not_lf,
};
use crate::process::{
    code_lines, code_lines_are_preserved, combine_from, is_fence_line, lemma_combine_bounds,
    process_from, process_lines, processed_text, render_group, with_text,
};
use crate::text::{
    all_chars, is_ws, join, leading_ws, lemma_leading_ws_bound, lemma_trim_end_prefix, spaces,
    text_width, trim_end, trim_start,
};
use crate::tokenize::{interleave, text_is_words_and_separators, tokenize};
use crate::wrap::{space, wrap_groups, wrapped};

verus! {

pub(crate) proof fn lemma_chars_sub(s: Seq<char>, a: int, b: int, p: spec_fn(char) -> bool)
    requires
        all_chars(s, p),
        0 <= a <= b <= s.len(),
    ensures
        all_chars(s.subrange(a, b), p),
{
    assert forall|k: int| 0 <= k < b - a implies p(#[trigger] s.subrange(a, b)[k]) by {
        assert(s.subrange(a, b)[k] == s[a + k]);
    }
}

pub(crate) proof fn lemma_chars_concat(x: Seq<char>, y: Seq<char>, p: spec_fn(char) -> bool)
    ensures
        all_chars(x + y, p) <==> all_chars(x, p) && all_chars(y, p),
{
    if all_chars(x + y, p) {
        assert forall|k: int| 0 <= k < x.len() implies p(#[trigger] x[k]) by {
            assert(x[k] == (x + y)[k]);
        }
        assert forall|k: int| 0 <= k < y.len() implies p(#[trigger] y[k]) by {
            assert(y[k] == (x + y)[x.len() + k]);
        }
    }
    if all_chars(x, p) && all_chars(y, p) {
        assert forall|k: int| 0 <= k < (x + y).len() implies p(#[trigger] (x + y)[k]) by {
            if k < x.len() {
                assert((x + y)[k] == x[k]);
            } else {
                assert((x + y)[k] == y[k - x.len()]);
            }
        }
    }
}

pub(crate) proof fn lemma_chars_spaces(n: nat, p: spec_fn(char) -> bool)
    requires
        p(' '),
    ensures
        all_chars(spaces(n), p),
        all_chars(space(), p),
{
    assert forall|k: int| 0 <= k < spaces(n).len() implies p(#[trigger] spaces(n)[k]) by {
        assert(spaces(n)[k] == ' ');
    }
    assert forall|k: int| 0 <= k < space().len() implies p(#[trigger] space()[k]) by {
        assert(space()[k] == ' ');
    }
}

pub(crate) proof fn lemma_chars_trim_end(s: Seq<char>, p: spec_fn(char) -> bool)
    requires
        all_chars(s, p),
    ensures
        all_chars(trim_end(s), p),
{
    lemma_trim_end_prefix(s);
    lemma_chars_sub(s, 0, trim_end(s).len() as int, p);
    assert(s.take(trim_end(s).len() as int) =~= s.subrange(0, trim_end(s).len() as int));
}

pub(crate) proof fn lemma_chars_trim_start(s: Seq<char>, p: spec_fn(char) -> bool)
    requires
        all_chars(s, p),
    ensures
        all_chars(trim_start(s), p),
{
    lemma_leading_ws_bound(s);
    lemma_chars_sub(s, leading_ws(s) as int, s.len() as int, p);
    assert(trim_start(s) =~= s.subrange(leading_ws(s) as int, s.len() as int));
}

pub(crate) proof fn lemma_chars_parse(line: Seq<char>, p: spec_fn(char) -> bool)
    requires
        all_chars(line, p),
        parse_comment(line) is Some,
    ensures
        all_chars(parse_comment(line)->0.indent, p),
        all_chars(parse_comment(line)->0.marker, p),
        all_chars(parse_comment(line)->0.text, p),
{
    let c = parse_comment(line)->0;
    let k = leading_ws(line) as int;
    lemma_leading_ws_bound(line);
    let m = c.marker;
    assert(m =~= seq!['/', '/', '/'] || m =~= seq!['/', '/', '!'] || m =~= seq!['/', '/']);
    lemma_chars_sub(line, 0, k, p);
    assert(c.indent =~= line.subrange(0, k));
    let t = line.skip(k);
    assert(m.len() <= t.len());
    assert(t.take(m.len() as int) == m);
    lemma_chars_sub(line, k, k + m.len(), p);
    assert(m =~= line.subrange(k, k + m.len()));
    let u = t.skip(m.len() as int);
    lemma_chars_sub(line, k + m.len(), line.len() as int, p);
    assert(u =~= line.subrange(k + m.len(), line.len() as int));
    if u.len() > 0 && u[0] == ' ' {
        lemma_chars_sub(u, 1, u.len() as int, p);
        assert(u.drop_first() =~= u.subrange(1, u.len() as int));
    }
}

proof fn lemma_chars_tokens(
    seps: Seq<Seq<char>>,
    toks: Seq<Seq<char>>,
    p: spec_fn(char) -> bool,
)
    requires
        seps.len() == toks.len() + 1,
        all_chars(interleave(seps, toks), p),
    ensures
        forall|k: int| 0 <= k < toks.len() ==> all_chars(#[trigger] toks[k], p),
    decreases toks.len(),
{
    if toks.len() > 0 {
        let x = interleave(seps.drop_last(), toks.drop_last());
        lemma_chars_concat(x + toks.last(), seps.last(), p);
        lemma_chars_concat(x, toks.last(), p);
        lemma_chars_tokens(seps.drop_last(), toks.drop_last(), p);
        assert forall|k: int| 0 <= k < toks.len() implies all_chars(#[trigger] toks[k], p) by {
            if k < toks.len() - 1 {
                assert(toks[k] == toks.drop_last()[k]);
            }
        }
    }
}

/// The words of a text hold only characters of the text.
pub(crate) proof fn lemma_chars_words(s: Seq<char>, p: spec_fn(char) -> bool)
    requires
        all_chars(s, p),
    ensures
        forall|k: int| 0 <= k < tokenize(s).len() ==> all_chars(#[trigger] tokenize(s)[k], p),
{
    let seps = text_is_words_and_separators(s);
    lemma_chars_tokens(seps, tokenize(s), p);
}

pub(crate) proof fn lemma_chars_join(ws: Seq<Seq<char>>, p: spec_fn(char) -> bool)
    requires
        p(' '),
        forall|k: int| 0 <= k < ws.len() ==> all_chars(#[trigger] ws[k], p),
    ensures
        all_chars(join(ws, space()), p),
    decreases ws.len(),
{
    if ws.len() == 1 {
        assert(all_chars(ws[0], p));
    } else if ws.len() > 1 {
        let d = ws.drop_last();
        assert forall|k: int| 0 <= k < d.len() implies all_chars(#[trigger] d[k], p) by {
            assert(d[k] == ws[k]);
        }
        lemma_chars_join(d, p);
        assert(all_chars(ws[ws.len() - 1], p));
        lemma_chars_spaces(0, p);
        lemma_chars_concat(join(d, space()), space(), p);
        lemma_chars_concat(join(d, space()) + space(), ws.last(), p);
    }
}

pub(crate) proof fn lemma_chars_combine(
    lines: Seq<Seq<char>>,
    c: CommentSpec,
    j: int,
    combined: Seq<char>,
    p: spec_fn(char) -> bool,
)
    requires
        p(' '),
        0 <= j <= lines.len(),
        forall|k: int| 0 <= k < lines.len() ==> all_chars(#[trigger] lines[k], p),
        all_chars(combined, p),
    ensures
        all_chars(combine_from(lines, c, j, combined).1, p),
    decreases lines.len() - j,
{
    if 0 <= j < lines.len() {
        match parse_comment(lines[j]) {
            Some(next) => if combinable(with_text(c, combined), next) {
                lemma_chars_parse(lines[j], p);
                lemma_chars_trim_start(next.text, p);
                lemma_chars_spaces(0, p);
                lemma_chars_concat(combined, space(), p);
                lemma_chars_concat(combined + space(), trim_start(next.text), p);
                lemma_chars_combine(lines, c, j + 1, combined + space() + trim_start(next.text), p);
            },
            None => {},
        }
    }
}

pub(crate) proof fn lemma_chars_render(
    base: Seq<char>,
    c: CommentSpec,
    combined: Seq<char>,
    max_width: nat,
    p: spec_fn(char) -> bool,
)
    requires
        p(' '),
        base == c.indent + c.marker,
        all_chars(c.indent, p),
        all_chars(c.marker, p),
        all_chars(combined, p),
    ensures
        forall|k: int|
            0 <= k < render_group(c, combined, max_width).len() ==> all_chars(
                #[trigger] render_group(c, combined, max_width)[k],
                p,
            ),
{
    let prefix = base + space();
    let full = prefix + combined;
    let r = render_group(c, combined, max_width);
    lemma_chars_spaces(marker_width(combined), p);
    lemma_chars_concat(c.indent, c.marker, p);
    lemma_chars_concat(base, space(), p);
    lemma_chars_concat(prefix, combined, p);
    if combined.len() == 0 {
        lemma_chars_trim_end(base, p);
    } else if text_width(full) > max_width {
        let mw = marker_width(combined);
        let cont = if mw > 0 {
            prefix + spaces(mw)
        } else {
            prefix
        };
        lemma_chars_concat(prefix, spaces(mw), p);
        let words = tokenize(combined);
        assert(r == wrapped(combined, prefix, cont, max_width));
        if words.len() == 0 {
            lemma_chars_trim_end(prefix, p);
        } else {
            let g = wrap_groups(words, text_width(prefix), text_width(cont), max_width);
            crate::wrap::wrap_groups_laws(words, text_width(prefix), text_width(cont), max_width);
            lemma_chars_words(combined, p);
            assert forall|k: int| 0 <= k < r.len() implies all_chars(#[trigger] r[k], p) by {
                crate::wrap::lemma_group_range(g, words, k);
                let a = crate::wrap::words_before(g, k) as int;
                assert forall|q: int| 0 <= q < g[k].len() implies all_chars(#[trigger] g[k][q], p) by {
                    assert(g[k][q] == words[a + q]);
                }
                lemma_chars_join(g[k], p);
                let lp = crate::wrap::line_prefix(k, prefix, cont);
                lemma_chars_concat(lp, join(g[k], space()), p);
                assert(r[k] == crate::wrap::render_line(k, g[k], prefix, cont));
                lemma_chars_trim_end(lp + join(g[k], space()), p);
            }
        }
    } else {
        lemma_chars_trim_end(full, p);
    }
}

/// Output line `k` ends with no carriage return, unless it is the last output line and a copy of
/// the last input line.
pub open spec fn cr_end_ok(lines: Seq<Seq<char>>, out: Seq<Seq<char>>, k: int) -> bool {
    no_cr_end(out[k]) || (k == out.len() - 1 && out[k] == lines.last())
}

proof fn lemma_out_from(lines: Seq<Seq<char>>, max_width: nat, i: int, in_code: bool)
    requires
        0 <= i <= lines.len(),
        forall|k: int| 0 <= k < lines.len() ==> no_break(#[trigger] lines[k]),
        forall|k: int| 0 <= k < lines.len() - 1 ==> no_cr_end(#[trigger] lines[k]),
    ensures
        ({
            let out = process_from(lines, max_width, i, in_code).lines;
            &&& forall|k: int| 0 <= k < out.len() ==> no_break(#[trigger] out[k])
            &&& forall|k: int| 0 <= k < out.len() ==> #[trigger] cr_end_ok(lines, out, k)
            &&& i < lines.len() ==> out.len() > 0
            &&& i == lines.len() ==> out.len() == 0
            &&& i < lines.len() && lines.last().len() > 0 ==> out.last().len() > 0
        }),
    decreases lines.len() - i,
{
    let out = process_from(lines, max_width, i, in_code).lines;
    if i < lines.len() {
        let code = if is_fence_line(lines[i]) {
            !in_code
        } else {
            in_code
        };
        assert(no_break(lines[i]));
        if i < lines.len() - 1 {
            assert(no_cr_end(lines[i]));
        } else {
            assert(lines[i] == lines.last());
        }
        match parse_comment(lines[i]) {
            Some(c) => if code {
                lemma_out_from(lines, max_width, i + 1, code);
                let rest = process_from(lines, max_width, i + 1, code).lines;
                assert(out == seq![lines[i]] + rest);
                assert forall|k: int| 0 <= k < out.len() implies no_break(#[trigger] out[k])
                    && cr_end_ok(lines, out, k) by {
                    if k > 0 {
                        assert(out[k] == rest[k - 1]);
                        assert(cr_end_ok(lines, rest, k - 1));
                    }
                }
                if rest.len() > 0 {
                    assert(out.last() == rest.last());
                } else {
                    assert(i + 1 == lines.len());
                    assert(out.last() == lines[i]);
                }
            } else {
                let (j, combined) = combine_from(lines, c, i + 1, c.text);
                lemma_combine_bounds(lines, c, i + 1, c.text);
                lemma_chars_parse(lines[i], not_lf());
                lemma_chars_combine(lines, c, i + 1, c.text, not_lf());
                lemma_out_from(lines, max_width, j, code);
                let nl = render_group(c, combined, max_width);
                lemma_chars_render(c.indent + c.marker, c, combined, max_width, not_lf());
                crate::process::lemma_parsed_marker(lines[i]);
                crate::process::comment_rendering_laws(c, combined, max_width);
                assert(is_ws('\r'));
                let rest = process_from(lines, max_width, j, code).lines;
                assert(out == nl + rest);
                assert forall|k: int| 0 <= k < out.len() implies no_break(#[trigger] out[k])
                    && cr_end_ok(lines, out, k) by {
                    if k < nl.len() {
                        assert(out[k] == nl[k]);
                        assert(no_cr_end(nl[k]));
                    } else {
                        assert(out[k] == rest[k - nl.len()]);
                        assert(cr_end_ok(lines, rest, k - nl.len()));
                    }
                }
                if rest.len() > 0 {
                    assert(out.last() == rest.last());
                } else {
                    assert(out.last() == nl.last());
                    assert(nl.last() == nl[nl.len() - 1]);
                    assert(crate::text::starts_with(nl[nl.len() - 1], c.indent + c.marker));
                }
            },
            None => {
                lemma_out_from(lines, max_width, i + 1, code);
                let rest = process_from(lines, max_width, i + 1, code).lines;
                assert(out == seq![lines[i]] + rest);
                assert forall|k: int| 0 <= k < out.len() implies no_break(#[trigger] out[k])
                    && cr_end_ok(lines, out, k) by {
                    if k > 0 {
                        assert(out[k] == rest[k - 1]);
                        assert(cr_end_ok(lines, rest, k - 1));
                    }
                }
                if rest.len() > 0 {
                    assert(out.last() == rest.last());
                } else {
                    assert(i + 1 == lines.len());
                    assert(out.last() == lines[i]);
                }
            },
        }
    }
}

/// For a text holding no carriage return, carriage return, line feed sequence (the one way a line
/// could end with a carriage return that splitting would take for part of its line ending), the
/// lines of the reformatted text are exactly the processed lines: the input's lines with the old
/// lines of each reported change replaced by its new lines. So the lines that are not comments
/// come out verbatim and in order, none dropped or added, and the text ends with a line feed
/// exactly when the input did.
pub proof fn output_text_lines_are_processed_lines(content: Seq<char>, max_width: nat)
    requires
        no_cr_cr_lf(content),
    ensures
        lines_of(processed_text(content, max_width)) == process_lines(lines_of(content), max_width).lines,
        lines_of(processed_text(content, max_width)) == crate::process::spliced(
            lines_of(content),
            process_lines(lines_of(content), max_width).changes,
            0,
        ),
        lines_of(processed_text(content, max_width)).filter(code_lines()) == lines_of(content).filter(
            code_lines(),
        ),
        ends_with_newline(processed_text(content, max_width)) == ends_with_newline(content),
{
    let ls = lines_of(content);
    lines_have_no_breaks(content);
    lemma_out_from(ls, max_width, 0, false);
    let out = process_lines(ls, max_width).lines;
    if ls.len() > 0 {
        assert(ls.last() == ls[ls.len() - 1]);
    }
    if out.len() > 0 {
        assert(cr_end_ok(ls, out, out.len() - 1));
        assert(out.last() == out[out.len() - 1]);
    }
    assert forall|k: int| 0 <= k < out.len() - 1 implies no_cr_end(#[trigger] out[k]) by {
        assert(cr_end_ok(ls, out, k));
    }
    assembled_lines_split_back(out, ends_with_newline(content));
    code_lines_are_preserved(ls, max_width);
    crate::process::output_is_input_with_changes_applied(ls, max_width);
}

/// Every line of the reformatted text (for an input holding no carriage return, carriage return,
/// line feed sequence) fits, according to where it comes from: a line written for a comment group
/// is within `max_width`, or its comment text is a single word (or none) that no wrapping could
/// shorten; every other line is the input line it comes from, code or a comment inside a code
/// block, passed through unchanged.
pub proof fn output_text_lines_fit_width(content: Seq<char>, max_width: nat)
    requires
        no_cr_cr_lf(content),
    ensures
        ({
            let r = process_lines(lines_of(content), max_width);
            let out = lines_of(processed_text(content, max_width));
            &&& r.origins.len() == out.len()
            &&& forall|k: int|
                0 <= k < out.len() ==> #[trigger] crate::process::origin_ok(
                    lines_of(content),
                    out,
                    r.origins,
                    k,
                    max_width,
                )
        }),
{
    output_text_lines_are_processed_lines(content, max_width);
    crate::process::output_lines_fit_width(lines_of(content), max_width);
}

} // verus!
