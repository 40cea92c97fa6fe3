//! What rewrapping keeps: a change rewrites how comment text is laid out over lines, never the
//! text itself. Every character that is not whitespace comes out once, in the same order, and
//! for plain text (no backticks, only ASCII whitespace) so does every word.
use vstd::prelude::*;
use crate::comment::{parse_comment, strip_one_space};
use crate::text::{
    all_chars, is_ascii_ws, is_ws, join, leading_ws, lemma_leading_ws_bound, lemma_trim_end_prefix,
    spaces, trim_end, trim_start,
};
use crate::wrap::{space, wrap_groups, wrapped};
use crate::process::{
    combine_from, comment_base, lemma_base_line_parses, lemma_combine_bounds, lemma_parsed_marker,
    lemma_trim_end_after, process_from, process_lines, render_group, ChangeSpec,
};
use crate::comment::{combinable, marker_width};
use crate::tokenize::{plain, tokenize};
use crate::roundtrip::{
    lemma_chars_combine, lemma_chars_concat, lemma_chars_join, lemma_chars_parse,
    lemma_chars_spaces, lemma_chars_trim_start, lemma_chars_words,
};
use crate::lines::lines_of;
use crate::text::{lemma_trim_end_noop, text_width};

verus! {

/// The characters of `s` that are not whitespace, in order.
pub open spec fn visible_chars(s: Seq<char>) -> Seq<char>
    decreases s.len(),
{
    if s.len() == 0 {
        Seq::empty()
    } else if is_ws(s.last()) {
        visible_chars(s.drop_last())
    } else {
        visible_chars(s.drop_last()).push(s.last())
    }
}

/// The comment text of a line (empty for a line that is not a comment).
pub open spec fn text_of(l: Seq<char>) -> Seq<char> {
    match parse_comment(l) {
        Some(c) => c.text,
        None => Seq::empty(),
    }
}

/// The comment texts of `ls`, one after the other.
pub open spec fn comment_texts(ls: Seq<Seq<char>>) -> Seq<char>
    decreases ls.len(),
{
    if ls.len() == 0 {
        Seq::empty()
    } else {
        comment_texts(ls.drop_last()) + text_of(ls.last())
    }
}

proof fn lemma_visible_concat(a: Seq<char>, b: Seq<char>)
    ensures
        visible_chars(a + b) == visible_chars(a) + visible_chars(b),
    decreases b.len(),
{
    if b.len() == 0 {
        assert(a + b =~= a);
        assert(visible_chars(a) + visible_chars(b) =~= visible_chars(a));
    } else {
        assert((a + b).drop_last() =~= a + b.drop_last());
        assert((a + b).last() == b.last());
        lemma_visible_concat(a, b.drop_last());
        if !is_ws(b.last()) {
            assert(visible_chars(a) + visible_chars(b.drop_last()).push(b.last()) =~= (
            visible_chars(a) + visible_chars(b.drop_last())).push(b.last()));
        }
    }
}

proof fn lemma_visible_all_ws(s: Seq<char>)
    requires
        forall|k: int| 0 <= k < s.len() ==> is_ws(#[trigger] s[k]),
    ensures
        visible_chars(s) == Seq::<char>::empty(),
    decreases s.len(),
{
    if s.len() > 0 {
        assert(is_ws(s[s.len() - 1]));
        lemma_visible_all_ws(s.drop_last());
    }
}

proof fn lemma_visible_spaces(n: nat)
    ensures
        visible_chars(spaces(n)) == Seq::<char>::empty(),
        visible_chars(space()) == Seq::<char>::empty(),
{
    assert(is_ws(' '));
    lemma_visible_all_ws(spaces(n));
    lemma_visible_all_ws(space());
}

proof fn lemma_visible_trim_end(s: Seq<char>)
    ensures
        visible_chars(trim_end(s)) == visible_chars(s),
{
    lemma_trim_end_prefix(s);
    let t = trim_end(s);
    let rest = s.skip(t.len() as int);
    assert(s =~= t + rest);
    assert forall|k: int| 0 <= k < rest.len() implies is_ws(#[trigger] rest[k]) by {
        assert(rest[k] == s[t.len() + k]);
    }
    lemma_visible_all_ws(rest);
    lemma_visible_concat(t, rest);
    assert(visible_chars(t) + Seq::<char>::empty() =~= visible_chars(t));
}

proof fn lemma_visible_trim_start(s: Seq<char>)
    ensures
        visible_chars(trim_start(s)) == visible_chars(s),
{
    lemma_leading_ws_bound(s);
    let k = leading_ws(s) as int;
    let head = s.take(k);
    assert(s =~= head + trim_start(s));
    assert forall|q: int| 0 <= q < head.len() implies is_ws(#[trigger] head[q]) by {
        assert(head[q] == s[q]);
    }
    lemma_visible_all_ws(head);
    lemma_visible_concat(head, trim_start(s));
    assert(Seq::<char>::empty() + visible_chars(trim_start(s)) =~= visible_chars(trim_start(s)));
}

proof fn lemma_visible_strip(s: Seq<char>)
    ensures
        visible_chars(strip_one_space(s)) == visible_chars(s),
{
    if s.len() > 0 && s[0] == ' ' {
        assert(s =~= seq![' '] + s.drop_first());
        lemma_visible_spaces(0);
        assert(space() == seq![' ']);
        lemma_visible_concat(seq![' '], s.drop_first());
        assert(Seq::<char>::empty() + visible_chars(s.drop_first()) =~= visible_chars(
            s.drop_first(),
        ));
    }
}

/// Joining words with spaces adds no visible character.
proof fn lemma_visible_join(ws: Seq<Seq<char>>)
    ensures
        visible_chars(join(ws, space())) == visible_chars(ws.flatten()),
    decreases ws.len(),
{
    if ws.len() == 0 {
        assert(ws.flatten() =~= Seq::<char>::empty());
    } else if ws.len() == 1 {
        ws.lemma_flatten_singleton();
    } else {
        lemma_visible_join(ws.drop_last());
        assert(ws.drop_last().push(ws.last()) =~= ws);
        ws.drop_last().lemma_flatten_push(ws.last());
        lemma_visible_concat(join(ws.drop_last(), space()) + space(), ws.last());
        lemma_visible_concat(join(ws.drop_last(), space()), space());
        lemma_visible_concat(ws.drop_last().flatten(), ws.last());
        lemma_visible_spaces(0);
        assert(visible_chars(join(ws.drop_last(), space())) + Seq::<char>::empty()
            =~= visible_chars(join(ws.drop_last(), space())));
    }
}

/// Dropping ASCII whitespace first changes nothing that is visible.
proof fn lemma_visible_after_filter(s: Seq<char>)
    ensures
        visible_chars(s.filter(crate::tokenize::visible())) == visible_chars(s),
    decreases s.len(),
{
    let p = crate::tokenize::visible();
    if s.len() == 0 {
        reveal(Seq::filter);
        assert(s.filter(p) =~= Seq::<char>::empty());
    } else {
        let c = s.last();
        assert(s.drop_last().push(c) =~= s);
        s.drop_last().lemma_filter_push(c, p);
        lemma_visible_after_filter(s.drop_last());
        if is_ascii_ws(c) {
            assert(is_ws(c));
        } else {
            assert(s.filter(p) == s.drop_last().filter(p).push(c));
            assert(s.filter(p).drop_last() =~= s.drop_last().filter(p));
        }
    }
}

proof fn lemma_texts_concat(a: Seq<Seq<char>>, b: Seq<Seq<char>>)
    ensures
        comment_texts(a + b) == comment_texts(a) + comment_texts(b),
    decreases b.len(),
{
    if b.len() == 0 {
        assert(a + b =~= a);
        assert(comment_texts(a) + comment_texts(b) =~= comment_texts(a));
    } else {
        assert((a + b).drop_last() =~= a + b.drop_last());
        assert((a + b).last() == b.last());
        lemma_texts_concat(a, b.drop_last());
        assert(comment_texts(a) + comment_texts(b.drop_last()) + text_of(b.last()) =~= comment_texts(
            a,
        ) + (comment_texts(b.drop_last()) + text_of(b.last())));
    }
}

proof fn lemma_texts_single(x: Seq<char>)
    ensures
        comment_texts(seq![x]) == text_of(x),
{
    assert(seq![x].drop_last() =~= Seq::<Seq<char>>::empty());
    assert(seq![x].last() == x);
    assert(comment_texts(Seq::<Seq<char>>::empty()) == Seq::<char>::empty());
    assert(Seq::<char>::empty() + text_of(x) =~= text_of(x));
}

/// Gathering lines into a comment keeps the visible characters of their texts, in order.
proof fn lemma_combine_visible(
    lines: Seq<Seq<char>>,
    c: crate::comment::CommentSpec,
    j: int,
    combined: Seq<char>,
)
    requires
        0 <= j <= lines.len(),
    ensures
        visible_chars(combine_from(lines, c, j, combined).1) == visible_chars(combined)
            + visible_chars(comment_texts(lines.subrange(j, combine_from(lines, c, j, combined).0))),
    decreases lines.len() - j,
{
    let (j2, comb) = combine_from(lines, c, j, combined);
    lemma_combine_bounds(lines, c, j, combined);
    let mut taken = false;
    if 0 <= j < lines.len() {
        match parse_comment(lines[j]) {
            Some(next) => if combinable(crate::process::with_text(c, combined), next) {
                taken = true;
                let c2 = combined + space() + trim_start(next.text);
                lemma_combine_visible(lines, c, j + 1, c2);
                lemma_combine_bounds(lines, c, j + 1, c2);
                assert(lines.subrange(j, j2) =~= seq![lines[j]] + lines.subrange(j + 1, j2));
                lemma_texts_concat(seq![lines[j]], lines.subrange(j + 1, j2));
                lemma_texts_single(lines[j]);
                let rest = comment_texts(lines.subrange(j + 1, j2));
                lemma_visible_concat(next.text, rest);
                lemma_visible_concat(combined + space(), trim_start(next.text));
                lemma_visible_concat(combined, space());
                lemma_visible_spaces(0);
                lemma_visible_trim_start(next.text);
                assert(visible_chars(combined) + Seq::<char>::empty() =~= visible_chars(combined));
                assert(visible_chars(combined) + visible_chars(next.text) + visible_chars(rest)
                    =~= visible_chars(combined) + (visible_chars(next.text) + visible_chars(rest)));
            },
            None => {},
        }
    }
    if !taken {
        assert(j2 == j);
        assert(lines.subrange(j, j2) =~= Seq::<Seq<char>>::empty());
        assert(visible_chars(Seq::<char>::empty()) == Seq::<char>::empty());
        assert(visible_chars(combined) + Seq::<char>::empty() =~= visible_chars(combined));
    }
}

/// A line written for the comment on `line`, holding `body` after a space and `m` more spaces,
/// carries as comment text exactly the visible characters of `body`.
proof fn lemma_rendered_line_visible(line: Seq<char>, m: nat, body: Seq<char>)
    requires
        parse_comment(line) is Some,
    ensures
        visible_chars(
            text_of(trim_end(comment_base(line) + (space() + spaces(m) + body))),
        ) == visible_chars(body),
{
    let c = parse_comment(line)->0;
    let base = comment_base(line);
    lemma_parsed_marker(line);
    assert(base == c.indent + c.marker);
    assert(base.last() == c.marker.last());
    let y = space() + spaces(m) + body;
    let l = trim_end(base + y);
    lemma_trim_end_after(base, y);
    lemma_trim_end_prefix(y);
    let z = trim_end(y);
    assert(l.take(base.len() as int) =~= base);
    if z.len() > 0 {
        assert(z[0] == y[0]);
        assert(l[base.len() as int] == z[0]);
    }
    lemma_base_line_parses(line, l);
    assert(l.skip(base.len() as int) =~= z);
    lemma_visible_strip(z);
    lemma_visible_trim_end(y);
    lemma_visible_concat(space() + spaces(m), body);
    lemma_visible_concat(space(), spaces(m));
    lemma_visible_spaces(m);
    assert(Seq::<char>::empty() + Seq::<char>::empty() =~= Seq::<char>::empty());
    assert(Seq::<char>::empty() + visible_chars(body) =~= visible_chars(body));
}

proof fn lemma_visible_groups(r: Seq<Seq<char>>, g: Seq<Seq<Seq<char>>>)
    requires
        r.len() == g.len(),
        forall|k: int|
            0 <= k < r.len() ==> visible_chars(text_of(#[trigger] r[k])) == visible_chars(
                g[k].flatten(),
            ),
    ensures
        visible_chars(comment_texts(r)) == visible_chars(g.flatten().flatten()),
    decreases r.len(),
{
    if r.len() == 0 {
        assert(g.flatten() =~= Seq::<Seq<char>>::empty());
        assert(g.flatten().flatten() =~= Seq::<char>::empty());
    } else {
        let r0 = r.drop_last();
        let g0 = g.drop_last();
        assert forall|k: int| 0 <= k < r0.len() implies visible_chars(text_of(#[trigger] r0[k]))
            == visible_chars(g0[k].flatten()) by {
            assert(r0[k] == r[k]);
            assert(g0[k] == g[k]);
        }
        lemma_visible_groups(r0, g0);
        assert(g0.push(g.last()) =~= g);
        g0.lemma_flatten_push(g.last());
        vstd::seq_lib::lemma_flatten_concat(g0.flatten(), g.last());
        lemma_visible_concat(comment_texts(r0), text_of(r.last()));
        lemma_visible_concat(g0.flatten().flatten(), g.last().flatten());
        assert(r.last() == r[r.len() - 1]);
    }
}

proof fn lemma_wrapped_visible(
    line: Seq<char>,
    prefix: Seq<char>,
    cont: Seq<char>,
    mw: nat,
    combined: Seq<char>,
    max_width: nat,
)
    requires
        parse_comment(line) is Some,
        prefix == comment_base(line) + space(),
        mw == 0 ==> cont == prefix,
        mw > 0 ==> cont == prefix + spaces(mw),
    ensures
        visible_chars(comment_texts(wrapped(combined, prefix, cont, max_width))) == visible_chars(
            combined,
        ),
{
    let base = comment_base(line);
    let r = wrapped(combined, prefix, cont, max_width);
    let words = tokenize(combined);
    let p = crate::tokenize::visible();
    assert(visible_chars(words.flatten()) == visible_chars(combined)) by {
        crate::tokenize::tokens_keep_visible_text(combined);
        lemma_visible_after_filter(combined);
        lemma_visible_after_filter(words.flatten());
    }
    if words.len() == 0 {
        assert(r == seq![trim_end(prefix)]);
        assert(prefix =~= base + (space() + spaces(0) + Seq::<char>::empty()));
        lemma_rendered_line_visible(line, 0, Seq::<char>::empty());
        lemma_texts_single(trim_end(prefix));
        assert(words.flatten() =~= Seq::<char>::empty());
        assert(visible_chars(Seq::<char>::empty()) == Seq::<char>::empty());
    } else {
        let g = wrap_groups(words, text_width(prefix), text_width(cont), max_width);
        assert(g.flatten() == words) by {
            crate::wrap::wrap_groups_laws(words, text_width(prefix), text_width(cont), max_width);
        }
        assert(r.len() == g.len());
        assert forall|k: int| 0 <= k < r.len() implies visible_chars(text_of(#[trigger] r[k]))
            == visible_chars(g[k].flatten()) by {
            let m: nat = if k == 0 || mw == 0 {
                0
            } else {
                mw
            };
            let lp = crate::wrap::line_prefix(k, prefix, cont);
            let body = join(g[k], space());
            assert(r[k] == crate::wrap::render_line(k, g[k], prefix, cont));
            assert(lp + body =~= base + (space() + spaces(m) + body));
            lemma_rendered_line_visible(line, m, body);
            lemma_visible_join(g[k]);
        }
        lemma_visible_groups(r, g);
    }
}

/// The lines written for a comment carry exactly the visible characters of its gathered text.
proof fn lemma_render_visible(line: Seq<char>, combined: Seq<char>, max_width: nat)
    requires
        parse_comment(line) is Some,
    ensures
        visible_chars(comment_texts(render_group(parse_comment(line)->0, combined, max_width)))
            == visible_chars(combined),
{
    let c = parse_comment(line)->0;
    let base = c.indent + c.marker;
    assert(comment_base(line) == base);
    let prefix = base + space();
    let full = prefix + combined;
    let r = render_group(c, combined, max_width);
    lemma_parsed_marker(line);
    assert(base.last() == c.marker.last());
    if combined.len() == 0 {
        lemma_trim_end_noop(base);
        assert(r == seq![base]);
        lemma_trim_end_after(base, space());
        crate::process::lemma_trim_space();
        assert(base + (space() + spaces(0) + combined) =~= base + space());
        assert(trim_end(base + space()) =~= base);
        lemma_rendered_line_visible(line, 0, combined);
        lemma_texts_single(base);
    } else if text_width(full) > max_width {
        let mw = marker_width(combined);
        let cont = if mw > 0 {
            prefix + spaces(mw)
        } else {
            prefix
        };
        assert(r == wrapped(combined, prefix, cont, max_width));
        lemma_wrapped_visible(line, prefix, cont, mw, combined, max_width);
    } else {
        assert(r == seq![trim_end(full)]);
        assert(full =~= base + (space() + spaces(0) + combined));
        lemma_rendered_line_visible(line, 0, combined);
        lemma_texts_single(trim_end(full));
    }
}

/// A change keeps the visible characters of the comment text it rewrites.
pub open spec fn keeps_visible_text(ch: ChangeSpec) -> bool {
    visible_chars(comment_texts(ch.1)) == visible_chars(comment_texts(ch.2))
}

proof fn lemma_reflow_from(lines: Seq<Seq<char>>, max_width: nat, i: int, in_code: bool)
    requires
        0 <= i <= lines.len(),
    ensures
        forall|k: int|
            0 <= k < process_from(lines, max_width, i, in_code).changes.len() ==> keeps_visible_text(
                #[trigger] process_from(lines, max_width, i, in_code).changes[k],
            ),
    decreases lines.len() - i,
{
    if i < lines.len() {
        let code = if crate::process::is_fence_line(lines[i]) {
            !in_code
        } else {
            in_code
        };
        let all = process_from(lines, max_width, i, in_code).changes;
        match parse_comment(lines[i]) {
            Some(c) => if code {
                lemma_reflow_from(lines, max_width, i + 1, code);
                assert(all == process_from(lines, max_width, i + 1, code).changes);
            } else {
                let (j, combined) = combine_from(lines, c, i + 1, c.text);
                lemma_combine_bounds(lines, c, i + 1, c.text);
                lemma_reflow_from(lines, max_width, j, code);
                let new_lines = render_group(c, combined, max_width);
                let orig = lines.subrange(i, j);
                let rest = process_from(lines, max_width, j, code).changes;
                if new_lines != orig {
                    lemma_combine_visible(lines, c, i + 1, c.text);
                    lemma_render_visible(lines[i], combined, max_width);
                    assert(orig =~= seq![lines[i]] + lines.subrange(i + 1, j));
                    lemma_texts_concat(seq![lines[i]], lines.subrange(i + 1, j));
                    lemma_texts_single(lines[i]);
                    lemma_visible_concat(c.text, comment_texts(lines.subrange(i + 1, j)));
                    assert(all == seq![(i + 1, orig, new_lines)] + rest);
                    assert forall|k: int| 0 <= k < all.len() implies keeps_visible_text(
                        #[trigger] all[k],
                    ) by {
                        if k > 0 {
                            assert(all[k] == rest[k - 1]);
                        }
                    }
                } else {
                    assert(all == rest);
                }
            },
            None => {
                lemma_reflow_from(lines, max_width, i + 1, code);
                assert(all == process_from(lines, max_width, i + 1, code).changes);
            },
        }
    }
}

/// Rewrapping only moves comment text between lines: in every change, the comment texts of the
/// new lines hold exactly the characters other than whitespace of the comment texts of the old
/// lines, none lost, added or reordered.
pub proof fn changes_keep_visible_text(lines: Seq<Seq<char>>, max_width: nat)
    ensures
        forall|k: int|
            0 <= k < process_lines(lines, max_width).changes.len() ==> keeps_visible_text(
                #[trigger] process_lines(lines, max_width).changes[k],
            ),
{
    lemma_reflow_from(lines, max_width, 0, false);
}

/// The words of the comment texts of `ls`, line after line.
pub open spec fn line_words(ls: Seq<Seq<char>>) -> Seq<Seq<char>>
    decreases ls.len(),
{
    if ls.len() == 0 {
        Seq::empty()
    } else {
        line_words(ls.drop_last()) + tokenize(text_of(ls.last()))
    }
}

/// A change keeps the words of the comment text it rewrites, in order.
pub open spec fn keeps_words(ch: ChangeSpec) -> bool {
    line_words(ch.1) == line_words(ch.2)
}

proof fn lemma_words_single(x: Seq<char>)
    ensures
        line_words(seq![x]) == tokenize(text_of(x)),
{
    assert(seq![x].drop_last() =~= Seq::<Seq<char>>::empty());
    assert(seq![x].last() == x);
    assert(line_words(Seq::<Seq<char>>::empty()) == Seq::<Seq<char>>::empty());
    assert(Seq::<Seq<char>>::empty() + tokenize(text_of(x)) =~= tokenize(text_of(x)));
}

proof fn lemma_no_ticks(s: Seq<char>)
    requires
        all_chars(s, plain()),
    ensures
        forall|k: int| 0 <= k < s.len() ==> #[trigger] s[k] != '`',
{
    assert forall|k: int| 0 <= k < s.len() implies #[trigger] s[k] != '`' by {
        assert(plain()(s[k]));
    }
}

/// Plain text keeps its words when its leading whitespace is dropped.
proof fn lemma_words_trim_start(t: Seq<char>)
    requires
        all_chars(t, plain()),
    ensures
        tokenize(trim_start(t)) == tokenize(t),
{
    lemma_leading_ws_bound(t);
    let k = leading_ws(t) as int;
    let w = t.take(k);
    assert(t =~= w + trim_start(t));
    assert forall|q: int| 0 <= q < w.len() implies is_ascii_ws(#[trigger] w[q]) by {
        assert(w[q] == t[q]);
        assert(plain()(t[q]));
    }
    crate::tokenize::lemma_tok_ws_prefix(w, trim_start(t));
}

proof fn lemma_combine_words(
    lines: Seq<Seq<char>>,
    c: crate::comment::CommentSpec,
    i: int,
    j: int,
    combined: Seq<char>,
)
    requires
        0 <= i < j <= lines.len(),
        forall|k: int| 0 <= k < lines.len() ==> all_chars(#[trigger] lines[k], plain()),
        all_chars(combined, plain()),
        tokenize(combined) == line_words(lines.subrange(i, j)),
    ensures
        tokenize(combine_from(lines, c, j, combined).1) == line_words(
            lines.subrange(i, combine_from(lines, c, j, combined).0),
        ),
    decreases lines.len() - j,
{
    if 0 <= j < lines.len() {
        match parse_comment(lines[j]) {
            Some(next) => if combinable(crate::process::with_text(c, combined), next) {
                let ts = trim_start(next.text);
                let c2 = combined + space() + ts;
                lemma_chars_parse(lines[j], plain());
                lemma_chars_trim_start(next.text, plain());
                lemma_chars_spaces(0, plain());
                lemma_chars_concat(combined, space(), plain());
                lemma_chars_concat(combined + space(), ts, plain());
                lemma_no_ticks(combined);
                assert(c2 =~= combined + (space() + ts));
                crate::tokenize::lemma_tok_split(combined, space() + ts);
                assert((space() + ts).skip(1) =~= ts);
                lemma_words_trim_start(next.text);
                let sub = lines.subrange(i, j + 1);
                assert(sub.drop_last() =~= lines.subrange(i, j));
                assert(sub.last() == lines[j]);
                lemma_combine_words(lines, c, i, j + 1, c2);
            },
            None => {},
        }
    }
}

/// A line written for the comment on `line`, holding plain `body` after a space and `m` more
/// spaces, carries as comment text exactly the words of `body`.
proof fn lemma_line_text_words(line: Seq<char>, m: nat, body: Seq<char>)
    requires
        parse_comment(line) is Some,
        all_chars(body, plain()),
    ensures
        tokenize(text_of(trim_end(comment_base(line) + (space() + spaces(m) + body)))) == tokenize(
            body,
        ),
{
    let c = parse_comment(line)->0;
    let base = comment_base(line);
    lemma_parsed_marker(line);
    assert(base == c.indent + c.marker);
    assert(base.last() == c.marker.last());
    let w = space() + spaces(m);
    let y = w + body;
    let l = trim_end(base + y);
    lemma_trim_end_after(base, y);
    lemma_trim_end_prefix(y);
    let z = trim_end(y);
    assert(l.take(base.len() as int) =~= base);
    if z.len() > 0 {
        assert(z[0] == y[0]);
        assert(l[base.len() as int] == z[0]);
    }
    lemma_base_line_parses(line, l);
    assert(l.skip(base.len() as int) =~= z);
    lemma_chars_spaces(m, plain());
    lemma_chars_concat(space(), spaces(m), plain());
    lemma_chars_concat(w, body, plain());
    crate::tokenize::lemma_tok_trim_end(y);
    assert forall|q: int| 0 <= q < w.len() implies is_ascii_ws(#[trigger] w[q]) by {
        if q == 0 {
            assert(w[q] == ' ');
        } else {
            assert(w[q] == spaces(m)[q - 1]);
        }
    }
    crate::tokenize::lemma_tok_ws_prefix(w, body);
    if z.len() > 0 {
        assert(z =~= seq![' '] + z.drop_first());
        crate::tokenize::lemma_tok_ws_prefix(seq![' '], z.drop_first());
    }
}

proof fn lemma_words_groups(r: Seq<Seq<char>>, g: Seq<Seq<Seq<char>>>)
    requires
        r.len() == g.len(),
        forall|k: int| 0 <= k < r.len() ==> tokenize(text_of(#[trigger] r[k])) == g[k],
    ensures
        line_words(r) == g.flatten(),
    decreases r.len(),
{
    if r.len() == 0 {
        assert(g.flatten() =~= Seq::<Seq<char>>::empty());
    } else {
        let r0 = r.drop_last();
        let g0 = g.drop_last();
        assert forall|k: int| 0 <= k < r0.len() implies tokenize(text_of(#[trigger] r0[k])) == g0[k] by {
            assert(r0[k] == r[k]);
            assert(g0[k] == g[k]);
        }
        lemma_words_groups(r0, g0);
        assert(g0.push(g.last()) =~= g);
        g0.lemma_flatten_push(g.last());
        assert(r.last() == r[r.len() - 1]);
        assert(g.last() == g[g.len() - 1]);
    }
}

proof fn lemma_wrapped_words(
    line: Seq<char>,
    prefix: Seq<char>,
    cont: Seq<char>,
    mw: nat,
    combined: Seq<char>,
    max_width: nat,
)
    requires
        parse_comment(line) is Some,
        all_chars(combined, plain()),
        prefix == comment_base(line) + space(),
        mw == 0 ==> cont == prefix,
        mw > 0 ==> cont == prefix + spaces(mw),
    ensures
        line_words(wrapped(combined, prefix, cont, max_width)) == tokenize(combined),
{
    let base = comment_base(line);
    let r = wrapped(combined, prefix, cont, max_width);
    let words = tokenize(combined);
    lemma_chars_spaces(0, plain());
    if words.len() == 0 {
        assert(r == seq![trim_end(prefix)]);
        assert(prefix =~= base + (space() + spaces(0) + Seq::<char>::empty()));
        lemma_line_text_words(line, 0, Seq::<char>::empty());
        lemma_words_single(trim_end(prefix));
        assert(all_chars(Seq::<char>::empty(), plain()));
        assert(tokenize(Seq::<char>::empty()) == Seq::<Seq<char>>::empty());
    } else {
        let g = wrap_groups(words, text_width(prefix), text_width(cont), max_width);
        assert(g.flatten() == words) by {
            crate::wrap::wrap_groups_laws(words, text_width(prefix), text_width(cont), max_width);
        }
        assert(r.len() == g.len());
        lemma_no_ticks(combined);
        crate::tokenize::plain_text_splits_at_whitespace(combined);
        lemma_chars_words(combined, plain());
        assert forall|k: int| 0 <= k < r.len() implies tokenize(text_of(#[trigger] r[k])) == g[k] by {
            crate::wrap::lemma_group_range(g, words, k);
            let a = crate::wrap::words_before(g, k) as int;
            assert forall|q: int| 0 <= q < g[k].len() implies all_chars(#[trigger] g[k][q], plain())
                && g[k][q].len() > 0 && crate::tokenize::no_ascii_ws(g[k][q]) by {
                assert(g[k][q] == words[a + q]);
            }
            assert forall|q: int, e: int|
                0 <= q < g[k].len() && 0 <= e < g[k][q].len() implies #[trigger] g[k][q][e] != '`'
                && !is_ascii_ws(g[k][q][e]) by {
                assert(all_chars(g[k][q], plain()));
                assert(plain()(g[k][q][e]));
                assert(crate::tokenize::no_ascii_ws(g[k][q]));
            }
            crate::tokenize::lemma_tok_join_plain(g[k]);
            lemma_chars_join(g[k], plain());
            let m: nat = if k == 0 || mw == 0 {
                0
            } else {
                mw
            };
            let lp = crate::wrap::line_prefix(k, prefix, cont);
            let body = join(g[k], space());
            assert(r[k] == crate::wrap::render_line(k, g[k], prefix, cont));
            assert(lp + body =~= base + (space() + spaces(m) + body));
            lemma_line_text_words(line, m, body);
        }
        lemma_words_groups(r, g);
    }
}

proof fn lemma_render_words(line: Seq<char>, combined: Seq<char>, max_width: nat)
    requires
        parse_comment(line) is Some,
        all_chars(combined, plain()),
    ensures
        line_words(render_group(parse_comment(line)->0, combined, max_width)) == tokenize(combined),
{
    let c = parse_comment(line)->0;
    let base = c.indent + c.marker;
    assert(comment_base(line) == base);
    let prefix = base + space();
    let full = prefix + combined;
    let r = render_group(c, combined, max_width);
    lemma_parsed_marker(line);
    assert(base.last() == c.marker.last());
    if combined.len() == 0 {
        lemma_trim_end_noop(base);
        assert(r == seq![base]);
        lemma_trim_end_after(base, space());
        crate::process::lemma_trim_space();
        assert(base + (space() + spaces(0) + combined) =~= base + space());
        assert(trim_end(base + space()) =~= base);
        lemma_line_text_words(line, 0, combined);
        lemma_words_single(base);
    } else if text_width(full) > max_width {
        let mw = marker_width(combined);
        let cont = if mw > 0 {
            prefix + spaces(mw)
        } else {
            prefix
        };
        assert(r == wrapped(combined, prefix, cont, max_width));
        lemma_wrapped_words(line, prefix, cont, mw, combined, max_width);
    } else {
        assert(r == seq![trim_end(full)]);
        assert(full =~= base + (space() + spaces(0) + combined));
        lemma_line_text_words(line, 0, combined);
        lemma_words_single(trim_end(full));
    }
}

proof fn lemma_words_from(lines: Seq<Seq<char>>, max_width: nat, i: int, in_code: bool)
    requires
        0 <= i <= lines.len(),
        forall|k: int| 0 <= k < lines.len() ==> all_chars(#[trigger] lines[k], plain()),
    ensures
        forall|k: int|
            0 <= k < process_from(lines, max_width, i, in_code).changes.len() ==> keeps_words(
                #[trigger] process_from(lines, max_width, i, in_code).changes[k],
            ),
    decreases lines.len() - i,
{
    if i < lines.len() {
        let code = if crate::process::is_fence_line(lines[i]) {
            !in_code
        } else {
            in_code
        };
        let all = process_from(lines, max_width, i, in_code).changes;
        match parse_comment(lines[i]) {
            Some(c) => if code {
                lemma_words_from(lines, max_width, i + 1, code);
                assert(all == process_from(lines, max_width, i + 1, code).changes);
            } else {
                let (j, combined) = combine_from(lines, c, i + 1, c.text);
                lemma_combine_bounds(lines, c, i + 1, c.text);
                lemma_words_from(lines, max_width, j, code);
                let new_lines = render_group(c, combined, max_width);
                let orig = lines.subrange(i, j);
                let rest = process_from(lines, max_width, j, code).changes;
                if new_lines != orig {
                    assert(all_chars(lines[i], plain()));
                    lemma_chars_parse(lines[i], plain());
                    lemma_chars_spaces(0, plain());
                    lemma_chars_combine(lines, c, i + 1, c.text, plain());
                    assert(lines.subrange(i, i + 1) =~= seq![lines[i]]);
                    lemma_words_single(lines[i]);
                    lemma_combine_words(lines, c, i, i + 1, c.text);
                    lemma_render_words(lines[i], combined, max_width);
                    assert(all == seq![(i + 1, orig, new_lines)] + rest);
                    assert forall|k: int| 0 <= k < all.len() implies keeps_words(#[trigger] all[k]) by {
                        if k > 0 {
                            assert(all[k] == rest[k - 1]);
                        }
                    }
                } else {
                    assert(all == rest);
                }
            },
            None => {
                lemma_words_from(lines, max_width, i + 1, code);
                assert(all == process_from(lines, max_width, i + 1, code).changes);
            },
        }
    }
}

/// For comment text without backticks whose only whitespace is ASCII whitespace, rewrapping only
/// re-flows words: in every change, the words of the new lines' comment texts are the words of
/// the old lines' comment texts, none lost, added, split, merged or reordered.
pub proof fn changes_keep_words(lines: Seq<Seq<char>>, max_width: nat)
    requires
        forall|k: int| 0 <= k < lines.len() ==> all_chars(#[trigger] lines[k], plain()),
    ensures
        forall|k: int|
            0 <= k < process_lines(lines, max_width).changes.len() ==> keeps_words(
                #[trigger] process_lines(lines, max_width).changes[k],
            ),
{
    lemma_words_from(lines, max_width, 0, false);
}

/// The same for a whole text without backticks whose only whitespace is ASCII whitespace: each
/// change reported for it keeps the words, in order.
pub proof fn changes_keep_words_of_text(content: Seq<char>, max_width: nat)
    requires
        all_chars(content, plain()),
    ensures
        forall|k: int|
            0 <= k < process_lines(lines_of(content), max_width).changes.len() ==> keeps_words(
                #[trigger] process_lines(lines_of(content), max_width).changes[k],
            ),
{
    crate::lines::lines_keep_chars(content, plain());
    changes_keep_words(lines_of(content), max_width);
}

} // verus!
