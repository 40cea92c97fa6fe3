//! Greedy word wrapping of comment text behind a first-line prefix and a continuation prefix.
use vstd::prelude::*;
use crate::text::{
    append_chars, chars_of, concat_chars, is_ws, join, lemma_trim_end_prefix, lemma_trim_end_width,
    lemma_width_concat, lemma_width_ge_len, seqs_of, strings_of, strings_view, text_width,
    trim_end, trim_end_vec, width_sat,
};
use crate::tokenize::{tokenize, tokenize_chars, tokens_are_nonempty};

verus! {

/// Lines finished so far, as groups of words, and the words of the line being filled.
pub struct WrapState {
    pub groups: Seq<Seq<Seq<char>>>,
    pub current: Seq<Seq<char>>,
}

pub open spec fn space() -> Seq<char> {
    seq![' ']
}

/// Room left for words on a line behind a prefix `pfx_width` bytes wide; at least one byte.
pub open spec fn available(max_width: nat, pfx_width: nat) -> nat {
    if max_width > pfx_width {
        (max_width - pfx_width) as nat
    } else {
        1
    }
}

/// Width of the prefix of line number `line` (the first line has its own prefix).
pub open spec fn prefix_width_of(line: nat, prefix_w: nat, cont_w: nat) -> nat {
    if line == 0 {
        prefix_w
    } else {
        cont_w
    }
}

/// One step of greedy filling: the word goes on the current line if it fits there (after one
/// space), and otherwise starts a new line.
pub open spec fn wrap_step(
    st: WrapState,
    word: Seq<char>,
    prefix_w: nat,
    cont_w: nat,
    max_width: nat,
) -> WrapState {
    let pw = prefix_width_of(st.groups.len(), prefix_w, cont_w);
    if st.current.len() == 0 {
        WrapState { groups: st.groups, current: seq![word] }
    } else if text_width(join(st.current, space())) + 1 + text_width(word) <= available(
        max_width,
        pw,
    ) {
        WrapState { groups: st.groups, current: st.current.push(word) }
    } else {
        WrapState { groups: st.groups.push(st.current), current: seq![word] }
    }
}

/// Greedy filling of all the words.
pub open spec fn wrap_fold(
    words: Seq<Seq<char>>,
    prefix_w: nat,
    cont_w: nat,
    max_width: nat,
) -> WrapState
    decreases words.len(),
{
    if words.len() == 0 {
        WrapState { groups: Seq::empty(), current: Seq::empty() }
    } else {
        wrap_step(
            wrap_fold(words.drop_last(), prefix_w, cont_w, max_width),
            words.last(),
            prefix_w,
            cont_w,
            max_width,
        )
    }
}

/// The words of each output line.
pub open spec fn wrap_groups(
    words: Seq<Seq<char>>,
    prefix_w: nat,
    cont_w: nat,
    max_width: nat,
) -> Seq<Seq<Seq<char>>> {
    let st = wrap_fold(words, prefix_w, cont_w, max_width);
    st.groups.push(st.current)
}

pub open spec fn line_prefix(i: int, prefix: Seq<char>, cont: Seq<char>) -> Seq<char> {
    if i == 0 {
        prefix
    } else {
        cont
    }
}

/// Output line `i`: its prefix and its words joined by single spaces, without trailing
/// whitespace.
pub open spec fn render_line(
    i: int,
    group: Seq<Seq<char>>,
    prefix: Seq<char>,
    cont: Seq<char>,
) -> Seq<char> {
    trim_end(line_prefix(i, prefix, cont) + join(group, space()))
}

/// The lines that wrapping `text` to `max_width` produces: the words of `text`, filled greedily
/// line by line; a text without words gives the bare prefix.
pub open spec fn wrapped(
    text: Seq<char>,
    prefix: Seq<char>,
    cont: Seq<char>,
    max_width: nat,
) -> Seq<Seq<char>> {
    let words = tokenize(text);
    if words.len() == 0 {
        seq![trim_end(prefix)]
    } else {
        let g = wrap_groups(words, text_width(prefix), text_width(cont), max_width);
        Seq::new(g.len(), |i: int| render_line(i, g[i], prefix, cont))
    }
}

pub proof fn lemma_join_push(g: Seq<Seq<char>>, w: Seq<char>, sep: Seq<char>)
    ensures
        g.len() > 0 ==> join(g.push(w), sep) == join(g, sep) + sep + w,
        g.len() == 0 ==> join(g.push(w), sep) == w,
{
    assert(g.push(w).drop_last() =~= g);
    assert(g.push(w).last() == w);
    if g.len() == 0 {
        assert(g.push(w)[0] == w);
    }
}

pub proof fn lemma_join_nonempty(g: Seq<Seq<char>>, sep: Seq<char>)
    requires
        g.len() > 0,
        forall|k: int| 0 <= k < g.len() ==> (#[trigger] g[k]).len() > 0,
    ensures
        join(g, sep).len() >= g.len() + (g.len() - 1) * sep.len(),
        join(g, sep).len() > 0,
    decreases g.len(),
{
    if g.len() > 1 {
        let d = g.drop_last();
        assert forall|k: int| 0 <= k < d.len() implies (#[trigger] d[k]).len() > 0 by {
            assert(d[k] == g[k]);
        }
        lemma_join_nonempty(d, sep);
        assert(g.last() == g[g.len() - 1]);
        assert((g.len() - 1) * sep.len() == (d.len() - 1) * sep.len() + sep.len()) by (nonlinear_arith)
            requires
                d.len() == g.len() - 1,
        ;
    }
}

pub proof fn lemma_flatten_push_any<A>(s: Seq<Seq<A>>, x: Seq<A>)
    ensures
        s.push(x).flatten() == s.flatten() + x,
{
    s.push(x).lemma_flatten_and_flatten_alt_are_equivalent();
    s.lemma_flatten_and_flatten_alt_are_equivalent();
    assert(s.push(x).drop_last() =~= s);
}

/// The first word of the line after line `i`.
pub open spec fn next_first(st: WrapState, i: int) -> Seq<char> {
    if i + 1 < st.groups.len() {
        st.groups[i + 1][0]
    } else {
        st.current[0]
    }
}

/// What greedy filling keeps true, step after step: no word is lost, split or reordered, no line
/// is empty, a line of several words fits the room its prefix leaves, and the first word of each
/// following line would not have fit on the line before it.
pub open spec fn fold_inv(
    st: WrapState,
    words: Seq<Seq<char>>,
    prefix_w: nat,
    cont_w: nat,
    max_width: nat,
) -> bool {
    &&& st.groups.flatten() + st.current == words
    &&& (words.len() > 0 <==> st.current.len() > 0)
    &&& forall|i: int| 0 <= i < st.groups.len() ==> (#[trigger] st.groups[i]).len() > 0
    &&& forall|i: int|
        0 <= i < st.groups.len() && (#[trigger] st.groups[i]).len() > 1 ==> text_width(
            join(st.groups[i], space()),
        ) <= available(max_width, prefix_width_of(i as nat, prefix_w, cont_w))
    &&& st.current.len() > 1 ==> text_width(join(st.current, space())) <= available(
        max_width,
        prefix_width_of(st.groups.len(), prefix_w, cont_w),
    )
    &&& forall|i: int|
        0 <= i < st.groups.len() ==> text_width(join(#[trigger] st.groups[i], space())) + 1
            + text_width(next_first(st, i)) > available(
            max_width,
            prefix_width_of(i as nat, prefix_w, cont_w),
        )
}

pub proof fn lemma_space_width()
    ensures
        text_width(space()) == 1,
{
    crate::text::lemma_char_width(' ');
}

proof fn lemma_fold_inv(words: Seq<Seq<char>>, prefix_w: nat, cont_w: nat, max_width: nat)
    ensures
        fold_inv(wrap_fold(words, prefix_w, cont_w, max_width), words, prefix_w, cont_w, max_width),
    decreases words.len(),
{
    let st = wrap_fold(words, prefix_w, cont_w, max_width);
    if words.len() == 0 {
        assert(st.groups.flatten() =~= Seq::<Seq<char>>::empty());
        assert(st.groups.flatten() + st.current =~= words);
    } else {
        let d = words.drop_last();
        let w = words.last();
        let prev = wrap_fold(d, prefix_w, cont_w, max_width);
        lemma_fold_inv(d, prefix_w, cont_w, max_width);
        assert(words =~= d.push(w));
        let pw = prefix_width_of(prev.groups.len(), prefix_w, cont_w);
        lemma_space_width();
        if prev.current.len() == 0 {
            assert(d.len() == 0);
            assert(prev.groups.flatten() + prev.current == d);
            assert(prev.groups.flatten().len() == 0);
            assert(st.groups.flatten() + st.current =~= words);
        } else if text_width(join(prev.current, space())) + 1 + text_width(w) <= available(
            max_width,
            pw,
        ) {
            assert(st.groups.flatten() + st.current =~= (prev.groups.flatten() + prev.current).push(
                w,
            ));
            lemma_join_push(prev.current, w, space());
            lemma_width_concat(join(prev.current, space()), space());
            lemma_width_concat(join(prev.current, space()) + space(), w);
            assert(st.current[0] == prev.current[0]);
            assert forall|i: int| 0 <= i < st.groups.len() implies next_first(st, i) == next_first(
                prev,
                i,
            ) by {}
        } else {
            lemma_flatten_push_any(prev.groups, prev.current);
            assert(st.groups.flatten() + st.current =~= prev.groups.flatten() + prev.current + seq![
                w,
            ]);
            assert(prev.groups.flatten() + prev.current + seq![w] =~= (prev.groups.flatten()
                + prev.current).push(w));
            assert forall|i: int| 0 <= i < st.groups.len() implies (#[trigger] st.groups[i]).len()
                > 0 by {
                if i < prev.groups.len() {
                    assert(st.groups[i] == prev.groups[i]);
                }
            }
            assert forall|i: int|
                0 <= i < st.groups.len() && (#[trigger] st.groups[i]).len() > 1 implies text_width(
                join(st.groups[i], space()),
            ) <= available(max_width, prefix_width_of(i as nat, prefix_w, cont_w)) by {
                if i < prev.groups.len() {
                    assert(st.groups[i] == prev.groups[i]);
                }
            }
            assert forall|i: int| 0 <= i < st.groups.len() implies text_width(
                join(#[trigger] st.groups[i], space()),
            ) + 1 + text_width(next_first(st, i)) > available(
                max_width,
                prefix_width_of(i as nat, prefix_w, cont_w),
            ) by {
                if i < prev.groups.len() {
                    assert(st.groups[i] == prev.groups[i]);
                    if i + 1 < prev.groups.len() {
                        assert(next_first(st, i) == next_first(prev, i));
                    } else {
                        assert(next_first(st, i) == prev.current[0]);
                    }
                } else {
                    assert(next_first(st, i) == w);
                }
            }
        }
    }
}

proof fn lemma_fold_words_nonempty(
    words: Seq<Seq<char>>,
    prefix_w: nat,
    cont_w: nat,
    max_width: nat,
)
    requires
        forall|k: int| 0 <= k < words.len() ==> (#[trigger] words[k]).len() > 0,
    ensures
        ({
            let st = wrap_fold(words, prefix_w, cont_w, max_width);
            &&& forall|i: int, j: int|
                0 <= i < st.groups.len() && 0 <= j < st.groups[i].len() ==> (
                #[trigger] st.groups[i][j]).len() > 0
            &&& forall|j: int| 0 <= j < st.current.len() ==> (#[trigger] st.current[j]).len() > 0
        }),
    decreases words.len(),
{
    if words.len() > 0 {
        let d = words.drop_last();
        assert forall|k: int| 0 <= k < d.len() implies (#[trigger] d[k]).len() > 0 by {
            assert(d[k] == words[k]);
        }
        lemma_fold_words_nonempty(d, prefix_w, cont_w, max_width);
        let prev = wrap_fold(d, prefix_w, cont_w, max_width);
        let st = wrap_fold(words, prefix_w, cont_w, max_width);
        assert(words.last() == words[words.len() - 1]);
        assert forall|i: int, j: int|
            0 <= i < st.groups.len() && 0 <= j < st.groups[i].len() implies (
            #[trigger] st.groups[i][j]).len() > 0 by {
            if i < prev.groups.len() {
                assert(st.groups[i] == prev.groups[i]);
            } else {
                assert(st.groups[i] == prev.current);
            }
        }
        let w = words.last();
        let pw = prefix_width_of(prev.groups.len(), prefix_w, cont_w);
        if prev.current.len() > 0 && text_width(join(prev.current, space())) + 1 + text_width(w)
            <= available(max_width, pw) {
            assert(st.current == prev.current.push(w));
            assert forall|j: int| 0 <= j < st.current.len() implies (
            #[trigger] st.current[j]).len() > 0 by {
                if j < prev.current.len() {
                    assert(st.current[j] == prev.current[j]);
                }
            }
        } else {
            assert(st.current == seq![w]);
        }
    }
}

/// Greedy wrapping loses, splits and reorders no word, leaves no line empty, puts a line of
/// several words within the room its prefix leaves, and starts a new line only when the next word
/// would not have fit on the current one.
pub proof fn wrap_groups_laws(words: Seq<Seq<char>>, prefix_w: nat, cont_w: nat, max_width: nat)
    requires
        words.len() > 0,
    ensures
        ({
            let g = wrap_groups(words, prefix_w, cont_w, max_width);
            &&& g.flatten() == words
            &&& forall|i: int| 0 <= i < g.len() ==> (#[trigger] g[i]).len() > 0
            &&& forall|i: int|
                0 <= i < g.len() && (#[trigger] g[i]).len() > 1 ==> text_width(join(g[i], space()))
                    <= available(max_width, prefix_width_of(i as nat, prefix_w, cont_w))
            &&& forall|i: int|
                0 <= i < g.len() - 1 ==> text_width(join(#[trigger] g[i], space())) + 1
                    + text_width(g[i + 1][0]) > available(
                    max_width,
                    prefix_width_of(i as nat, prefix_w, cont_w),
                )
        }),
{
    let st = wrap_fold(words, prefix_w, cont_w, max_width);
    let g = wrap_groups(words, prefix_w, cont_w, max_width);
    lemma_fold_inv(words, prefix_w, cont_w, max_width);
    lemma_flatten_push_any(st.groups, st.current);
    assert forall|i: int| 0 <= i < g.len() implies (#[trigger] g[i]).len() > 0 by {
        if i < st.groups.len() {
            assert(g[i] == st.groups[i]);
        }
    }
    assert forall|i: int|
        0 <= i < g.len() && (#[trigger] g[i]).len() > 1 implies text_width(join(g[i], space()))
        <= available(max_width, prefix_width_of(i as nat, prefix_w, cont_w)) by {
        if i < st.groups.len() {
            assert(g[i] == st.groups[i]);
        }
    }
    assert forall|i: int| 0 <= i < g.len() - 1 implies text_width(join(#[trigger] g[i], space()))
        + 1 + text_width(g[i + 1][0]) > available(
        max_width,
        prefix_width_of(i as nat, prefix_w, cont_w),
    ) by {
        assert(g[i] == st.groups[i]);
        assert(next_first(st, i) == g[i + 1][0]);
    }
}

/// Wraps text held as characters; see [`wrap_text`].
#[verifier::rlimit(50)]
pub fn wrap_text_chars(text: &[char], prefix: &[char], cont: &[char], max_width: usize) -> (r: Vec<
    Vec<char>,
>)
    ensures
        seqs_of(r@) == wrapped(text@, prefix@, cont@, max_width as nat),
{
    let words = tokenize_chars(text);
    proof {
        tokens_are_nonempty(text@);
    }
    if words.len() == 0 {
        let t = trim_end_vec(prefix);
        let ghost tv = t@;
        let v = vec![t];
        assert(seqs_of(v@) =~= seq![tv]);
        return v;
    }
    let ghost ws = seqs_of(words@);
    let ghost pws = text_width(prefix@);
    let ghost cws = text_width(cont@);
    let ghost mw = max_width as nat;
    let pw = width_sat(prefix);
    let cw = width_sat(cont);
    let mut lines: Vec<Vec<char>> = Vec::new();
    let mut current: Vec<char> = Vec::new();
    let mut k: usize = 0;
    proof {
        assert(ws.take(0) =~= Seq::<Seq<char>>::empty());
        assert(join(Seq::<Seq<char>>::empty(), space()) =~= Seq::<char>::empty());
        assert(seqs_of(lines@) =~= Seq::<Seq<char>>::empty());
        assert(current@ =~= Seq::<char>::empty());
    }
    while k < words.len()
        invariant
            k <= words.len(),
            ws == seqs_of(words@),
            ws == tokenize(text@),
            ws.len() > 0,
            forall|i: int| 0 <= i < ws.len() ==> (#[trigger] ws[i]).len() > 0,
            pws == text_width(prefix@),
            cws == text_width(cont@),
            mw == max_width as nat,
            pw == if pws <= u128::MAX { pws } else { u128::MAX as nat },
            cw == if cws <= u128::MAX { cws } else { u128::MAX as nat },
            ({
                let st = wrap_fold(ws.take(k as int), pws, cws, mw);
                &&& seqs_of(lines@) == Seq::new(
                    st.groups.len(),
                    |i: int| render_line(i, st.groups[i], prefix@, cont@),
                )
                &&& current@ == join(st.current, space())
            }),
        decreases words.len() - k,
    {
        let ghost st = wrap_fold(ws.take(k as int), pws, cws, mw);
        proof {
            lemma_fold_inv(ws.take(k as int), pws, cws, mw);
            assert(ws.take(k + 1).drop_last() =~= ws.take(k as int));
            assert(ws.take(k + 1).last() == ws[k as int]);
            assert forall|i: int| 0 <= i < st.current.len() implies (#[trigger] st.current[i]).len()
                > 0 by {
                assert(st.groups.flatten() + st.current == ws.take(k as int));
                assert((st.groups.flatten() + st.current)[st.groups.flatten().len() + i]
                    == st.current[i]);
            }
            if st.current.len() > 0 {
                lemma_join_nonempty(st.current, space());
            }
        }
        assert(seqs_of(lines@).len() == lines@.len());
        assert(lines.len() == st.groups.len());
        let pfx_w = if lines.len() == 0 {
            pw
        } else {
            cw
        };
        let mwu = max_width as u128;
        let avail: u128 = if mwu > pfx_w {
            mwu - pfx_w
        } else {
            1
        };
        assert(avail == available(mw, prefix_width_of(st.groups.len(), pws, cws)));
        let word = &words[k];
        assert(word@ == ws[k as int]);
        if current.len() == 0 {
            current = crate::text::copy_chars(word);
            proof {
                assert(st.current.len() == 0);
                lemma_join_push(st.current, word@, space());
            }
        } else {
            let cur_w = width_sat(&current);
            let w_w = width_sat(word);
            if w_w < avail && cur_w < avail - w_w {
                let ghost old_cur = current@;
                current.push(' ');
                append_chars(&mut current, word);
                proof {
                    lemma_join_push(st.current, word@, space());
                    assert(current@ =~= old_cur + space() + word@);
                }
            } else {
                let line = if lines.len() == 0 {
                    concat_chars(prefix, &current)
                } else {
                    concat_chars(cont, &current)
                };
                let t = trim_end_vec(&line);
                let ghost old_lines = seqs_of(lines@);
                lines.push(t);
                current = crate::text::copy_chars(word);
                proof {
                    let st2 = wrap_step(st, word@, pws, cws, mw);
                    lemma_join_push(Seq::<Seq<char>>::empty(), word@, space());
                    assert(seq![word@] =~= Seq::<Seq<char>>::empty().push(word@));
                    assert(seqs_of(lines@) =~= old_lines.push(t@));
                    assert(seqs_of(lines@) =~= Seq::new(
                        st2.groups.len(),
                        |i: int| render_line(i, st2.groups[i], prefix@, cont@),
                    ));
                }
            }
        }
        k = k + 1;
    }
    let ghost st = wrap_fold(ws.take(k as int), pws, cws, mw);
    assert(ws.take(k as int) =~= ws);
    let line = if lines.len() == 0 {
        concat_chars(prefix, &current)
    } else {
        concat_chars(cont, &current)
    };
    let t = trim_end_vec(&line);
    let ghost old_lines = seqs_of(lines@);
    lines.push(t);
    proof {
        let g = wrap_groups(ws, pws, cws, mw);
        assert(seqs_of(lines@) =~= old_lines.push(t@));
        assert(seqs_of(lines@) =~= Seq::new(
            g.len(),
            |i: int| render_line(i, g[i], prefix@, cont@),
        ));
    }
    lines
}

/// Wraps `text` at word boundaries so each output line fits within `max_width`.
///
/// The first output line is prefixed with `prefix` (typically indent + marker + space).
/// Continuation lines use `continuation_prefix`, which may include extra indentation to align with
/// text after a hierarchical marker. Words that exceed the available width are emitted on their own
/// line without truncation. Backtick-delimited spans are kept on the same line.
pub fn wrap_text(text: &str, prefix: &str, continuation_prefix: &str, max_width: usize) -> (r: Vec<
    String,
>)
    ensures
        strings_view(r@) == wrapped(text@, prefix@, continuation_prefix@, max_width as nat),
{
    let t = chars_of(text);
    let p = chars_of(prefix);
    let c = chars_of(continuation_prefix);
    let lines = wrap_text_chars(&t, &p, &c, max_width);
    strings_of(&lines)
}

/// Wrapped output: no line ends in whitespace, the words of the text reappear in order with none
/// lost or split (grouped line by line), and every line that holds more than one word fits within
/// `max_width`. Only a line holding a single word may run past the width.
pub proof fn wrapped_lines_laws(text: Seq<char>, prefix: Seq<char>, cont: Seq<char>, max_width: nat)
    ensures
        ({
            let out = wrapped(text, prefix, cont, max_width);
            let words = tokenize(text);
            let g = wrap_groups(words, text_width(prefix), text_width(cont), max_width);
            &&& out.len() > 0
            &&& forall|i: int|
                0 <= i < out.len() ==> (#[trigger] out[i]).len() == 0 || !is_ws(out[i].last())
            &&& words.len() > 0 ==> {
                &&& out.len() == g.len()
                &&& g.flatten() == words
                &&& forall|i: int| 0 <= i < g.len() ==> #[trigger] out[i] == render_line(
                    i,
                    g[i],
                    prefix,
                    cont,
                )
                &&& forall|i: int|
                    0 <= i < g.len() && (#[trigger] g[i]).len() > 1 ==> text_width(out[i])
                        <= max_width
            }
        }),
{
    let out = wrapped(text, prefix, cont, max_width);
    let words = tokenize(text);
    if words.len() == 0 {
        lemma_trim_end_prefix(prefix);
        assert forall|i: int| 0 <= i < out.len() implies (#[trigger] out[i]).len() == 0 || !is_ws(
            out[i].last(),
        ) by {
            assert(out[i] == trim_end(prefix));
        }
    } else {
        let pws = text_width(prefix);
        let cws = text_width(cont);
        let g = wrap_groups(words, pws, cws, max_width);
        let st = wrap_fold(words, pws, cws, max_width);
        wrap_groups_laws(words, pws, cws, max_width);
        crate::tokenize::tokens_are_nonempty(text);
        lemma_fold_words_nonempty(words, pws, cws, max_width);
        assert forall|i: int| 0 <= i < out.len() implies (#[trigger] out[i]).len() == 0 || !is_ws(
            out[i].last(),
        ) by {
            lemma_trim_end_prefix(line_prefix(i, prefix, cont) + join(g[i], space()));
        }
        assert forall|i: int| 0 <= i < g.len() && (#[trigger] g[i]).len() > 1 implies text_width(
            out[i],
        ) <= max_width by {
            let body = join(g[i], space());
            let lp = line_prefix(i, prefix, cont);
            assert forall|j: int| 0 <= j < g[i].len() implies (#[trigger] g[i][j]).len() > 0 by {
                if i < st.groups.len() {
                    assert(g[i] == st.groups[i]);
                } else {
                    assert(g[i] == st.current);
                }
            }
            lemma_join_nonempty(g[i], space());
            lemma_width_ge_len(body);
            lemma_width_concat(lp, body);
            lemma_trim_end_width(lp + body);
            assert(text_width(lp) == prefix_width_of(i as nat, pws, cws));
        }
    }
}

/// Width of words joined by single spaces.
pub open spec fn joined_width(ws: Seq<Seq<char>>) -> nat {
    text_width(join(ws, space()))
}

/// A way to break `words` into lines: consecutive non-empty groups, in order, each of them a
/// single word or fitting the room that its line's prefix leaves.
pub open spec fn valid_split(
    h: Seq<Seq<Seq<char>>>,
    words: Seq<Seq<char>>,
    prefix_w: nat,
    cont_w: nat,
    max_width: nat,
) -> bool {
    &&& h.flatten() == words
    &&& forall|k: int| 0 <= k < h.len() ==> (#[trigger] h[k]).len() > 0
    &&& forall|k: int|
        0 <= k < h.len() ==> (#[trigger] h[k]).len() == 1 || joined_width(h[k]) <= available(
            max_width,
            prefix_width_of(k as nat, prefix_w, cont_w),
        )
}

/// Sum of the widths of the words.
pub open spec fn sum_width(ws: Seq<Seq<char>>) -> nat
    decreases ws.len(),
{
    if ws.len() == 0 {
        0
    } else {
        sum_width(ws.drop_last()) + text_width(ws.last())
    }
}

proof fn lemma_sum_width_concat(x: Seq<Seq<char>>, y: Seq<Seq<char>>)
    ensures
        sum_width(x + y) == sum_width(x) + sum_width(y),
    decreases y.len(),
{
    if y.len() == 0 {
        assert(x + y =~= x);
    } else {
        assert((x + y).drop_last() =~= x + y.drop_last());
        assert((x + y).last() == y.last());
        lemma_sum_width_concat(x, y.drop_last());
    }
}

proof fn lemma_joined_width_sum(ws: Seq<Seq<char>>)
    requires
        ws.len() > 0,
    ensures
        joined_width(ws) == sum_width(ws) + ws.len() - 1,
    decreases ws.len(),
{
    lemma_space_width();
    if ws.len() == 1 {
        assert(ws.drop_last() =~= Seq::<Seq<char>>::empty());
        assert(sum_width(ws.drop_last()) == 0);
        assert(ws.last() == ws[0]);
    } else {
        let d = ws.drop_last();
        lemma_joined_width_sum(d);
        assert(join(ws, space()) == join(d, space()) + space() + ws.last());
        lemma_width_concat(join(d, space()), space());
        lemma_width_concat(join(d, space()) + space(), ws.last());
    }
}

proof fn lemma_joined_width_sub(words: Seq<Seq<char>>, a: int, b: int, a2: int, b2: int)
    requires
        0 <= a <= a2 < b2 <= b <= words.len(),
    ensures
        joined_width(words.subrange(a2, b2)) <= joined_width(words.subrange(a, b)),
{
    let x = words.subrange(a, a2);
    let y = words.subrange(a2, b2);
    let z = words.subrange(b2, b);
    assert(words.subrange(a, b) =~= x + y + z);
    lemma_sum_width_concat(x + y, z);
    lemma_sum_width_concat(x, y);
    lemma_joined_width_sum(y);
    lemma_joined_width_sum(words.subrange(a, b));
}

/// Number of words on the first `k` lines.
pub open spec fn words_before(h: Seq<Seq<Seq<char>>>, k: int) -> nat {
    h.take(k).flatten().len()
}

pub(crate) proof fn lemma_group_range(h: Seq<Seq<Seq<char>>>, words: Seq<Seq<char>>, k: int)
    requires
        h.flatten() == words,
        0 <= k < h.len(),
    ensures
        words_before(h, k + 1) == words_before(h, k) + h[k].len(),
        words_before(h, k + 1) <= words.len(),
        h[k] == words.subrange(words_before(h, k) as int, words_before(h, k + 1) as int),
{
    let a = h.take(k).flatten();
    assert(h.take(k + 1) =~= h.take(k).push(h[k]));
    lemma_flatten_push_any(h.take(k), h[k]);
    assert(h =~= h.take(k + 1) + h.skip(k + 1));
    vstd::seq_lib::lemma_flatten_concat(h.take(k + 1), h.skip(k + 1));
    assert(words == a + h[k] + h.skip(k + 1).flatten());
    assert(words.subrange(a.len() as int, (a.len() + h[k].len()) as int) =~= h[k]);
}

proof fn lemma_words_before_all(h: Seq<Seq<Seq<char>>>)
    ensures
        words_before(h, h.len() as int) == h.flatten().len(),
{
    assert(h.take(h.len() as int) =~= h);
}

proof fn lemma_greedy_ahead(
    words: Seq<Seq<char>>,
    prefix_w: nat,
    cont_w: nat,
    max_width: nat,
    h: Seq<Seq<Seq<char>>>,
    k: int,
)
    requires
        words.len() > 0,
        valid_split(h, words, prefix_w, cont_w, max_width),
        0 <= k <= h.len(),
        k <= wrap_groups(words, prefix_w, cont_w, max_width).len(),
    ensures
        words_before(wrap_groups(words, prefix_w, cont_w, max_width), k) >= words_before(h, k),
    decreases k,
{
    let g = wrap_groups(words, prefix_w, cont_w, max_width);
    if k == 0 {
        assert(h.take(0) =~= Seq::<Seq<Seq<char>>>::empty());
        assert(h.take(0).flatten() =~= Seq::<Seq<char>>::empty());
    } else {
        let m = k - 1;
        lemma_greedy_ahead(words, prefix_w, cont_w, max_width, h, m);
        wrap_groups_laws(words, prefix_w, cont_w, max_width);
        lemma_group_range(g, words, m);
        lemma_group_range(h, words, m);
        let a = words_before(g, m) as int;
        let a1 = words_before(g, k) as int;
        let b = words_before(h, m) as int;
        let b1 = words_before(h, k) as int;
        if a1 < b1 {
            let avail = available(max_width, prefix_width_of(m as nat, prefix_w, cont_w));
            assert(h[m].len() > 0);
            assert(g[m].len() > 0);
            if k < g.len() {
                lemma_group_range(g, words, k);
                assert(g[k].len() > 0);
                assert(g[k][0] == words[a1]);
                assert(joined_width(g[m]) + 1 + text_width(g[k][0]) > avail);
                assert(h[m].len() != 1);
                assert(joined_width(h[m]) <= avail);
                assert(words.subrange(a, a1 + 1) =~= g[m].push(words[a1]));
                lemma_joined_width_sum(g[m]);
                lemma_joined_width_sum(g[m].push(words[a1]));
                assert(g[m].push(words[a1]).drop_last() =~= g[m]);
                lemma_joined_width_sub(words, b, b1, a, a1 + 1);
                assert(false);
            } else {
                lemma_words_before_all(g);
                assert(false);
            }
        }
    }
}

proof fn lemma_greedy_valid(words: Seq<Seq<char>>, prefix_w: nat, cont_w: nat, max_width: nat)
    requires
        words.len() > 0,
    ensures
        valid_split(
            wrap_groups(words, prefix_w, cont_w, max_width),
            words,
            prefix_w,
            cont_w,
            max_width,
        ),
{
    wrap_groups_laws(words, prefix_w, cont_w, max_width);
}

/// Greedy wrapping uses the fewest lines: no valid way of breaking the same words into lines, a
/// single word or a fitting run of words per line, uses fewer lines; and the greedy lines are
/// themselves such a way.
pub proof fn greedy_uses_fewest_lines(
    words: Seq<Seq<char>>,
    prefix_w: nat,
    cont_w: nat,
    max_width: nat,
    h: Seq<Seq<Seq<char>>>,
)
    requires
        words.len() > 0,
        valid_split(h, words, prefix_w, cont_w, max_width),
    ensures
        valid_split(
            wrap_groups(words, prefix_w, cont_w, max_width),
            words,
            prefix_w,
            cont_w,
            max_width,
        ),
        wrap_groups(words, prefix_w, cont_w, max_width).len() <= h.len(),
{
    let g = wrap_groups(words, prefix_w, cont_w, max_width);
    wrap_groups_laws(words, prefix_w, cont_w, max_width);
    lemma_greedy_valid(words, prefix_w, cont_w, max_width);
    if g.len() > h.len() {
        lemma_greedy_ahead(words, prefix_w, cont_w, max_width, h, h.len() as int);
        lemma_words_before_all(h);
        lemma_group_range(g, words, h.len() as int);
        assert(g[h.len() as int].len() > 0);
        assert(false);
    }
}

proof fn lemma_split_wider(
    h: Seq<Seq<Seq<char>>>,
    words: Seq<Seq<char>>,
    prefix_w: nat,
    cont_w: nat,
    w1: nat,
    w2: nat,
)
    requires
        w1 <= w2,
        valid_split(h, words, prefix_w, cont_w, w1),
    ensures
        valid_split(h, words, prefix_w, cont_w, w2),
{
    assert forall|k: int| 0 <= k < h.len() implies (#[trigger] h[k]).len() == 1 || joined_width(
        h[k],
    ) <= available(w2, prefix_width_of(k as nat, prefix_w, cont_w)) by {
        let pw = prefix_width_of(k as nat, prefix_w, cont_w);
        assert(available(w1, pw) <= available(w2, pw));
    }
}

/// Wrapping to a wider width never produces more lines.
pub proof fn wider_width_never_adds_lines(
    text: Seq<char>,
    prefix: Seq<char>,
    cont: Seq<char>,
    w1: nat,
    w2: nat,
)
    requires
        w1 <= w2,
    ensures
        wrapped(text, prefix, cont, w2).len() <= wrapped(text, prefix, cont, w1).len(),
{
    let words = tokenize(text);
    if words.len() > 0 {
        let pw = text_width(prefix);
        let cw = text_width(cont);
        let g1 = wrap_groups(words, pw, cw, w1);
        lemma_greedy_valid(words, pw, cw, w1);
        lemma_split_wider(g1, words, pw, cw, w1, w2);
        greedy_uses_fewest_lines(words, pw, cw, w2, g1);
    }
}

/// Wrapping a text uses the fewest lines that any valid breaking of its words into lines uses.
pub proof fn wrapping_uses_fewest_lines(
    text: Seq<char>,
    prefix: Seq<char>,
    cont: Seq<char>,
    max_width: nat,
    h: Seq<Seq<Seq<char>>>,
)
    requires
        tokenize(text).len() > 0,
        valid_split(h, tokenize(text), text_width(prefix), text_width(cont), max_width),
    ensures
        wrapped(text, prefix, cont, max_width).len() <= h.len(),
{
    greedy_uses_fewest_lines(tokenize(text), text_width(prefix), text_width(cont), max_width, h);
}

} // verus!
